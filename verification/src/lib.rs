//! A small library behind a command-line tool that reads rows from a
//! semicolon-delimited tabular file, sends each row's text to a local
//! translation endpoint, and merges the results back by position.
//!
//! Everything that decides or computes lives here, verified: the row-format
//! parser, the dispatcher's request construction and order-preserving merge,
//! and the interactive loop's command interpretation. The surrounding binary
//! does the file reads, the network calls and the prompt loop, handing this
//! library plain values.

pub mod command;
pub mod dispatch;
pub mod parser;
pub mod record;
pub mod text;
