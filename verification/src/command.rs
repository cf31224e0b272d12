//! Interpretation of one line read at the interactive prompt: either the
//! sentinel that quits the loop, or a file path to process.

use vstd::prelude::*;

use crate::text::trim;
use crate::text::trimmed;

verus! {

/// What one line of input asks the loop to do.
#[derive(Debug)]
pub enum Command {
    /// The sentinel was entered: print the countdown and leave the process.
    Quit,
    /// Anything else: treat the trimmed line as the path of a file of rows.
    Translate(String),
}

/// The sentinel, compared without regard to ASCII case: exactly `q` or `Q`
/// once the line is trimmed.
pub open spec fn is_quit(s: Seq<char>) -> bool {
    s.len() == 1 && (s[0] == 'q' || s[0] == 'Q')
}

/// Decide what one prompt line means. The line is trimmed of blanks; the
/// sentinel quits, and any other line, the empty one included, is taken as a
/// file path.
pub fn interpret_input(line: &str) -> (r: Command)
    ensures
        is_quit(trimmed(line@)) ==> r is Quit,
        !is_quit(trimmed(line@)) ==> (r matches Command::Translate(p) && p@ == trimmed(line@)),
{
    let t = trim(line);
    if t.unicode_len() == 1 {
        let c = t.get_char(0);
        if c == 'q' || c == 'Q' {
            return Command::Quit;
        }
    }
    Command::Translate(t.to_owned())
}

} // verus!
