//! The one entity of the library: a `Record`, one parsed input row plus its
//! translation outcome, together with the errors the row parser can raise.

use vstd::prelude::*;

verus! {

/// One row of the input file, possibly enriched with a translation.
///
/// `translated_text` is absent after parsing and is set, at most once, by the
/// dispatch step for the row's own position; every other field is fixed at
/// parse time.
#[derive(Debug)]
pub struct Record {
    pub document_name: String,
    pub source_text: String,
    pub translated_text: Option<String>,
    pub page_number: usize,
    pub comment: String,
}

/// The mathematical value of a `Record`.
pub struct RecordView {
    pub document_name: Seq<char>,
    pub source_text: Seq<char>,
    pub translated_text: Option<Seq<char>>,
    pub page_number: int,
    pub comment: Seq<char>,
}

impl View for Record {
    type V = RecordView;

    open spec fn view(&self) -> RecordView {
        RecordView {
            document_name: self.document_name@,
            source_text: self.source_text@,
            translated_text: match self.translated_text {
                Some(t) => Some(t@),
                None => None,
            },
            page_number: self.page_number as int,
            comment: self.comment@,
        }
    }
}

impl RecordView {
    /// The same record with `translated_text` replaced.
    pub open spec fn with_translation(self, t: Option<Seq<char>>) -> RecordView {
        RecordView { translated_text: t, ..self }
    }
}

/// Why reading a whole file of rows failed; one error fails the whole read,
/// no partial result is kept.
#[derive(Debug, Clone, Copy, PartialEq, Eq, Structural)]
pub enum ParseError {
    /// The header row names no column for a required field.
    MissingColumn,
    /// The data row at this position (counting data rows from zero) has a
    /// field count different from the header's.
    WrongFieldCount(usize),
    /// The page-number field of the data row at this position is not an
    /// unsigned decimal integer that fits the machine.
    BadPageNumber(usize),
}

} // verus!
