//! The decision half of the translation dispatcher.
//!
//! The binary fans out one network request per record and collects, for each
//! original position, either the response body or nothing. This module builds
//! the fixed request data for a record and merges a sequence of such outcomes
//! back into the record sequence by position, so that no outcome can reach
//! the wrong record whatever order the requests completed in.

use vstd::prelude::*;

use crate::record::Record;
use crate::record::RecordView;

verus! {

/// The record as it leaves the merge: on a successful outcome the response
/// body becomes the translation, on a failed one the record is untouched.
pub open spec fn merged_record(rec: RecordView, outcome: Option<String>) -> RecordView {
    match outcome {
        Some(t) => rec.with_translation(Some(t@)),
        None => rec,
    }
}

/// Merge per-record outcomes back into the records by position.
///
/// The result has one record per input record, in input order; a record's
/// fields other than the translation are never touched, and its translation
/// is set exactly when its own outcome carries a response body. One record's
/// failure thus never affects any other record.
pub fn apply_outcomes(records: Vec<Record>, outcomes: Vec<Option<String>>) -> (r: Vec<Record>)
    requires
        outcomes@.len() == records@.len(),
    ensures
        r@.len() == records@.len(),
        forall|i: int|
            0 <= i < records@.len() ==> #[trigger] r@[i]@ == merged_record(
                records@[i]@,
                outcomes@[i],
            ),
{
    let mut out: Vec<Record> = Vec::new();
    let mut i: usize = 0;
    while i < records.len()
        invariant
            outcomes@.len() == records@.len(),
            i <= records@.len(),
            out@.len() == i,
            forall|j: int|
                0 <= j < i ==> #[trigger] out@[j]@ == merged_record(records@[j]@, outcomes@[j]),
        decreases records@.len() - i,
    {
        let rec = &records[i];
        let translated_text = match &outcomes[i] {
            Some(t) => Some(t.clone()),
            None => match &rec.translated_text {
                Some(t) => Some(t.clone()),
                None => None,
            },
        };
        let merged = Record {
            document_name: rec.document_name.clone(),
            source_text: rec.source_text.clone(),
            translated_text,
            page_number: rec.page_number,
            comment: rec.comment.clone(),
        };
        out.push(merged);
        i = i + 1;
    }
    out
}

/// Law of the merge, record by record: the identifying fields always come
/// through unchanged; a successful outcome becomes the record's translation,
/// word for word; a failed outcome leaves the record, its translation
/// included, exactly as it was.
pub proof fn lemma_merged_record_fields(rec: RecordView, outcome: Option<String>)
    ensures
        merged_record(rec, outcome).document_name == rec.document_name,
        merged_record(rec, outcome).source_text == rec.source_text,
        merged_record(rec, outcome).page_number == rec.page_number,
        merged_record(rec, outcome).comment == rec.comment,
        outcome matches Some(t) ==> merged_record(rec, outcome).translated_text == Some(t@),
        outcome is None ==> merged_record(rec, outcome) == rec,
{
}

/// The fixed local endpoint every request is sent to; never derived from the
/// input.
pub fn endpoint_url() -> (r: String)
    ensures
        r@ == "http://localhost:5000/translate"@,
{
    "http://localhost:5000/translate".to_owned()
}

/// The form payload for one record's request: the source text under `q` and
/// the fixed source and target language codes. Only the text comes from the
/// record.
pub fn form_pairs(source_text: &str) -> (r: Vec<(String, String)>)
    ensures
        r@.len() == 3,
        r@[0].0@ == "q"@ && r@[0].1@ == source_text@,
        r@[1].0@ == "source"@ && r@[1].1@ == "en"@,
        r@[2].0@ == "target"@ && r@[2].1@ == "de"@,
{
    let mut pairs: Vec<(String, String)> = Vec::new();
    pairs.push(("q".to_owned(), source_text.to_owned()));
    pairs.push(("source".to_owned(), "en".to_owned()));
    pairs.push(("target".to_owned(), "de".to_owned()));
    pairs
}

} // verus!
