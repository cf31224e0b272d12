use csv_translator::dispatch::apply_outcomes;
use csv_translator::dispatch::endpoint_url;
use csv_translator::dispatch::form_pairs;
use csv_translator::record::Record;

fn sample(name: &str, text: &str, page: usize, comment: &str) -> Record {
    Record {
        document_name: name.to_string(),
        source_text: text.to_string(),
        translated_text: None,
        page_number: page,
        comment: comment.to_string(),
    }
}

#[test]
fn merge_keeps_length_and_order_and_fields() {
    let records = vec![
        sample("A", "one", 1, "a"),
        sample("B", "two", 2, "b"),
        sample("C", "three", 3, "c"),
    ];
    let outcomes = vec![Some("eins".to_string()), None, Some("drei".to_string())];
    let merged = apply_outcomes(records, outcomes);
    assert_eq!(merged.len(), 3);
    assert_eq!(merged[0].document_name, "A");
    assert_eq!(merged[1].document_name, "B");
    assert_eq!(merged[2].document_name, "C");
    assert_eq!(merged[0].source_text, "one");
    assert_eq!(merged[1].source_text, "two");
    assert_eq!(merged[2].source_text, "three");
    assert_eq!(merged[0].page_number, 1);
    assert_eq!(merged[1].page_number, 2);
    assert_eq!(merged[2].page_number, 3);
    assert_eq!(merged[0].comment, "a");
    assert_eq!(merged[1].comment, "b");
    assert_eq!(merged[2].comment, "c");
}

#[test]
fn success_sets_exactly_the_response_text() {
    let records = vec![sample("A", "Hello", 1, "")];
    let outcomes = vec![Some("Hallo".to_string())];
    let merged = apply_outcomes(records, outcomes);
    assert_eq!(merged[0].translated_text, Some("Hallo".to_string()));
}

#[test]
fn failure_leaves_the_field_unset_and_neighbours_alone() {
    let records = vec![sample("A", "one", 1, ""), sample("B", "two", 2, "")];
    let outcomes = vec![None, Some("zwei".to_string())];
    let merged = apply_outcomes(records, outcomes);
    assert_eq!(merged[0].translated_text, None);
    assert_eq!(merged[1].translated_text, Some("zwei".to_string()));
    assert_eq!(merged[0].document_name, "A");
    assert_eq!(merged[0].source_text, "one");
}

#[test]
fn failed_outcome_keeps_an_earlier_translation() {
    let mut rec = sample("A", "one", 1, "");
    rec.translated_text = Some("schon da".to_string());
    let merged = apply_outcomes(vec![rec], vec![None]);
    assert_eq!(merged[0].translated_text, Some("schon da".to_string()));
}

#[test]
fn merging_nothing_gives_nothing() {
    let merged = apply_outcomes(Vec::new(), Vec::new());
    assert_eq!(merged.len(), 0);
}

#[test]
fn endpoint_is_the_fixed_local_one() {
    assert_eq!(endpoint_url(), "http://localhost:5000/translate");
}

#[test]
fn form_payload_is_text_plus_fixed_codes() {
    let pairs = form_pairs("Hello world");
    assert_eq!(pairs.len(), 3);
    assert_eq!(pairs[0], ("q".to_string(), "Hello world".to_string()));
    assert_eq!(pairs[1], ("source".to_string(), "en".to_string()));
    assert_eq!(pairs[2], ("target".to_string(), "de".to_string()));
}

#[test]
fn form_payload_forwards_empty_text() {
    let pairs = form_pairs("");
    assert_eq!(pairs[0].1, "");
}
