use csv_translator::parser::parse_document;
use csv_translator::record::ParseError;

#[test]
fn one_row_parses_to_one_record() {
    let text = "document_name;text_original;page_number;comment\nDoc1;Hello world;1;";
    let records = parse_document(text).unwrap();
    assert_eq!(records.len(), 1);
    assert_eq!(records[0].document_name, "Doc1");
    assert_eq!(records[0].source_text, "Hello world");
    assert_eq!(records[0].page_number, 1);
    assert_eq!(records[0].comment, "");
    assert_eq!(records[0].translated_text, None);
}

#[test]
fn several_rows_keep_their_order() {
    let text = "document_name;text_original;page_number;comment\n\
                A;first;1;x\n\
                B;second;2;y\n\
                C;third;3;z";
    let records = parse_document(text).unwrap();
    assert_eq!(records.len(), 3);
    assert_eq!(records[0].document_name, "A");
    assert_eq!(records[1].document_name, "B");
    assert_eq!(records[2].document_name, "C");
    assert_eq!(records[1].source_text, "second");
    assert_eq!(records[2].page_number, 3);
    assert_eq!(records[0].comment, "x");
}

#[test]
fn empty_input_gives_no_records() {
    assert_eq!(parse_document("").unwrap().len(), 0);
}

#[test]
fn header_alone_gives_no_records() {
    let text = "document_name;text_original;page_number;comment\n";
    assert_eq!(parse_document(text).unwrap().len(), 0);
}

#[test]
fn crlf_and_blank_lines_are_tolerated() {
    let text = "document_name;text_original;page_number;comment\r\n\
                \r\n\
                Doc1;Hi;4;note\r\n";
    let records = parse_document(text).unwrap();
    assert_eq!(records.len(), 1);
    assert_eq!(records[0].document_name, "Doc1");
    assert_eq!(records[0].source_text, "Hi");
    assert_eq!(records[0].page_number, 4);
    assert_eq!(records[0].comment, "note");
}

#[test]
fn header_names_decide_not_positions() {
    let text = "comment;page_number;text_original;document_name\nnote;7;Hi;DocX";
    let records = parse_document(text).unwrap();
    assert_eq!(records.len(), 1);
    assert_eq!(records[0].document_name, "DocX");
    assert_eq!(records[0].source_text, "Hi");
    assert_eq!(records[0].page_number, 7);
    assert_eq!(records[0].comment, "note");
}

#[test]
fn missing_comment_column_means_empty_comment() {
    let text = "document_name;text_original;page_number\nDoc1;Hi;2";
    let records = parse_document(text).unwrap();
    assert_eq!(records.len(), 1);
    assert_eq!(records[0].comment, "");
}

#[test]
fn missing_required_column_fails_the_read() {
    let text = "document_name;text_original;comment\nDoc1;Hi;note";
    assert_eq!(parse_document(text).unwrap_err(), ParseError::MissingColumn);
}

#[test]
fn wrong_field_count_fails_the_read() {
    let text = "document_name;text_original;page_number;comment\nDoc1;Hi;1";
    assert_eq!(parse_document(text).unwrap_err(), ParseError::WrongFieldCount(0));
}

#[test]
fn non_numeric_page_number_fails_the_read() {
    let text = "document_name;text_original;page_number;comment\nDoc1;Hi;one;";
    assert_eq!(parse_document(text).unwrap_err(), ParseError::BadPageNumber(0));
}

#[test]
fn oversized_page_number_fails_the_read() {
    let text =
        "document_name;text_original;page_number;comment\nDoc1;Hi;99999999999999999999999999;";
    assert_eq!(parse_document(text).unwrap_err(), ParseError::BadPageNumber(0));
}

#[test]
fn first_faulty_row_wins() {
    let text = "document_name;text_original;page_number;comment\n\
                Doc1;Hi;bad;\n\
                Doc2;Ho;1;too;many";
    assert_eq!(parse_document(text).unwrap_err(), ParseError::BadPageNumber(0));
}

#[test]
fn no_partial_result_on_a_late_fault() {
    let text = "document_name;text_original;page_number;comment\n\
                Doc1;Hi;1;\n\
                Doc2;Ho;bad;";
    assert_eq!(parse_document(text).unwrap_err(), ParseError::BadPageNumber(1));
}

#[test]
fn empty_source_text_is_kept() {
    let text = "document_name;text_original;page_number;comment\nDoc1;;1;";
    let records = parse_document(text).unwrap();
    assert_eq!(records[0].source_text, "");
}

#[test]
fn non_ascii_text_survives_parsing() {
    let text = "document_name;text_original;page_number;comment\nDoc1;Grüße aus Köln;12;schön";
    let records = parse_document(text).unwrap();
    assert_eq!(records[0].source_text, "Grüße aus Köln");
    assert_eq!(records[0].comment, "schön");
}
