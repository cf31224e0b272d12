use csv_translator::command::interpret_input;
use csv_translator::command::Command;

fn translated_path(line: &str) -> Option<String> {
    match interpret_input(line) {
        Command::Quit => None,
        Command::Translate(p) => Some(p),
    }
}

#[test]
fn lowercase_sentinel_quits() {
    assert!(matches!(interpret_input("q"), Command::Quit));
}

#[test]
fn uppercase_sentinel_quits() {
    assert!(matches!(interpret_input("Q"), Command::Quit));
}

#[test]
fn sentinel_is_found_under_blanks() {
    assert!(matches!(interpret_input("  q\n"), Command::Quit));
    assert!(matches!(interpret_input("\tQ \r\n"), Command::Quit));
}

#[test]
fn a_path_is_handed_on_trimmed() {
    assert_eq!(translated_path("  rows.csv \n"), Some("rows.csv".to_string()));
}

#[test]
fn a_nonexistent_path_is_still_a_path() {
    assert_eq!(translated_path("no/such/file.csv"), Some("no/such/file.csv".to_string()));
}

#[test]
fn almost_the_sentinel_is_a_path() {
    assert_eq!(translated_path("qq"), Some("qq".to_string()));
    assert_eq!(translated_path("q.csv"), Some("q.csv".to_string()));
}

#[test]
fn an_empty_line_is_the_empty_path() {
    assert_eq!(translated_path("\n"), Some("".to_string()));
}
