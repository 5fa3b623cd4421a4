use wash::util::{build_string, empty_escape};

#[test]
fn build_string_test() {
    assert!(build_string('a', 5) == String::from("aaaaa"));
}

#[test]
fn build_string_empty() {
    assert_eq!(build_string('x', 0), String::new());
}

#[test]
fn empty_escape_collects() {
    let chars: Vec<char> = '\n'.escape_default().collect();
    assert_eq!(empty_escape(chars), "\\n".to_string());
    assert_eq!(empty_escape(vec![]), String::new());
}
