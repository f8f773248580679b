use shaken::util::join_with;

#[test]
fn join_with_nothing_is_empty() {
    assert_eq!(join_with(&Vec::new(), ", "), "");
}

#[test]
fn join_with_single_item_has_no_separator() {
    assert_eq!(join_with(&vec!["alone".to_string()], ", "), "alone");
}

#[test]
fn join_with_places_separator_between_items() {
    let items = vec!["a".to_string(), "b".to_string(), "c".to_string()];
    assert_eq!(join_with(&items, ", "), "a, b, c");
}

#[test]
fn join_with_empty_separator_concatenates() {
    let items = vec!["ab".to_string(), "cd".to_string()];
    assert_eq!(join_with(&items, ""), "abcd");
}

#[test]
fn join_with_keeps_empty_items() {
    let items = vec!["".to_string(), "x".to_string(), "".to_string()];
    assert_eq!(join_with(&items, "-"), "-x-");
}
