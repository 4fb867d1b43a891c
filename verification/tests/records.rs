use strdiff::input::read_vec;

#[test]
fn two_fields_accepted() {
    let v = read_vec("abc def\n").unwrap();
    assert_eq!(v, vec!["abc".to_string(), "def".to_string()]);
    assert_eq!(v.len(), 2);
}

#[test]
fn three_fields_rejected_by_caller() {
    // A line with three fields is a malformed record: the caller checks the
    // field count and never builds a pair from it.
    let v = read_vec("a b c\n").unwrap();
    assert_eq!(v, vec!["a".to_string(), "b".to_string(), "c".to_string()]);
    assert!(v.len() != 2);
}

#[test]
fn blank_line_ends_input() {
    assert!(read_vec("").is_none());
    assert!(read_vec("\n").is_none());
    assert!(read_vec("   \t  \n").is_none());
}

#[test]
fn surrounding_whitespace_ignored() {
    let v = read_vec("  x \t y  \n").unwrap();
    assert_eq!(v, vec!["x".to_string(), "y".to_string()]);
}

#[test]
fn unicode_separators() {
    // Ideographic space (U+3000) and no-break space (U+00A0) separate fields
    // just as ASCII blanks do.
    let v = read_vec("ab\u{3000}cd\u{a0}ef").unwrap();
    assert_eq!(
        v,
        vec!["ab".to_string(), "cd".to_string(), "ef".to_string()]
    );
}

#[test]
fn single_field_line() {
    let v = read_vec("lonely\n").unwrap();
    assert_eq!(v, vec!["lonely".to_string()]);
    assert!(v.len() != 2);
}
