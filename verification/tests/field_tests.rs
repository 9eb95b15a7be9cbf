use rustycsv::base::field::{
    extract_field, extract_field_cow, extract_field_cow_with_escape, extract_field_owned_with_escape,
    extract_field_with_escape, unescape_field,
};

#[test]
fn test_extract_field_simple() {
    assert_eq!(extract_field(b"hello", 0, 5), b"hello");
}

#[test]
fn test_extract_field_empty_and_degenerate() {
    assert_eq!(extract_field(b"abc", 1, 1), b"");
    assert_eq!(extract_field_cow(b"abc", 1, 1).as_ref(), b"");
    assert_eq!(extract_field_owned_with_escape(b"abc", 1, 1, b'"'), b"");

    assert_eq!(extract_field(b"abc", 2, 1), b"");
    assert_eq!(extract_field_cow(b"abc", 2, 1).as_ref(), b"");
    assert_eq!(extract_field_owned_with_escape(b"abc", 2, 1, b'"'), b"");

    assert_eq!(extract_field(b"", 0, 0), b"");
    assert_eq!(extract_field_cow(b"", 0, 0).as_ref(), b"");
    assert_eq!(extract_field_owned_with_escape(b"", 0, 0, b'"'), b"");
}

#[test]
fn test_extract_field_quoted() {
    assert_eq!(extract_field(b"\"hello\"", 0, 7), b"hello");
}

#[test]
fn test_extract_field_cow_escaped() {
    let result = extract_field_cow_with_escape(b"\"hello \"\"world\"\"\"", 0, 17, b'"');
    assert_eq!(result.as_ref(), b"hello \"world\"");
}

#[test]
fn test_extract_field_owned_escaped() {
    let result = extract_field_owned_with_escape(b"\"hello \"\"world\"\"\"", 0, 17, b'"');
    assert_eq!(result, b"hello \"world\"");
}

#[test]
fn extract_field_keeps_doubled_quotes_uncollapsed() {
    assert_eq!(extract_field(b"\"a\"\"b\"", 0, 6), b"a\"\"b");
}

#[test]
fn extract_field_cow_borrows_plain_quoted_field() {
    let r = extract_field_cow(b"x,\"plain\",y", 2, 9);
    assert!(matches!(r, std::borrow::Cow::Borrowed(_)));
    assert_eq!(r.as_ref(), b"plain");
}

#[test]
fn extract_field_with_custom_escape() {
    assert_eq!(extract_field_with_escape(b"'ab''c'", 0, 7, b'\''), b"ab''c");
    assert_eq!(extract_field_owned_with_escape(b"'ab''c'", 0, 7, b'\''), b"ab'c");
}

#[test]
fn extract_field_lone_quote_is_kept() {
    assert_eq!(extract_field(b"\"", 0, 1), b"\"");
    assert_eq!(extract_field_owned_with_escape(b"\"", 0, 1, b'"'), b"\"");
}

#[test]
fn unescape_field_collapses_pairs() {
    assert_eq!(unescape_field(b"a\"\"b\"\"\"\"c", b'"'), b"a\"b\"\"c".to_vec());
    assert_eq!(unescape_field(b"plain", b'"'), b"plain".to_vec());
}
