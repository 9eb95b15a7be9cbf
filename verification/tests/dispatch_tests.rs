use rustycsv::base::newlines::Newlines;
use rustycsv::base::simd_index::{InputTooLarge, ScannedBoundaries, Violation};
use rustycsv::dispatch::{
    dispatch_boundary_parse, dispatch_parallel_boundary_parse, field_source, field_source_general, header_keys,
    newlines_from_patterns, scanned_rows, FieldSource, ScanError,
};
use rustycsv::encoder::{escape_from_bytes, separators_from_list};

fn source_bytes(input: &[u8], f: FieldSource) -> Vec<u8> {
    match f {
        FieldSource::Range(a, n) => input[a..a + n].to_vec(),
        FieldSource::Owned(v) => v,
    }
}

#[test]
fn dispatch_single_byte_and_general_agree() {
    let input = b"a,\"b,c\"\nd,e\n";
    let seps = separators_from_list(vec![b",".to_vec()]).unwrap();
    let esc = escape_from_bytes(b"\"".to_vec()).unwrap();
    let nl = Newlines::default_newlines();
    let seq = dispatch_boundary_parse(input, &seps, &esc, &nl).unwrap();
    let par = dispatch_parallel_boundary_parse(input, &seps, &esc, &nl).unwrap();
    assert_eq!(seq.rows, vec![vec![(0, 1), (2, 7)], vec![(8, 9), (10, 11)]]);
    assert_eq!(par.rows, seq.rows);
    assert_eq!(seq.violation, None);
}

#[test]
fn dispatch_custom_newlines_uses_patterns() {
    let input = b"a,b<br>c,d";
    let seps = separators_from_list(vec![b",".to_vec()]).unwrap();
    let esc = escape_from_bytes(b"\"".to_vec()).unwrap();
    let nl = newlines_from_patterns(vec![b"<br>".to_vec()]).unwrap();
    let seq = dispatch_boundary_parse(input, &seps, &esc, &nl).unwrap();
    assert_eq!(seq.rows, vec![vec![(0, 1), (2, 3)], vec![(7, 8), (9, 10)]]);
    let par = dispatch_parallel_boundary_parse(input, &seps, &esc, &nl).unwrap();
    assert_eq!(par.rows, seq.rows);
}

#[test]
fn dispatch_multi_byte_separator() {
    let input = b"a::b\n";
    let seps = separators_from_list(vec![b"::".to_vec()]).unwrap();
    let esc = escape_from_bytes(b"\"".to_vec()).unwrap();
    let nl = Newlines::default_newlines();
    let seq = dispatch_boundary_parse(input, &seps, &esc, &nl).unwrap();
    assert_eq!(seq.rows, vec![vec![(0, 1), (3, 4)]]);
}

#[test]
fn scanned_rows_strict_and_lenient() {
    let ok = ScannedBoundaries { rows: vec![vec![(0, 1)]], violation: None };
    assert_eq!(scanned_rows(Ok(ok), true), Ok(vec![vec![(0, 1)]]));

    let bad = ScannedBoundaries { rows: vec![vec![(0, 3)]], violation: Some(Violation::UnexpectedQuote(1)) };
    assert_eq!(scanned_rows(Ok(bad), true), Err(ScanError::Malformed(Violation::UnexpectedQuote(1))));

    let bad = ScannedBoundaries { rows: vec![vec![(0, 3)]], violation: Some(Violation::UnexpectedQuote(1)) };
    assert_eq!(scanned_rows(Ok(bad), false), Ok(vec![vec![(0, 3)]]));

    assert_eq!(scanned_rows(Err(InputTooLarge), false), Err(ScanError::InputTooLarge));
}

#[test]
fn newlines_from_patterns_rejects_empty_patterns() {
    assert!(newlines_from_patterns(vec![]).is_none());
    assert!(newlines_from_patterns(vec![b"|".to_vec(), vec![]]).is_none());
    let nl = newlines_from_patterns(vec![b"|".to_vec(), b"<br>".to_vec()]).unwrap();
    assert!(!nl.is_default);
    assert_eq!(nl.patterns, vec![b"<br>".to_vec(), b"|".to_vec()]);
}

#[test]
fn header_keys_unescape_values() {
    let input = b"\"id\",\"na\"\"me\",x\n";
    let esc = escape_from_bytes(b"\"".to_vec()).unwrap();
    let keys = header_keys(input, &[(0, 4), (5, 13), (14, 15)], &esc);
    assert_eq!(keys, vec![b"id".to_vec(), b"na\"me".to_vec(), b"x".to_vec()]);

    let general = b"$$a$$::b";
    let esc2 = escape_from_bytes(b"$$".to_vec()).unwrap();
    assert_eq!(header_keys(general, &[(0, 5), (7, 8)], &esc2), vec![b"a".to_vec(), b"b".to_vec()]);
}

#[test]
fn field_source_shares_plain_fields_and_copies_escaped_ones() {
    let input = b"abc,\"de\",\"f\"\"g\"";
    assert!(matches!(field_source(input, 0, 3, b'"'), FieldSource::Range(0, 3)));
    assert!(matches!(field_source(input, 4, 8, b'"'), FieldSource::Range(5, 2)));
    let escaped = field_source(input, 9, 15, b'"');
    assert!(matches!(escaped, FieldSource::Owned(_)));
    assert_eq!(source_bytes(input, escaped), b"f\"g".to_vec());
    assert_eq!(source_bytes(input, field_source(input, 3, 3, b'"')), Vec::<u8>::new());
}

#[test]
fn field_source_general_multi_byte_escape() {
    let input = b"$$ab$$|$$c$$$$d$$";
    assert!(matches!(field_source_general(input, 0, 6, b"$$"), FieldSource::Range(2, 2)));
    let escaped = field_source_general(input, 7, 17, b"$$");
    assert_eq!(source_bytes(input, escaped), b"c$$d".to_vec());
}
