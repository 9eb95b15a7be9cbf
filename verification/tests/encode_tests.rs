use rustycsv::strategy::encode::{
    field_needs_quoting, pattern_occurs, write_quoted_field, write_quoted_field_general, ReservedPatterns,
};

#[test]
fn test_write_quoted_field() {
    let mut out = Vec::new();
    write_quoted_field(&mut out, b"hello", b'"');
    assert_eq!(out, b"\"hello\"");

    let mut out = Vec::new();
    write_quoted_field(&mut out, b"say \"hi\"", b'"');
    assert_eq!(out, b"\"say \"\"hi\"\"\"");
}

#[test]
fn test_write_quoted_field_general() {
    let mut out = Vec::new();
    write_quoted_field_general(&mut out, b"hello", b"$$");
    assert_eq!(out, b"$$hello$$");

    let mut out = Vec::new();
    write_quoted_field_general(&mut out, b"a$$b", b"$$");
    assert_eq!(out, b"$$a$$$$b$$");
}

#[test]
fn configured_reserved_patterns_trigger_quoting() {
    let reserved = ReservedPatterns::new(vec![b",".to_vec(), b"\"".to_vec(), b"::".to_vec()]);

    assert!(field_needs_quoting(b"a,b", &reserved));
    assert!(field_needs_quoting(b"say \"hello\"", &reserved));
    assert!(field_needs_quoting(b"a::b", &reserved));
    assert!(!field_needs_quoting(b"abc", &reserved));
    assert!(!field_needs_quoting(b"", &reserved));

    let wide = b"abcdefghijklmno,qrstuvwxyz";
    assert!(field_needs_quoting(wide, &reserved));
}

#[test]
fn single_byte_patterns_subsume_multi_byte_patterns() {
    let reserved = ReservedPatterns::new(vec![b"\r\n".to_vec(), b"\n".to_vec(), b"::".to_vec()]);

    assert_eq!(reserved.single_bytes(), vec![b'\n']);
    assert_eq!(reserved.multi_bytes(), vec![b"::".to_vec()]);
}

#[test]
fn write_quoted_field_appends_to_existing_output() {
    let mut out = b"x,".to_vec();
    write_quoted_field(&mut out, b"", b'\'');
    assert_eq!(out, b"x,''");
}

#[test]
fn single_colon_does_not_need_quoting_for_double_colon_pattern() {
    let reserved = ReservedPatterns::new(vec![b"::".to_vec()]);
    assert!(!field_needs_quoting(b"a:b", &reserved));
    assert!(field_needs_quoting(b"a:::b", &reserved));
}

#[test]
fn pattern_occurs_finds_needles() {
    assert!(pattern_occurs(b"hello<br>", b"<br>"));
    assert!(!pattern_occurs(b"hello<br", b"<br>"));
    assert!(!pattern_occurs(b"", b"x"));
}

#[test]
fn quoting_decision_matches_any_given_pattern() {
    let patterns: Vec<Vec<u8>> = vec![b",".to_vec(), b"x,y".to_vec(), b"<br>".to_vec(), b"\n".to_vec()];
    let reserved = ReservedPatterns::new(patterns.clone());
    assert_eq!(reserved.multi_bytes(), vec![b"<br>".to_vec()]);
    for field in [&b"ax,yb"[..], b"plain", b"a<br>b", b"<b", b"line\n", b""] {
        let any = patterns.iter().any(|p| field.windows(p.len()).any(|w| w == p.as_slice()));
        assert_eq!(field_needs_quoting(field, &reserved), any);
    }
}
