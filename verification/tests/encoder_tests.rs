use rustycsv::encoder::{
    default_line_separator, encode_row, encode_string, encode_string_parallel, escape_from_bytes, is_all_single_byte,
    separators_from_list, single_byte_seps, FormulaConfig, PostProcess,
};
use rustycsv::strategy::encode::ReservedPatterns;
use rustycsv::strategy::encoding::EncodingTarget;

fn reserved_for(seps: &[&[u8]], esc: &[u8]) -> ReservedPatterns {
    let mut ps: Vec<Vec<u8>> = seps.iter().map(|s| s.to_vec()).collect();
    ps.push(esc.to_vec());
    ps.push(b"\n".to_vec());
    ps.push(b"\r".to_vec());
    ReservedPatterns::new(ps)
}

fn rows(data: &[&[&str]]) -> Vec<Vec<Vec<u8>>> {
    data.iter().map(|r| r.iter().map(|f| f.as_bytes().to_vec()).collect()).collect()
}

#[test]
fn encode_row_quotes_only_fields_that_need_it() {
    let seps = separators_from_list(vec![b",".to_vec()]).unwrap();
    let esc = escape_from_bytes(b"\"".to_vec()).unwrap();
    let reserved = reserved_for(&[b","], b"\"");
    let out = encode_row(
        &[b"a".to_vec(), b"b,c".to_vec(), b"say \"hi\"".to_vec()],
        &seps,
        &esc,
        b"\n",
        &FormulaConfig::none(),
        EncodingTarget::Utf8,
        &reserved,
    );
    assert_eq!(out, b"a,\"b,c\",\"say \"\"hi\"\"\"\n".to_vec());
}

#[test]
fn encode_string_applies_formula_rules() {
    let seps = separators_from_list(vec![b",".to_vec()]).unwrap();
    let esc = escape_from_bytes(b"\"".to_vec()).unwrap();
    let reserved = reserved_for(&[b","], b"\"");
    let formula = FormulaConfig { rules: vec![(b'=', b"'".to_vec())] };
    let out = encode_string(
        &rows(&[&["=SUM(A1)", "x"], &["", "y"]]),
        &seps,
        &esc,
        b"\r\n",
        formula,
        EncodingTarget::Utf8,
        &reserved,
    );
    assert_eq!(out, vec![b"\"'=SUM(A1)\",x\r\n".to_vec(), b",y\r\n".to_vec()]);
}

#[test]
fn encode_string_converts_to_utf16() {
    let seps = separators_from_list(vec![b",".to_vec()]).unwrap();
    let esc = escape_from_bytes(b"\"".to_vec()).unwrap();
    let reserved = reserved_for(&[b","], b"\"");
    let out = encode_string(
        &rows(&[&["A", "B"]]),
        &seps,
        &esc,
        b"\n",
        FormulaConfig::none(),
        EncodingTarget::Utf16Le,
        &reserved,
    );
    assert_eq!(out, vec![vec![0x41, 0, 0x2C, 0, 0x42, 0, 0x0A, 0]]);
}

#[test]
fn encode_with_multi_byte_separator_and_escape() {
    let seps = separators_from_list(vec![b"::".to_vec(), b";".to_vec()]).unwrap();
    let esc = escape_from_bytes(b"$$".to_vec()).unwrap();
    let reserved = reserved_for(&[b"::", b";"], b"$$");
    let out = encode_string(
        &rows(&[&["a::b", "c$$d", "e"]]),
        &seps,
        &esc,
        b"\n",
        FormulaConfig::none(),
        EncodingTarget::Utf8,
        &reserved,
    );
    assert_eq!(out, vec![b"$$a::b$$::$$c$$$$d$$::e\n".to_vec()]);
}

#[test]
fn encode_string_parallel_matches_sequential_for_single_bytes() {
    let seps = separators_from_list(vec![b";".to_vec()]).unwrap();
    let esc = escape_from_bytes(b"\"".to_vec()).unwrap();
    let reserved = reserved_for(&[b";"], b"\"");
    let data = rows(&[&["a", "b;c"], &["d\ne", "f"]]);
    let seq = encode_string(&data, &seps, &esc, b"\n", FormulaConfig::none(), EncodingTarget::Utf8, &reserved);
    let par = encode_string_parallel(data, &seps, &esc, b"\n", &FormulaConfig::none(), EncodingTarget::Utf8, &reserved)
        .unwrap();
    assert_eq!(par, seq);
    assert_eq!(par, vec![b"a;\"b;c\"\n".to_vec(), b"\"d\ne\";f\n".to_vec()]);
}

#[test]
fn encode_string_parallel_refuses_multi_byte_configuration() {
    let seps = separators_from_list(vec![b"::".to_vec()]).unwrap();
    let esc = escape_from_bytes(b"\"".to_vec()).unwrap();
    let reserved = reserved_for(&[b"::"], b"\"");
    let r = encode_string_parallel(rows(&[&["a"]]), &seps, &esc, b"\n", &FormulaConfig::none(), EncodingTarget::Utf8, &reserved);
    assert!(r.is_none());
}

#[test]
fn configuration_constructors_reject_empty_patterns() {
    assert!(separators_from_list(vec![]).is_none());
    assert!(separators_from_list(vec![b",".to_vec(), vec![]]).is_none());
    assert!(escape_from_bytes(vec![]).is_none());
    let seps = separators_from_list(vec![b",".to_vec(), b";".to_vec()]).unwrap();
    assert_eq!(single_byte_seps(&seps), b",;".to_vec());
    let esc = escape_from_bytes(b"'".to_vec()).unwrap();
    assert!(is_all_single_byte(&seps, &esc));
    let long = escape_from_bytes(b"''".to_vec()).unwrap();
    assert!(!is_all_single_byte(&seps, &long));
}

#[test]
fn formula_check_and_post_process_classification() {
    let f = FormulaConfig { rules: vec![(b'=', b"'".to_vec()), (b'+', b"\t".to_vec())] };
    assert_eq!(f.check(b"+1"), Some(&b"\t"[..]));
    assert_eq!(f.check(b"1+"), None);
    assert_eq!(f.check(b""), None);
    assert!(!f.is_empty());
    assert!(FormulaConfig::none().is_empty());
    assert!(matches!(PostProcess::from(FormulaConfig::none(), EncodingTarget::Utf8), PostProcess::Plain));
    assert!(matches!(
        PostProcess::from(FormulaConfig::none(), EncodingTarget::Latin1),
        PostProcess::EncodingOnly(EncodingTarget::Latin1)
    ));
    assert!(matches!(PostProcess::from(f, EncodingTarget::Utf32Be), PostProcess::Full(_, EncodingTarget::Utf32Be)));
    assert_eq!(default_line_separator(), b"\n".to_vec());
}
