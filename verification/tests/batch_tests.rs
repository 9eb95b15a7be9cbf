use std::borrow::Cow;

use rustycsv::base::field::extract_field_cow_with_escape;
use rustycsv::base::simd_index::{ScannedBoundaries, Violation};
use rustycsv::strategy::direct::{
    parse_csv, parse_csv_fast, parse_csv_full, parse_csv_full_multi_sep, parse_csv_full_with_config,
};
use rustycsv::strategy::parallel::{
    parse_csv_parallel, parse_csv_parallel_boundaries, parse_csv_parallel_multi_sep, parse_csv_parallel_with_config,
};
use rustycsv::strategy::streaming::StreamingParser;
use rustycsv::strategy::two_phase::{build_index, extract_all, extract_all_borrowed, extract_rows, parse_csv_indexed_with_config};
use rustycsv::strategy::zero_copy::{
    parse_csv_boundaries, parse_csv_boundaries_multi_sep, parse_csv_boundaries_simple, parse_csv_boundaries_with_config,
};

fn cow_to_strings(rows: Vec<Vec<Cow<'_, [u8]>>>) -> Vec<Vec<String>> {
    rows.into_iter()
        .map(|row| row.into_iter().map(|f| String::from_utf8_lossy(&f).to_string()).collect())
        .collect()
}

fn owned_to_strings(rows: Vec<Vec<Vec<u8>>>) -> Vec<Vec<String>> {
    rows.into_iter()
        .map(|row| row.into_iter().map(|f| String::from_utf8_lossy(&f).to_string()).collect())
        .collect()
}

fn boundaries_to_strings(input: &[u8], boundaries: ScannedBoundaries) -> Vec<Vec<String>> {
    boundaries
        .rows
        .into_iter()
        .map(|row| {
            row.into_iter()
                .map(|(s, e)| String::from_utf8_lossy(&extract_field_cow_with_escape(input, s, e, b'"')).to_string())
                .collect()
        })
        .collect()
}

fn streaming_to_strings(input: &[u8], sep: u8) -> Vec<Vec<String>> {
    let mut parser = StreamingParser::with_config(sep, b'"');
    parser.feed(input).unwrap();
    let mut rows = parser.take_rows(usize::MAX);
    rows.extend(parser.finalize());
    owned_to_strings(rows)
}

fn expect_all(input: &[u8], sep: u8, expected: Vec<Vec<&str>>) {
    let expected: Vec<Vec<String>> = expected.iter().map(|r| r.iter().map(|s| s.to_string()).collect()).collect();
    let direct = cow_to_strings(parse_csv_full_with_config(input, sep, b'"').expect("fits"));
    assert_eq!(direct, expected, "direct");
    let two_phase = cow_to_strings(parse_csv_indexed_with_config(input, sep, b'"').expect("fits"));
    assert_eq!(two_phase, expected, "two_phase");
    let parallel = owned_to_strings(parse_csv_parallel_with_config(input, sep, b'"').expect("fits"));
    assert_eq!(parallel, expected, "parallel");
    let zc = boundaries_to_strings(input, parse_csv_boundaries_with_config(input, sep, b'"').expect("fits"));
    assert_eq!(zc, expected, "zero_copy");
    assert_eq!(streaming_to_strings(input, sep), expected, "streaming");
}

#[test]
fn simple_two_rows() {
    expect_all(b"a,b,c\n1,2,3\n", b',', vec![vec!["a", "b", "c"], vec!["1", "2", "3"]]);
}

#[test]
fn quoted_field_with_comma() {
    expect_all(b"a,\"b,c\",d\n", b',', vec![vec!["a", "b,c", "d"]]);
}

#[test]
fn crlf_line_endings() {
    expect_all(b"a,b\r\nc,d\r\n", b',', vec![vec!["a", "b"], vec!["c", "d"]]);
}

#[test]
fn no_trailing_newline() {
    expect_all(b"a,b\nc,d", b',', vec![vec!["a", "b"], vec!["c", "d"]]);
}

#[test]
fn escaped_doubled_quotes() {
    expect_all(b"a,\"say \"\"hi\"\"\",c\n", b',', vec![vec!["a", "say \"hi\"", "c"]]);
}

#[test]
fn multiline_quoted_field() {
    expect_all(b"a,\"line1\nline2\",c\n", b',', vec![vec!["a", "line1\nline2", "c"]]);
}

#[test]
fn empty_input() {
    expect_all(b"", b',', vec![]);
}

#[test]
fn empty_lines() {
    expect_all(b"a\n\nb\n", b',', vec![vec!["a"], vec![""], vec!["b"]]);
}

#[test]
fn tab_separated() {
    expect_all(b"a\tb\n\"x\ty\"\tz\n", b'\t', vec![vec!["a", "b"], vec!["x\ty", "z"]]);
}

#[test]
fn multi_sep_semicolon_tab() {
    let input = b"a;b\tc\n1;2\t3\n";
    let seps = b";\t";
    let expected = vec![vec!["a", "b", "c"], vec!["1", "2", "3"]];
    assert_eq!(cow_to_strings(parse_csv_full_multi_sep(input, seps, b'"').unwrap()), expected);
    assert_eq!(owned_to_strings(parse_csv_parallel_multi_sep(input, seps, b'"').unwrap()), expected);
    assert_eq!(boundaries_to_strings(input, parse_csv_boundaries_multi_sep(input, seps, b'"').unwrap()), expected);
}

#[test]
fn default_entry_points_agree() {
    let input = b"h1,h2\n\"v,1\",v2\n";
    let expected = vec![vec!["h1", "h2"], vec!["v,1", "v2"]];
    assert_eq!(cow_to_strings(parse_csv(input).unwrap()), expected);
    assert_eq!(cow_to_strings(parse_csv_fast(input).unwrap()), expected);
    assert_eq!(cow_to_strings(parse_csv_full(input).unwrap()), expected);
    let b = parse_csv_boundaries_simple(input, b',').unwrap();
    assert_eq!(boundaries_to_strings(input, b), expected);
}

#[test]
fn test_parallel_many_rows() {
    let mut input = Vec::new();
    for i in 0..1000 {
        input.extend_from_slice(format!("{},{},{}\n", i, i + 1, i + 2).as_bytes());
    }

    let rows = parse_csv_parallel(&input).expect("test input fits the structural index");
    assert_eq!(rows.len(), 1000);
    assert_eq!(rows[0], vec![b"0".to_vec(), b"1".to_vec(), b"2".to_vec()]);
    assert_eq!(rows[999], vec![b"999".to_vec(), b"1000".to_vec(), b"1001".to_vec()]);
}

#[test]
fn parallel_boundaries_match_sequential_boundaries() {
    let input = b"a,\"b\"\"c\"\nx\"y,2\n";
    let seq = parse_csv_boundaries(input).unwrap();
    let par = parse_csv_parallel_boundaries(input).unwrap();
    assert_eq!(par.rows, seq.rows);
    assert_eq!(par.violation, seq.violation);
    assert_eq!(seq.violation, Some(Violation::UnexpectedQuote(10)));
}

#[test]
fn test_extract_rows_range() {
    let input = b"a,b\nc,d\ne,f\n";
    let index = build_index(input).unwrap();
    let rows = cow_to_strings(extract_rows(input, &index, 1, 1));
    assert_eq!(rows.len(), 1);
    assert_eq!(rows[0], vec!["c", "d"]);
}

#[test]
fn extract_rows_past_the_end_is_clamped() {
    let input = b"a,b\nc,d\ne,f\n";
    let index = build_index(input).unwrap();
    assert_eq!(index.row_count(), 3);
    assert_eq!(index.field_count(0), 2);
    assert_eq!(cow_to_strings(extract_rows(input, &index, 2, 10)), vec![vec!["e", "f"]]);
    assert!(extract_rows(input, &index, 5, 1).is_empty());
}

#[test]
fn extract_all_and_borrowed_views() {
    let input = b"\"a\"\"b\",c\n";
    let index = build_index(input).unwrap();
    assert_eq!(cow_to_strings(extract_all(input, &index)), vec![vec!["a\"b", "c"]]);
    let borrowed = extract_all_borrowed(input, &index);
    assert_eq!(borrowed, vec![vec![&b"a\"\"b"[..], &b"c"[..]]]);
}

#[test]
fn test_boundaries_escaped() {
    let input = b"a,\"b\"\"c\",d\n";
    let scanned = parse_csv_boundaries(input).expect("input is well within the size limit");
    assert_eq!(scanned.rows.len(), 1);
    assert_eq!(scanned.rows[0], vec![(0, 1), (2, 8), (9, 10)]);
}

#[test]
fn zero_copy_well_formed_input_reports_no_violation() {
    let scanned = parse_csv_boundaries(b"a,b\n1,2\n").expect("within the size limit");
    assert_eq!(scanned.violation, None);
}

#[test]
fn malformed_input_still_yields_rows_alongside_its_violation() {
    let scanned = parse_csv_boundaries(b"a,b\nx\"y,2\n").expect("within the size limit");
    assert!(scanned.violation.is_some(), "a quote mid-field breaks the opening-quote rule");
    assert!(!scanned.rows.is_empty(), "lenient callers must still receive boundaries");
}
