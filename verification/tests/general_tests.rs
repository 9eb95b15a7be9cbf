use std::borrow::Cow;

use rustycsv::base::newlines::Newlines;
use rustycsv::base::simd_index::Violation;
use rustycsv::strategy::general::{
    build_index_general, extract_field_owned_general, find_row_starts_general, parse_csv_boundaries_general_with_newlines,
    parse_csv_parallel_boundaries_general_with_newlines,
    find_row_starts_general_with_newlines, parse_csv_boundaries_general, parse_csv_general,
    parse_csv_general_with_newlines, parse_csv_indexed_general, parse_csv_parallel_boundaries_general,
    parse_csv_parallel_general, parse_csv_parallel_general_with_newlines, unescape_field_general,
};
use rustycsv::strategy::general_streaming::{GeneralStreamingParser, GeneralStreamingParserNewlines};
use rustycsv::strategy::zero_copy::parse_csv_boundaries_with_config;
use rustycsv::dispatch::{dispatch_boundary_parse, dispatch_parallel_boundary_parse};
use rustycsv::encoder::{escape_from_bytes, separators_from_list};

fn to_strings(rows: Vec<Vec<Cow<'_, [u8]>>>) -> Vec<Vec<String>> {
    rows.into_iter()
        .map(|row| row.into_iter().map(|f| String::from_utf8_lossy(&f).to_string()).collect())
        .collect()
}

fn owned_to_strings(rows: Vec<Vec<Vec<u8>>>) -> Vec<Vec<String>> {
    rows.into_iter()
        .map(|row| row.into_iter().map(|f| String::from_utf8_lossy(&f).to_string()).collect())
        .collect()
}

#[test]
fn test_general_mixed_separators() {
    let input = b"a,b::c\n1::2,3\n";
    let seps = vec![b",".to_vec(), b"::".to_vec()];
    let esc = b"\"".to_vec();
    let result = to_strings(parse_csv_general(input, &seps, &esc));
    assert_eq!(result, vec![vec!["a", "b", "c"], vec!["1", "2", "3"]]);
}

#[test]
fn test_general_quoted_with_separator() {
    let input = b"\"a::b\"::c\n";
    let seps = vec![b"::".to_vec()];
    let esc = b"\"".to_vec();
    let result = to_strings(parse_csv_general(input, &seps, &esc));
    assert_eq!(result, vec![vec!["a::b", "c"]]);
}

#[test]
fn test_general_multi_byte_escape() {
    let input = b"$$hello$$::world\n";
    let seps = vec![b"::".to_vec()];
    let esc = b"$$".to_vec();
    let result = to_strings(parse_csv_general(input, &seps, &esc));
    assert_eq!(result, vec![vec!["hello", "world"]]);
}

#[test]
fn test_general_multi_byte_escape_doubled() {
    let input = b"$$val$$$$ue$$::other\n";
    let seps = vec![b"::".to_vec()];
    let esc = b"$$".to_vec();
    let result = to_strings(parse_csv_general(input, &seps, &esc));
    assert_eq!(result, vec![vec!["val$$ue", "other"]]);
}

#[test]
fn test_streaming_general_chunked() {
    let seps = vec![b"::".to_vec()];
    let esc = b"\"".to_vec();
    let mut parser = GeneralStreamingParser::new(seps, esc);
    parser.feed(b"a::b::").unwrap();
    assert_eq!(parser.available_rows(), 0);
    parser.feed(b"c\n1::2::3\n").unwrap();
    assert_eq!(parser.available_rows(), 2);

    let rows = parser.take_rows(10);
    assert_eq!(rows[0], vec![b"a".to_vec(), b"b".to_vec(), b"c".to_vec()]);
}

#[test]
fn test_streaming_general_finalize() {
    let seps = vec![b"::".to_vec()];
    let esc = b"\"".to_vec();
    let mut parser = GeneralStreamingParser::new(seps, esc);
    parser.feed(b"a::b\n1::2").unwrap();
    let rows1 = parser.take_rows(10);
    assert_eq!(rows1.len(), 1);

    let rows2 = parser.finalize();
    assert_eq!(rows2.len(), 1);
    assert_eq!(rows2[0], vec![b"1".to_vec(), b"2".to_vec()]);
}

#[test]
fn test_custom_newline_multi_byte() {
    let nl = Newlines::custom(vec![b"<br>".to_vec()]);
    let input = b"a,b<br>1,2<br>";
    let seps = vec![b",".to_vec()];
    let esc = b"\"".to_vec();
    let result = to_strings(parse_csv_general_with_newlines(input, &seps, &esc, &nl));
    assert_eq!(result, vec![vec!["a", "b"], vec!["1", "2"]]);
}

#[test]
fn test_custom_newline_no_trailing() {
    let nl = Newlines::custom(vec![b"|".to_vec()]);
    let input = b"a,b|1,2";
    let seps = vec![b",".to_vec()];
    let esc = b"\"".to_vec();
    let result = to_strings(parse_csv_general_with_newlines(input, &seps, &esc, &nl));
    assert_eq!(result, vec![vec!["a", "b"], vec!["1", "2"]]);
}

#[test]
fn test_custom_newline_quoted_field() {
    let nl = Newlines::custom(vec![b"|".to_vec()]);
    let input = b"\"a|b\",c|1,2|";
    let seps = vec![b",".to_vec()];
    let esc = b"\"".to_vec();
    let result = to_strings(parse_csv_general_with_newlines(input, &seps, &esc, &nl));
    assert_eq!(result, vec![vec!["a|b", "c"], vec!["1", "2"]]);
}

#[test]
fn test_custom_newline_streaming_chunked() {
    let nl = Newlines::custom(vec![b"|".to_vec()]);
    let seps = vec![b",".to_vec()];
    let esc = b"\"".to_vec();
    let mut parser = GeneralStreamingParserNewlines::new(seps, esc, nl);
    parser.feed(b"a,b|1,").unwrap();
    assert_eq!(parser.available_rows(), 1);
    parser.feed(b"2|3,4|").unwrap();
    assert_eq!(parser.available_rows(), 3);
    let rows = parser.take_rows(10);
    assert_eq!(rows[0], vec![b"a".to_vec(), b"b".to_vec()]);
    assert_eq!(rows[1], vec![b"1".to_vec(), b"2".to_vec()]);
    assert_eq!(rows[2], vec![b"3".to_vec(), b"4".to_vec()]);
}

#[test]
fn test_custom_newline_streaming_multi_byte() {
    let nl = Newlines::custom(vec![b"<br>".to_vec()]);
    let seps = vec![b",".to_vec()];
    let esc = b"\"".to_vec();
    let mut parser = GeneralStreamingParserNewlines::new(seps, esc, nl);
    parser.feed(b"a,b<br>1,2<br>").unwrap();
    let rows = parser.take_rows(10);
    assert_eq!(rows.len(), 2);
    assert_eq!(rows[0], vec![b"a".to_vec(), b"b".to_vec()]);
    assert_eq!(rows[1], vec![b"1".to_vec(), b"2".to_vec()]);
}

#[test]
fn general_strategies_agree_on_quoted_crlf_input() {
    let input = b"x::\"a::b\r\nc\"\r\ny::\"q\"\"r\"\n";
    let seps = vec![b"::".to_vec()];
    let esc = b"\"".to_vec();
    let expected = vec![vec!["x", "a::b\r\nc"], vec!["y", "q\"r"]];
    assert_eq!(to_strings(parse_csv_general(input, &seps, &esc)), expected);
    assert_eq!(to_strings(parse_csv_indexed_general(input, &seps, &esc)), expected);
    assert_eq!(owned_to_strings(parse_csv_parallel_general(input, &seps, &esc)), expected);
}

#[test]
fn build_index_general_gives_field_bounds() {
    let input = b"ab::c\nd\n";
    let seps = vec![b"::".to_vec()];
    let idx = build_index_general(input, &seps, b"\"");
    let bounds: Vec<Vec<(usize, usize)>> =
        idx.iter().map(|row| row.iter().map(|b| (b.start, b.end)).collect()).collect();
    assert_eq!(bounds, vec![vec![(0, 2), (4, 5)], vec![(6, 7)]]);
}

#[test]
fn general_boundaries_keep_an_open_quote_to_the_end() {
    let input = b"a::b\nx\"y::2\n";
    let seps = vec![b"::".to_vec()];
    // the quote opens a quoted run that reaches the end of the input
    let rows = parse_csv_boundaries_general(input, &seps, b"\"");
    assert_eq!(rows, vec![vec![(0, 1), (3, 4)], vec![(5, 12)]]);

    // the parallel parser cuts rows first and strips the trailing newline
    let parallel = parse_csv_parallel_boundaries_general(input, &seps, b"\"");
    assert_eq!(parallel, vec![vec![(0, 1), (3, 4)], vec![(5, 11)]]);

    // the dispatch reports the violation beside the same rows
    let s = separators_from_list(seps).unwrap();
    let e = escape_from_bytes(b"\"".to_vec()).unwrap();
    let nl = Newlines::default_newlines();
    let scanned = dispatch_boundary_parse(input, &s, &e, &nl).unwrap();
    assert_eq!(scanned.rows, rows);
    assert_eq!(scanned.violation, Some(Violation::UnexpectedQuote(6)));
    let scanned_parallel = dispatch_parallel_boundary_parse(input, &s, &e, &nl).unwrap();
    assert_eq!(scanned_parallel.rows, parallel);
    assert_eq!(scanned_parallel.violation, scanned.violation);
}

#[test]
fn general_boundaries_well_formed_input_has_no_violation() {
    let seps = vec![b"::".to_vec()];
    let input = b"\"a\"::b\n";
    assert_eq!(parse_csv_boundaries_general(input, &seps, b"\""), vec![vec![(0, 3), (5, 6)]]);
    let s = separators_from_list(seps).unwrap();
    let e = escape_from_bytes(b"\"".to_vec()).unwrap();
    let scanned = dispatch_boundary_parse(input, &s, &e, &Newlines::default_newlines()).unwrap();
    assert_eq!(scanned.violation, None);
}

#[test]
fn general_boundaries_take_inputs_of_any_size_shape() {
    // the general boundary parsers return the rows themselves, with no size error
    let rows: Vec<Vec<(usize, usize)>> = parse_csv_boundaries_general(b"", &[b",".to_vec()], b"\"");
    assert!(rows.is_empty());
    let nl = Newlines::custom(vec![b"|".to_vec()]);
    let rows = parse_csv_boundaries_general_with_newlines(b"a|b", &[b",".to_vec()], b"\"", &nl);
    assert_eq!(rows, vec![vec![(0, 1)], vec![(2, 3)]]);
    let rows = parse_csv_parallel_boundaries_general_with_newlines(b"a|b", &[b",".to_vec()], b"\"", &nl);
    assert_eq!(rows, vec![vec![(0, 1)], vec![(2, 3)]]);
}

#[test]
fn general_row_starts_skip_quoted_newlines() {
    assert_eq!(find_row_starts_general(b"a\n\"b\nc\"\nd", b"\""), vec![0, 2, 8]);
    let nl = Newlines::custom(vec![b"|".to_vec()]);
    assert_eq!(find_row_starts_general_with_newlines(b"a|b|", b"\"", &nl), vec![0, 2]);
}

#[test]
fn parallel_general_with_custom_newlines() {
    let nl = Newlines::custom(vec![b"<br>".to_vec()]);
    let seps = vec![b",".to_vec()];
    let rows = parse_csv_parallel_general_with_newlines(b"a,b<br>1,2", &seps, b"\"", &nl);
    assert_eq!(owned_to_strings(rows), vec![vec!["a", "b"], vec!["1", "2"]]);
}

#[test]
fn general_field_helpers_collapse_multi_byte_escapes() {
    assert_eq!(unescape_field_general(b"a$$$$b", b"$$"), b"a$$b".to_vec());
    assert_eq!(extract_field_owned_general(b"$$x$$$$y$$", 0, 10, b"$$"), b"x$$y".to_vec());
    assert_eq!(extract_field_owned_general(b"plain", 0, 5, b"$$"), b"plain".to_vec());
}

#[test]
fn general_streaming_keeps_blank_lines_like_batch() {
    let seps = vec![b"::".to_vec()];
    let esc = b"\"".to_vec();
    let batch = to_strings(parse_csv_general(b"a\n\nb\n", &seps, &esc));
    assert_eq!(batch, vec![vec!["a"], vec![""], vec!["b"]]);

    let mut parser = GeneralStreamingParser::new(seps, esc);
    parser.feed(b"a\n\nb\n").unwrap();
    let mut rows = parser.take_rows(usize::MAX);
    rows.extend(parser.finalize());
    assert_eq!(owned_to_strings(rows), vec![vec!["a"], vec![""], vec!["b"]]);
}

#[test]
fn general_streaming_waits_for_an_escape_split_across_chunks() {
    let mut parser = GeneralStreamingParser::new(vec![b"::".to_vec()], b"$$".to_vec());
    parser.feed(b"$").unwrap();
    assert_eq!(parser.available_rows(), 0);
    parser.feed(b"$a\nb$$::c\n").unwrap();
    assert_eq!(parser.take_rows(usize::MAX), vec![vec![b"a\nb".to_vec(), b"c".to_vec()]]);
    assert!(!parser.has_partial());

    let mut whole = GeneralStreamingParser::new(vec![b"::".to_vec()], b"$$".to_vec());
    whole.feed(b"$$a\nb$$::c\n").unwrap();
    assert_eq!(whole.take_rows(usize::MAX), vec![vec![b"a\nb".to_vec(), b"c".to_vec()]]);
}

#[test]
fn general_streaming_doubled_escape_split_inside_quotes() {
    // "$$x$$$$y$$" is one quoted field holding x$$y; cut it between the two halves
    // of the doubled escape and between the bytes of the closing escape.
    let input: &[u8] = b"$$x$$$$y$$::z\n";
    for cut in 1..input.len() {
        let mut parser = GeneralStreamingParser::new(vec![b"::".to_vec()], b"$$".to_vec());
        parser.feed(&input[..cut]).unwrap();
        parser.feed(&input[cut..]).unwrap();
        let mut rows = parser.take_rows(usize::MAX);
        rows.extend(parser.finalize());
        assert_eq!(rows, vec![vec![b"x$$y".to_vec(), b"z".to_vec()]], "cut at {}", cut);
    }
}

#[test]
fn general_streaming_custom_newline_split_across_chunks() {
    let seps = vec![b",".to_vec()];
    let nl = Newlines::custom(vec![b"|".to_vec(), b"||".to_vec()]);
    let input: &[u8] = b"a,b||c,d|e\n";
    let batch = to_strings(parse_csv_general_with_newlines(input, &seps, b"\"", &nl));
    for cut in 0..=input.len() {
        let mut parser = GeneralStreamingParserNewlines::new(seps.clone(), b"\"".to_vec(), nl.clone());
        parser.feed(&input[..cut]).unwrap();
        parser.feed(&input[cut..]).unwrap();
        let mut rows = parser.take_rows(usize::MAX);
        rows.extend(parser.finalize());
        assert_eq!(owned_to_strings(rows), batch, "cut at {}", cut);
    }
}

#[test]
fn general_streaming_reusable_after_finalize() {
    let mut parser = GeneralStreamingParser::new(vec![b",".to_vec()], b"\"".to_vec());
    parser.feed(b"a,b\n\"x").unwrap();
    let mut rows = parser.take_rows(usize::MAX);
    rows.extend(parser.finalize());
    assert_eq!(rows, vec![vec![b"a".to_vec(), b"b".to_vec()], vec![b"\"x".to_vec()]]);
    parser.feed(b"c,d\n").unwrap();
    assert_eq!(parser.take_rows(usize::MAX), vec![vec![b"c".to_vec(), b"d".to_vec()]]);
}

#[test]
fn general_boundaries_match_single_byte_boundaries() {
    let inputs: Vec<&[u8]> = vec![
        b"a,b\r\nc,d\n",
        b"\"x,\"\"y\"\"\",z\r\n\n,\n",
        b"a\"b,c\"\r\nd",
        b"\"open,\r\nrow",
        b"",
        b"\r\n\r\n",
        b"q\r,\"\"\rz\n",
    ];
    for input in inputs {
        let general = parse_csv_boundaries_general(input, &[b",".to_vec()], b"\"");
        let single = parse_csv_boundaries_with_config(input, b',', b'"').unwrap();
        assert_eq!(general, single.rows, "input {:?}", input);
    }
}

#[test]
fn parallel_general_keeps_blank_rows_like_batch() {
    let seps = vec![b"::".to_vec()];
    let esc = b"\"".to_vec();
    let input: &[u8] = b"a::b\n\n\"\"\nc\r\n";
    let expected = vec![vec!["a", "b"], vec![""], vec![""], vec!["c"]];
    assert_eq!(to_strings(parse_csv_general(input, &seps, &esc)), expected);
    assert_eq!(owned_to_strings(parse_csv_parallel_general(input, &seps, &esc)), expected);
    let bounds = parse_csv_parallel_boundaries_general(input, &seps, &esc);
    assert_eq!(bounds, vec![vec![(0, 1), (3, 4)], vec![(5, 5)], vec![(6, 8)], vec![(9, 10)]]);
    assert!(parse_csv_parallel_general(b"", &seps, &esc).is_empty());
}
