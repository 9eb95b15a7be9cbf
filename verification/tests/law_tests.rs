use rustycsv::base::field::extract_field_owned_with_escape;
use rustycsv::encoder::{encode_string, escape_from_bytes, separators_from_list, FormulaConfig};
use rustycsv::strategy::encode::ReservedPatterns;
use rustycsv::strategy::encoding::EncodingTarget;
use rustycsv::strategy::direct::parse_csv_full_with_config;
use rustycsv::strategy::encode::{write_quoted_field, write_quoted_field_general};
use rustycsv::strategy::general::{extract_field_owned_general, parse_csv_general};
use rustycsv::strategy::general_streaming::GeneralStreamingParser;
use rustycsv::strategy::streaming::StreamingParser;
use rustycsv::strategy::zero_copy::parse_csv_boundaries;
use rustycsv::base::field::extract_field_cow_with_escape;
use rustycsv::base::simd_scanner::scan_structural;

#[test]
fn quoting_then_extracting_gives_the_field_back() {
    for field in [&b""[..], b"plain", b"a\"b", b"\"\"", b"x,\"y\"\nz"] {
        let mut out = Vec::new();
        write_quoted_field(&mut out, field, b'"');
        assert_eq!(extract_field_owned_with_escape(&out, 0, out.len(), b'"'), field.to_vec());
    }
}

#[test]
fn general_quoting_then_extracting_gives_the_field_back() {
    for field in [&b""[..], b"a$$b", b"$", b"$$$", b"q"] {
        let mut out = Vec::new();
        write_quoted_field_general(&mut out, field, b"$$");
        assert_eq!(extract_field_owned_general(&out, 0, out.len(), b"$$"), field.to_vec());
    }
}

#[test]
fn streaming_in_any_two_chunks_matches_batch() {
    let input: &[u8] = b"a,\"b\r\n,c\"\r\nd\"e,f\n\n\"g\"\"h\",i\r";
    let batch: Vec<Vec<Vec<u8>>> = parse_csv_full_with_config(input, b',', b'"')
        .unwrap()
        .into_iter()
        .map(|row| row.into_iter().map(|f| f.into_owned()).collect())
        .collect();
    let batch_violation = scan_structural(input, b",", b'"').unwrap().violation;
    for split in 0..=input.len() {
        let mut p = StreamingParser::new();
        p.feed(&input[..split]).unwrap();
        let mut rows = p.take_rows(usize::MAX);
        p.feed(&input[split..]).unwrap();
        rows.extend(p.take_rows(usize::MAX));
        rows.extend(p.finalize());
        assert_eq!(rows, batch, "split at {split}");
        assert_eq!(p.violation(), batch_violation, "split at {split}");
    }
}

#[test]
fn boundaries_extract_to_the_batch_rows() {
    let input: &[u8] = b"x,\"y,\"\"z\"\"\"\n1,2";
    let scanned = parse_csv_boundaries(input).unwrap();
    let from_bounds: Vec<Vec<Vec<u8>>> = scanned
        .rows
        .iter()
        .map(|row| row.iter().map(|&(s, e)| extract_field_cow_with_escape(input, s, e, b'"').into_owned()).collect())
        .collect();
    let batch: Vec<Vec<Vec<u8>>> = parse_csv_full_with_config(input, b',', b'"')
        .unwrap()
        .into_iter()
        .map(|row| row.into_iter().map(|f| f.into_owned()).collect())
        .collect();
    assert_eq!(from_bounds, batch);
}

#[test]
fn dumped_rows_parse_back_with_formula_replacements() {
    let rows: Vec<Vec<Vec<u8>>> = vec![
        vec![b"plain".to_vec(), b"with,comma".to_vec(), b"say \"hi\"".to_vec()],
        vec![b"".to_vec()],
        vec![b"multi\nline".to_vec(), b"cr\r".to_vec(), b"=1+1".to_vec(), b"".to_vec()],
    ];
    let seps = separators_from_list(vec![b",".to_vec()]).unwrap();
    let esc = escape_from_bytes(b"\"".to_vec()).unwrap();
    let reserved = ReservedPatterns::new(vec![b",".to_vec(), b"\"".to_vec(), b"\n".to_vec(), b"\r".to_vec()]);
    for line_sep in [&b"\n"[..], b"\r\n"] {
        let formula = FormulaConfig { rules: vec![(b'=', b"'".to_vec())] };
        let encoded = encode_string(&rows, &seps, &esc, line_sep, formula, EncodingTarget::Utf8, &reserved);
        let dump: Vec<u8> = encoded.concat();
        let parsed: Vec<Vec<Vec<u8>>> = parse_csv_full_with_config(&dump, b',', b'"')
            .unwrap()
            .into_iter()
            .map(|row| row.into_iter().map(|f| f.into_owned()).collect())
            .collect();
        let mut expected = rows.clone();
        expected[2][2] = b"'=1+1".to_vec();
        assert_eq!(parsed, expected);
    }
}

#[test]
fn general_streaming_in_any_three_chunks_matches_batch() {
    let input: &[u8] = b"$$a::b$$::c\r\n\nd$$$$::e\r\nlast";
    let seps = vec![b"::".to_vec()];
    let esc = b"$$".to_vec();
    let batch: Vec<Vec<Vec<u8>>> = parse_csv_general(input, &seps, &esc)
        .into_iter()
        .map(|row| row.into_iter().map(|f| f.to_vec()).collect())
        .collect();
    assert_eq!(batch.len(), 4);
    for i in 0..=input.len() {
        for j in i..=input.len() {
            let mut parser = GeneralStreamingParser::new(seps.clone(), esc.clone());
            parser.feed(&input[..i]).unwrap();
            let mut rows = parser.take_rows(usize::MAX);
            parser.feed(&input[i..j]).unwrap();
            parser.feed(&input[j..]).unwrap();
            rows.extend(parser.take_rows(usize::MAX));
            rows.extend(parser.finalize());
            assert_eq!(rows, batch, "cuts at {} and {}", i, j);
        }
    }
}

#[test]
fn streaming_chunks_do_not_matter_for_any_configuration() {
    // The separator is also the first byte of "\r\n": the streaming parser
    // reads such input its own way, but the same way however it is cut.
    let input: &[u8] = b"a\r\nb\r\"c\r\n\"\"d\r\"\n";
    let mut whole = StreamingParser::with_config(b'\r', b'"');
    whole.feed(input).unwrap();
    let whole_available = whole.available_rows();
    let whole_violation = whole.violation();
    let mut whole_rows = whole.take_rows(usize::MAX);
    whole_rows.extend(whole.finalize());
    let whole_final_violation = whole.violation();
    for split in 0..=input.len() {
        let mut p = StreamingParser::with_config(b'\r', b'"');
        p.feed(&input[..split]).unwrap();
        p.feed(&input[split..]).unwrap();
        assert_eq!(p.available_rows(), whole_available, "split at {split}");
        assert_eq!(p.violation(), whole_violation, "split at {split}");
        let mut rows = p.take_rows(usize::MAX);
        rows.extend(p.finalize());
        assert_eq!(rows, whole_rows, "split at {split}");
        assert_eq!(p.violation(), whole_final_violation, "split at {split}");
    }
}

#[test]
fn feeding_one_byte_at_a_time_matches_one_feed() {
    let input: &[u8] = b"a,\"b\r\n,c\"\r\nd\"e,f\n\n\"g\"\"h\",i\r\n\"open";
    let mut whole = StreamingParser::new();
    whole.feed(input).unwrap();
    let mut bytewise = StreamingParser::new();
    for b in input {
        bytewise.feed(std::slice::from_ref(b)).unwrap();
    }
    assert_eq!(bytewise.available_rows(), whole.available_rows());
    assert_eq!(bytewise.violation(), whole.violation());
    let mut rows_b = bytewise.take_rows(usize::MAX);
    rows_b.extend(bytewise.finalize());
    let mut rows_w = whole.take_rows(usize::MAX);
    rows_w.extend(whole.finalize());
    assert_eq!(rows_b, rows_w);
    assert_eq!(bytewise.violation(), whole.violation());

    let mut g_whole = GeneralStreamingParser::new(vec![b"::".to_vec()], b"$$".to_vec());
    let g_input: &[u8] = b"$$a\n::$$$$b$$::c\r\n\nd";
    g_whole.feed(g_input).unwrap();
    let mut g_bytes = GeneralStreamingParser::new(vec![b"::".to_vec()], b"$$".to_vec());
    for b in g_input {
        g_bytes.feed(std::slice::from_ref(b)).unwrap();
    }
    assert_eq!(g_bytes.available_rows(), g_whole.available_rows());
    let mut gb = g_bytes.take_rows(usize::MAX);
    gb.extend(g_bytes.finalize());
    let mut gw = g_whole.take_rows(usize::MAX);
    gw.extend(g_whole.finalize());
    assert_eq!(gb, gw);
}

#[test]
fn buffer_cap_holds_until_the_next_set() {
    let mut p = StreamingParser::new();
    p.feed(b"a,b\nc").unwrap();
    let (size, rows, partial) = (p.buffer_size(), p.available_rows(), p.has_partial());
    let cap = size + 2;
    p.set_max_buffer_size(cap);
    assert_eq!((p.buffer_size(), p.available_rows(), p.has_partial()), (size, rows, partial));
    assert_eq!(p.violation(), None);
    // refused exactly above the cap, with nothing changed
    assert!(p.feed(b"ddd").is_err());
    assert_eq!((p.buffer_size(), p.available_rows(), p.has_partial()), (size, rows, partial));
    // other calls keep the cap
    let _ = p.take_rows(usize::MAX);
    p.feed(b"dd").unwrap();
    assert_eq!(p.buffer_size(), cap);
    assert!(p.feed(b"e").is_err());
    let _ = p.finalize();
    assert!(p.feed(&vec![b'x'; cap + 1]).is_err());
    p.reset();
    p.feed(&vec![b'x'; cap]).unwrap();
    assert!(p.feed(b"x").is_err());
}
