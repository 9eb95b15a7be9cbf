use rustycsv::base::simd_index::Violation;
use rustycsv::strategy::streaming::{parse_line_owned, shrink_excess, BufferOverflow, StreamingParser};

#[test]
fn test_streaming_chunked() {
    let mut parser = StreamingParser::new();
    parser.feed(b"a,b,").unwrap();
    assert_eq!(parser.available_rows(), 0);

    parser.feed(b"c\n1,2,3\n").unwrap();
    assert_eq!(parser.available_rows(), 2);

    let rows = parser.take_rows(10);
    assert_eq!(rows[0], vec![b"a".to_vec(), b"b".to_vec(), b"c".to_vec()]);
}

#[test]
fn test_streaming_quoted_across_chunks() {
    let mut parser = StreamingParser::new();
    parser.feed(b"a,\"hello ").unwrap();
    assert_eq!(parser.available_rows(), 0);

    parser.feed(b"world\",c\n").unwrap();
    assert_eq!(parser.available_rows(), 1);

    let rows = parser.take_rows(10);
    assert_eq!(rows[0], vec![b"a".to_vec(), b"hello world".to_vec(), b"c".to_vec()]);
}

#[test]
fn test_streaming_finalize() {
    let mut parser = StreamingParser::new();
    parser.feed(b"a,b,c\n1,2,3").unwrap();

    let rows1 = parser.take_rows(10);
    assert_eq!(rows1.len(), 1);

    let rows2 = parser.finalize();
    assert_eq!(rows2.len(), 1);
    assert_eq!(rows2[0], vec![b"1".to_vec(), b"2".to_vec(), b"3".to_vec()]);
}

#[test]
fn test_take_rows_partial() {
    let mut parser = StreamingParser::new();
    parser.feed(b"a\nb\nc\nd\n").unwrap();

    let rows1 = parser.take_rows(2);
    assert_eq!(rows1.len(), 2);

    let rows2 = parser.take_rows(10);
    assert_eq!(rows2.len(), 2);
}

#[test]
fn test_streaming_bare_cr_is_data() {
    let mut parser = StreamingParser::new();
    parser.feed(b"a\rb\n").unwrap();

    let rows = parser.take_rows(10);
    assert_eq!(rows.len(), 1);
    assert_eq!(rows[0], vec![b"a\rb".to_vec()]);
}

#[test]
fn test_streaming_bare_cr_at_chunk_boundary() {
    let mut parser = StreamingParser::new();
    parser.feed(b"a,b\r").unwrap();
    assert_eq!(parser.available_rows(), 0);

    parser.feed(b"\nc,d\n").unwrap();
    assert_eq!(parser.available_rows(), 2);

    let rows = parser.take_rows(10);
    assert_eq!(rows[0], vec![b"a".to_vec(), b"b".to_vec()]);
    assert_eq!(rows[1], vec![b"c".to_vec(), b"d".to_vec()]);
}

#[test]
fn test_streaming_bare_cr_at_chunk_boundary_not_crlf() {
    let mut parser = StreamingParser::new();
    parser.feed(b"a\r").unwrap();
    assert_eq!(parser.available_rows(), 0);

    parser.feed(b"b\n").unwrap();
    assert_eq!(parser.available_rows(), 1);

    let rows = parser.take_rows(10);
    assert_eq!(rows[0], vec![b"a\rb".to_vec()]);
}

#[test]
fn violations_survive_chunk_boundaries_and_compaction() {
    let mut parser = StreamingParser::new();
    parser.feed(b"a,b\nc,d\n").unwrap();
    assert_eq!(parser.buffer_size(), 0);

    parser.feed(b"x").unwrap();
    parser.feed(b"\"y,2\n").unwrap();
    assert_eq!(parser.violation(), Some(Violation::UnexpectedQuote(9)));
}

#[test]
fn unterminated_quote_is_reported_only_at_finalize() {
    let mut parser = StreamingParser::new();
    parser.feed(b"a,b\n").unwrap();
    parser.feed(b"\"x").unwrap();
    assert_eq!(parser.violation(), None);

    let _ = parser.finalize();
    assert_eq!(parser.violation(), Some(Violation::UnterminatedQuote(6)));
}

#[test]
fn shrink_excess_reclaims_when_capacity_exceeds_threshold() {
    let mut v: Vec<u8> = Vec::with_capacity(8192);
    v.push(1);
    shrink_excess(&mut v);
    assert!(
        v.capacity() < 8192,
        "capacity should have been reduced from 8192, got {}",
        v.capacity()
    );
    assert_eq!(v.len(), 1);
    assert_eq!(v[0], 1);
}

#[test]
fn shrink_excess_does_not_shrink_below_floor() {
    let mut v: Vec<u8> = Vec::with_capacity(1024);
    shrink_excess(&mut v);
    assert_eq!(v.capacity(), 1024, "capacity at the floor should not be shrunk");
}

#[test]
fn shrink_excess_preserves_when_ratio_acceptable() {
    let mut v: Vec<u8> = Vec::with_capacity(4000);
    v.extend_from_slice(&[0u8; 2000]);
    let cap_before = v.capacity();
    shrink_excess(&mut v);
    assert_eq!(v.capacity(), cap_before);
}

#[test]
fn shrink_excess_byte_floor_for_large_elements() {
    let mut v: Vec<Vec<Vec<u8>>> = Vec::with_capacity(200);
    shrink_excess(&mut v);
    assert!(v.capacity() < 200, "should shrink large-element Vec past byte-based floor");
}

#[test]
fn finalize_releases_buffer() {
    let mut parser = StreamingParser::new();
    parser.feed(b"a,b,c\n1,2,3").unwrap();
    assert!(parser.buffer_size() > 0);

    let rows = parser.finalize();
    assert_eq!(rows.len(), 2);
    assert_eq!(parser.buffer_size(), 0, "buffer should be released after finalize");
}

#[test]
fn reset_releases_memory() {
    let mut parser = StreamingParser::new();
    parser.feed(b"a,b,c\n1,2,3\n").unwrap();
    let _ = parser.take_rows(10);

    parser.reset();
    assert_eq!(parser.buffer_size(), 0);
    assert_eq!(parser.available_rows(), 0);
    assert!(!parser.has_partial());
}

#[test]
fn feed_past_buffer_cap_is_refused() {
    let mut parser = StreamingParser::new();
    parser.set_max_buffer_size(4);
    assert_eq!(parser.feed(b"abcdef"), Err(BufferOverflow));
    assert_eq!(parser.buffer_size(), 0);
    assert!(parser.feed(b"ab").is_ok());
    assert!(parser.has_partial());
}

#[test]
fn closing_quote_at_end_of_stream_is_not_a_violation() {
    let mut parser = StreamingParser::new();
    parser.feed(b"a,\"b\"").unwrap();
    let rows = parser.finalize();
    assert_eq!(rows, vec![vec![b"a".to_vec(), b"b".to_vec()]]);
    assert_eq!(parser.violation(), None);
}

#[test]
fn empty_line_is_one_empty_field() {
    let mut parser = StreamingParser::new();
    parser.feed(b"a\n\nb\n").unwrap();
    let rows = parser.take_rows(10);
    assert_eq!(rows, vec![vec![b"a".to_vec()], vec![b"".to_vec()], vec![b"b".to_vec()]]);
}

#[test]
fn custom_separator_and_escape() {
    let mut parser = StreamingParser::with_config(b';', b'\'');
    assert_eq!(parser.separator(), b';');
    assert_eq!(parser.escape(), b'\'');
    parser.feed(b"'a;b';c\n").unwrap();
    assert_eq!(parser.take_rows(10), vec![vec![b"a;b".to_vec(), b"c".to_vec()]]);

    let mut multi = StreamingParser::with_multi_sep(b";\t", b'"');
    assert_eq!(multi.separators(), b";\t");
    multi.feed(b"a;b\tc\n").unwrap();
    assert_eq!(multi.take_rows(10), vec![vec![b"a".to_vec(), b"b".to_vec(), b"c".to_vec()]]);
}

#[test]
fn parse_line_owned_unescapes_fields() {
    assert_eq!(
        parse_line_owned(b"\"a,\"\"b\"\"\",c", b",", b'"'),
        vec![b"a,\"b\"".to_vec(), b"c".to_vec()]
    );
}

#[test]
fn default_parser_is_the_comma_parser() {
    let mut p = StreamingParser::default();
    assert_eq!(p.separator(), b',');
    assert_eq!(p.escape(), b'"');
    p.feed(b"x,y\n").unwrap();
    assert_eq!(p.take_rows(1), vec![vec![b"x".to_vec(), b"y".to_vec()]]);
}

#[test]
fn finalize_clears_state_for_the_next_stream() {
    let mut parser = StreamingParser::new();
    parser.feed(b"a,b\n").unwrap();
    parser.feed(b"\"x").unwrap();
    let _ = parser.finalize();
    assert_eq!(parser.violation(), Some(Violation::UnterminatedQuote(6)));

    parser.feed(b"c,d\n").unwrap();
    assert_eq!(parser.violation(), None);
    assert_eq!(parser.take_rows(usize::MAX), vec![vec![b"c".to_vec(), b"d".to_vec()]]);
}
