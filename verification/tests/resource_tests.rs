use rustycsv::base::newlines::Newlines;
use rustycsv::base::simd_index::Violation;
use rustycsv::resource::StreamingParserEnum;
use rustycsv::strategy::general_streaming::{GeneralStreamingParser, GeneralStreamingParserNewlines};
use rustycsv::strategy::streaming::{BufferOverflow, StreamingParser};

#[test]
fn single_byte_variant_forwards_and_reports_violations() {
    let mut p = StreamingParserEnum::SingleByte(StreamingParser::new());
    p.feed(b"a,b\nx\"y\n").unwrap();
    // the stray quote opens a quoted run, so the second line is not complete
    assert_eq!(p.available_rows(), 1);
    assert_eq!(p.violation(), Some(Violation::UnexpectedQuote(5)));
    let rows = p.take_rows(1);
    assert_eq!(rows, vec![vec![b"a".to_vec(), b"b".to_vec()]]);
    assert_eq!(p.available_rows(), 0);
    assert!(p.has_partial());
}

#[test]
fn general_variants_forward() {
    let mut g = StreamingParserEnum::General(GeneralStreamingParser::new(vec![b"::".to_vec()], b"\"".to_vec()));
    g.feed(b"a::b\nc").unwrap();
    assert_eq!(g.available_rows(), 1);
    assert!(g.has_partial());
    assert_eq!(g.violation(), None);
    let last = g.finalize();
    assert_eq!(last, vec![vec![b"a".to_vec(), b"b".to_vec()], vec![b"c".to_vec()]]);

    let nl = Newlines::custom(vec![b"|".to_vec()]);
    let mut n = StreamingParserEnum::GeneralNewlines(GeneralStreamingParserNewlines::new(
        vec![b",".to_vec()],
        b"\"".to_vec(),
        nl,
    ));
    n.feed(b"1,2|3").unwrap();
    assert_eq!(n.take_rows(10), vec![vec![b"1".to_vec(), b"2".to_vec()]]);
    assert_eq!(n.buffer_size(), 1);
}

#[test]
fn buffer_cap_applies_to_every_variant() {
    let mut p = StreamingParserEnum::SingleByte(StreamingParser::new());
    p.set_max_buffer_size(2);
    assert_eq!(p.feed(b"abc"), Err(BufferOverflow));
    let mut g = StreamingParserEnum::General(GeneralStreamingParser::new(vec![b",".to_vec()], b"\"".to_vec()));
    g.set_max_buffer_size(2);
    assert_eq!(g.feed(b"abc"), Err(BufferOverflow));
}
