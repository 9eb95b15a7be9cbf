use rustycsv::base::simd_index::{RowEnd, StructuralIndex, Violation};
use rustycsv::base::simd_scanner::{prefix_xor, scan_structural, scan_structural_incremental};

const CHUNK: usize = 16;

fn scan(input: &[u8]) -> StructuralIndex {
    scan_structural(input, b",", b'"').expect("test input fits the structural index")
}

fn violation_of(input: &str) -> Option<Violation> {
    scan(input.as_bytes()).violation
}

fn with_simd_prefix(suffix: &str) -> String {
    let mut s = String::new();
    while s.len() < 2 * CHUNK {
        s.push_str("aaaa,bbbb\n");
    }
    s.push_str(suffix);
    s
}

fn prefix_xor_reference(mask: u64, bits: usize) -> u64 {
    let mut result = 0u64;
    let mut parity = 0u64;
    for i in 0..bits {
        parity ^= (mask >> i) & 1;
        result |= parity << i;
    }
    result
}

#[test]
fn simd_scanner_well_formed_input_reports_no_violation() {
    assert_eq!(violation_of("a,b\n\"x,y\",2\n"), None);
}

#[test]
fn doubled_quote_inside_a_quoted_field_is_not_a_violation() {
    assert_eq!(violation_of("\"say \"\"hi\"\"\",2\n"), None);
}

#[test]
fn empty_quoted_field_is_not_a_violation() {
    assert_eq!(violation_of("\"\",2\n"), None);
}

#[test]
fn quote_in_the_middle_of_an_unquoted_field_is_a_violation() {
    assert_eq!(violation_of("a,b\nx\"y,2\n"), Some(Violation::UnexpectedQuote(5)));
}

#[test]
fn quote_after_a_bare_carriage_return_is_a_violation() {
    assert_eq!(violation_of("a\r\"b\"\n"), Some(Violation::UnexpectedQuote(2)));
}

#[test]
fn quote_opening_a_field_after_a_separator_is_not_a_violation() {
    assert_eq!(violation_of("a,\"b\"\n"), None);
}

#[test]
fn text_immediately_after_a_closing_quote_is_a_violation() {
    assert_eq!(violation_of("\"x\"junk,2\n"), Some(Violation::TrailingGarbage(3)));
}

#[test]
fn closing_quote_followed_by_crlf_is_not_a_violation() {
    assert_eq!(violation_of("\"x\",\"y\"\r\n"), None);
}

#[test]
fn closing_quote_followed_by_a_bare_carriage_return_is_a_violation() {
    assert_eq!(violation_of("\"x\"\rjunk"), Some(Violation::TrailingGarbage(3)));
}

#[test]
fn closing_quote_at_end_of_input_is_not_a_violation() {
    assert_eq!(violation_of("a,\"b\""), None);
}

#[test]
fn input_ending_inside_a_quoted_field_is_a_violation() {
    let input = "a,b\n\"x,2\n";
    assert_eq!(violation_of(input), Some(Violation::UnterminatedQuote(input.len())));
}

#[test]
fn an_earlier_positional_violation_outranks_an_unterminated_quote() {
    assert_eq!(violation_of("x\"y\n\"unterminated"), Some(Violation::UnexpectedQuote(1)));
}

#[test]
fn quote_violation_is_detected_past_the_first_simd_chunk() {
    let input = with_simd_prefix("x\"y,2\n");
    let expected = input.len() - 6 + 1;
    assert_eq!(violation_of(&input), Some(Violation::UnexpectedQuote(expected)));
}

#[test]
fn trailing_garbage_is_detected_past_the_first_simd_chunk() {
    let input = with_simd_prefix("\"x\"junk\n");
    let expected = input.len() - 8 + 3;
    assert_eq!(violation_of(&input), Some(Violation::TrailingGarbage(expected)));
}

#[test]
fn well_formed_input_spanning_many_chunks_reports_no_violation() {
    let input = with_simd_prefix("\"quoted, field\",\"say \"\"hi\"\"\"\r\n");
    assert_eq!(violation_of(&input), None);
}

#[test]
fn violations_are_detected_at_every_chunk_boundary_offset() {
    for pad in 0..(2 * CHUNK + 3) {
        let mut input = "a".repeat(pad);
        let quote_at = input.len() + 1;
        input.push_str("x\"y\n");
        assert_eq!(
            violation_of(&input),
            Some(Violation::UnexpectedQuote(quote_at)),
            "pad={pad}"
        );
    }
}

#[test]
fn test_prefix_xor_known_values() {
    let test_masks: &[u64] = &[0, 1, 0b11, 0b101, 0b1000, 0b1001, 0xFF, 0xAAAA, 0x8001, 0xFFFF];

    for &mask in test_masks {
        let expected = prefix_xor_reference(mask, 16);
        assert_eq!(prefix_xor(mask) & 0xFFFF, expected, "prefix_xor wrong for mask {mask:#018b}");
    }

    assert_eq!(prefix_xor(1) & 0xFFFF, 0xFFFF);
    assert_eq!(prefix_xor(0b11) & 0xFFFF, 1);
    assert_eq!(prefix_xor(0b100001) & 0xFFFF, 0b011111);
}

#[test]
fn prefix_xor_covers_all_sixty_four_bits() {
    assert_eq!(prefix_xor(1), u64::MAX);
    assert_eq!(prefix_xor(1 << 63), 1 << 63);
    for mask in [0u64, 0xDEAD_BEEF_0123_4567, u64::MAX, 0x8000_0000_0000_0001] {
        assert_eq!(prefix_xor(mask), prefix_xor_reference(mask, 64));
    }
}

#[test]
fn test_quote_suppresses_separator() {
    let input = b"a,\"b,c\",d\n";
    let idx = scan(input);
    assert_eq!(idx.field_seps, vec![1, 7], "comma at pos 4 must be suppressed");
    assert_eq!(idx.row_ends, vec![RowEnd { pos: 9, len: 1 }]);
}

#[test]
fn test_quote_suppresses_newline() {
    let input = b"a,\"b\nc\",d\n";
    let idx = scan(input);
    assert_eq!(idx.field_seps, vec![1, 7]);
    assert_eq!(
        idx.row_ends,
        vec![RowEnd { pos: 9, len: 1 }],
        "\\n at pos 4 inside quotes must not produce a row end"
    );
}

#[test]
fn test_crlf_inside_quotes_suppressed() {
    let input = b"a,\"b\r\nc\",d\n";
    let idx = scan(input);
    assert_eq!(idx.field_seps, vec![1, 8]);
    assert_eq!(
        idx.row_ends,
        vec![RowEnd { pos: 10, len: 1 }],
        "\\r\\n inside quotes must not produce a row end"
    );
}

#[test]
fn test_doubled_quotes_keep_subsequent_separator_suppressed() {
    let input = b"\"say \"\"hi\"\"\",done\n";
    let idx = scan(input);
    assert_eq!(idx.field_seps, vec![12], "only the comma between fields should be detected");
    assert_eq!(idx.row_ends, vec![RowEnd { pos: 17, len: 1 }]);
}

#[test]
fn test_crlf_produces_row_end_len_2() {
    let input = b"a,b\r\nc,d\n";
    let idx = scan(input);
    assert_eq!(idx.field_seps, vec![1, 6]);
    assert_eq!(
        idx.row_ends,
        vec![RowEnd { pos: 3, len: 2 }, RowEnd { pos: 8, len: 1 }],
        "CRLF must produce pos=\\r, len=2"
    );
}

#[test]
fn test_bare_cr_is_data() {
    let input = b"a\rb\n";
    let idx = scan(input);
    assert_eq!(idx.field_seps, Vec::<u32>::new(), "no separators");
    assert_eq!(
        idx.row_ends,
        vec![RowEnd { pos: 3, len: 1 }],
        "bare \\r is data, not a row ending"
    );
}

#[test]
fn test_cr_at_chunk_boundary_then_lf() {
    let mut input = vec![b'x'; 15];
    input.push(b'\r');
    input.push(b'\n');
    input.extend_from_slice(b"y\n");

    let idx = scan(&input);
    assert_eq!(idx.field_seps, Vec::<u32>::new());
    assert_eq!(
        idx.row_ends,
        vec![RowEnd { pos: 15, len: 2 }, RowEnd { pos: 18, len: 1 }],
        "CRLF split across chunks must still produce len=2"
    );
}

#[test]
fn test_carry_across_chunk_boundary() {
    let mut input = Vec::new();
    input.extend_from_slice(b"x,\"0123456789ab");
    input.extend_from_slice(b"cdefghij\",y\n");

    let idx = scan(&input);
    assert_eq!(
        idx.field_seps,
        vec![1, 24],
        "carry must propagate: commas inside the quoted field must be suppressed"
    );
    assert_eq!(idx.row_ends, vec![RowEnd { pos: 26, len: 1 }]);

    let fields: Vec<_> = idx.fields_in_row(0, 26).collect();
    assert_eq!(fields, vec![(0, 1), (2, 24), (25, 26)]);
}

#[test]
fn test_even_quote_count_carry_is_zero() {
    let mut input = Vec::new();
    input.extend_from_slice(b"\"0123456789abcd\"");
    input.extend_from_slice(b",x,y\n");

    let idx = scan(&input);
    assert_eq!(
        idx.field_seps,
        vec![16, 18],
        "even quotes → carry=0, so separators in next chunk must be detected"
    );
    assert_eq!(idx.row_ends, vec![RowEnd { pos: 20, len: 1 }]);
}

#[test]
fn test_odd_quote_count_carry() {
    let mut input = vec![b'"'];
    input.extend_from_slice(&[b'x'; 14]);
    input.push(b',');
    input.extend_from_slice(b"\",y\n");

    let idx = scan(&input);
    assert_eq!(
        idx.field_seps,
        vec![17],
        "comma at pos 15 is inside quotes (carry=1), comma at 17 is real"
    );
    assert_eq!(idx.row_ends, vec![RowEnd { pos: 19, len: 1 }]);
}

#[test]
fn test_input_shorter_than_chunk() {
    let input = b"a,b\n";
    let idx = scan(input);
    assert_eq!(idx.field_seps, vec![1]);
    assert_eq!(idx.row_ends, vec![RowEnd { pos: 3, len: 1 }]);
    assert_eq!(idx.fields_in_row(0, 3).collect(), vec![(0, 1), (2, 3)]);
}

#[test]
fn test_single_field_no_separator_no_newline() {
    let input = b"hello";
    let idx = scan(input);
    assert_eq!(idx.field_seps, Vec::<u32>::new());
    assert_eq!(idx.row_ends, Vec::<RowEnd>::new());
    assert_eq!(idx.row_count(), 1, "trailing content without newline is one row");
    let fields: Vec<_> = idx.fields_in_row(0, 5).collect();
    assert_eq!(fields, vec![(0, 5)]);
}

#[test]
fn test_empty_quoted_field() {
    let input = b"a,\"\",c\n";
    let idx = scan(input);
    assert_eq!(idx.field_seps, vec![1, 4]);
    assert_eq!(idx.row_ends, vec![RowEnd { pos: 6, len: 1 }]);
}

#[test]
fn test_multiple_separators() {
    let input = b"a;b\tc\n";
    let idx = scan_structural(input, b";\t", b'"').unwrap();
    assert_eq!(idx.field_seps, vec![1, 3]);
    assert_eq!(idx.row_ends, vec![RowEnd { pos: 5, len: 1 }]);
    assert_eq!(idx.fields_in_row(0, 5).collect(), vec![(0, 1), (2, 3), (4, 5)]);
}

#[test]
fn test_large_input_all_separators_correct() {
    let line = b"aaa,bbb,ccc\n";
    let mut input = Vec::new();
    for _ in 0..100 {
        input.extend_from_slice(line);
    }
    let idx = scan(&input);

    assert_eq!(idx.row_ends.len(), 100);

    let expected_seps: Vec<u32> = (0..100u32).flat_map(|r| vec![r * 12 + 3, r * 12 + 7]).collect();
    assert_eq!(idx.field_seps, expected_seps);

    for (i, re) in idx.row_ends.iter().enumerate() {
        assert_eq!(re.pos, (i as u32) * 12 + 11, "row {i} end position");
        assert_eq!(re.len, 1, "row {i} end length");
    }
}

#[test]
fn test_incremental_scan_exact_output() {
    let input = b"a,b\nc,d\n";
    let mut seps = Vec::new();
    let mut ends = Vec::new();

    let carry = scan_structural_incremental(input, 0, b",", b'"', false, &mut seps, &mut ends, &mut None);

    assert!(!carry);
    assert_eq!(seps, vec![1, 5]);
    assert_eq!(ends, vec![RowEnd { pos: 3, len: 1 }, RowEnd { pos: 7, len: 1 }]);
}

#[test]
fn test_incremental_with_in_quotes_true() {
    let input = b"inside,more\",real\n";
    let mut seps = Vec::new();
    let mut ends = Vec::new();

    let carry = scan_structural_incremental(input, 0, b",", b'"', true, &mut seps, &mut ends, &mut None);

    assert!(!carry, "quote closed at pos 11, should not be in quotes");
    assert_eq!(seps, vec![12], "comma at 6 is inside quotes, only 12 is real");
    assert_eq!(ends, vec![RowEnd { pos: 17, len: 1 }]);
}

#[test]
fn incremental_scan_from_an_offset_appends_and_keeps_quote_open() {
    let input = b"x,y\n\"a,b";
    let mut seps = vec![99];
    let mut ends = Vec::new();
    let mut violation = None;
    let carry = scan_structural_incremental(input, 4, b",", b'"', false, &mut seps, &mut ends, &mut violation);
    assert!(carry);
    assert_eq!(seps, vec![99]);
    assert!(ends.is_empty());
    assert_eq!(violation, None);
}

#[test]
fn test_input_len_stored_as_u32() {
    let idx = scan(b"a,b\n");
    assert_eq!(idx.input_len, 4_u32);

    let max: usize = u32::MAX as usize;
    assert_eq!(max as u32, u32::MAX);

    let overflow: usize = max + 1;
    assert_eq!(overflow as u32, 0, "u32 wraparound confirms why guard is needed");
}
