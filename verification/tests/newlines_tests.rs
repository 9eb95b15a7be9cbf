use rustycsv::base::newlines::{match_newline, Newlines};

#[test]
fn test_default_newlines_match_real_input() {
    let nl = Newlines::default_newlines();
    assert!(nl.is_default);
    assert_eq!(match_newline(b"abc\r\ndef", 3, &nl), 2);
    assert_eq!(match_newline(b"abc\ndef", 3, &nl), 1);
    assert_eq!(match_newline(b"abc\rdef", 3, &nl), 0);
    assert_eq!(nl.patterns[0], b"\r\n".to_vec());
}

#[test]
fn test_max_pattern_len_used_for_streaming_safety() {
    let nl = Newlines::custom(vec![b"|".to_vec(), b"<br>".to_vec()]);
    assert_eq!(nl.max_pattern_len(), 4);

    let nl2 = Newlines::custom(vec![b"||".to_vec()]);
    assert_eq!(nl2.max_pattern_len(), 2);

    let nl3 = Newlines::default_newlines();
    assert_eq!(nl3.max_pattern_len(), 2);

    let nl4 = Newlines {
        patterns: vec![],
        is_default: false,
    };
    assert_eq!(nl4.max_pattern_len(), 1);
}

#[test]
fn test_custom_newlines() {
    let nl = Newlines::custom(vec![b"|".to_vec(), b"<br>".to_vec()]);
    assert!(!nl.is_default);
    assert_eq!(nl.patterns[0], b"<br>".to_vec());
    assert_eq!(nl.patterns[1], b"|".to_vec());
}

#[test]
fn test_match_newline_pipe() {
    let nl = Newlines::custom(vec![b"|".to_vec()]);
    let input = b"hello|world";
    assert_eq!(match_newline(input, 5, &nl), 1);
    assert_eq!(match_newline(input, 0, &nl), 0);
}

#[test]
fn test_match_newline_multi_byte() {
    let nl = Newlines::custom(vec![b"<br>".to_vec()]);
    let input = b"hello<br>world";
    assert_eq!(match_newline(input, 5, &nl), 4);
    assert_eq!(match_newline(input, 0, &nl), 0);
}

#[test]
fn test_match_newline_greedy() {
    let nl = Newlines::custom(vec![b"|".to_vec(), b"||".to_vec()]);
    let input = b"a||b";
    assert_eq!(match_newline(input, 1, &nl), 2);
}

#[test]
fn custom_newlines_sort_is_stable_for_equal_lengths() {
    let nl = Newlines::custom(vec![b"a".to_vec(), b"xyz".to_vec(), b"b".to_vec(), b"uvw".to_vec()]);
    assert_eq!(
        nl.patterns,
        vec![b"xyz".to_vec(), b"uvw".to_vec(), b"a".to_vec(), b"b".to_vec()]
    );
}

#[test]
fn match_newline_at_end_of_input_is_zero() {
    let nl = Newlines::default_newlines();
    assert_eq!(match_newline(b"abc", 3, &nl), 0);
    assert_eq!(match_newline(b"abc\r", 3, &nl), 0);
}
