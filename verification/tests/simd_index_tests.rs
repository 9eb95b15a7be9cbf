use rustycsv::base::simd_index::{RowEnd, StructuralIndex, Violation};

fn make_index(seps: Vec<u32>, ends: Vec<RowEnd>, len: u32) -> StructuralIndex {
    StructuralIndex {
        field_seps: seps,
        row_ends: ends,
        input_len: len,
        violation: None,
    }
}

fn collect_fields_cursor(idx: &StructuralIndex) -> Vec<Vec<(u32, u32)>> {
    let mut out = Vec::new();
    let mut rows = idx.rows_with_fields();
    while let Some(row) = rows.next() {
        out.push(row.fields.collect());
    }
    out
}

fn collect_fields_bsearch(idx: &StructuralIndex) -> Vec<Vec<(u32, u32)>> {
    let mut out = Vec::new();
    let mut rows = idx.rows();
    while let Some((rs, re, _next)) = rows.next() {
        out.push(idx.fields_in_row(rs, re).collect());
    }
    out
}

#[test]
fn test_single_field_no_sep() {
    let idx = make_index(vec![], vec![RowEnd { pos: 3, len: 1 }], 4);
    assert_eq!(idx.row_count(), 1);

    let fields: Vec<_> = idx.fields_in_row(0, 3).collect();
    assert_eq!(fields, vec![(0, 3)]);
}

#[test]
fn test_row_starts() {
    let idx = make_index(
        vec![],
        vec![
            RowEnd { pos: 1, len: 1 },
            RowEnd { pos: 3, len: 1 },
            RowEnd { pos: 5, len: 1 },
        ],
        6,
    );
    assert_eq!(idx.row_starts(), vec![0, 2, 4]);
}

#[test]
fn test_row_count_trailing_content() {
    let idx = make_index(vec![1], vec![], 3);
    assert_eq!(idx.row_count(), 1, "content after last row_end counts as a row");

    let idx = make_index(vec![], vec![], 0);
    assert_eq!(idx.row_count(), 0);

    let idx = make_index(vec![], vec![RowEnd { pos: 1, len: 1 }], 3);
    assert_eq!(idx.row_count(), 2);

    let idx = make_index(vec![], vec![RowEnd { pos: 1, len: 1 }], 2);
    assert_eq!(idx.row_count(), 1);
}

#[test]
fn test_rows_with_fields_matches_binary_search() {
    let idx = make_index(
        vec![1, 3, 7],
        vec![
            RowEnd { pos: 5, len: 1 },
            RowEnd { pos: 9, len: 1 },
            RowEnd { pos: 11, len: 1 },
        ],
        12,
    );

    let cursor = collect_fields_cursor(&idx);
    let bsearch = collect_fields_bsearch(&idx);

    assert_eq!(
        cursor, bsearch,
        "cursor-based and binary-search iterators must produce identical results"
    );

    assert_eq!(cursor.len(), 3);
    assert_eq!(cursor[0], vec![(0, 1), (2, 3), (4, 5)]);
    assert_eq!(cursor[1], vec![(6, 7), (8, 9)]);
    assert_eq!(cursor[2], vec![(10, 11)]);
}

#[test]
fn test_rows_with_fields_trailing_row_no_newline() {
    let idx = make_index(vec![1], vec![RowEnd { pos: 3, len: 1 }], 5);

    let cursor = collect_fields_cursor(&idx);
    let bsearch = collect_fields_bsearch(&idx);

    assert_eq!(cursor, bsearch);
    assert_eq!(cursor.len(), 2);
    assert_eq!(cursor[0], vec![(0, 1), (2, 3)]);
    assert_eq!(cursor[1], vec![(4, 5)]);
}

#[test]
fn row_iter_exact_size_with_trailing_row() {
    let idx = make_index(vec![], vec![RowEnd { pos: 1, len: 1 }], 3);
    let mut iter = idx.rows();

    assert_eq!(iter.len(), 2);
    let _ = iter.next();
    assert_eq!(iter.len(), 1);
    let _ = iter.next();
    assert_eq!(iter.len(), 0);
    assert!(iter.next().is_none());
}

#[test]
fn row_iter_exact_size_no_trailing_row() {
    let idx = make_index(vec![], vec![RowEnd { pos: 1, len: 1 }], 2);
    let mut iter = idx.rows();

    assert_eq!(iter.len(), 1);
    let _ = iter.next();
    assert_eq!(iter.len(), 0);
    assert!(iter.next().is_none());
}

#[test]
fn row_field_iter_exact_size_with_trailing_row() {
    let idx = make_index(vec![], vec![RowEnd { pos: 1, len: 1 }], 3);
    let mut iter = idx.rows_with_fields();

    assert_eq!(iter.len(), 2);
    let _ = iter.next();
    assert_eq!(iter.len(), 1);
    let _ = iter.next();
    assert_eq!(iter.len(), 0);
    assert!(iter.next().is_none());
}

#[test]
fn field_iter_exact_size_single_field() {
    let idx = make_index(vec![], vec![RowEnd { pos: 3, len: 1 }], 4);
    let mut fields = idx.fields_in_row(0, 3);

    assert_eq!(fields.len(), 1);
    let _ = fields.next();
    assert_eq!(fields.len(), 0);
    assert!(fields.next().is_none());
}

#[test]
fn field_iter_exact_size_multiple_fields() {
    let idx = make_index(vec![1, 3], vec![RowEnd { pos: 5, len: 1 }], 6);
    let mut fields = idx.fields_in_row(0, 5);

    assert_eq!(fields.len(), 3);
    let _ = fields.next();
    assert_eq!(fields.len(), 2);
    let _ = fields.next();
    assert_eq!(fields.len(), 1);
    let _ = fields.next();
    assert_eq!(fields.len(), 0);
    assert!(fields.next().is_none());
}

#[test]
fn row_iter_reports_next_row_start_past_crlf() {
    // "a\r\nb\n"
    let idx = make_index(vec![], vec![RowEnd { pos: 1, len: 2 }, RowEnd { pos: 4, len: 1 }], 5);
    let mut rows = idx.rows();
    assert_eq!(rows.next(), Some((0, 1, 3)));
    assert_eq!(rows.next(), Some((3, 4, 5)));
    assert_eq!(rows.next(), None);
}

#[test]
fn all_row_fields_lists_every_row() {
    let idx = make_index(vec![1, 5], vec![RowEnd { pos: 3, len: 1 }, RowEnd { pos: 7, len: 1 }], 8);
    assert_eq!(
        idx.all_row_fields(),
        vec![vec![(0, 1), (2, 3)], vec![(4, 5), (6, 7)]]
    );
}

#[test]
fn violation_position_and_rebase() {
    assert_eq!(Violation::UnexpectedQuote(3).position(), 3);
    assert_eq!(Violation::TrailingGarbage(7).rebase(10), Violation::TrailingGarbage(17));
    assert_eq!(Violation::UnterminatedQuote(0).rebase(5).position(), 5);
}

#[test]
fn cursor_matches_search_when_only_the_last_terminator_holds_a_separator() {
    // "a,b\r\n" with separators ',' and '\r': the '\r' at 3 lies in the final
    // terminator, which no row follows.
    let idx = make_index(vec![1, 3], vec![RowEnd { pos: 3, len: 2 }], 5);
    let cursor = collect_fields_cursor(&idx);
    let bsearch = collect_fields_bsearch(&idx);
    assert_eq!(cursor, bsearch);
    assert_eq!(cursor, vec![vec![(0, 1), (2, 3)]]);
}
