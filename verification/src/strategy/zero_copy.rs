//! Boundary parsing: the (start, end) byte range of every field of every
//! row, with the first quoting violation, for callers that slice the input
//! themselves.

use vstd::prelude::*;

use crate::base::simd_index::{InputTooLarge, MAX_INPUT_SIZE, ScannedBoundaries, StructuralIndex, row_fields_of};
use crate::base::simd_scanner::{scan_structural, batch_bounds, batch_rows, row_values, scan_violation};
use crate::base::field::extract_spec;
use crate::strategy::direct::one_separator;

verus! {

/// Bounds widened to `usize`.
pub open spec fn widen_bounds(b: Seq<Seq<(u32, u32)>>) -> Seq<Seq<(usize, usize)>> {
    b.map_values(|row: Seq<(u32, u32)>| row.map_values(|f: (u32, u32)| (f.0 as usize, f.1 as usize)))
}

/// The rows of scanned boundaries, as sequences.
pub open spec fn rows_view(rows: Seq<Vec<(usize, usize)>>) -> Seq<Seq<(usize, usize)>> {
    rows.map_values(|row: Vec<(usize, usize)>| row@)
}

/// The field boundaries and violation of a whole input.
pub open spec fn scanned_of(s: Seq<u8>, seps: Seq<u8>, esc: u8, r: ScannedBoundaries) -> bool {
    &&& rows_view(r.rows@) == widen_bounds(batch_bounds(s, seps, esc))
    &&& r.violation == scan_violation(s, seps, esc)
}

/// Widened bounds of every row of a well-formed index; no row is empty.
pub fn boundaries_of(idx: &StructuralIndex) -> (r: Vec<Vec<(usize, usize)>>)
    requires
        idx.wf(),
    ensures
        r@.len() == idx.spec_row_count(),
        forall|k: int| 0 <= k < r@.len() ==> (#[trigger] r@[k])@ == row_fields_of(
            idx.field_seps@,
            idx.row_ends@,
            idx.input_len,
            k,
        ).map_values(|f: (u32, u32)| (f.0 as usize, f.1 as usize)),
{
    let bounds = idx.all_row_fields();
    let mut rows: Vec<Vec<(usize, usize)>> = Vec::new();
    let mut k: usize = 0;
    while k < bounds.len()
        invariant
            bounds@.len() == idx.spec_row_count(),
            forall|i: int| 0 <= i < bounds@.len() ==> (#[trigger] bounds@[i])@ == row_fields_of(
                idx.field_seps@,
                idx.row_ends@,
                idx.input_len,
                i,
            ),
            0 <= k <= bounds@.len(),
            rows@.len() == k,
            forall|i: int| 0 <= i < k ==> (#[trigger] rows@[i])@ == row_fields_of(
                idx.field_seps@,
                idx.row_ends@,
                idx.input_len,
                i,
            ).map_values(|f: (u32, u32)| (f.0 as usize, f.1 as usize)),
        decreases bounds@.len() - k,
    {
        let row = &bounds[k];
        let mut out: Vec<(usize, usize)> = Vec::new();
        let mut j: usize = 0;
        while j < row.len()
            invariant
                0 <= j <= row@.len(),
                out@.len() == j,
                forall|jj: int| 0 <= jj < j ==> #[trigger] out@[jj] == (row@[jj].0 as usize, row@[jj].1 as usize),
            decreases row@.len() - j,
        {
            let (fs, fe) = row[j];
            out.push((fs as usize, fe as usize));
            j += 1;
        }
        assert(out@ =~= row@.map_values(|f: (u32, u32)| (f.0 as usize, f.1 as usize)));
        if out.len() > 0 {
            rows.push(out);
        }
        k += 1;
    }
    rows
}

/// Boundaries with the default comma separator and `"` escape.
pub fn parse_csv_boundaries(input: &[u8]) -> (r: Result<ScannedBoundaries, InputTooLarge>)
    ensures
        input@.len() > MAX_INPUT_SIZE <==> r is Err,
        r matches Ok(b) ==> scanned_of(input@, seq![44u8], 34u8, b),
{
    parse_csv_boundaries_with_config(input, 44u8, 34u8)
}

/// Boundaries with one separator byte and an escape byte.
pub fn parse_csv_boundaries_with_config(input: &[u8], separator: u8, escape: u8) -> (r: Result<
    ScannedBoundaries,
    InputTooLarge,
>)
    ensures
        input@.len() > MAX_INPUT_SIZE <==> r is Err,
        r matches Ok(b) ==> scanned_of(input@, seq![separator], escape, b),
{
    let seps = one_separator(separator);
    scan_boundaries(input, seps.as_slice(), escape)
}

/// Boundaries with any set of single-byte separators.
pub fn parse_csv_boundaries_multi_sep(input: &[u8], separators: &[u8], escape: u8) -> (r: Result<
    ScannedBoundaries,
    InputTooLarge,
>)
    ensures
        input@.len() > MAX_INPUT_SIZE <==> r is Err,
        r matches Ok(b) ==> scanned_of(input@, separators@, escape, b),
{
    if separators.len() == 1 {
        assert(separators@ =~= seq![separators@[0]]);
        return parse_csv_boundaries_with_config(input, separators[0], escape);
    }
    scan_boundaries(input, separators, escape)
}

/// Boundaries with one separator byte and the `"` escape.
pub fn parse_csv_boundaries_simple(input: &[u8], separator: u8) -> (r: Result<ScannedBoundaries, InputTooLarge>)
    ensures
        input@.len() > MAX_INPUT_SIZE <==> r is Err,
        r matches Ok(b) ==> scanned_of(input@, seq![separator], 34u8, b),
{
    parse_csv_boundaries_with_config(input, separator, 34u8)
}

fn scan_boundaries(input: &[u8], separators: &[u8], escape: u8) -> (r: Result<ScannedBoundaries, InputTooLarge>)
    ensures
        input@.len() > MAX_INPUT_SIZE <==> r is Err,
        r matches Ok(b) ==> scanned_of(input@, separators@, escape, b),
{
    let idx = scan_structural(input, separators, escape)?;
    let rows = boundaries_of(&idx);
    let r = ScannedBoundaries { rows, violation: idx.violation };
    assert(rows_view(r.rows@) =~= widen_bounds(batch_bounds(input@, separators@, escape)));
    Ok(r)
}

/// Extracting the field values at the boundaries gives the direct parse's
/// rows.
pub proof fn law_boundaries_give_rows(s: Seq<u8>, seps: Seq<u8>, esc: u8, b: ScannedBoundaries)
    requires
        scanned_of(s, seps, esc, b),
    ensures
        rows_view(b.rows@).map_values(
            |row: Seq<(usize, usize)>| row.map_values(|f: (usize, usize)| extract_spec(s, f.0 as int, f.1 as int, esc)),
        ) == batch_rows(s, seps, esc),
{
    let bb = batch_bounds(s, seps, esc);
    let lhs = rows_view(b.rows@).map_values(
        |row: Seq<(usize, usize)>| row.map_values(|f: (usize, usize)| extract_spec(s, f.0 as int, f.1 as int, esc)),
    );
    assert forall|k: int| 0 <= k < lhs.len() implies lhs[k] == batch_rows(s, seps, esc)[k] by {
        assert(rows_view(b.rows@)[k] == widen_bounds(bb)[k]);
        assert(lhs[k] =~= row_values(s, bb[k], esc));
    }
    assert(lhs =~= batch_rows(s, seps, esc));
}

} // verus!
