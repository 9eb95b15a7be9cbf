//! Parallel parsing: one structural scan on the calling thread, then the
//! rows are handed out to rayon's thread pool, each worker producing the
//! fields of one row. Results come back in row order, so every entry point
//! returns what its sequential counterpart returns.

use vstd::prelude::*;
use rayon::iter::{IndexedParallelIterator, IntoParallelIterator, ParallelIterator};

use crate::base::field::extract_field_owned_with_escape;
use crate::base::simd_index::{InputTooLarge, MAX_INPUT_SIZE, ScannedBoundaries, row_fields_of};
use crate::base::simd_scanner::{scan_structural, batch_bounds, batch_rows, row_values};
use crate::strategy::direct::one_separator;
use crate::strategy::general::owned_rows_view;
use crate::strategy::zero_copy::{scanned_of, rows_view, widen_bounds};

verus! {

/// Apply `f` to every item on rayon's thread pool, in parallel, and gather
/// the results in item order: `Vec::into_par_iter`, then
/// `ParallelIterator::map`, then `IndexedParallelIterator::collect_into_vec`,
/// which fills the output slot `i` with `f` of item `i` and leaves exactly as
/// many results as items. What `f` itself does is proved where `f` is
/// written; this contract only carries its own `requires` and `ensures`
/// through the pool.
#[verifier::external_body]
pub(crate) fn par_map<A: Send, T: Send, F: Fn(A) -> T + Sync + Send>(items: Vec<A>, f: F) -> (r: Vec<T>)
    requires
        forall|i: int| 0 <= i < items@.len() ==> f.requires((items@[i],)),
    ensures
        r@.len() == items@.len(),
        forall|i: int| 0 <= i < items@.len() ==> f.ensures((items@[i],), #[trigger] r@[i]),
{
    let mut out: Vec<T> = Vec::new();
    items.into_par_iter().map(f).collect_into_vec(&mut out);
    out
}

/// Owned values of the fields at `row`.
fn extract_row_owned(input: &[u8], row: &[(u32, u32)], escape: u8) -> (r: Vec<Vec<u8>>)
    requires
        forall|j: int| 0 <= j < row@.len() ==> (#[trigger] row@[j]).0 <= input@.len() && row@[j].1 <= input@.len(),
    ensures
        r@.map_values(|f: Vec<u8>| f@) == row_values(input@, row@, escape),
{
    let mut fields: Vec<Vec<u8>> = Vec::new();
    let mut j: usize = 0;
    while j < row.len()
        invariant
            forall|jj: int| 0 <= jj < row@.len() ==> (#[trigger] row@[jj]).0 <= input@.len() && row@[jj].1 <= input@.len(),
            0 <= j <= row@.len(),
            fields@.len() == j,
            forall|jj: int| 0 <= jj < j ==> (#[trigger] fields@[jj])@ == row_values(input@, row@, escape)[jj],
        decreases row@.len() - j,
    {
        let (fs, fe) = row[j];
        assert(row@[j as int] == (fs, fe));
        fields.push(extract_field_owned_with_escape(input, fs as usize, fe as usize, escape));
        j += 1;
    }
    assert(fields@.map_values(|f: Vec<u8>| f@) =~= row_values(input@, row@, escape));
    fields
}

/// Field bounds of `row`, widened.
fn widen_row(row: &[(u32, u32)]) -> (r: Vec<(usize, usize)>)
    ensures
        r@ == row@.map_values(|f: (u32, u32)| (f.0 as usize, f.1 as usize)),
{
    let mut out: Vec<(usize, usize)> = Vec::new();
    let mut j: usize = 0;
    while j < row.len()
        invariant
            0 <= j <= row@.len(),
            out@.len() == j,
            forall|jj: int| 0 <= jj < j ==> #[trigger] out@[jj] == (row@[jj].0 as usize, row@[jj].1 as usize),
        decreases row@.len() - j,
    {
        let (fs, fe) = row[j];
        out.push((fs as usize, fe as usize));
        j += 1;
    }
    assert(out@ =~= row@.map_values(|f: (u32, u32)| (f.0 as usize, f.1 as usize)));
    out
}

/// Scan, then extract the owned fields of every row in parallel.
fn parse_rows_parallel(input: &[u8], separators: &[u8], escape: u8) -> (r: Result<Vec<Vec<Vec<u8>>>, InputTooLarge>)
    ensures
        input@.len() > MAX_INPUT_SIZE <==> r is Err,
        r matches Ok(rows) ==> owned_rows_view(rows@) == batch_rows(input@, separators@, escape),
{
    let idx = scan_structural(input, separators, escape)?;
    let bounds = idx.all_row_fields();
    let ghost bb = batch_bounds(input@, separators@, escape);
    proof {
        assert forall|k: int, j: int| 0 <= k < bounds@.len() && 0 <= j < bounds@[k]@.len() implies
            (#[trigger] bounds@[k]@[j]).0 <= input@.len() && bounds@[k]@[j].1 <= input@.len() by {
            idx.lemma_row_fields_in_input(k);
            assert(bounds@[k]@ == row_fields_of(idx.field_seps@, idx.row_ends@, idx.input_len, k));
        }
    }
    let ghost s = input@;
    let f = |row: Vec<(u32, u32)>| -> (fields: Vec<Vec<u8>>)
        requires
            forall|j: int| 0 <= j < row@.len() ==> (#[trigger] row@[j]).0 <= input@.len() && row@[j].1 <= input@.len(),
        ensures
            fields@.map_values(|x: Vec<u8>| x@) == row_values(input@, row@, escape),
        { extract_row_owned(input, row.as_slice(), escape) };
    let ghost bv = bounds@;
    let rows = par_map(bounds, f);
    proof {
        assert forall|k: int| 0 <= k < rows@.len() implies #[trigger] owned_rows_view(rows@)[k] == batch_rows(s, separators@, escape)[k] by {
            assert(bv[k]@ == bb[k]);
            assert(f.ensures((bv[k],), rows@[k]));
        }
        assert(owned_rows_view(rows@) =~= batch_rows(s, separators@, escape));
    }
    Ok(rows)
}

/// Scan, then take the bounds of every row in parallel.
fn parse_boundaries_parallel(input: &[u8], separators: &[u8], escape: u8) -> (r: Result<ScannedBoundaries, InputTooLarge>)
    ensures
        input@.len() > MAX_INPUT_SIZE <==> r is Err,
        r matches Ok(b) ==> scanned_of(input@, separators@, escape, b),
{
    let idx = scan_structural(input, separators, escape)?;
    let bounds = idx.all_row_fields();
    let ghost bb = batch_bounds(input@, separators@, escape);
    let f = |row: Vec<(u32, u32)>| -> (out: Vec<(usize, usize)>)
        ensures
            out@ == row@.map_values(|x: (u32, u32)| (x.0 as usize, x.1 as usize)),
        { widen_row(row.as_slice()) };
    let ghost bv = bounds@;
    let rows = par_map(bounds, f);
    let r = ScannedBoundaries { rows, violation: idx.violation };
    proof {
        assert forall|k: int| 0 <= k < r.rows@.len() implies #[trigger] rows_view(r.rows@)[k] == widen_bounds(bb)[k] by {
            assert(bv[k]@ == bb[k]);
            assert(f.ensures((bv[k],), r.rows@[k]));
        }
        assert(rows_view(r.rows@) =~= widen_bounds(bb));
    }
    Ok(r)
}

/// Parse in parallel with the default comma separator and `"` escape.
pub fn parse_csv_parallel(input: &[u8]) -> (r: Result<Vec<Vec<Vec<u8>>>, InputTooLarge>)
    ensures
        input@.len() > MAX_INPUT_SIZE <==> r is Err,
        r matches Ok(rows) ==> owned_rows_view(rows@) == batch_rows(input@, seq![44u8], 34u8),
{
    parse_csv_parallel_with_config(input, 44u8, 34u8)
}

/// Parse in parallel with one separator byte and an escape byte.
pub fn parse_csv_parallel_with_config(input: &[u8], separator: u8, escape: u8) -> (r: Result<
    Vec<Vec<Vec<u8>>>,
    InputTooLarge,
>)
    ensures
        input@.len() > MAX_INPUT_SIZE <==> r is Err,
        r matches Ok(rows) ==> owned_rows_view(rows@) == batch_rows(input@, seq![separator], escape),
{
    let seps = one_separator(separator);
    parse_rows_parallel(input, seps.as_slice(), escape)
}

/// Parse in parallel with any set of single-byte separators.
pub fn parse_csv_parallel_multi_sep(input: &[u8], separators: &[u8], escape: u8) -> (r: Result<
    Vec<Vec<Vec<u8>>>,
    InputTooLarge,
>)
    ensures
        input@.len() > MAX_INPUT_SIZE <==> r is Err,
        r matches Ok(rows) ==> owned_rows_view(rows@) == batch_rows(input@, separators@, escape),
{
    if separators.len() == 1 {
        assert(separators@ =~= seq![separators@[0]]);
        return parse_csv_parallel_with_config(input, separators[0], escape);
    }
    parse_rows_parallel(input, separators, escape)
}

/// Boundaries in parallel with the default comma separator and `"` escape.
pub fn parse_csv_parallel_boundaries(input: &[u8]) -> (r: Result<ScannedBoundaries, InputTooLarge>)
    ensures
        input@.len() > MAX_INPUT_SIZE <==> r is Err,
        r matches Ok(b) ==> scanned_of(input@, seq![44u8], 34u8, b),
{
    parse_csv_parallel_boundaries_with_config(input, 44u8, 34u8)
}

/// Boundaries in parallel with one separator byte and an escape byte.
pub fn parse_csv_parallel_boundaries_with_config(input: &[u8], separator: u8, escape: u8) -> (r: Result<
    ScannedBoundaries,
    InputTooLarge,
>)
    ensures
        input@.len() > MAX_INPUT_SIZE <==> r is Err,
        r matches Ok(b) ==> scanned_of(input@, seq![separator], escape, b),
{
    let seps = one_separator(separator);
    parse_boundaries_parallel(input, seps.as_slice(), escape)
}

/// Boundaries in parallel with any set of single-byte separators.
pub fn parse_csv_parallel_boundaries_multi_sep(input: &[u8], separators: &[u8], escape: u8) -> (r: Result<
    ScannedBoundaries,
    InputTooLarge,
>)
    ensures
        input@.len() > MAX_INPUT_SIZE <==> r is Err,
        r matches Ok(b) ==> scanned_of(input@, separators@, escape, b),
{
    if separators.len() == 1 {
        assert(separators@ =~= seq![separators@[0]]);
        return parse_csv_parallel_boundaries_with_config(input, separators[0], escape);
    }
    parse_boundaries_parallel(input, separators, escape)
}

} // verus!
