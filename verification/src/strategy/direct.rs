//! Direct batch parsing: scan once, then extract every field, borrowing
//! from the input wherever no escape needs collapsing.

use vstd::prelude::*;
use std::borrow::Cow;

use crate::base::field::extract_field_cow_with_escape;
use crate::base::simd_index::{InputTooLarge, MAX_INPUT_SIZE, row_fields_of};
use crate::base::simd_scanner::{scan_structural, batch_rows, batch_bounds, row_values};

verus! {

/// Field values of parsed rows.
pub open spec fn cow_rows_view<'a>(rows: Seq<Vec<Cow<'a, [u8]>>>) -> Seq<Seq<Seq<u8>>> {
    rows.map_values(|row: Vec<Cow<'a, [u8]>>| row@.map_values(|f: Cow<'a, [u8]>| f@))
}

/// A single separator byte.
pub fn one_separator(separator: u8) -> (r: Vec<u8>)
    ensures
        r@ == seq![separator],
{
    let mut v: Vec<u8> = Vec::new();
    v.push(separator);
    assert(v@ =~= seq![separator]);
    v
}

/// Parse with the default comma separator and `"` escape.
pub fn parse_csv_full(input: &[u8]) -> (r: Result<Vec<Vec<Cow<'_, [u8]>>>, InputTooLarge>)
    ensures
        input@.len() > MAX_INPUT_SIZE <==> r is Err,
        r matches Ok(rows) ==> cow_rows_view(rows@) == batch_rows(input@, seq![44u8], 34u8),
{
    parse_csv_full_with_config(input, 44u8, 34u8)
}

/// Parse with one separator byte and an escape byte.
pub fn parse_csv_full_with_config(input: &[u8], separator: u8, escape: u8) -> (r: Result<
    Vec<Vec<Cow<'_, [u8]>>>,
    InputTooLarge,
>)
    ensures
        input@.len() > MAX_INPUT_SIZE <==> r is Err,
        r matches Ok(rows) ==> cow_rows_view(rows@) == batch_rows(input@, seq![separator], escape),
{
    let seps = one_separator(separator);
    parse_rows(input, seps.as_slice(), escape)
}

/// Parse with any set of single-byte separators.
pub fn parse_csv_full_multi_sep<'a>(input: &'a [u8], separators: &[u8], escape: u8) -> (r: Result<
    Vec<Vec<Cow<'a, [u8]>>>,
    InputTooLarge,
>)
    ensures
        input@.len() > MAX_INPUT_SIZE <==> r is Err,
        r matches Ok(rows) ==> cow_rows_view(rows@) == batch_rows(input@, separators@, escape),
{
    if separators.len() == 1 {
        assert(separators@ =~= seq![separators@[0]]);
        return parse_csv_full_with_config(input, separators[0], escape);
    }
    parse_rows(input, separators, escape)
}

/// Scan, then extract the value of every field of every row.
fn parse_rows<'a>(input: &'a [u8], separators: &[u8], escape: u8) -> (r: Result<
    Vec<Vec<Cow<'a, [u8]>>>,
    InputTooLarge,
>)
    ensures
        input@.len() > MAX_INPUT_SIZE <==> r is Err,
        r matches Ok(rows) ==> cow_rows_view(rows@) == batch_rows(input@, separators@, escape),
{
    let idx = scan_structural(input, separators, escape)?;
    let bounds = idx.all_row_fields();
    let ghost want = batch_rows(input@, separators@, escape);
    let ghost bb = batch_bounds(input@, separators@, escape);
    let mut rows: Vec<Vec<Cow<'a, [u8]>>> = Vec::new();
    let mut k: usize = 0;
    while k < bounds.len()
        invariant
            idx.wf(),
            bounds@.len() == idx.spec_row_count(),
            bb.len() == bounds@.len(),
            forall|i: int| 0 <= i < bounds@.len() ==> (#[trigger] bounds@[i])@ == bb[i],
            forall|i: int| 0 <= i < bounds@.len() ==> bb[i] == row_fields_of(idx.field_seps@, idx.row_ends@, idx.input_len, i),
            idx.input_len == input@.len(),
            want == bb.map_values(|row: Seq<(u32, u32)>| row_values(input@, row, escape)),
            0 <= k <= bounds@.len(),
            rows@.len() == k,
            forall|i: int| 0 <= i < k ==> cow_rows_view(rows@)[i] == want[i],
        decreases bounds@.len() - k,
    {
        let row = &bounds[k];
        proof {
            idx.lemma_row_fields_in_input(k as int);
        }
        let mut fields: Vec<Cow<'a, [u8]>> = Vec::new();
        let mut j: usize = 0;
        while j < row.len()
            invariant
                row@ == bb[k as int],
                forall|jj: int| 0 <= jj < row@.len() ==> (#[trigger] row@[jj]).0 <= input@.len() && row@[jj].1 <= input@.len(),
                0 <= j <= row@.len(),
                fields@.len() == j,
                forall|jj: int| 0 <= jj < j ==> (#[trigger] fields@[jj])@ == row_values(input@, row@, escape)[jj],
            decreases row@.len() - j,
        {
            let (fs, fe) = row[j];
            assert(row@[j as int] == (fs, fe));
            let f = extract_field_cow_with_escape(input, fs as usize, fe as usize, escape);
            fields.push(f);
            j += 1;
        }
        assert(fields@.map_values(|f: Cow<'a, [u8]>| f@) =~= row_values(input@, row@, escape));
        rows.push(fields);
        k += 1;
    }
    assert(cow_rows_view(rows@) =~= want);
    Ok(rows)
}

/// Same as `parse_csv_full`.
pub fn parse_csv(input: &[u8]) -> (r: Result<Vec<Vec<Cow<'_, [u8]>>>, InputTooLarge>)
    ensures
        input@.len() > MAX_INPUT_SIZE <==> r is Err,
        r matches Ok(rows) ==> cow_rows_view(rows@) == batch_rows(input@, seq![44u8], 34u8),
{
    parse_csv_full(input)
}

/// Same as `parse_csv_full_with_config`.
pub fn parse_csv_with_config(input: &[u8], separator: u8, escape: u8) -> (r: Result<
    Vec<Vec<Cow<'_, [u8]>>>,
    InputTooLarge,
>)
    ensures
        input@.len() > MAX_INPUT_SIZE <==> r is Err,
        r matches Ok(rows) ==> cow_rows_view(rows@) == batch_rows(input@, seq![separator], escape),
{
    parse_csv_full_with_config(input, separator, escape)
}

/// Same as `parse_csv_full`.
pub fn parse_csv_fast(input: &[u8]) -> (r: Result<Vec<Vec<Cow<'_, [u8]>>>, InputTooLarge>)
    ensures
        input@.len() > MAX_INPUT_SIZE <==> r is Err,
        r matches Ok(rows) ==> cow_rows_view(rows@) == batch_rows(input@, seq![44u8], 34u8),
{
    parse_csv_full(input)
}

/// Same as `parse_csv_full_with_config`.
pub fn parse_csv_fast_with_config(input: &[u8], separator: u8, escape: u8) -> (r: Result<
    Vec<Vec<Cow<'_, [u8]>>>,
    InputTooLarge,
>)
    ensures
        input@.len() > MAX_INPUT_SIZE <==> r is Err,
        r matches Ok(rows) ==> cow_rows_view(rows@) == batch_rows(input@, seq![separator], escape),
{
    parse_csv_full_with_config(input, separator, escape)
}

/// Same as `parse_csv_full_multi_sep`.
pub fn parse_csv_multi_sep<'a>(input: &'a [u8], separators: &[u8], escape: u8) -> (r: Result<
    Vec<Vec<Cow<'a, [u8]>>>,
    InputTooLarge,
>)
    ensures
        input@.len() > MAX_INPUT_SIZE <==> r is Err,
        r matches Ok(rows) ==> cow_rows_view(rows@) == batch_rows(input@, separators@, escape),
{
    parse_csv_full_multi_sep(input, separators, escape)
}

/// Same as `parse_csv_full_multi_sep`.
pub fn parse_csv_fast_multi_sep<'a>(input: &'a [u8], separators: &[u8], escape: u8) -> (r: Result<
    Vec<Vec<Cow<'a, [u8]>>>,
    InputTooLarge,
>)
    ensures
        input@.len() > MAX_INPUT_SIZE <==> r is Err,
        r matches Ok(rows) ==> cow_rows_view(rows@) == batch_rows(input@, separators@, escape),
{
    parse_csv_full_multi_sep(input, separators, escape)
}

} // verus!
