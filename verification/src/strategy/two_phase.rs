//! Two-phase parsing: build an index of row and field bounds, then extract
//! fields from it, all of them or a range of rows.

use vstd::prelude::*;
use std::borrow::Cow;

use crate::base::field::{extract_field, extract_field_cow, extract_field_cow_with_escape, extract_spec, strip_range_spec};
use crate::base::simd_index::{InputTooLarge, MAX_INPUT_SIZE, StructuralIndex, row_fields_of};
use crate::base::simd_scanner::{scan_structural, batch_bounds, batch_rows, row_values};
use crate::strategy::direct::{cow_rows_view, one_separator};

verus! {

/// Byte range of one field.
#[derive(Copy, Clone, Debug)]
pub struct FieldBound {
    pub start: usize,
    pub end: usize,
}

/// Row bounds (start, content end) and the field bounds of every row.
#[derive(Debug)]
pub struct CsvIndex {
    pub row_bounds: Vec<(usize, usize)>,
    pub field_bounds: Vec<Vec<FieldBound>>,
}

/// The field bounds of an index, as pairs.
pub open spec fn field_bounds_view(index: &CsvIndex) -> Seq<Seq<(usize, usize)>> {
    index.field_bounds@.map_values(|row: Vec<FieldBound>| row@.map_values(|b: FieldBound| (b.start, b.end)))
}

/// Every non-empty field range of the index lies within `len` bytes.
pub open spec fn fits(index: &CsvIndex, len: int) -> bool {
    forall|k: int, j: int|
        0 <= k < index.field_bounds@.len() && 0 <= j < index.field_bounds@[k]@.len() ==> {
            let b = #[trigger] index.field_bounds@[k]@[j];
            b.start >= b.end || b.end <= len
        }
}

/// The index of a whole input: one entry per row of the structural scan.
pub open spec fn csv_index_of(s: Seq<u8>, seps: Seq<u8>, esc: u8, index: &CsvIndex) -> bool {
    let b = batch_bounds(s, seps, esc);
    &&& field_bounds_view(index) == b.map_values(
        |row: Seq<(u32, u32)>| row.map_values(|f: (u32, u32)| (f.0 as usize, f.1 as usize)),
    )
    &&& index.row_bounds@.len() == b.len()
    &&& forall|k: int|
        0 <= k < b.len() ==> #[trigger] index.row_bounds@[k] == (
            b[k][0].0 as usize,
            b[k][b[k].len() - 1].1 as usize,
        )
    &&& fits(index, s.len() as int)
}

/// Values of all fields of the given bounds.
pub open spec fn values_of(s: Seq<u8>, bounds: Seq<Seq<(usize, usize)>>, esc: u8) -> Seq<Seq<Seq<u8>>> {
    bounds.map_values(|row: Seq<(usize, usize)>| row.map_values(|f: (usize, usize)| extract_spec(s, f.0 as int, f.1 as int, esc)))
}

impl CsvIndex {
    /// Number of indexed rows.
    pub fn row_count(&self) -> (r: usize)
        ensures
            r == self.row_bounds@.len(),
    {
        self.row_bounds.len()
    }

    /// Number of fields in row `row`, or 0 past the last row.
    pub fn field_count(&self, row: usize) -> (r: usize)
        ensures
            r == if row < self.field_bounds@.len() {
                self.field_bounds@[row as int]@.len()
            } else {
                0
            },
    {
        if row < self.field_bounds.len() {
            self.field_bounds[row].len()
        } else {
            0
        }
    }
}

fn structural_to_csv_index(idx: &StructuralIndex, input: &[u8], Ghost(seps): Ghost<Seq<u8>>, Ghost(esc): Ghost<u8>) -> (r: CsvIndex)
    requires
        idx.wf(),
        idx.input_len == input@.len(),
        idx.field_seps@.len() >= 0,
        batch_bounds(input@, seps, esc) == Seq::new(
            idx.spec_row_count(),
            |k: int| row_fields_of(idx.field_seps@, idx.row_ends@, idx.input_len, k),
        ),
    ensures
        csv_index_of(input@, seps, esc, &r),
{
    let ghost b = batch_bounds(input@, seps, esc);
    let bounds = idx.all_row_fields();
    let mut row_bounds: Vec<(usize, usize)> = Vec::new();
    let mut field_bounds: Vec<Vec<FieldBound>> = Vec::new();
    let mut k: usize = 0;
    while k < bounds.len()
        invariant
            idx.wf(),
            idx.input_len == input@.len(),
            b.len() == bounds@.len(),
            forall|i: int| 0 <= i < bounds@.len() ==> (#[trigger] bounds@[i])@ == b[i],
            forall|i: int| 0 <= i < bounds@.len() ==> b[i] == row_fields_of(idx.field_seps@, idx.row_ends@, idx.input_len, i),
            bounds@.len() == idx.spec_row_count(),
            0 <= k <= bounds@.len(),
            row_bounds@.len() == k,
            field_bounds@.len() == k,
            forall|i: int| 0 <= i < k ==> (#[trigger] field_bounds@[i])@.map_values(|fb: FieldBound| (fb.start, fb.end))
                == b[i].map_values(|f: (u32, u32)| (f.0 as usize, f.1 as usize)),
            forall|i: int| 0 <= i < k ==> #[trigger] row_bounds@[i] == (b[i][0].0 as usize, b[i][b[i].len() - 1].1 as usize),
            forall|i: int, j: int| 0 <= i < k && 0 <= j < field_bounds@[i]@.len() ==> {
                let fb = #[trigger] field_bounds@[i]@[j];
                fb.start <= input@.len() && fb.end <= input@.len()
            },
        decreases bounds@.len() - k,
    {
        let row = &bounds[k];
        proof {
            idx.lemma_row_fields_in_input(k as int);
        }
        let mut fields: Vec<FieldBound> = Vec::new();
        let mut j: usize = 0;
        while j < row.len()
            invariant
                row@ == b[k as int],
                forall|jj: int| 0 <= jj < row@.len() ==> (#[trigger] row@[jj]).0 <= input@.len() && row@[jj].1 <= input@.len(),
                0 <= j <= row@.len(),
                fields@.len() == j,
                forall|jj: int| 0 <= jj < j ==> (#[trigger] fields@[jj]) == (FieldBound { start: row@[jj].0 as usize, end: row@[jj].1 as usize }),
            decreases row@.len() - j,
        {
            let (fs, fe) = row[j];
            fields.push(FieldBound { start: fs as usize, end: fe as usize });
            j += 1;
        }
        let n = row.len();
        let (rs, _) = row[0];
        let (_, re) = row[n - 1];
        row_bounds.push((rs as usize, re as usize));
        assert(fields@.map_values(|fb: FieldBound| (fb.start, fb.end)) =~= row@.map_values(|f: (u32, u32)| (f.0 as usize, f.1 as usize)));
        field_bounds.push(fields);
        k += 1;
    }
    let n = field_bounds.len();
    if n > 0 {
        let last = &field_bounds[n - 1];
        if last.len() == 1 {
            let f = last[0];
            if f.start == f.end && f.start == input.len() {
                proof {
                    let kk = (n - 1) as int;
                    let m = |fb: FieldBound| (fb.start, fb.end);
                    let w = |f: (u32, u32)| (f.0 as usize, f.1 as usize);
                    assert(field_bounds@[kk]@.map_values(m)[0] == (f.start, f.end));
                    assert(b[kk].map_values(w)[0] == (b[kk][0].0 as usize, b[kk][0].1 as usize));
                    assert(b[kk][0].0 == f.start && b[kk][0].1 == f.end);
                    assert(b[kk][0].0 == idx.row_start(kk));
                    assert(b[kk].len() == 1);
                    assert(b[kk][0].1 == idx.content_end(kk));
                    if kk < idx.row_ends@.len() {
                        idx.lemma_end_in_input(kk);
                    }
                    assert(false);
                }
                field_bounds.pop();
                row_bounds.pop();
            }
        }
    }
    let r = CsvIndex { row_bounds, field_bounds };
    assert(field_bounds_view(&r) =~= b.map_values(
        |row: Seq<(u32, u32)>| row.map_values(|f: (u32, u32)| (f.0 as usize, f.1 as usize)),
    ));
    r
}

/// Index with the default comma separator and `"` escape.
pub fn build_index(input: &[u8]) -> (r: Result<CsvIndex, InputTooLarge>)
    ensures
        input@.len() > MAX_INPUT_SIZE <==> r is Err,
        r matches Ok(index) ==> csv_index_of(input@, seq![44u8], 34u8, &index),
{
    build_index_with_config(input, 44u8, 34u8)
}

/// Index with one separator byte and an escape byte.
pub fn build_index_with_config(input: &[u8], separator: u8, escape: u8) -> (r: Result<CsvIndex, InputTooLarge>)
    ensures
        input@.len() > MAX_INPUT_SIZE <==> r is Err,
        r matches Ok(index) ==> csv_index_of(input@, seq![separator], escape, &index),
{
    let seps = one_separator(separator);
    index_with(input, seps.as_slice(), escape)
}

/// Index with any set of single-byte separators.
pub fn build_index_multi_sep(input: &[u8], separators: &[u8], escape: u8) -> (r: Result<CsvIndex, InputTooLarge>)
    ensures
        input@.len() > MAX_INPUT_SIZE <==> r is Err,
        r matches Ok(index) ==> csv_index_of(input@, separators@, escape, &index),
{
    if separators.len() == 1 {
        assert(separators@ =~= seq![separators@[0]]);
        return build_index_with_config(input, separators[0], escape);
    }
    index_with(input, separators, escape)
}

fn index_with(input: &[u8], separators: &[u8], escape: u8) -> (r: Result<CsvIndex, InputTooLarge>)
    ensures
        input@.len() > MAX_INPUT_SIZE <==> r is Err,
        r matches Ok(index) ==> csv_index_of(input@, separators@, escape, &index),
{
    let idx = scan_structural(input, separators, escape)?;
    Ok(structural_to_csv_index(&idx, input, Ghost(separators@), Ghost(escape)))
}

/// Values of every indexed field, with the `"` escape.
pub fn extract_all<'a>(input: &'a [u8], index: &CsvIndex) -> (r: Vec<Vec<Cow<'a, [u8]>>>)
    requires
        fits(index, input@.len() as int),
    ensures
        cow_rows_view(r@) == values_of(input@, field_bounds_view(index), 34u8),
{
    extract_all_with_escape(input, index, 34u8)
}

/// Values of every indexed field.
pub fn extract_all_with_escape<'a>(input: &'a [u8], index: &CsvIndex, escape: u8) -> (r: Vec<Vec<Cow<'a, [u8]>>>)
    requires
        fits(index, input@.len() as int),
    ensures
        cow_rows_view(r@) == values_of(input@, field_bounds_view(index), escape),
{
    let n = index.field_bounds.len();
    extract_range(input, index, 0, n, escape)
}

/// Values of indexed rows `start_row..end_row`.
fn extract_range<'a>(input: &'a [u8], index: &CsvIndex, start_row: usize, end_row: usize, escape: u8) -> (r: Vec<Vec<Cow<'a, [u8]>>>)
    requires
        fits(index, input@.len() as int),
        start_row <= end_row <= index.field_bounds@.len(),
    ensures
        cow_rows_view(r@) == values_of(input@, field_bounds_view(index).subrange(start_row as int, end_row as int), escape),
{
    let ghost fbv = field_bounds_view(index);
    let ghost want = values_of(input@, fbv.subrange(start_row as int, end_row as int), escape);
    let mut rows: Vec<Vec<Cow<'a, [u8]>>> = Vec::new();
    let mut k = start_row;
    while k < end_row
        invariant
            fits(index, input@.len() as int),
            fbv == field_bounds_view(index),
            want == values_of(input@, fbv.subrange(start_row as int, end_row as int), escape),
            start_row <= k <= end_row <= index.field_bounds@.len(),
            rows@.len() == k - start_row,
            forall|i: int| 0 <= i < rows@.len() ==> cow_rows_view(rows@)[i] == want[i],
        decreases end_row - k,
    {
        let row = &index.field_bounds[k];
        let mut fields: Vec<Cow<'a, [u8]>> = Vec::new();
        let mut j: usize = 0;
        while j < row.len()
            invariant
                fits(index, input@.len() as int),
                row == index.field_bounds@[k as int],
                start_row <= k < end_row <= index.field_bounds@.len(),
                0 <= j <= row@.len(),
                fields@.len() == j,
                forall|jj: int| 0 <= jj < j ==> (#[trigger] fields@[jj])@ == extract_spec(input@, row@[jj].start as int, row@[jj].end as int, escape),
            decreases row@.len() - j,
        {
            let b = row[j];
            assert(index.field_bounds@[k as int]@[j as int] == b);
            let f = extract_field_cow_with_escape(input, b.start, b.end, escape);
            fields.push(f);
            j += 1;
        }
        assert(fields@.map_values(|f: Cow<'a, [u8]>| f@) =~= want[k - start_row]);
        rows.push(fields);
        k += 1;
    }
    assert(cow_rows_view(rows@) =~= want);
    rows
}

/// Every indexed field with surrounding `"` removed, borrowed from the input.
pub fn extract_all_borrowed<'a>(input: &'a [u8], index: &CsvIndex) -> (r: Vec<Vec<&'a [u8]>>)
    requires
        fits(index, input@.len() as int),
    ensures
        r@.len() == index.field_bounds@.len(),
        forall|k: int| 0 <= k < r@.len() ==> (#[trigger] r@[k])@.len() == index.field_bounds@[k]@.len(),
        forall|k: int, j: int| 0 <= k < r@.len() && 0 <= j < r@[k]@.len() ==> (#[trigger] r@[k]@[j])@ == strip_range_spec(
            input@,
            index.field_bounds@[k]@[j].start as int,
            index.field_bounds@[k]@[j].end as int,
            34u8,
        ),
{
    let mut rows: Vec<Vec<&'a [u8]>> = Vec::new();
    let mut k: usize = 0;
    while k < index.field_bounds.len()
        invariant
            fits(index, input@.len() as int),
            0 <= k <= index.field_bounds@.len(),
            rows@.len() == k,
            forall|i: int| 0 <= i < k ==> (#[trigger] rows@[i])@.len() == index.field_bounds@[i]@.len(),
            forall|i: int, j: int| 0 <= i < k && 0 <= j < rows@[i]@.len() ==> (#[trigger] rows@[i]@[j])@ == strip_range_spec(
                input@,
                index.field_bounds@[i]@[j].start as int,
                index.field_bounds@[i]@[j].end as int,
                34u8,
            ),
        decreases index.field_bounds@.len() - k,
    {
        let row = &index.field_bounds[k];
        let mut fields: Vec<&'a [u8]> = Vec::new();
        let mut j: usize = 0;
        while j < row.len()
            invariant
                fits(index, input@.len() as int),
                row == index.field_bounds@[k as int],
                0 <= k < index.field_bounds@.len(),
                0 <= j <= row@.len(),
                fields@.len() == j,
                forall|jj: int| 0 <= jj < j ==> (#[trigger] fields@[jj])@ == strip_range_spec(input@, row@[jj].start as int, row@[jj].end as int, 34u8),
            decreases row@.len() - j,
        {
            let b = row[j];
            assert(index.field_bounds@[k as int]@[j as int] == b);
            fields.push(extract_field(input, b.start, b.end));
            j += 1;
        }
        rows.push(fields);
        k += 1;
    }
    rows
}

/// Values (with the `"` escape) of up to `count` indexed rows from
/// `start_row`.
pub fn extract_rows<'a>(input: &'a [u8], index: &CsvIndex, start_row: usize, count: usize) -> (r: Vec<Vec<Cow<'a, [u8]>>>)
    requires
        fits(index, input@.len() as int),
        index.row_bounds@.len() == index.field_bounds@.len(),
        start_row + count <= usize::MAX,
        start_row <= index.row_bounds@.len(),
    ensures
        cow_rows_view(r@) == values_of(
            input@,
            field_bounds_view(index).subrange(
                start_row as int,
                if start_row + count < index.row_bounds@.len() {
                    start_row + count
                } else {
                    index.row_bounds@.len() as int
                },
            ),
            34u8,
        ),
{
    let total = index.row_count();
    let end_row = if start_row + count < total {
        start_row + count
    } else {
        total
    };
    extract_range(input, index, start_row, end_row, 34u8)
}

/// Parse with the default comma separator and `"` escape.
pub fn parse_csv_indexed(input: &[u8]) -> (r: Result<Vec<Vec<Cow<'_, [u8]>>>, InputTooLarge>)
    ensures
        input@.len() > MAX_INPUT_SIZE <==> r is Err,
        r matches Ok(rows) ==> cow_rows_view(rows@) == batch_rows(input@, seq![44u8], 34u8),
{
    parse_csv_indexed_with_config(input, 44u8, 34u8)
}

/// Parse with one separator byte and an escape byte.
pub fn parse_csv_indexed_with_config(input: &[u8], separator: u8, escape: u8) -> (r: Result<
    Vec<Vec<Cow<'_, [u8]>>>,
    InputTooLarge,
>)
    ensures
        input@.len() > MAX_INPUT_SIZE <==> r is Err,
        r matches Ok(rows) ==> cow_rows_view(rows@) == batch_rows(input@, seq![separator], escape),
{
    let index = build_index_with_config(input, separator, escape)?;
    let rows = extract_all_with_escape(input, &index, escape);
    proof {
        lemma_values_of_index(input@, seq![separator], escape);
    }
    Ok(rows)
}

/// Parse with any set of single-byte separators.
pub fn parse_csv_indexed_multi_sep<'a>(input: &'a [u8], separators: &[u8], escape: u8) -> (r: Result<
    Vec<Vec<Cow<'a, [u8]>>>,
    InputTooLarge,
>)
    ensures
        input@.len() > MAX_INPUT_SIZE <==> r is Err,
        r matches Ok(rows) ==> cow_rows_view(rows@) == batch_rows(input@, separators@, escape),
{
    let index = build_index_multi_sep(input, separators, escape)?;
    let rows = extract_all_with_escape(input, &index, escape);
    proof {
        lemma_values_of_index(input@, separators@, escape);
    }
    Ok(rows)
}

/// Extracting the widened batch bounds gives the batch rows.
proof fn lemma_values_of_index(s: Seq<u8>, seps: Seq<u8>, esc: u8)
    ensures
        values_of(
            s,
            batch_bounds(s, seps, esc).map_values(
                |row: Seq<(u32, u32)>| row.map_values(|f: (u32, u32)| (f.0 as usize, f.1 as usize)),
            ),
            esc,
        ) == batch_rows(s, seps, esc),
{
    let b = batch_bounds(s, seps, esc);
    let w = b.map_values(|row: Seq<(u32, u32)>| row.map_values(|f: (u32, u32)| (f.0 as usize, f.1 as usize)));
    assert forall|k: int| 0 <= k < b.len() implies values_of(s, w, esc)[k] =~= batch_rows(s, seps, esc)[k] by {
        assert(w[k] == b[k].map_values(|f: (u32, u32)| (f.0 as usize, f.1 as usize)));
    }
    assert(values_of(s, w, esc) =~= batch_rows(s, seps, esc));
}

} // verus!
