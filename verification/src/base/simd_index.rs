//! The structural index produced by the scanner and consumed by every batch
//! strategy.
//!
//! Positions are `u32`, so an indexed input holds at most `MAX_INPUT_SIZE`
//! bytes; the scanner refuses anything longer.

use vstd::prelude::*;

verus! {

/// Largest input, in bytes, that the structural index can describe.
pub const MAX_INPUT_SIZE: usize = 4294967295;

/// A row terminator: `len` is 1 for `\n` and 2 for `\r\n`, with `pos` at the
/// first byte of the terminator.
#[derive(Debug, Clone, Copy, PartialEq, Eq, Structural)]
pub struct RowEnd {
    pub pos: u32,
    pub len: u8,
}

/// The first quoting rule an input breaks, with the byte position at which
/// it is broken.
#[derive(Copy, Clone, Debug, Eq, PartialEq, Structural)]
pub enum Violation {
    /// A quote opened a field somewhere other than the start of a field.
    UnexpectedQuote(usize),
    /// A closing quote was followed by a byte that does not end the field;
    /// the position is that byte's.
    TrailingGarbage(usize),
    /// Input ended inside a quoted field; the position is the input length.
    UnterminatedQuote(usize),
}

impl Violation {
    /// Byte position of the violation.
    pub fn position(&self) -> (r: usize)
        ensures
            r == self.pos(),
    {
        match self {
            Violation::UnexpectedQuote(p) => *p,
            Violation::TrailingGarbage(p) => *p,
            Violation::UnterminatedQuote(p) => *p,
        }
    }

    pub open spec fn pos(self) -> usize {
        match self {
            Violation::UnexpectedQuote(p) => p,
            Violation::TrailingGarbage(p) => p,
            Violation::UnterminatedQuote(p) => p,
        }
    }

    /// The same violation, with the position shifted by `offset`: turns a
    /// position relative to a row into one relative to the whole input.
    pub open spec fn shifted(self, offset: int) -> Violation {
        match self {
            Violation::UnexpectedQuote(p) => Violation::UnexpectedQuote((p + offset) as usize),
            Violation::TrailingGarbage(p) => Violation::TrailingGarbage((p + offset) as usize),
            Violation::UnterminatedQuote(p) => Violation::UnterminatedQuote((p + offset) as usize),
        }
    }

    /// Shift the position by `offset`.
    pub fn rebase(self, offset: usize) -> (r: Violation)
        requires
            self.pos() + offset <= usize::MAX,
        ensures
            r == self.shifted(offset as int),
    {
        match self {
            Violation::UnexpectedQuote(p) => Violation::UnexpectedQuote(p + offset),
            Violation::TrailingGarbage(p) => Violation::TrailingGarbage(p + offset),
            Violation::UnterminatedQuote(p) => Violation::UnterminatedQuote(p + offset),
        }
    }
}

/// The input is longer than `MAX_INPUT_SIZE`.
#[derive(Copy, Clone, Debug, Eq, PartialEq, Structural)]
pub struct InputTooLarge;

/// Field boundaries of every row, together with the first quoting violation.
pub struct ScannedBoundaries {
    pub rows: Vec<Vec<(usize, usize)>>,
    pub violation: Option<Violation>,
}

impl ScannedBoundaries {
    /// Boundaries of an input that broke no quoting rule.
    pub fn well_formed(rows: Vec<Vec<(usize, usize)>>) -> (r: ScannedBoundaries)
        ensures
            r.rows@ == rows@,
            r.violation is None,
    {
        ScannedBoundaries { rows, violation: None }
    }
}

/// Positions of all unquoted separators and row ends of an input.
pub struct StructuralIndex {
    pub field_seps: Vec<u32>,
    pub row_ends: Vec<RowEnd>,
    pub input_len: u32,
    pub violation: Option<Violation>,
}

/// Strictly increasing.
pub open spec fn increasing(fs: Seq<u32>) -> bool {
    forall|i: int, j: int| 0 <= i < j < fs.len() ==> fs[i] < fs[j]
}

/// Number of entries of `fs` below `v`; for an increasing `fs`, the index of
/// the first entry at or above `v`.
pub open spec fn count_below(fs: Seq<u32>, v: u32) -> int
    decreases fs.len(),
{
    if fs.len() == 0 {
        0
    } else {
        count_below(fs.drop_last(), v) + if fs.last() < v {
            1int
        } else {
            0int
        }
    }
}

/// In an increasing sequence, `count_below` is the split point between the
/// entries below `v` and the rest.
pub proof fn lemma_count_below_split(fs: Seq<u32>, v: u32, k: int)
    requires
        increasing(fs),
        0 <= k <= fs.len(),
        forall|i: int| 0 <= i < k ==> fs[i] < v,
        forall|i: int| k <= i < fs.len() ==> fs[i] >= v,
    ensures
        count_below(fs, v) == k,
    decreases fs.len(),
{
    if fs.len() > 0 {
        let d = fs.drop_last();
        if k == fs.len() {
            lemma_count_below_split(d, v, k - 1);
        } else {
            lemma_count_below_split(d, v, k);
        }
    }
}

/// `count_below` of an increasing sequence splits it.
pub proof fn lemma_count_below_bounds(fs: Seq<u32>, v: u32)
    requires
        increasing(fs),
    ensures
        0 <= count_below(fs, v) <= fs.len(),
        forall|i: int| 0 <= i < count_below(fs, v) ==> fs[i] < v,
        forall|i: int| count_below(fs, v) <= i < fs.len() ==> fs[i] >= v,
    decreases fs.len(),
{
    if fs.len() > 0 {
        let d = fs.drop_last();
        lemma_count_below_bounds(d, v);
        if fs.last() < v {
            if count_below(d, v) < d.len() {
                assert(d[count_below(d, v)] == fs[count_below(d, v)]);
                assert(fs[count_below(d, v)] < fs[fs.len() - 1]);
            }
            assert forall|i: int| 0 <= i < count_below(fs, v) implies fs[i] < v by {
                if i < fs.len() - 1 {
                    assert(d[i] == fs[i]);
                }
            }
        } else {
            if count_below(d, v) < d.len() {
                assert(d[d.len() - 1] >= v);
            }
            assert forall|i: int| 0 <= i < count_below(fs, v) implies fs[i] < v by {
                assert(d[i] == fs[i]);
            }
            assert forall|i: int| count_below(fs, v) <= i < fs.len() implies fs[i] >= v by {
                if i < fs.len() - 1 {
                    assert(d[i] == fs[i]);
                }
            }
        }
    }
}

/// `count_below` grows with `v`.
pub proof fn lemma_count_below_monotone(fs: Seq<u32>, v1: u32, v2: u32)
    requires
        v1 <= v2,
    ensures
        count_below(fs, v1) <= count_below(fs, v2),
    decreases fs.len(),
{
    if fs.len() > 0 {
        lemma_count_below_monotone(fs.drop_last(), v1, v2);
    }
}

/// Field bounds of a row from `row_start` to `row_content_end` whose
/// separators, in order, are `seps`.
pub open spec fn fields_of(seps: Seq<u32>, row_start: u32, row_content_end: u32) -> Seq<(u32, u32)> {
    Seq::new(
        seps.len() + 1,
        |k: int|
            (
                if k == 0 {
                    row_start
                } else {
                    (seps[k - 1] + 1) as u32
                },
                if k < seps.len() {
                    seps[k]
                } else {
                    row_content_end
                },
            ),
    )
}

/// Start of row `k`: 0, or just past the terminator of row `k - 1`.
pub open spec fn row_start_of(re: Seq<RowEnd>, k: int) -> u32 {
    if k <= 0 {
        0
    } else {
        (re[k - 1].pos + re[k - 1].len) as u32
    }
}

/// Content follows the last terminator.
pub open spec fn has_trailing_row_of(re: Seq<RowEnd>, input_len: u32) -> bool {
    row_start_of(re, re.len() as int) < input_len
}

/// Number of rows: one per terminator, plus a final unterminated one.
pub open spec fn row_count_of(re: Seq<RowEnd>, input_len: u32) -> nat {
    re.len() + if has_trailing_row_of(re, input_len) {
        1nat
    } else {
        0nat
    }
}

/// End of the content of row `k`, before its terminator.
pub open spec fn content_end_of(re: Seq<RowEnd>, input_len: u32, k: int) -> u32 {
    if k < re.len() {
        re[k].pos
    } else {
        input_len
    }
}

/// Separators the cursor walk assigns to row `k`: those below its content
/// end that no earlier row took.
pub open spec fn cursor_seps_of(fs: Seq<u32>, re: Seq<RowEnd>, input_len: u32, k: int) -> Seq<u32> {
    fs.subrange(
        if k <= 0 {
            0
        } else {
            count_below(fs, content_end_of(re, input_len, k - 1))
        },
        count_below(fs, content_end_of(re, input_len, k)),
    )
}

/// Field bounds of row `k` in the cursor walk.
pub open spec fn row_fields_of(fs: Seq<u32>, re: Seq<RowEnd>, input_len: u32, k: int) -> Seq<(u32, u32)> {
    fields_of(
        cursor_seps_of(fs, re, input_len, k),
        row_start_of(re, k),
        content_end_of(re, input_len, k),
    )
}

/// Field bounds of every row, in order.
pub open spec fn all_row_fields_of(fs: Seq<u32>, re: Seq<RowEnd>, input_len: u32) -> Seq<Seq<(u32, u32)>> {
    Seq::new(row_count_of(re, input_len), |k: int| row_fields_of(fs, re, input_len, k))
}

impl StructuralIndex {
    /// Separators increase and lie in the input; row ends increase, each is
    /// one or two bytes, and none overlaps the next or runs past the input.
    pub open spec fn wf(&self) -> bool {
        &&& increasing(self.field_seps@)
        &&& forall|i: int| 0 <= i < self.field_seps@.len() ==> self.field_seps@[i] < self.input_len
        &&& forall|k: int|
            0 <= k < self.row_ends@.len() ==> 1 <= (#[trigger] self.row_ends@[k]).len <= 2
        &&& forall|k: int|
            0 <= k < self.row_ends@.len() ==> self.row_ends@[k].pos + self.row_ends@[k].len <= (
            if k + 1 < self.row_ends@.len() {
                self.row_ends@[k + 1].pos as int
            } else {
                self.input_len as int
            })
    }

    /// Start of row `k`.
    pub open spec fn row_start(&self, k: int) -> u32 {
        row_start_of(self.row_ends@, k)
    }

    /// Number of rows.
    pub open spec fn spec_row_count(&self) -> nat {
        row_count_of(self.row_ends@, self.input_len)
    }

    /// End of the content of row `k`, before its terminator.
    pub open spec fn content_end(&self, k: int) -> u32 {
        content_end_of(self.row_ends@, self.input_len, k)
    }

    /// Row `k` as (start, content end, start of the next row).
    pub open spec fn row_at(&self, k: int) -> (u32, u32, u32) {
        if k < self.row_ends@.len() {
            (self.row_start(k), self.row_ends@[k].pos, self.row_start(k + 1))
        } else {
            (self.row_start(k), self.input_len, self.input_len)
        }
    }

    /// All rows, in order.
    pub open spec fn spec_rows(&self) -> Seq<(u32, u32, u32)> {
        Seq::new(self.spec_row_count(), |k: int| self.row_at(k))
    }

    /// Separators that lie in `lo..hi`, for an increasing index.
    pub open spec fn seps_between(&self, lo: u32, hi: u32) -> Seq<u32> {
        self.field_seps@.subrange(
            count_below(self.field_seps@, lo),
            count_below(self.field_seps@, hi),
        )
    }

    /// Separators the cursor walk assigns to row `k`.
    pub open spec fn cursor_seps(&self, k: int) -> Seq<u32> {
        cursor_seps_of(self.field_seps@, self.row_ends@, self.input_len, k)
    }

    proof fn lemma_row_end_pos(&self, k: int)
        requires
            self.wf(),
            0 <= k < self.row_ends@.len(),
        ensures
            self.row_ends@[k].pos >= k,
        decreases k,
    {
        if k > 0 {
            self.lemma_row_end_pos(k - 1);
            assert(1 <= self.row_ends@[k - 1].len);
        }
    }

    /// Each row end starts at or after its index, so there are at most
    /// `input_len` of them.
    pub proof fn lemma_row_ends_bounded(&self)
        requires
            self.wf(),
        ensures
            forall|k: int| 0 <= k < self.row_ends@.len() ==> #[trigger] self.row_ends@[k].pos >= k,
            self.row_ends@.len() <= self.input_len,
    {
        let re = self.row_ends@;
        assert forall|k: int| 0 <= k < re.len() implies #[trigger] re[k].pos >= k by {
            self.lemma_row_end_pos(k);
        }
        if re.len() > 0 {
            let l = re.len() - 1;
            assert(re[l].pos >= l);
            assert(1 <= re[l].len);
        }
    }

    /// No field separator lies inside the terminator of row `j`.
    pub open spec fn terminator_holds_no_separator(&self, j: int) -> bool {
        forall|i: int|
            0 <= i < self.field_seps@.len() ==> !(self.row_ends@[j].pos <= #[trigger] self.field_seps@[i]
                < self.row_ends@[j].pos + self.row_ends@[j].len)
    }

    /// The cursor walk and the binary search give every row the same
    /// separators, when no separator lies inside a row terminator that
    /// another row follows: those between the row's start and its content
    /// end.
    pub proof fn law_cursor_matches_search(&self, k: int)
        requires
            self.wf(),
            forall|j: int| 0 <= j && j + 1 < self.spec_row_count() ==> #[trigger] self.terminator_holds_no_separator(j),
            0 <= k < self.spec_row_count(),
        ensures
            self.cursor_seps(k) == self.seps_between(self.row_start(k), self.content_end(k)),
    {
        let fs = self.field_seps@;
        if k == 0 {
            lemma_count_below_split(fs, 0u32, 0);
        } else {
            let e = self.row_ends@[k - 1];
            let x = e.pos;
            let y = self.row_start(k);
            assert(y == e.pos + e.len);
            lemma_count_below_bounds(fs, x);
            assert forall|i: int| count_below(fs, x) <= i < fs.len() implies fs[i] >= y by {
                assert(fs[i] >= x);
                assert(self.terminator_holds_no_separator(k - 1));
                assert(!(e.pos <= fs[i] < e.pos + e.len));
            }
            lemma_count_below_split(fs, y, count_below(fs, x));
        }
    }

    /// Number of rows.
    pub fn row_count(&self) -> (r: usize)
        requires
            self.wf(),
        ensures
            r == self.spec_row_count(),
    {
        proof {
            self.lemma_row_ends_bounded();
        }
        let n = self.row_ends.len();
        if n == 0 {
            if self.input_len > 0 {
                1
            } else {
                0
            }
        } else {
            let last = self.row_ends[n - 1];
            if (last.pos as u64) + (last.len as u64) < self.input_len as u64 {
                n + 1
            } else {
                n
            }
        }
    }
}


/// Index of the first entry of the increasing `fs` at or above `v`.
fn partition_below(fs: &[u32], v: u32) -> (r: usize)
    requires
        increasing(fs@),
    ensures
        r == count_below(fs@, v),
{
    let mut lo: usize = 0;
    let mut hi: usize = fs.len();
    while lo < hi
        invariant
            0 <= lo <= hi <= fs@.len(),
            increasing(fs@),
            forall|i: int| 0 <= i < lo ==> fs@[i] < v,
            forall|i: int| hi <= i < fs@.len() ==> fs@[i] >= v,
        decreases hi - lo,
    {
        let mid = lo + (hi - lo) / 2;
        if fs[mid] < v {
            lo = mid + 1;
        } else {
            hi = mid;
        }
    }
    proof {
        lemma_count_below_split(fs@, v, lo as int);
    }
    lo
}

impl StructuralIndex {
    /// Rows in order, as (start, content end, start of the next row).
    pub fn rows(&self) -> (r: RowIter<'_>)
        requires
            self.wf(),
        ensures
            r.index() == self,
            r.remaining() == self.spec_rows(),
    {
        RowIter { index: self, row_idx: 0, pos: 0 }
    }

    /// Field bounds of the row `row_start..row_content_end`: the separators
    /// in that range split it.
    pub fn fields_in_row(&self, row_start: u32, row_content_end: u32) -> (r: FieldIter<'_>)
        requires
            self.wf(),
            row_start <= row_content_end,
        ensures
            r.remaining() == fields_of(self.seps_between(row_start, row_content_end), row_start, row_content_end),
    {
        let fs = self.field_seps.as_slice();
        let lo = partition_below(fs, row_start);
        let hi = partition_below(fs, row_content_end);
        proof {
            lemma_count_below_monotone(fs@, row_start, row_content_end);
            lemma_count_below_bounds(fs@, row_start);
            lemma_count_below_bounds(fs@, row_content_end);
        }
        let seps = &fs[lo..hi];
        assert forall|k: int| 0 <= k < seps@.len() implies seps@[k] < u32::MAX by {
            assert(seps@[k] == fs@[lo + k]);
        }
        FieldIter { seps, row_start, row_content_end, idx: 0, done: false }
    }

    /// Rows in order with their field bounds, taking each row's separators
    /// with a cursor that walks the separators once.
    pub fn rows_with_fields(&self) -> (r: RowFieldIter<'_>)
        requires
            self.wf(),
        ensures
            r.index() == self,
            r.next_row() == 0,
    {
        RowFieldIter { index: self, row_idx: 0, pos: 0, sep_cursor: 0 }
    }

    /// Start position of every row.
    pub fn row_starts(&self) -> (r: Vec<usize>)
        requires
            self.wf(),
        ensures
            r@.len() == self.spec_row_count(),
            forall|k: int| 0 <= k < r@.len() ==> r@[k] == self.row_start(k),
    {
        let mut starts: Vec<usize> = Vec::new();
        let mut it = self.rows();
        let ghost all = self.spec_rows();
        while it.len() > 0
            invariant
                it.index() == self,
                self.wf(),
                all == self.spec_rows(),
                starts@.len() + it.remaining().len() == all.len(),
                it.remaining() == all.skip(starts@.len() as int),
                forall|k: int| 0 <= k < starts@.len() ==> starts@[k] == self.row_start(k),
            decreases it.remaining().len(),
        {
            let ghost n = starts@.len() as int;
            let row = it.next();
            match row {
                Some((row_start, _, _)) => {
                    assert(all.skip(n)[0] == all[n]);
                    starts.push(row_start as usize);
                    assert(all.skip(n).drop_first() =~= all.skip(n + 1));
                },
                None => {},
            }
        }
        starts
    }
}

/// Rows of a structural index, in order.
pub struct RowIter<'a> {
    index: &'a StructuralIndex,
    row_idx: usize,
    pos: u32,
}

impl<'a> RowIter<'a> {
    #[verifier::type_invariant]
    spec fn inv(self) -> bool {
        &&& self.index.wf()
        &&& self.row_idx <= self.index.spec_row_count()
        &&& if self.row_idx <= self.index.row_ends@.len() {
            self.pos == self.index.row_start(self.row_idx as int)
        } else {
            self.pos == self.index.input_len
        }
    }

    pub closed spec fn index(self) -> StructuralIndex {
        *self.index
    }

    /// Rows not yet yielded.
    pub closed spec fn remaining(self) -> Seq<(u32, u32, u32)> {
        self.index.spec_rows().skip(self.row_idx as int)
    }

    /// Yield the next row.
    pub fn next(&mut self) -> (r: Option<(u32, u32, u32)>)
        ensures
            final(self).index() == old(self).index(),
            old(self).remaining().len() == 0 ==> r is None && final(self).remaining() == old(self).remaining(),
            old(self).remaining().len() > 0 ==> r == Some(old(self).remaining()[0])
                && final(self).remaining() == old(self).remaining().drop_first(),
    {
        proof {
            use_type_invariant(&*self);
            self.index.lemma_row_ends_bounded();
        }
        let ghost old_rem = self.remaining();
        let index = self.index;
        let n = index.row_ends.len();
        if self.row_idx < n {
            let re = index.row_ends[self.row_idx];
            let start = self.pos;
            let content_end = re.pos;
            let next = re.pos + re.len as u32;
            let k = self.row_idx;
            *self = RowIter { index, row_idx: k + 1, pos: next };
            proof {
                assert(index.spec_rows()[k as int] == (start, content_end, next));
                assert(old_rem.drop_first() =~= self.remaining());
            }
            Some((start, content_end, next))
        } else if self.pos < index.input_len {
            let start = self.pos;
            let end = index.input_len;
            let k = self.row_idx;
            *self = RowIter { index, row_idx: k + 1, pos: end };
            proof {
                assert(index.spec_rows()[k as int] == (start, end, end));
                assert(old_rem.drop_first() =~= self.remaining());
            }
            Some((start, end, end))
        } else {
            None
        }
    }

    /// Number of rows not yet yielded.
    pub fn len(&self) -> (r: usize)
        ensures
            r == self.remaining().len(),
    {
        proof {
            use_type_invariant(self);
        }
        self.index.row_count() - self.row_idx
    }
}

/// A row yielded by the cursor walk, with its field bounds.
pub struct Row<'a> {
    pub start: u32,
    pub content_end: u32,
    pub fields: FieldIter<'a>,
}

/// Rows of a structural index with their fields, found by a cursor that
/// walks the separators once.
pub struct RowFieldIter<'a> {
    index: &'a StructuralIndex,
    row_idx: usize,
    pos: u32,
    sep_cursor: usize,
}

impl<'a> RowFieldIter<'a> {
    #[verifier::type_invariant]
    spec fn inv(self) -> bool {
        &&& self.index.wf()
        &&& self.row_idx <= self.index.spec_row_count()
        &&& if self.row_idx <= self.index.row_ends@.len() {
            self.pos == self.index.row_start(self.row_idx as int)
        } else {
            self.pos == self.index.input_len
        }
        &&& self.sep_cursor == if self.row_idx == 0 {
            0
        } else {
            count_below(self.index.field_seps@, self.index.content_end(self.row_idx - 1))
        }
    }

    pub closed spec fn index(self) -> StructuralIndex {
        *self.index
    }

    /// Index of the next row to yield.
    pub closed spec fn next_row(self) -> int {
        self.row_idx as int
    }

    /// Yield the next row with the separators the cursor assigns it.
    pub fn next(&mut self) -> (r: Option<Row<'a>>)
        ensures
            final(self).index() == old(self).index(),
            final(self).next_row() <= final(self).index().spec_row_count(),
            old(self).next_row() == old(self).index().spec_row_count() ==> r is None && final(self).next_row()
                == old(self).next_row(),
            old(self).next_row() < old(self).index().spec_row_count() ==> final(self).next_row() == old(
                self,
            ).next_row() + 1 && (r matches Some(row) && {
                let k = old(self).next_row();
                let idx = old(self).index();
                &&& row.start == idx.row_start(k)
                &&& row.content_end == idx.content_end(k)
                &&& row.fields.remaining() == fields_of(idx.cursor_seps(k), row.start, row.content_end)
            }),
    {
        proof {
            use_type_invariant(&*self);
            self.index.lemma_row_ends_bounded();
        }
        let index = self.index;
        let n = index.row_ends.len();
        let k = self.row_idx;
        let start;
        let content_end;
        let next_pos;
        if k < n {
            let re = index.row_ends[k];
            start = self.pos;
            content_end = re.pos;
            next_pos = re.pos + re.len as u32;
        } else if self.pos < index.input_len {
            start = self.pos;
            content_end = index.input_len;
            next_pos = content_end;
        } else {
            return None;
        }
        let ghost fs = index.field_seps@;
        proof {
            lemma_count_below_bounds(fs, content_end);
            if k > 0 {
                lemma_count_below_bounds(fs, index.content_end(k - 1));
                assert(index.content_end(k - 1) <= content_end);
                lemma_count_below_monotone(fs, index.content_end(k - 1), content_end);
            }
        }
        let sep_start = self.sep_cursor;
        let mut cursor = sep_start;
        let seps_all = index.field_seps.as_slice();
        while cursor < seps_all.len() && seps_all[cursor] < content_end
            invariant
                seps_all@ == fs,
                increasing(fs),
                sep_start <= cursor <= fs.len(),
                cursor <= count_below(fs, content_end),
                forall|i: int| 0 <= i < count_below(fs, content_end) ==> fs[i] < content_end,
                forall|i: int| count_below(fs, content_end) <= i < fs.len() ==> fs[i] >= content_end,
            decreases fs.len() - cursor,
        {
            cursor += 1;
        }
        assert(cursor == count_below(fs, content_end));
        let seps = &seps_all[sep_start..cursor];
        assert forall|j: int| 0 <= j < seps@.len() implies seps@[j] < u32::MAX by {
            assert(seps@[j] == fs[sep_start + j]);
        }
        *self = RowFieldIter { index, row_idx: k + 1, pos: next_pos, sep_cursor: cursor };
        assert(seps@ =~= index.cursor_seps(k as int));
        Some(Row {
            start,
            content_end,
            fields: FieldIter { seps, row_start: start, row_content_end: content_end, idx: 0, done: false },
        })
    }

    /// Number of rows not yet yielded.
    pub fn len(&self) -> (r: usize)
        ensures
            r == self.index().spec_row_count() - self.next_row(),
            self.next_row() <= self.index().spec_row_count(),
    {
        proof {
            use_type_invariant(self);
        }
        self.index.row_count() - self.row_idx
    }
}

/// Field bounds of one row, in order.
pub struct FieldIter<'a> {
    seps: &'a [u32],
    row_start: u32,
    row_content_end: u32,
    idx: usize,
    done: bool,
}

impl<'a> FieldIter<'a> {
    #[verifier::type_invariant]
    spec fn inv(self) -> bool {
        &&& forall|k: int| 0 <= k < self.seps@.len() ==> self.seps@[k] < u32::MAX
        &&& self.idx <= self.seps@.len()
        &&& self.done ==> self.idx == self.seps@.len()
    }

    /// Field bounds not yet yielded.
    pub closed spec fn remaining(self) -> Seq<(u32, u32)> {
        if self.done {
            Seq::empty()
        } else {
            fields_of(self.seps@, self.row_start, self.row_content_end).skip(self.idx as int)
        }
    }

    /// Yield the next field's (start, end).
    pub fn next(&mut self) -> (r: Option<(u32, u32)>)
        ensures
            old(self).remaining().len() == 0 ==> r is None && final(self).remaining() == old(self).remaining(),
            old(self).remaining().len() > 0 ==> r == Some(old(self).remaining()[0])
                && final(self).remaining() == old(self).remaining().drop_first(),
    {
        proof {
            use_type_invariant(&*self);
        }
        if self.done {
            return None;
        }
        let ghost old_rem = self.remaining();
        let ghost all = fields_of(self.seps@, self.row_start, self.row_content_end);
        let k = self.idx;
        let field_start = if k == 0 {
            self.row_start
        } else {
            self.seps[k - 1] + 1
        };
        if k < self.seps.len() {
            let field_end = self.seps[k];
            *self = FieldIter { idx: k + 1, ..*self };
            assert(old_rem.drop_first() =~= self.remaining());
            assert(all[k as int] == (field_start, field_end));
            Some((field_start, field_end))
        } else {
            let end = self.row_content_end;
            *self = FieldIter { done: true, ..*self };
            assert(old_rem.drop_first() =~= self.remaining());
            assert(all[k as int] == (field_start, end));
            Some((field_start, end))
        }
    }

    /// Number of fields not yet yielded (saturating at `usize::MAX`).
    pub fn len(&self) -> (r: usize)
        ensures
            self.remaining().len() <= usize::MAX ==> r == self.remaining().len(),
            r == 0 <==> self.remaining().len() == 0,
    {
        proof {
            use_type_invariant(self);
        }
        if self.done {
            0
        } else if self.seps.len() - self.idx < usize::MAX {
            self.seps.len() - self.idx + 1
        } else {
            usize::MAX
        }
    }

    /// All field bounds not yet yielded.
    pub fn collect(self) -> (r: Vec<(u32, u32)>)
        ensures
            r@ == self.remaining(),
    {
        let mut it = self;
        let ghost all = self.remaining();
        let mut out: Vec<(u32, u32)> = Vec::new();
        while it.len() > 0
            invariant
                out@ + it.remaining() == all,
            decreases it.remaining().len(),
        {
            let ghost before = it.remaining();
            let f = it.next();
            match f {
                Some(b) => {
                    out.push(b);
                    assert(out@ + it.remaining() =~= all);
                },
                None => {},
            }
        }
        assert(out@ =~= all);
        out
    }
}


impl StructuralIndex {
    /// Every row end lies within the input.
    pub proof fn lemma_end_in_input(&self, k: int)
        requires
            self.wf(),
            0 <= k < self.row_ends@.len(),
        ensures
            self.row_ends@[k].pos + self.row_ends@[k].len <= self.input_len,
        decreases self.row_ends@.len() - k,
    {
        if k + 1 < self.row_ends@.len() {
            self.lemma_end_in_input(k + 1);
        }
    }

    /// Every field bound of row `k` lies within the input.
    pub proof fn lemma_row_fields_in_input(&self, k: int)
        requires
            self.wf(),
            0 <= k < self.spec_row_count(),
        ensures
            forall|j: int|
                0 <= j < row_fields_of(self.field_seps@, self.row_ends@, self.input_len, k).len() ==> {
                    let f = #[trigger] row_fields_of(self.field_seps@, self.row_ends@, self.input_len, k)[j];
                    f.0 <= self.input_len && f.1 <= self.input_len
                },
    {
        let fs = self.field_seps@;
        let re = self.row_ends@;
        let cs = self.cursor_seps(k);
        lemma_count_below_bounds(fs, self.content_end(k));
        if k > 0 {
            lemma_count_below_bounds(fs, self.content_end(k - 1));
            lemma_count_below_monotone(fs, self.content_end(k - 1), self.content_end(k));
            assert(self.content_end(k - 1) <= self.content_end(k));
        }
        if k > 0 {
            self.lemma_end_in_input(k - 1);
        }
        if k < re.len() {
            self.lemma_end_in_input(k);
        }
        assert(self.row_start(k) <= self.input_len);
        assert(self.content_end(k) <= self.input_len);
        assert forall|j: int| 0 <= j < cs.len() implies cs[j] < self.input_len by {
            let lo = if k <= 0 { 0 } else { count_below(fs, self.content_end(k - 1)) };
            assert(cs[j] == fs[lo + j]);
        }
    }

    /// Field bounds of every row, by the cursor walk.
    pub fn all_row_fields(&self) -> (r: Vec<Vec<(u32, u32)>>)
        requires
            self.wf(),
        ensures
            r@.len() == self.spec_row_count(),
            forall|k: int| 0 <= k < r@.len() ==> (#[trigger] r@[k])@ == row_fields_of(
                self.field_seps@,
                self.row_ends@,
                self.input_len,
                k,
            ),
    {
        let mut out: Vec<Vec<(u32, u32)>> = Vec::new();
        let mut it = self.rows_with_fields();
        while it.len() > 0
            invariant
                it.index() == *self,
                self.wf(),
                out@.len() == it.next_row(),
                it.next_row() <= self.spec_row_count(),
                forall|k: int| 0 <= k < out@.len() ==> (#[trigger] out@[k])@ == row_fields_of(
                    self.field_seps@,
                    self.row_ends@,
                    self.input_len,
                    k,
                ),
            decreases self.spec_row_count() - it.next_row(),
        {
            let row = it.next();
            match row {
                Some(row) => {
                    let fields = row.fields.collect();
                    out.push(fields);
                },
                None => {},
            }
        }
        out
    }
}

} // verus!
