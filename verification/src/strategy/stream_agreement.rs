//! The streaming parser reads an input as the batch parsers do: the same
//! rows and the same first quoting violation, wherever the chunks break.
//!
//! The byte machine of the streaming parser is followed position by
//! position against the batch scan's parity model: at every position the
//! machine rests on, its quote flag is the parity of the escapes before, its
//! completed lines are the rows that the batch scan's row ends delimit, and
//! its violation is the batch scan's first violation among the positions
//! already decided.

use vstd::prelude::*;

use crate::base::scanner::{QuoteState, initial_quote_state, on_escape_spec, on_delimiter_spec, on_data_spec, finish_spec};
use crate::base::simd_index::{MAX_INPUT_SIZE, RowEnd, Violation, row_start_of, row_count_of, content_end_of, row_fields_of};
use crate::base::simd_scanner::{
    lemma_seps_upto_wf, lemma_ends_upto_wf,
    quoted_at, lf_at, sep_at, ends_upto, seps_upto, row_end_for, opens_ok, closes_ok, event_at, first_event_upto, scan_violation,
    batch_rows, row_values,
};
use crate::strategy::streaming::{StreamingParser, stream_step, stream_scan, line_fields};
use crate::strategy::general_agreement::shift;

verus! {

/// Escape parity before position `i`: inside a quoted region.
pub open spec fn pq(s: Seq<u8>, esc: u8, i: int) -> bool {
    quoted_at(s, esc, 0, false, i)
}

/// The rows the batch scan delimits before position `p`: (start, content
/// end) of every row whose terminator lies before `p`.
pub open spec fn batch_lines_upto(s: Seq<u8>, esc: u8, p: int) -> Seq<(int, int)> {
    let re = ends_upto(s, esc, 0, false, p);
    Seq::new(re.len(), |k: int| (row_start_of(re, k) as int, re[k].pos as int))
}

/// Where the row after the last terminator before `p` starts.
pub open spec fn batch_row_start_upto(s: Seq<u8>, esc: u8, p: int) -> int {
    let re = ends_upto(s, esc, 0, false, p);
    row_start_of(re, re.len() as int) as int
}

/// Separators, the escape and the row terminator bytes are all distinct.
pub open spec fn bytes_distinct(seps: Seq<u8>, esc: u8) -> bool {
    &&& esc != 10u8
    &&& esc != 13u8
    &&& !seps.contains(10u8)
    &&& !seps.contains(13u8)
    &&& !seps.contains(esc)
}

/// The machine at `p` in state `q`, with row start `rs` and lines `lines`,
/// agrees with the batch scan of `s`.
pub open spec fn agrees(s: Seq<u8>, seps: Seq<u8>, esc: u8, p: int, q: QuoteState, rs: int, lines: Seq<(int, int)>) -> bool {
    &&& 0 <= p <= s.len()
    &&& q.in_quotes == pq(s, esc, p)
    &&& q.in_quotes ==> !q.at_field_start && !q.after_closing_quote
    &&& !q.in_quotes ==> q.at_field_start == (p == 0 || s[p - 1] == 10u8 || seps.contains(s[p - 1]))
    &&& !q.in_quotes ==> q.after_closing_quote == (p > 0 && s[p - 1] == esc)
    &&& q.after_closing_quote ==> (p < s.len() ==> s[p] != esc)
    &&& (!q.in_quotes && p > 0 && s[p - 1] == 13u8 && p < s.len()) ==> s[p] != 10u8
    &&& lines == batch_lines_upto(s, esc, p)
    &&& rs == batch_row_start_upto(s, esc, p)
    &&& q.violation == first_event_upto(s, seps, esc, 0, false, if q.after_closing_quote { p - 1 } else { p })
}

/// Row ends found before `p` end before `p`.
proof fn lemma_ends_before(s: Seq<u8>, esc: u8, p: int)
    requires
        0 <= p <= s.len(),
        s.len() <= MAX_INPUT_SIZE,
    ensures
        forall|k: int| 0 <= k < ends_upto(s, esc, 0, false, p).len() ==> {
            let e = #[trigger] ends_upto(s, esc, 0, false, p)[k];
            &&& 1 <= e.len <= 2
            &&& e.pos + e.len <= p
        },
    decreases p,
{
    if p > 0 {
        lemma_ends_before(s, esc, p - 1);
        let prev = ends_upto(s, esc, 0, false, p - 1);
        let cur = ends_upto(s, esc, 0, false, p);
        if lf_at(s, esc, 0, false, p - 1) {
            assert(cur == prev.push(row_end_for(s, p - 1)));
            assert forall|k: int| 0 <= k < cur.len() implies {
                let e = #[trigger] cur[k];
                &&& 1 <= e.len <= 2
                &&& e.pos + e.len <= p
            } by {
                if k < prev.len() {
                    assert(cur[k] == prev[k]);
                }
            }
        } else {
            assert(cur == prev);
        }
    }
}

/// A new row end before `p + 1` adds one line, from the row start, and
/// moves the row start past the terminator.
proof fn lemma_lines_push(s: Seq<u8>, esc: u8, p: int, n: int, e: RowEnd)
    requires
        0 <= p < n <= s.len(),
        s.len() <= MAX_INPUT_SIZE,
        ends_upto(s, esc, 0, false, n) == ends_upto(s, esc, 0, false, p).push(e),
        e.pos + e.len <= n,
    ensures
        batch_lines_upto(s, esc, n) == batch_lines_upto(s, esc, p).push((batch_row_start_upto(s, esc, p), e.pos as int)),
        batch_row_start_upto(s, esc, n) == e.pos + e.len,
{
    let re = ends_upto(s, esc, 0, false, p);
    let re2 = ends_upto(s, esc, 0, false, n);
    lemma_ends_before(s, esc, p);
    assert forall|k: int| 0 <= k < re.len() implies row_start_of(re2, k) == row_start_of(re, k) by {
        if k > 0 {
            assert(re2[k - 1] == re[k - 1]);
        }
    }
    assert(row_start_of(re2, re.len() as int) == row_start_of(re, re.len() as int)) by {
        if re.len() > 0 {
            assert(re2[re.len() - 1] == re[re.len() - 1]);
        }
    }
    assert(re2[re.len() as int] == e);
    assert(batch_lines_upto(s, esc, n) =~= batch_lines_upto(s, esc, p).push((batch_row_start_upto(s, esc, p), e.pos as int)));
}

/// One machine step keeps the machine in agreement with the batch scan.
proof fn lemma_agree_step(s: Seq<u8>, seps: Seq<u8>, esc: u8, p: int, q: QuoteState, rs: int, lines: Seq<(int, int)>)
    requires
        agrees(s, seps, esc, p, q, rs, lines),
        p < s.len(),
        bytes_distinct(seps, esc),
        s.len() <= MAX_INPUT_SIZE,
    ensures
        ({
            let st = stream_step(s, seps, esc, p, q);
            &&& p < st.0 <= s.len()
            &&& agrees(
                s,
                seps,
                esc,
                st.0,
                st.1,
                if st.2 > 0 { st.0 } else { rs },
                if st.2 > 0 { lines.push((rs, p)) } else { lines },
            )
        }),
{
    let st = stream_step(s, seps, esc, p, q);
    let b = s[p];
    assert(pq(s, esc, p + 1) == (pq(s, esc, p) != (b == esc)));
    assert(first_event_upto(s, seps, esc, 0, false, p + 1) == match first_event_upto(s, seps, esc, 0, false, p) {
        Some(v) => Some(v),
        None => event_at(s, seps, esc, 0, false, p),
    });
    if p > 0 {
        assert(first_event_upto(s, seps, esc, 0, false, p) == match first_event_upto(s, seps, esc, 0, false, p - 1) {
            Some(v) => Some(v),
            None => event_at(s, seps, esc, 0, false, p - 1),
        });
    }
    if q.in_quotes {
        if b == esc {
            if p + 1 < s.len() && s[p + 1] == esc {
                assert(pq(s, esc, p + 2) == (pq(s, esc, p + 1) != (s[p + 1] == esc)));
                assert(first_event_upto(s, seps, esc, 0, false, p + 2) == match first_event_upto(s, seps, esc, 0, false, p + 1) {
                    Some(v) => Some(v),
                    None => event_at(s, seps, esc, 0, false, p + 1),
                });
                assert(event_at(s, seps, esc, 0, false, p) is None);
                assert(opens_ok(s, seps, esc, p + 1));
                assert(event_at(s, seps, esc, 0, false, p + 1) is None);
                assert(!lf_at(s, esc, 0, false, p));
                assert(!lf_at(s, esc, 0, false, p + 1));
                assert(ends_upto(s, esc, 0, false, p + 1) == ends_upto(s, esc, 0, false, p));
                assert(ends_upto(s, esc, 0, false, p + 2) == ends_upto(s, esc, 0, false, p + 1));
            } else {
                assert(!lf_at(s, esc, 0, false, p));
                assert(ends_upto(s, esc, 0, false, p + 1) == ends_upto(s, esc, 0, false, p));
            }
        } else {
            assert(event_at(s, seps, esc, 0, false, p) is None);
            assert(!lf_at(s, esc, 0, false, p));
            assert(ends_upto(s, esc, 0, false, p + 1) == ends_upto(s, esc, 0, false, p));
        }
    } else if b == esc {
        assert(!q.after_closing_quote);
        if p > 0 {
            assert(s[p - 1] != esc);
        }
        assert(opens_ok(s, seps, esc, p) == q.at_field_start);
        assert(!lf_at(s, esc, 0, false, p));
        assert(ends_upto(s, esc, 0, false, p + 1) == ends_upto(s, esc, 0, false, p));
    } else {
        if q.after_closing_quote {
            assert(pq(s, esc, p) == (pq(s, esc, p - 1) != (s[p - 1] == esc)));
            assert(pq(s, esc, p - 1));
        }
        if seps.contains(b) {
            assert(b != 10u8 && b != 13u8);
            assert(!lf_at(s, esc, 0, false, p));
            assert(ends_upto(s, esc, 0, false, p + 1) == ends_upto(s, esc, 0, false, p));
            assert(closes_ok(s, seps, esc, p));
            assert(event_at(s, seps, esc, 0, false, p) is None);
        } else if b == 10u8 {
            assert(lf_at(s, esc, 0, false, p));
            assert(!(p > 0 && s[p - 1] == 13u8));
            let e = row_end_for(s, p);
            assert(e == RowEnd { pos: p as u32, len: 1 });
            assert(ends_upto(s, esc, 0, false, p + 1) == ends_upto(s, esc, 0, false, p).push(e));
            lemma_lines_push(s, esc, p, p + 1, e);
            assert(closes_ok(s, seps, esc, p));
            assert(event_at(s, seps, esc, 0, false, p) is None);
        } else if b == 13u8 && p + 1 < s.len() && s[p + 1] == 10u8 {
            assert(pq(s, esc, p + 2) == (pq(s, esc, p + 1) != (s[p + 1] == esc)));
            assert(first_event_upto(s, seps, esc, 0, false, p + 2) == match first_event_upto(s, seps, esc, 0, false, p + 1) {
                Some(v) => Some(v),
                None => event_at(s, seps, esc, 0, false, p + 1),
            });
            assert(!lf_at(s, esc, 0, false, p));
            assert(ends_upto(s, esc, 0, false, p + 1) == ends_upto(s, esc, 0, false, p));
            assert(lf_at(s, esc, 0, false, p + 1));
            let e = row_end_for(s, p + 1);
            assert(e == RowEnd { pos: p as u32, len: 2 });
            assert(ends_upto(s, esc, 0, false, p + 2) == ends_upto(s, esc, 0, false, p + 1).push(e));
            lemma_lines_push(s, esc, p, p + 2, e);
            assert(closes_ok(s, seps, esc, p));
            assert(event_at(s, seps, esc, 0, false, p) is None);
            assert(event_at(s, seps, esc, 0, false, p + 1) is None);
        } else {
            assert(!lf_at(s, esc, 0, false, p));
            assert(ends_upto(s, esc, 0, false, p + 1) == ends_upto(s, esc, 0, false, p));
            assert(!closes_ok(s, seps, esc, p));
            assert(event_at(s, seps, esc, 0, false, p) is None);
        }
    }
}

/// The machine at the start of input agrees with the batch scan.
proof fn lemma_agree_init(s: Seq<u8>, seps: Seq<u8>, esc: u8)
    ensures
        agrees(s, seps, esc, 0, initial_quote_state(), 0, Seq::empty()),
{
    assert(batch_lines_upto(s, esc, 0) =~= Seq::<(int, int)>::empty());
}

/// Run to the end of input, the machine still agrees with the batch scan.
proof fn lemma_agree_scan(s: Seq<u8>, seps: Seq<u8>, esc: u8, p: int, q: QuoteState, rs: int, lines: Seq<(int, int)>)
    requires
        agrees(s, seps, esc, p, q, rs, lines),
        bytes_distinct(seps, esc),
        s.len() <= MAX_INPUT_SIZE,
    ensures
        ({
            let r = stream_scan(s, seps, esc, true, p, q, rs, lines);
            &&& r.0 == s.len()
            &&& agrees(s, seps, esc, r.0, r.1, r.2, r.3)
        }),
    decreases s.len() - p,
{
    if p < s.len() {
        lemma_agree_step(s, seps, esc, p, q, rs, lines);
        let st = stream_step(s, seps, esc, p, q);
        if st.2 > 0 {
            lemma_agree_scan(s, seps, esc, st.0, st.1, st.0, lines.push((rs, p)));
        } else {
            lemma_agree_scan(s, seps, esc, st.0, st.1, rs, lines);
        }
    }
}

/// The streaming parser's violation for a whole input is the batch scan's.
pub proof fn lemma_stream_violation_matches_batch(s: Seq<u8>, seps: Seq<u8>, esc: u8)
    requires
        bytes_distinct(seps, esc),
        s.len() <= MAX_INPUT_SIZE,
    ensures
        crate::strategy::streaming::stream_violation(s, seps, esc) == scan_violation(s, seps, esc),
{
    lemma_agree_init(s, seps, esc);
    lemma_agree_scan(s, seps, esc, 0, initial_quote_state(), 0, Seq::empty());
    let r = stream_scan(s, seps, esc, true, 0, initial_quote_state(), 0, Seq::empty());
    let n = s.len() as int;
    if r.1.after_closing_quote {
        assert(first_event_upto(s, seps, esc, 0, false, n) == match first_event_upto(s, seps, esc, 0, false, n - 1) {
            Some(v) => Some(v),
            None => event_at(s, seps, esc, 0, false, n - 1),
        });
        assert(closes_ok(s, seps, esc, n));
        assert(event_at(s, seps, esc, 0, false, n - 1) is None);
    }
}

/// Parity inside a row is the row's own parity when the row starts
/// outside quotes.
pub(crate) proof fn lemma_quoted_shift(s: Seq<u8>, esc: u8, a: int, b: int, j: int)
    requires
        0 <= a <= b <= s.len(),
        0 <= j <= b - a,
        !pq(s, esc, a),
    ensures
        pq(s, esc, a + j) == quoted_at(s.subrange(a, b), esc, 0, false, j),
    decreases j,
{
    if j > 0 {
        lemma_quoted_shift(s, esc, a, b, j - 1);
        assert(s.subrange(a, b)[j - 1] == s[a + j - 1]);
    }
}

/// The separators found up to `y` begin with those found up to `x`, and the
/// rest lie in `x..y`.
proof fn lemma_seps_prefix(s: Seq<u8>, seps: Seq<u8>, esc: u8, x: int, y: int)
    requires
        0 <= x <= y <= s.len(),
        s.len() <= MAX_INPUT_SIZE,
    ensures
        seps_upto(s, seps, esc, 0, false, y).len() >= seps_upto(s, seps, esc, 0, false, x).len(),
        seps_upto(s, seps, esc, 0, false, y).take(seps_upto(s, seps, esc, 0, false, x).len() as int)
            == seps_upto(s, seps, esc, 0, false, x),
        forall|i: int|
            seps_upto(s, seps, esc, 0, false, x).len() <= i < seps_upto(s, seps, esc, 0, false, y).len() ==> x
                <= #[trigger] seps_upto(s, seps, esc, 0, false, y)[i] < y,
        forall|i: int| 0 <= i < seps_upto(s, seps, esc, 0, false, y).len() ==> #[trigger] seps_upto(s, seps, esc, 0, false, y)[i] < y,
    decreases y - x,
{
    let sy = seps_upto(s, seps, esc, 0, false, y);
    let sx = seps_upto(s, seps, esc, 0, false, x);
    if y == x {
        assert(sy.take(sx.len() as int) =~= sx);
        lemma_seps_below(s, seps, esc, y);
    } else {
        lemma_seps_prefix(s, seps, esc, x, y - 1);
        let sp = seps_upto(s, seps, esc, 0, false, y - 1);
        if sep_at(s, seps, esc, 0, false, y - 1) {
            assert(sy == sp.push((y - 1) as u32));
            assert(sy.take(sx.len() as int) =~= sp.take(sx.len() as int));
            assert forall|i: int| sx.len() <= i < sy.len() implies x <= #[trigger] sy[i] < y by {
                if i < sp.len() {
                    assert(sy[i] == sp[i]);
                }
            }
            assert forall|i: int| 0 <= i < sy.len() implies #[trigger] sy[i] < y by {
                if i < sp.len() {
                    assert(sy[i] == sp[i]);
                }
            }
        } else {
            assert(sy == sp);
        }
    }
}

/// Separators found up to `y` lie below `y`.
proof fn lemma_seps_below(s: Seq<u8>, seps: Seq<u8>, esc: u8, y: int)
    requires
        0 <= y <= s.len(),
        s.len() <= MAX_INPUT_SIZE,
    ensures
        forall|i: int| 0 <= i < seps_upto(s, seps, esc, 0, false, y).len() ==> #[trigger] seps_upto(s, seps, esc, 0, false, y)[i] < y,
    decreases y,
{
    if y > 0 {
        lemma_seps_below(s, seps, esc, y - 1);
        let sy = seps_upto(s, seps, esc, 0, false, y);
        let sp = seps_upto(s, seps, esc, 0, false, y - 1);
        if sep_at(s, seps, esc, 0, false, y - 1) {
            assert forall|i: int| 0 <= i < sy.len() implies #[trigger] sy[i] < y by {
                if i < sp.len() {
                    assert(sy[i] == sp[i]);
                }
            }
        }
    }
}

/// The separators of a row that starts outside quotes, found in the row
/// alone, are those of the whole input in that row, shifted.
proof fn lemma_seps_shift(s: Seq<u8>, seps: Seq<u8>, esc: u8, a: int, b: int, m: int)
    requires
        0 <= a <= b <= s.len(),
        0 <= m <= b - a,
        !pq(s, esc, a),
        s.len() <= MAX_INPUT_SIZE,
    ensures
        seps_upto(s, seps, esc, 0, false, a + m) == seps_upto(s, seps, esc, 0, false, a) + seps_upto(
            s.subrange(a, b),
            seps,
            esc,
            0,
            false,
            m,
        ).map_values(|x: u32| (x + a) as u32),
    decreases m,
{
    let l = s.subrange(a, b);
    if m == 0 {
        assert(seps_upto(l, seps, esc, 0, false, 0).map_values(|x: u32| (x + a) as u32) =~= Seq::<u32>::empty());
        assert(seps_upto(s, seps, esc, 0, false, a) + Seq::<u32>::empty() =~= seps_upto(s, seps, esc, 0, false, a));
    } else {
        lemma_seps_shift(s, seps, esc, a, b, m - 1);
        lemma_quoted_shift(s, esc, a, b, m - 1);
        assert(l[m - 1] == s[a + m - 1]);
        assert(sep_at(s, seps, esc, 0, false, a + m - 1) == sep_at(l, seps, esc, 0, false, m - 1));
        let sl = seps_upto(l, seps, esc, 0, false, m - 1);
        if sep_at(l, seps, esc, 0, false, m - 1) {
            assert(seps_upto(l, seps, esc, 0, false, m) == sl.push((m - 1) as u32));
            assert(sl.push((m - 1) as u32).map_values(|x: u32| (x + a) as u32) =~= sl.map_values(|x: u32| (x + a) as u32).push(
                (a + m - 1) as u32,
            ));
            assert(seps_upto(s, seps, esc, 0, false, a) + sl.map_values(|x: u32| (x + a) as u32).push((a + m - 1) as u32)
                =~= (seps_upto(s, seps, esc, 0, false, a) + sl.map_values(|x: u32| (x + a) as u32)).push((a + m - 1) as u32));
        }
    }
}

/// Field bounds from `fstart` split at the positions `ss`, the last field
/// running to `n`.
pub open spec fn chain(fstart: int, ss: Seq<int>, n: int) -> Seq<(int, int)>
    decreases ss.len(),
{
    if ss.len() == 0 {
        seq![(fstart, n)]
    } else {
        seq![(fstart, ss[0])] + chain(ss[0] + 1, ss.skip(1), n)
    }
}

/// Field bounds widened to integers.
pub open spec fn widen_row(r: Seq<(u32, u32)>) -> Seq<(int, int)> {
    r.map_values(|f: (u32, u32)| (f.0 as int, f.1 as int))
}

/// Positions widened to integers.
pub open spec fn ints(ss: Seq<u32>) -> Seq<int> {
    ss.map_values(|x: u32| x as int)
}

/// The separators of `l` at or after `j`.
pub open spec fn seps_from(l: Seq<u8>, seps: Seq<u8>, esc: u8, j: int) -> Seq<int> {
    ints(seps_upto(l, seps, esc, 0, false, l.len() as int)).skip(seps_upto(l, seps, esc, 0, false, j).len() as int)
}

/// The line walk splits a line exactly at the separators the parity model
/// finds in it.
proof fn lemma_line_walk_chain(l: Seq<u8>, seps: Seq<u8>, esc: u8, j: int, fstart: int, acc: Seq<(int, int)>)
    requires
        0 <= j <= l.len(),
        l.len() <= MAX_INPUT_SIZE,
        bytes_distinct(seps, esc),
    ensures
        crate::strategy::streaming::line_walk(l, seps, esc, j, quoted_at(l, esc, 0, false, j), fstart, acc) == acc + chain(
            fstart,
            seps_from(l, seps, esc, j),
            l.len() as int,
        ),
    decreases l.len() - j,
{
    let n = l.len() as int;
    let full = seps_upto(l, seps, esc, 0, false, n);
    let inq = quoted_at(l, esc, 0, false, j);
    lemma_seps_prefix(l, seps, esc, j, n);
    if j == n {
        assert(seps_from(l, seps, esc, j) =~= Seq::<int>::empty());
        assert(acc.push((fstart, n)) =~= acc + seq![(fstart, n)]);
    } else {
        lemma_seps_prefix(l, seps, esc, j + 1, n);
        let sj = seps_upto(l, seps, esc, 0, false, j);
        assert(quoted_at(l, esc, 0, false, j + 1) == (inq != (l[j] == esc)));
        let sep_here = sep_at(l, seps, esc, 0, false, j);
        if !sep_here {
            assert(seps_upto(l, seps, esc, 0, false, j + 1) == sj);
        }
        if inq {
            if l[j] == esc {
                if j + 1 < n && l[j + 1] == esc {
                    lemma_seps_prefix(l, seps, esc, j + 2, n);
                    assert(quoted_at(l, esc, 0, false, j + 2) == (quoted_at(l, esc, 0, false, j + 1) != (l[j + 1] == esc)));
                    assert(!sep_at(l, seps, esc, 0, false, j + 1));
                    assert(seps_upto(l, seps, esc, 0, false, j + 2) == seps_upto(l, seps, esc, 0, false, j + 1));
                    lemma_line_walk_chain(l, seps, esc, j + 2, fstart, acc);
                } else {
                    lemma_line_walk_chain(l, seps, esc, j + 1, fstart, acc);
                }
            } else {
                lemma_line_walk_chain(l, seps, esc, j + 1, fstart, acc);
            }
        } else if l[j] == esc {
            lemma_line_walk_chain(l, seps, esc, j + 1, fstart, acc);
        } else if seps.contains(l[j]) {
            assert(l[j] != 10u8);
            assert(sep_here);
            let sj1 = seps_upto(l, seps, esc, 0, false, j + 1);
            assert(sj1 == sj.push(j as u32));
            assert(full[sj.len() as int] == sj1[sj.len() as int]);
            let d = seps_from(l, seps, esc, j);
            assert(d[0] == j);
            assert(d.skip(1) =~= seps_from(l, seps, esc, j + 1));
            lemma_line_walk_chain(l, seps, esc, j + 1, j + 1, acc.push((fstart, j)));
            assert(chain(fstart, d, n) == seq![(fstart, j)] + chain(j + 1, d.skip(1), n));
            assert(acc.push((fstart, j)) + chain(j + 1, d.skip(1), n) =~= acc + (seq![(fstart, j)] + chain(j + 1, d.skip(1), n)));
        } else {
            lemma_line_walk_chain(l, seps, esc, j + 1, fstart, acc);
        }
    }
}

/// Every row end found before `p` ends with an unquoted line feed, after a
/// carriage return when it is two bytes long.
proof fn lemma_ends_entries(s: Seq<u8>, esc: u8, p: int)
    requires
        0 <= p <= s.len(),
        s.len() <= MAX_INPUT_SIZE,
    ensures
        forall|k: int| 0 <= k < ends_upto(s, esc, 0, false, p).len() ==> {
            let e = #[trigger] ends_upto(s, esc, 0, false, p)[k];
            &&& 1 <= e.len <= 2
            &&& e.pos + e.len <= p
            &&& s[e.pos + e.len - 1] == 10u8
            &&& !pq(s, esc, e.pos + e.len - 1)
            &&& (e.len == 2 ==> s[e.pos as int] == 13u8)
        },
    decreases p,
{
    if p > 0 {
        lemma_ends_entries(s, esc, p - 1);
        let prev = ends_upto(s, esc, 0, false, p - 1);
        let cur = ends_upto(s, esc, 0, false, p);
        if lf_at(s, esc, 0, false, p - 1) {
            assert(cur == prev.push(row_end_for(s, p - 1)));
            assert forall|k: int| 0 <= k < cur.len() implies {
                let e = #[trigger] cur[k];
                &&& 1 <= e.len <= 2
                &&& e.pos + e.len <= p
                &&& s[e.pos + e.len - 1] == 10u8
                &&& !pq(s, esc, e.pos + e.len - 1)
                &&& (e.len == 2 ==> s[e.pos as int] == 13u8)
            } by {
                if k < prev.len() {
                    assert(cur[k] == prev[k]);
                }
            }
        } else {
            assert(cur == prev);
        }
    }
}

/// Field bounds split in closed form.
proof fn lemma_chain_index(fstart: int, ss: Seq<int>, n: int, i: int)
    requires
        0 <= i <= ss.len(),
    ensures
        chain(fstart, ss, n).len() == ss.len() + 1,
        chain(fstart, ss, n)[i] == (if i == 0 { fstart } else { ss[i - 1] + 1 }, if i < ss.len() { ss[i] } else { n }),
    decreases ss.len(),
{
    if ss.len() > 0 {
        if i > 0 {
            lemma_chain_index(ss[0] + 1, ss.skip(1), n, i - 1);
        } else {
            lemma_chain_index(ss[0] + 1, ss.skip(1), n, 0);
        }
    }
}

/// Where a row starts, the parity is even.
proof fn lemma_row_start_unquoted(s: Seq<u8>, esc: u8, k: int)
    requires
        s.len() <= MAX_INPUT_SIZE,
        bytes_distinct(Seq::empty(), esc),
        0 <= k <= ends_upto(s, esc, 0, false, s.len() as int).len(),
    ensures
        !pq(s, esc, row_start_of(ends_upto(s, esc, 0, false, s.len() as int), k) as int),
        row_start_of(ends_upto(s, esc, 0, false, s.len() as int), k) <= s.len(),
{
    let re = ends_upto(s, esc, 0, false, s.len() as int);
    lemma_ends_entries(s, esc, s.len() as int);
    if k > 0 {
        let e = re[k - 1];
        let i = e.pos + e.len - 1;
        assert(pq(s, esc, i + 1) == (pq(s, esc, i) != (s[i] == esc)));
    }
}

/// Separators found up to the content end of a row end are those found up
/// to the next row start: the terminator holds none.
proof fn lemma_no_seps_in_terminator(s: Seq<u8>, seps: Seq<u8>, esc: u8, e: RowEnd)
    requires
        s.len() <= MAX_INPUT_SIZE,
        bytes_distinct(seps, esc),
        1 <= e.len <= 2,
        e.pos + e.len <= s.len(),
        s[e.pos + e.len - 1] == 10u8,
        e.len == 2 ==> s[e.pos as int] == 13u8,
    ensures
        seps_upto(s, seps, esc, 0, false, e.pos + e.len) == seps_upto(s, seps, esc, 0, false, e.pos as int),
{
    let p = e.pos as int;
    assert(!sep_at(s, seps, esc, 0, false, p));
    assert(seps_upto(s, seps, esc, 0, false, p + 1) == seps_upto(s, seps, esc, 0, false, p));
    if e.len == 2 {
        assert(!sep_at(s, seps, esc, 0, false, p + 1));
        assert(seps_upto(s, seps, esc, 0, false, p + 2) == seps_upto(s, seps, esc, 0, false, p + 1));
    }
}

/// `count_below` of all separators at `x` counts the separators before `x`.
proof fn lemma_count_seps(s: Seq<u8>, seps: Seq<u8>, esc: u8, x: int)
    requires
        0 <= x <= s.len(),
        s.len() <= MAX_INPUT_SIZE,
    ensures
        crate::base::simd_index::count_below(seps_upto(s, seps, esc, 0, false, s.len() as int), x as u32)
            == seps_upto(s, seps, esc, 0, false, x).len(),
{
    let full = seps_upto(s, seps, esc, 0, false, s.len() as int);
    let sx = seps_upto(s, seps, esc, 0, false, x);
    lemma_seps_upto_wf(s, seps, esc, 0, false, s.len() as int);
    lemma_seps_prefix(s, seps, esc, x, s.len() as int);
    lemma_seps_below(s, seps, esc, x);
    assert forall|i: int| 0 <= i < sx.len() implies full[i] < x as u32 by {
        assert(full.take(sx.len() as int)[i] == full[i]);
    }
    crate::base::simd_index::lemma_count_below_split(full, x as u32, sx.len() as int);
}

/// One row: the line the streaming parser splits on its own has the fields
/// the batch scan gives that row.
pub(crate) proof fn lemma_row_matches(s: Seq<u8>, seps: Seq<u8>, esc: u8, k: int)
    requires
        bytes_distinct(seps, esc),
        s.len() <= MAX_INPUT_SIZE,
        0 <= k < row_count_of(ends_upto(s, esc, 0, false, s.len() as int), s.len() as u32),
    ensures
        ({
            let re = ends_upto(s, esc, 0, false, s.len() as int);
            let fs = seps_upto(s, seps, esc, 0, false, s.len() as int);
            let a = row_start_of(re, k) as int;
            let b = content_end_of(re, s.len() as u32, k) as int;
            &&& a <= b <= s.len()
            &&& line_fields(s.subrange(a, b), seps, esc) == row_values(s, row_fields_of(fs, re, s.len() as u32, k), esc)
            &&& widen_row(row_fields_of(fs, re, s.len() as u32, k)) == shift(
                crate::strategy::streaming::line_walk(s.subrange(a, b), seps, esc, 0, false, 0, Seq::empty()),
                a,
            )
        }),
{
    let n = s.len() as int;
    let re = ends_upto(s, esc, 0, false, n);
    let fs = seps_upto(s, seps, esc, 0, false, n);
    let a = row_start_of(re, k) as int;
    let b = content_end_of(re, s.len() as u32, k) as int;
    lemma_ends_upto_wf(s, esc, 0, false, n);
    lemma_ends_entries(s, esc, n);
    lemma_row_start_unquoted(s, esc, k);
    if k < re.len() {
        if k > 0 {
            assert(re[k - 1].pos + re[k - 1].len <= re[k].pos);
        }
    }
    assert(a <= b);
    let l = s.subrange(a, b);
    let m = b - a;
    lemma_seps_shift(s, seps, esc, a, b, m);
    lemma_count_seps(s, seps, esc, b);
    lemma_seps_prefix(s, seps, esc, b, n);
    let sa = seps_upto(s, seps, esc, 0, false, a);
    let sb = seps_upto(s, seps, esc, 0, false, b);
    let sl = seps_upto(l, seps, esc, 0, false, m);
    if k > 0 {
        let e = re[k - 1];
        lemma_no_seps_in_terminator(s, seps, esc, e);
        lemma_count_seps(s, seps, esc, e.pos as int);
    } else {
        assert(sa =~= Seq::<u32>::empty());
    }
    let cs = crate::base::simd_index::cursor_seps_of(fs, re, s.len() as u32, k);
    assert(cs =~= fs.subrange(sa.len() as int, sb.len() as int));
    assert(cs =~= sl.map_values(|x: u32| (x + a) as u32)) by {
        assert forall|i: int| 0 <= i < cs.len() implies cs[i] == sl.map_values(|x: u32| (x + a) as u32)[i] by {
            assert(fs.take(sb.len() as int)[sa.len() + i] == fs[sa.len() + i]);
            assert(sb[sa.len() + i] == (sa + sl.map_values(|x: u32| (x + a) as u32))[sa.len() + i]);
        }
    }
    lemma_seps_below(l, seps, esc, m);
    lemma_line_walk_chain(l, seps, esc, 0, 0, Seq::empty());
    assert(seps_from(l, seps, esc, 0) =~= ints(sl));
    let walk = crate::strategy::streaming::line_walk(l, seps, esc, 0, false, 0, Seq::empty());
    assert(walk =~= chain(0, ints(sl), m));
    let fo = row_fields_of(fs, re, s.len() as u32, k);
    assert(fo == crate::base::simd_index::fields_of(cs, a as u32, b as u32));
    lemma_chain_index(0, ints(sl), m, 0);
    assert(walk.len() == fo.len());
    let lf = line_fields(l, seps, esc);
    let rv = row_values(s, fo, esc);
    assert forall|i: int| 0 <= i < fo.len() implies lf[i] == rv[i] by {
        lemma_chain_index(0, ints(sl), m, i);
        let x = walk[i].0;
        let y = walk[i].1;
        assert(fo[i].0 as int == a + x);
        assert(fo[i].1 as int == a + y);
        if x < y {
            assert(l.subrange(x, y) =~= s.subrange(a + x, a + y));
        }
    }
    assert(lf =~= rv);
    assert(widen_row(fo) =~= shift(walk, a)) by {
        assert forall|i: int| 0 <= i < fo.len() implies #[trigger] widen_row(fo)[i] == shift(walk, a)[i] by {
            lemma_chain_index(0, ints(sl), m, i);
        }
    }
}

/// The streaming parser's rows for a whole input are the batch parsers'.
pub proof fn lemma_stream_rows_match_batch(s: Seq<u8>, seps: Seq<u8>, esc: u8)
    requires
        bytes_distinct(seps, esc),
        s.len() <= MAX_INPUT_SIZE,
    ensures
        crate::strategy::streaming::stream_rows(s, seps, esc) == batch_rows(s, seps, esc),
{
    let n = s.len() as int;
    lemma_agree_init(s, seps, esc);
    lemma_agree_scan(s, seps, esc, 0, initial_quote_state(), 0, Seq::empty());
    let re = ends_upto(s, esc, 0, false, n);
    let fs = seps_upto(s, seps, esc, 0, false, n);
    let lines = crate::strategy::streaming::stream_lines(s, seps, esc, initial_quote_state());
    let cnt = row_count_of(re, s.len() as u32);
    assert(lines.len() == cnt);
    let sr = crate::strategy::streaming::stream_rows(s, seps, esc);
    let br = batch_rows(s, seps, esc);
    assert forall|k: int| 0 <= k < cnt implies sr[k] == br[k] by {
        assert(lines[k] == (row_start_of(re, k) as int, content_end_of(re, s.len() as u32, k) as int));
        lemma_row_matches(s, seps, esc, k);
    }
    assert(sr =~= br);
}

/// The lines the streaming parser reads from a whole input, each split by
/// the line walk and moved to its place, are the batch scan's field bounds.
pub(crate) proof fn lemma_stream_lines_bounds(s: Seq<u8>, seps: Seq<u8>, esc: u8)
    requires
        bytes_distinct(seps, esc),
        s.len() <= MAX_INPUT_SIZE,
    ensures
        ({
            let lines = crate::strategy::streaming::stream_lines(s, seps, esc, initial_quote_state());
            lines.map_values(
                |r: (int, int)|
                    shift(crate::strategy::streaming::line_walk(s.subrange(r.0, r.1), seps, esc, 0, false, 0, Seq::empty()), r.0),
            ) == crate::base::simd_scanner::batch_bounds(s, seps, esc).map_values(|row: Seq<(u32, u32)>| widen_row(row))
        }),
{
    let n = s.len() as int;
    lemma_agree_init(s, seps, esc);
    lemma_agree_scan(s, seps, esc, 0, initial_quote_state(), 0, Seq::empty());
    let re = ends_upto(s, esc, 0, false, n);
    let lines = crate::strategy::streaming::stream_lines(s, seps, esc, initial_quote_state());
    let cnt = row_count_of(re, s.len() as u32);
    assert(lines.len() == cnt);
    let lhs = lines.map_values(
        |r: (int, int)|
            shift(crate::strategy::streaming::line_walk(s.subrange(r.0, r.1), seps, esc, 0, false, 0, Seq::empty()), r.0),
    );
    let rhs = crate::base::simd_scanner::batch_bounds(s, seps, esc).map_values(|row: Seq<(u32, u32)>| widen_row(row));
    assert forall|k: int| 0 <= k < cnt implies lhs[k] == rhs[k] by {
        assert(lines[k] == (row_start_of(re, k) as int, content_end_of(re, s.len() as u32, k) as int));
        lemma_row_matches(s, seps, esc, k);
    }
    assert(lhs =~= rhs);
}

/// Streaming agrees with batch parsing: on any input whose separators,
/// escape and row terminator bytes are distinct, the rows that the
/// streaming parser hands out over all its feeds and its finalize are the
/// batch parsers' rows, and its first quoting violation is theirs.
pub proof fn law_streaming_matches_batch(s: Seq<u8>, seps: Seq<u8>, esc: u8)
    requires
        bytes_distinct(seps, esc),
        s.len() <= MAX_INPUT_SIZE,
    ensures
        crate::strategy::streaming::stream_rows(s, seps, esc) == batch_rows(s, seps, esc),
        crate::strategy::streaming::stream_violation(s, seps, esc) == scan_violation(s, seps, esc),
{
    lemma_stream_rows_match_batch(s, seps, esc);
    lemma_stream_violation_matches_batch(s, seps, esc);
}

/// A parser that started afresh (`new`, `with_config`, `with_multi_sep`,
/// `reset`, or a `finalize` followed by a successful `feed`) and was fed any
/// chunks gives, over the rows already taken and
/// the rows `finalize` returns, the batch parsers' rows of everything it
/// was fed, and reports their first quoting violation after `finalize`.
pub proof fn law_parser_matches_batch(p: StreamingParser, fin: StreamingParser, r: Seq<Seq<Seq<u8>>>)
    requires
        p.wf(),
        p.start_state() == initial_quote_state(),
        p.carried() is None,
        StreamingParser::finalize_post(p, fin, r),
        bytes_distinct(p.seps(), p.esc()),
        p.fed().len() <= MAX_INPUT_SIZE,
    ensures
        p.taken() + r == batch_rows(p.fed(), p.seps(), p.esc()),
        fin.current_violation() == scan_violation(p.fed(), p.seps(), p.esc()),
{
    law_streaming_matches_batch(p.fed(), p.seps(), p.esc());
    let f = stream_scan(p.fed(), p.seps(), p.esc(), true, 0, p.start_state(), 0, Seq::empty());
    assert(fin.scan_state().1 == fin.start_state());
}

/// The byte machine only ever records a violation at a byte: an open quote
/// at the end of input is decided by `finish_spec`, not by a step.
proof fn lemma_scan_no_unterminated(
    s: Seq<u8>,
    seps: Seq<u8>,
    esc: u8,
    at_end: bool,
    pos: int,
    q: QuoteState,
    rs: int,
    lines: Seq<(int, int)>,
)
    requires
        !(q.violation matches Some(Violation::UnterminatedQuote(_))),
    ensures
        !(stream_scan(s, seps, esc, at_end, pos, q, rs, lines).1.violation matches Some(Violation::UnterminatedQuote(_))),
    decreases s.len() - pos,
{
    if !(pos < 0 || pos >= s.len() || (!at_end && crate::strategy::streaming::needs_more(s, seps, esc, pos, q))) {
        let st = stream_step(s, seps, esc, pos, q);
        if !(st.0 <= pos || st.0 > s.len()) {
            if st.2 > 0 {
                lemma_scan_no_unterminated(s, seps, esc, at_end, st.0, st.1, st.0, lines.push((rs, pos)));
            } else {
                lemma_scan_no_unterminated(s, seps, esc, at_end, st.0, st.1, rs, lines);
            }
        }
    }
}

/// An open quote is reported only by `finalize`: a parser that started
/// afresh and was fed any chunks reports no unterminated quote, however its
/// input ends so far.
pub proof fn law_unterminated_only_at_finalize(p: StreamingParser)
    requires
        p.start_state() == initial_quote_state(),
        p.carried() is None,
    ensures
        !(p.current_violation() matches Some(Violation::UnterminatedQuote(_))),
{
    lemma_scan_no_unterminated(p.fed(), p.seps(), p.esc(), false, 0, p.start_state(), 0, Seq::empty());
}

/// Chunk independence of the single-byte streaming parser, for any
/// separators and escape: two parsers with the same configuration that
/// started in the same state, were fed the same bytes however cut into
/// chunks, and had the same rows taken, hold the same pending rows and
/// report the same violation; their `finalize` returns the same rows and
/// leaves the same violation behind.
pub proof fn law_streaming_chunking_irrelevant(
    p1: StreamingParser,
    p2: StreamingParser,
    f1: StreamingParser,
    f2: StreamingParser,
    r1: Seq<Seq<Seq<u8>>>,
    r2: Seq<Seq<Seq<u8>>>,
)
    requires
        p1.wf(),
        p2.wf(),
        p1.consistent(),
        p2.consistent(),
        p1.fed() == p2.fed(),
        p1.seps() == p2.seps(),
        p1.esc() == p2.esc(),
        p1.start_state() == p2.start_state(),
        p1.carried() == p2.carried(),
        p1.taken() == p2.taken(),
        StreamingParser::finalize_post(p1, f1, r1),
        StreamingParser::finalize_post(p2, f2, r2),
    ensures
        p1.pending() == p2.pending(),
        p1.current_violation() == p2.current_violation(),
        r1 == r2,
        f1.current_violation() == f2.current_violation(),
{
    let t = p1.taken();
    assert(p1.pending() =~= (t + p1.pending()).skip(t.len() as int));
    assert(p2.pending() =~= (t + p2.pending()).skip(t.len() as int));
    assert(r1 =~= (t + r1).skip(t.len() as int));
    assert(r2 =~= (t + r2).skip(t.len() as int));
}

/// The chunks joined in order.
pub open spec fn joined(chunks: Seq<Seq<u8>>) -> Seq<u8>
    decreases chunks.len(),
{
    if chunks.len() == 0 {
        Seq::empty()
    } else {
        joined(chunks.drop_last()) + chunks.last()
    }
}

/// `ps[i + 1]` is `ps[i]` after a successful `feed` of `chunks[i]`.
pub open spec fn fed_in_turn(ps: Seq<StreamingParser>, chunks: Seq<Seq<u8>>) -> bool {
    &&& ps.len() == chunks.len() + 1
    &&& forall|i: int| 0 <= i < chunks.len() ==> #[trigger] StreamingParser::feed_post(ps[i], ps[i + 1], chunks[i], Ok(()))
}

/// After feeding chunks in turn, the parser has been fed their join and
/// keeps its configuration, its start and the rows taken; any feed clears
/// a carried violation.
proof fn lemma_fed_in_turn(ps: Seq<StreamingParser>, chunks: Seq<Seq<u8>>)
    requires
        fed_in_turn(ps, chunks),
        ps[0].wf(),
        ps[0].consistent(),
    ensures
        ({
            let last = ps[chunks.len() as int];
            &&& last.wf()
            &&& last.consistent()
            &&& last.fed() == ps[0].fed() + joined(chunks)
            &&& last.taken() == ps[0].taken()
            &&& last.seps() == ps[0].seps()
            &&& last.esc() == ps[0].esc()
            &&& last.start_state() == ps[0].start_state()
            &&& last.carried() == if chunks.len() == 0 {
                ps[0].carried()
            } else {
                None
            }
        }),
    decreases chunks.len(),
{
    let n = chunks.len() as int;
    if n == 0 {
        assert(ps[0].fed() + joined(chunks) =~= ps[0].fed());
    } else {
        let ps2 = ps.take(n);
        let c2 = chunks.drop_last();
        assert forall|i: int| 0 <= i < c2.len() implies #[trigger] StreamingParser::feed_post(ps2[i], ps2[i + 1], c2[i], Ok(())) by {
            assert(StreamingParser::feed_post(ps[i], ps[i + 1], chunks[i], Ok(())));
        }
        lemma_fed_in_turn(ps2, c2);
        assert(StreamingParser::feed_post(ps[n - 1], ps[(n - 1) + 1], chunks[n - 1], Ok(())));
        assert(ps2[n - 1] == ps[n - 1]);
        assert(ps[0].fed() + joined(chunks) =~= ps[0].fed() + joined(c2) + chunks[n - 1]);
    }
}

/// Chunk independence over any number of feeds: two parsers that start
/// alike, with no carried violation, and are fed, in turn, chunks whose
/// joins are the same bytes, hold the same pending rows and report the same
/// violation; their `finalize` returns the same rows and leaves the same
/// violation behind.
pub proof fn law_feeds_in_any_chunks(
    ps1: Seq<StreamingParser>,
    chunks1: Seq<Seq<u8>>,
    ps2: Seq<StreamingParser>,
    chunks2: Seq<Seq<u8>>,
    f1: StreamingParser,
    r1: Seq<Seq<Seq<u8>>>,
    f2: StreamingParser,
    r2: Seq<Seq<Seq<u8>>>,
)
    requires
        fed_in_turn(ps1, chunks1),
        fed_in_turn(ps2, chunks2),
        ps1[0].wf(),
        ps2[0].wf(),
        ps1[0].consistent(),
        ps2[0].consistent(),
        ps1[0].fed() == ps2[0].fed(),
        ps1[0].seps() == ps2[0].seps(),
        ps1[0].esc() == ps2[0].esc(),
        ps1[0].start_state() == ps2[0].start_state(),
        ps1[0].taken() == ps2[0].taken(),
        ps1[0].carried() is None,
        ps2[0].carried() is None,
        joined(chunks1) == joined(chunks2),
        StreamingParser::finalize_post(ps1.last(), f1, r1),
        StreamingParser::finalize_post(ps2.last(), f2, r2),
    ensures
        ps1.last().pending() == ps2.last().pending(),
        ps1.last().current_violation() == ps2.last().current_violation(),
        r1 == r2,
        f1.current_violation() == f2.current_violation(),
{
    lemma_fed_in_turn(ps1, chunks1);
    lemma_fed_in_turn(ps2, chunks2);
    assert(ps1.last() == ps1[chunks1.len() as int]);
    assert(ps2.last() == ps2[chunks2.len() as int]);
    law_streaming_chunking_irrelevant(ps1.last(), ps2.last(), f1, f2, r1, r2);
}

} // verus!
