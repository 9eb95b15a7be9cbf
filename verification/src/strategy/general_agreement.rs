//! The general streaming parsers agree with the general batch parsers.
//!
//! The streaming scan finds row ends by escapes and newlines alone and
//! splits each line into fields afterwards; the batch walk reads
//! separators, escapes and newlines in one pass. The two read the same rows
//! as long as no separator holds a byte that could begin an escape or a row
//! terminator. The proofs relate the walk of one row to the scan over it,
//! and that walk to the walk of the row's line on its own.
//!
//! The same walk, given one-byte separators and a one-byte escape, steps
//! exactly as the single-byte streaming machine does; through that machine
//! the general boundary scan meets the single-byte batch scan.

use vstd::prelude::*;

use crate::base::newlines::{Newlines, first_match_len, lemma_first_match_len_fits, patterns_of};
use crate::base::scanner::{QuoteState, initial_quote_state, on_data_spec, on_delimiter_spec, on_escape_spec};
use crate::strategy::general::{
    NewlineMode, bounds_int, general_row_at, general_scan, general_values, line_bounds_spec, mode_ok,
    nl_len_at, row_values_general, sep_len_at, starts_at, walk_row, walk_rows, lemma_walk_row_bounds,
};
use crate::strategy::general_streaming::{GeneralStream, general_lines_rows, gstream_scan, gstream_step, lemma_final_lines};
use crate::strategy::streaming::{line_walk, stream_scan, stream_lines};
use crate::strategy::stream_agreement::{bytes_distinct, widen_row, lemma_stream_lines_bounds, lemma_stream_violation_matches_batch};
use crate::base::simd_scanner::{batch_bounds, scan_violation};
use crate::base::simd_index::{MAX_INPUT_SIZE, ScannedBoundaries};
use crate::base::scanner::finish_spec;
use crate::strategy::zero_copy::{rows_view, scanned_of, widen_bounds};

verus! {

/// The newline patterns the streaming scan uses for a batch newline mode:
/// `None` for `\n` / `\r\n`.
pub open spec fn mode_pats(mode: NewlineMode) -> Option<Seq<Seq<u8>>> {
    match mode {
        NewlineMode::Custom(n) => Some(patterns_of(n)),
        _ => None,
    }
}

/// Byte `b` can neither begin the escape nor begin a row terminator.
pub open spec fn plain_byte(b: u8, esc: Seq<u8>, mode: NewlineMode) -> bool {
    &&& b != esc[0]
    &&& match mode {
        NewlineMode::Custom(n) => forall|j: int| 0 <= j < patterns_of(n).len() ==> (#[trigger] patterns_of(n)[j])[0] != b,
        _ => b != 10u8 && b != 13u8,
    }
}

/// Every byte of every separator is plain.
pub open spec fn seps_apart(seps: Seq<Seq<u8>>, esc: Seq<u8>, mode: NewlineMode) -> bool {
    forall|k: int, i: int| 0 <= k < seps.len() && 0 <= i < seps[k].len() ==> plain_byte(#[trigger] seps[k][i], esc, mode)
}

/// Bounds moved `a` bytes to the right.
pub open spec fn shift(b: Seq<(int, int)>, a: int) -> Seq<(int, int)> {
    b.map_values(|x: (int, int)| (x.0 + a, x.1 + a))
}

/// No pattern whose first byte differs from `s[pos]` matches there.
proof fn lemma_no_match_first_byte(s: Seq<u8>, pos: int, pats: Seq<Seq<u8>>)
    requires
        0 <= pos < s.len(),
        forall|j: int| 0 <= j < pats.len() ==> (#[trigger] pats[j]).len() > 0 && pats[j][0] != s[pos],
    ensures
        first_match_len(s, pos, pats) == 0,
    decreases pats.len(),
{
    if pats.len() > 0 {
        if pos + pats[0].len() <= s.len() {
            assert(s.subrange(pos, pos + pats[0].len())[0] == s[pos]);
        }
        assert forall|j: int| 0 <= j < pats.skip(1).len() implies (#[trigger] pats.skip(1)[j]).len() > 0
            && pats.skip(1)[j][0] != s[pos] by {
            assert(pats.skip(1)[j] == pats[j + 1]);
        }
        lemma_no_match_first_byte(s, pos, pats.skip(1));
    }
}

/// A positive first match is one of the patterns, found at `pos`.
proof fn lemma_first_match_witness(s: Seq<u8>, pos: int, pats: Seq<Seq<u8>>) -> (k: int)
    requires
        first_match_len(s, pos, pats) > 0,
    ensures
        0 <= k < pats.len(),
        pats[k].len() == first_match_len(s, pos, pats),
        pos + pats[k].len() <= s.len(),
        s.subrange(pos, pos + pats[k].len()) == pats[k],
    decreases pats.len(),
{
    if pos + pats[0].len() <= s.len() && s.subrange(pos, pos + pats[0].len()) == pats[0] {
        0
    } else {
        let k = lemma_first_match_witness(s, pos, pats.skip(1));
        assert(pats.skip(1)[k] == pats[k + 1]);
        k + 1
    }
}

/// A pattern occurs in a slice `s[a..b]` exactly where it occurs in `s`
/// within the slice.
proof fn lemma_starts_sub(s: Seq<u8>, a: int, b: int, x: int, pat: Seq<u8>)
    requires
        0 <= a <= x <= b <= s.len(),
    ensures
        starts_at(s.subrange(a, b), x - a, pat) == (starts_at(s, x, pat) && x + pat.len() <= b),
{
    let line = s.subrange(a, b);
    if x + pat.len() <= b {
        assert(line.subrange(x - a, x - a + pat.len()) =~= s.subrange(x, x + pat.len()));
    }
}

/// A first match that ends within the slice `s[a..b]` is the first match
/// there too.
proof fn lemma_first_match_sub(s: Seq<u8>, a: int, b: int, p: int, pats: Seq<Seq<u8>>)
    requires
        0 <= a <= p <= b <= s.len(),
        first_match_len(s, p, pats) > 0 ==> p + first_match_len(s, p, pats) <= b,
    ensures
        first_match_len(s.subrange(a, b), p - a, pats) == first_match_len(s, p, pats),
    decreases pats.len(),
{
    if pats.len() > 0 {
        let line = s.subrange(a, b);
        let n = pats[0].len() as int;
        if p + n <= b {
            assert(line.subrange(p - a, p - a + n) =~= s.subrange(p, p + n));
        }
        if !(p + n <= s.len() && s.subrange(p, p + n) == pats[0]) {
            lemma_first_match_sub(s, a, b, p, pats.skip(1));
        }
    }
}

/// The walk of a row stops at or after where it is.
proof fn lemma_walk_stop_after(
    s: Seq<u8>,
    seps: Seq<Seq<u8>>,
    esc: Seq<u8>,
    mode: NewlineMode,
    pos: int,
    q: QuoteState,
    fstart: int,
    acc: Seq<(int, int)>,
)
    requires
        0 <= pos <= s.len(),
    ensures
        pos <= walk_row(s, seps, esc, mode, pos, q, fstart, acc).2 <= s.len(),
    decreases s.len() - pos,
{
    if pos >= s.len() || esc.len() == 0 || pos < 0 {
    } else if q.in_quotes {
        if starts_at(s, pos, esc) {
            if starts_at(s, pos + esc.len(), esc) {
                lemma_walk_stop_after(s, seps, esc, mode, pos + 2 * esc.len(), on_escape_spec(q, pos as usize, true), fstart, acc);
            } else {
                lemma_walk_stop_after(s, seps, esc, mode, pos + esc.len(), on_escape_spec(q, pos as usize, false), fstart, acc);
            }
        } else {
            lemma_walk_stop_after(s, seps, esc, mode, pos + 1, q, fstart, acc);
        }
    } else if starts_at(s, pos, esc) {
        lemma_walk_stop_after(s, seps, esc, mode, pos + esc.len(), on_escape_spec(q, pos as usize, false), fstart, acc);
    } else if sep_len_at(s, pos, seps) > 0 {
        let l = sep_len_at(s, pos, seps);
        lemma_first_match_len_fits(s, pos, seps);
        lemma_walk_stop_after(s, seps, esc, mode, pos + l, on_delimiter_spec(q), pos + l, acc.push((fstart, pos)));
    } else if nl_len_at(s, pos, mode) > 0 {
    } else {
        lemma_walk_stop_after(s, seps, esc, mode, pos + 1, on_data_spec(q, pos as usize), fstart, acc);
    }
}

/// Outside quotes at the end of input, the scan steps over a plain byte as
/// data.
proof fn lemma_plain_step(s: Seq<u8>, esc: Seq<u8>, mode: NewlineMode, pos: int)
    requires
        0 <= pos < s.len(),
        esc.len() > 0,
        mode_ok(mode),
        plain_byte(s[pos], esc, mode),
    ensures
        gstream_step(s, esc, mode_pats(mode), true, pos, false) == Some((pos + 1, false, 0int)),
{
    if starts_at(s, pos, esc) {
        assert(s.subrange(pos, pos + esc.len())[0] == s[pos]);
    }
    match mode {
        NewlineMode::Custom(n) => {
            lemma_no_match_first_byte(s, pos, patterns_of(n));
        },
        _ => {},
    }
}

/// Outside quotes at the end of input, the scan passes over a run of plain
/// bytes without ending a line.
proof fn lemma_scan_plain_run(
    s: Seq<u8>,
    esc: Seq<u8>,
    mode: NewlineMode,
    pos: int,
    end: int,
    rs: int,
    lines: Seq<(int, int)>,
)
    requires
        0 <= pos <= end <= s.len(),
        esc.len() > 0,
        mode_ok(mode),
        forall|i: int| pos <= i < end ==> plain_byte(#[trigger] s[i], esc, mode),
    ensures
        gstream_scan(s, esc, mode_pats(mode), true, pos, false, rs, lines) == gstream_scan(
            s,
            esc,
            mode_pats(mode),
            true,
            end,
            false,
            rs,
            lines,
        ),
    decreases end - pos,
{
    if pos < end {
        lemma_plain_step(s, esc, mode, pos);
        lemma_scan_plain_run(s, esc, mode, pos + 1, end, rs, lines);
    }
}

/// The walk of one row from `pos` and the streaming scan from `pos` at the
/// end of input: where the walk ends the row at a terminator, the scan has
/// ended the line there too and goes on after it, outside quotes; where
/// the walk reaches the end of input, so does the scan, with the same
/// quote flag and no new line.
proof fn lemma_walk_scan(
    s: Seq<u8>,
    seps: Seq<Seq<u8>>,
    esc: Seq<u8>,
    mode: NewlineMode,
    pos: int,
    q: QuoteState,
    fstart: int,
    acc: Seq<(int, int)>,
    rs: int,
    lines: Seq<(int, int)>,
)
    requires
        esc.len() > 0,
        mode_ok(mode),
        !(mode is Off),
        seps_apart(seps, esc, mode),
        0 <= pos <= s.len(),
    ensures
        ({
            let w = walk_row(s, seps, esc, mode, pos, q, fstart, acc);
            let g = gstream_scan(s, esc, mode_pats(mode), true, pos, q.in_quotes, rs, lines);
            if w.3 > 0 {
                &&& !w.4.in_quotes
                &&& g == gstream_scan(s, esc, mode_pats(mode), true, w.2 + w.3, false, w.2 + w.3, lines.push((rs, w.2)))
            } else {
                g == (s.len() as int, w.4.in_quotes, rs, lines)
            }
        }),
    decreases s.len() - pos,
{
    let ps = mode_pats(mode);
    let k = esc.len() as int;
    if pos >= s.len() {
    } else if q.in_quotes {
        if starts_at(s, pos, esc) {
            if starts_at(s, pos + k, esc) {
                assert(gstream_step(s, esc, ps, true, pos, true) == Some((pos + 2 * k, true, 0int)));
                lemma_walk_scan(s, seps, esc, mode, pos + 2 * k, on_escape_spec(q, pos as usize, true), fstart, acc, rs, lines);
            } else {
                assert(gstream_step(s, esc, ps, true, pos, true) == Some((pos + k, false, 0int)));
                lemma_walk_scan(s, seps, esc, mode, pos + k, on_escape_spec(q, pos as usize, false), fstart, acc, rs, lines);
            }
        } else {
            assert(gstream_step(s, esc, ps, true, pos, true) == Some((pos + 1, true, 0int)));
            lemma_walk_scan(s, seps, esc, mode, pos + 1, q, fstart, acc, rs, lines);
        }
    } else if starts_at(s, pos, esc) {
        assert(gstream_step(s, esc, ps, true, pos, false) == Some((pos + k, true, 0int)));
        lemma_walk_scan(s, seps, esc, mode, pos + k, on_escape_spec(q, pos as usize, false), fstart, acc, rs, lines);
    } else if sep_len_at(s, pos, seps) > 0 {
        let l = sep_len_at(s, pos, seps);
        let j = lemma_first_match_witness(s, pos, seps);
        assert forall|i: int| pos <= i < pos + l implies plain_byte(#[trigger] s[i], esc, mode) by {
            assert(s.subrange(pos, pos + l)[i - pos] == seps[j][i - pos]);
        }
        lemma_scan_plain_run(s, esc, mode, pos, pos + l, rs, lines);
        lemma_walk_scan(s, seps, esc, mode, pos + l, on_delimiter_spec(q), pos + l, acc.push((fstart, pos)), rs, lines);
    } else if nl_len_at(s, pos, mode) > 0 {
        let nl = nl_len_at(s, pos, mode);
        match mode {
            NewlineMode::Custom(n) => {
                lemma_first_match_len_fits(s, pos, patterns_of(n));
            },
            _ => {},
        }
        assert(gstream_step(s, esc, ps, true, pos, false) == Some((pos + nl, false, nl)));
    } else {
        assert(gstream_step(s, esc, ps, true, pos, false) == Some((pos + 1, false, 0int)));
        lemma_walk_scan(s, seps, esc, mode, pos + 1, on_data_spec(q, pos as usize), fstart, acc, rs, lines);
    }
}

/// The walk of a row in `s` that stops at `b` is the walk of the slice
/// `s[a..b]` with no row terminators, moved `a` bytes to the right, from
/// any quote state with the same flag.
proof fn lemma_walk_shift(
    s: Seq<u8>,
    seps: Seq<Seq<u8>>,
    esc: Seq<u8>,
    mode: NewlineMode,
    a: int,
    b: int,
    p: int,
    q: QuoteState,
    q2: QuoteState,
    fstart: int,
    acc: Seq<(int, int)>,
    acc2: Seq<(int, int)>,
)
    requires
        esc.len() > 0,
        mode_ok(mode),
        0 <= a <= fstart <= p <= b <= s.len(),
        walk_row(s, seps, esc, mode, p, q, fstart, acc).2 == b,
        q2.in_quotes == q.in_quotes,
        acc == shift(acc2, a),
    ensures
        ({
            let w = walk_row(s, seps, esc, mode, p, q, fstart, acc);
            let l = walk_row(s.subrange(a, b), seps, esc, NewlineMode::Off, p - a, q2, fstart - a, acc2);
            &&& w.0 == shift(l.0, a)
            &&& w.1 == l.1 + a
            &&& w.2 == l.2 + a
        }),
    decreases s.len() - p,
{
    let line = s.subrange(a, b);
    let k = esc.len() as int;
    let lp = p - a;
    if p >= s.len() {
    } else if p == b {
        // the walk stops here, so it found a row terminator
        if q.in_quotes {
            if starts_at(s, p, esc) {
                if starts_at(s, p + k, esc) {
                    lemma_walk_stop_after(s, seps, esc, mode, p + 2 * k, on_escape_spec(q, p as usize, true), fstart, acc);
                } else {
                    lemma_walk_stop_after(s, seps, esc, mode, p + k, on_escape_spec(q, p as usize, false), fstart, acc);
                }
            } else {
                lemma_walk_stop_after(s, seps, esc, mode, p + 1, q, fstart, acc);
            }
            assert(false);
        } else if starts_at(s, p, esc) {
            lemma_walk_stop_after(s, seps, esc, mode, p + k, on_escape_spec(q, p as usize, false), fstart, acc);
            assert(false);
        } else if sep_len_at(s, p, seps) > 0 {
            let l = sep_len_at(s, p, seps);
            lemma_first_match_len_fits(s, p, seps);
            lemma_walk_stop_after(s, seps, esc, mode, p + l, on_delimiter_spec(q), p + l, acc.push((fstart, p)));
            assert(false);
        } else if nl_len_at(s, p, mode) > 0 {
        } else {
            lemma_walk_stop_after(s, seps, esc, mode, p + 1, on_data_spec(q, p as usize), fstart, acc);
            assert(false);
        }
    } else if q.in_quotes {
        if starts_at(s, p, esc) {
            if starts_at(s, p + k, esc) {
                lemma_walk_stop_after(s, seps, esc, mode, p + 2 * k, on_escape_spec(q, p as usize, true), fstart, acc);
                lemma_starts_sub(s, a, b, p, esc);
                lemma_starts_sub(s, a, b, p + k, esc);
                lemma_walk_shift(s, seps, esc, mode, a, b, p + 2 * k, on_escape_spec(q, p as usize, true),
                    on_escape_spec(q2, lp as usize, true), fstart, acc, acc2);
            } else {
                lemma_walk_stop_after(s, seps, esc, mode, p + k, on_escape_spec(q, p as usize, false), fstart, acc);
                lemma_starts_sub(s, a, b, p, esc);
                lemma_starts_sub(s, a, b, p + k, esc);
                lemma_walk_shift(s, seps, esc, mode, a, b, p + k, on_escape_spec(q, p as usize, false),
                    on_escape_spec(q2, lp as usize, false), fstart, acc, acc2);
            }
        } else {
            lemma_walk_stop_after(s, seps, esc, mode, p + 1, q, fstart, acc);
            lemma_starts_sub(s, a, b, p, esc);
            lemma_walk_shift(s, seps, esc, mode, a, b, p + 1, q, q2, fstart, acc, acc2);
        }
    } else if starts_at(s, p, esc) {
        lemma_walk_stop_after(s, seps, esc, mode, p + k, on_escape_spec(q, p as usize, false), fstart, acc);
        lemma_starts_sub(s, a, b, p, esc);
        lemma_walk_shift(s, seps, esc, mode, a, b, p + k, on_escape_spec(q, p as usize, false),
            on_escape_spec(q2, lp as usize, false), fstart, acc, acc2);
    } else if sep_len_at(s, p, seps) > 0 {
        let l = sep_len_at(s, p, seps);
        lemma_first_match_len_fits(s, p, seps);
        let accn = acc.push((fstart, p));
        lemma_walk_stop_after(s, seps, esc, mode, p + l, on_delimiter_spec(q), p + l, accn);
        lemma_starts_sub(s, a, b, p, esc);
        lemma_first_match_sub(s, a, b, p, seps);
        let acc2n = acc2.push((fstart - a, lp));
        assert(accn =~= shift(acc2n, a));
        lemma_walk_shift(s, seps, esc, mode, a, b, p + l, on_delimiter_spec(q), on_delimiter_spec(q2), p + l, accn, acc2n);
    } else if nl_len_at(s, p, mode) > 0 {
    } else {
        lemma_walk_stop_after(s, seps, esc, mode, p + 1, on_data_spec(q, p as usize), fstart, acc);
        lemma_starts_sub(s, a, b, p, esc);
        lemma_first_match_sub(s, a, b, p, seps);
        lemma_walk_shift(s, seps, esc, mode, a, b, p + 1, on_data_spec(q, p as usize), on_data_spec(q2, lp as usize),
            fstart, acc, acc2);
    }
}

/// Field values read at bounds moved `a` bytes to the right in `s` are the
/// values read at the bounds in the slice `s[a..b]`.
proof fn lemma_values_shift(s: Seq<u8>, a: int, b: int, bounds: Seq<(int, int)>, esc: Seq<u8>)
    requires
        0 <= a <= b <= s.len(),
        forall|j: int| 0 <= j < bounds.len() ==> 0 <= (#[trigger] bounds[j]).0 <= bounds[j].1 <= b - a,
    ensures
        row_values_general(s, shift(bounds, a), esc) == row_values_general(s.subrange(a, b), bounds, esc),
{
    let line = s.subrange(a, b);
    assert forall|j: int| 0 <= j < bounds.len() implies #[trigger] row_values_general(s, shift(bounds, a), esc)[j]
        == row_values_general(line, bounds, esc)[j] by {
        let x = bounds[j];
        assert(shift(bounds, a)[j] == (x.0 + a, x.1 + a));
        assert(s.subrange(x.0 + a, x.1 + a) =~= line.subrange(x.0, x.1));
    }
    assert(row_values_general(s, shift(bounds, a), esc) =~= row_values_general(line, bounds, esc));
}

/// The values of the row that starts at `a` outside quotes are those of its
/// line, `s[a..stop]`, split into fields on its own.
proof fn lemma_row_line(s: Seq<u8>, seps: Seq<Seq<u8>>, esc: Seq<u8>, mode: NewlineMode, a: int, q: QuoteState)
    requires
        esc.len() > 0,
        mode_ok(mode),
        0 <= a <= s.len(),
        !q.in_quotes,
    ensures
        ({
            let w = walk_row(s, seps, esc, mode, a, q, a, Seq::empty());
            let line = s.subrange(a, w.2);
            &&& a <= w.2 <= s.len()
            &&& row_values_general(s, w.0.push((w.1, w.2)), esc) == row_values_general(
                line,
                line_bounds_spec(line, seps, esc),
                esc,
            )
        }),
{
    let w = walk_row(s, seps, esc, mode, a, q, a, Seq::empty());
    lemma_walk_stop_after(s, seps, esc, mode, a, q, a, Seq::empty());
    let b = w.2;
    let line = s.subrange(a, b);
    let q0 = initial_quote_state();
    assert(Seq::<(int, int)>::empty() =~= shift(Seq::<(int, int)>::empty(), a));
    lemma_walk_shift(s, seps, esc, mode, a, b, a, q, q0, a, Seq::empty(), Seq::empty());
    let l = walk_row(line, seps, esc, NewlineMode::Off, 0, q0, 0, Seq::empty());
    lemma_walk_row_bounds(line, seps, esc, NewlineMode::Off, 0, q0, 0, Seq::empty());
    let lb = l.0.push((l.1, l.2));
    assert(line_bounds_spec(line, seps, esc) == lb);
    assert(w.0.push((w.1, w.2)) =~= shift(lb, a));
    assert forall|j: int| 0 <= j < lb.len() implies 0 <= (#[trigger] lb[j]).0 <= lb[j].1 <= b - a by {
        if j < l.0.len() {
            assert(lb[j] == l.0[j]);
        }
    }
    lemma_values_shift(s, a, b, lb, esc);
}

/// From a row start outside quotes, the batch rows that follow the rows
/// `acc` have the values of the lines the streaming scan finds after the
/// lines `lines`, with the row after the last terminator, when there is
/// one, read as a line of its own.
proof fn lemma_rows_scan(
    s: Seq<u8>,
    seps: Seq<Seq<u8>>,
    esc: Seq<u8>,
    mode: NewlineMode,
    pos: int,
    q: QuoteState,
    acc: Seq<Seq<(int, int)>>,
    lines: Seq<(int, int)>,
)
    requires
        esc.len() > 0,
        mode_ok(mode),
        !(mode is Off),
        seps_apart(seps, esc, mode),
        0 <= pos <= s.len(),
        !q.in_quotes,
        general_values(s, acc, esc) == general_lines_rows(s, lines, seps, esc),
    ensures
        ({
            let g = gstream_scan(s, esc, mode_pats(mode), true, pos, false, pos, lines);
            let fl = if g.2 < s.len() {
                g.3.push((g.2, s.len() as int))
            } else {
                g.3
            };
            general_values(s, walk_rows(s, seps, esc, mode, false, pos, q, acc).0, esc) == general_lines_rows(s, fl, seps, esc)
        }),
    decreases s.len() - pos,
{
    if pos < s.len() {
        let w = walk_row(s, seps, esc, mode, pos, q, pos, Seq::empty());
        let r = general_row_at(s, seps, esc, mode, false, pos, q);
        assert(r.0 == w.0.push((w.1, w.2)));
        lemma_walk_scan(s, seps, esc, mode, pos, q, pos, Seq::empty(), pos, lines);
        lemma_row_line(s, seps, esc, mode, pos, q);
        lemma_walk_row_bounds(s, seps, esc, mode, pos, q, pos, Seq::empty());
        let acc2 = acc.push(r.0);
        let lines2 = lines.push((pos, w.2));
        assert(general_values(s, acc2, esc) =~= general_lines_rows(s, lines2, seps, esc)) by {
            assert(general_values(s, acc2, esc) =~= general_values(s, acc, esc).push(row_values_general(s, r.0, esc)));
            assert(general_lines_rows(s, lines2, seps, esc) =~= general_lines_rows(s, lines, seps, esc).push(
                row_values_general(s.subrange(pos, w.2), line_bounds_spec(s.subrange(pos, w.2), seps, esc), esc),
            ));
        }
        if w.3 > 0 {
            lemma_rows_scan(s, seps, esc, mode, w.2 + w.3, w.4, acc2, lines2);
        } else {
            assert(walk_rows(s, seps, esc, mode, false, s.len() as int, w.4, acc2).0 == acc2);
        }
    }
}

/// The rows a well-formed general stream hands out over its `take_rows`
/// and its `finalize` are the batch rows of everything it was fed, in the
/// newline mode whose patterns it uses, when no separator byte could begin
/// the escape or a row terminator.
proof fn lemma_stream_matches_batch(p: GeneralStream, fin: GeneralStream, r: Seq<Seq<Seq<u8>>>, mode: NewlineMode)
    requires
        p.wf(),
        GeneralStream::finalize_post(p, fin, r),
        !(mode is Off),
        p.pats() == mode_pats(mode),
        seps_apart(p.seps(), p.esc(), mode),
    ensures
        p.taken() + r == general_values(p.fed(), general_scan(p.fed(), p.seps(), p.esc(), mode, false).0, p.esc()),
{
    lemma_final_lines(&p);
    let s = p.fed();
    assert(general_values(s, Seq::empty(), p.esc()) =~= general_lines_rows(s, Seq::empty(), p.seps(), p.esc()));
    lemma_rows_scan(s, p.seps(), p.esc(), mode, 0, initial_quote_state(), Seq::empty(), Seq::empty());
}

/// Chunk independence of the general streaming parser with `\n` / `\r\n`
/// rows: however the input was cut into chunks, the rows taken so far and
/// the rows `finalize` returns are, in order, the rows `parse_csv_general`
/// reads from everything fed, as long as no separator byte is the escape's
/// first byte, `\n` or `\r`.
pub proof fn law_general_parser_matches_batch(p: GeneralStream, fin: GeneralStream, r: Seq<Seq<Seq<u8>>>)
    requires
        p.wf(),
        GeneralStream::finalize_post(p, fin, r),
        p.pats() is None,
        seps_apart(p.seps(), p.esc(), NewlineMode::Default),
    ensures
        p.taken() + r == general_values(
            p.fed(),
            general_scan(p.fed(), p.seps(), p.esc(), NewlineMode::Default, false).0,
            p.esc(),
        ),
{
    lemma_stream_matches_batch(p, fin, r, NewlineMode::Default);
}

/// Chunk independence of the general streaming parser with custom newlines
/// `n`: the rows taken so far and the rows `finalize` returns are, in
/// order, the rows `parse_csv_general_with_newlines` reads from everything
/// fed, as long as no separator byte is the escape's first byte or the
/// first byte of a newline pattern.
pub proof fn law_general_newlines_parser_matches_batch(
    p: GeneralStream,
    fin: GeneralStream,
    r: Seq<Seq<Seq<u8>>>,
    n: &Newlines,
)
    requires
        p.wf(),
        GeneralStream::finalize_post(p, fin, r),
        p.pats() == Some(patterns_of(n)),
        seps_apart(p.seps(), p.esc(), NewlineMode::Custom(n)),
    ensures
        p.taken() + r == general_values(
            p.fed(),
            general_scan(p.fed(), p.seps(), p.esc(), NewlineMode::Custom(n), false).0,
            p.esc(),
        ),
{
    lemma_stream_matches_batch(p, fin, r, NewlineMode::Custom(n));
}

/// Single-byte separators as one-byte patterns.
pub open spec fn byte_pats(seps: Seq<u8>) -> Seq<Seq<u8>> {
    seps.map_values(|b: u8| seq![b])
}

/// Each line split by the single-byte line walk, moved to its place in `s`.
pub open spec fn line_bounds_rows(s: Seq<u8>, lines: Seq<(int, int)>, seps: Seq<u8>, esc: u8) -> Seq<Seq<(int, int)>> {
    lines.map_values(|r: (int, int)| shift(line_walk(s.subrange(r.0, r.1), seps, esc, 0, false, 0, Seq::empty()), r.0))
}

/// A one-byte pattern set matches at `pos` exactly when it holds `s[pos]`.
proof fn lemma_byte_pats_match(s: Seq<u8>, pos: int, seps: Seq<u8>)
    requires
        0 <= pos < s.len(),
    ensures
        first_match_len(s, pos, byte_pats(seps)) == if seps.contains(s[pos]) {
            1int
        } else {
            0int
        },
    decreases seps.len(),
{
    if seps.len() > 0 {
        let ps = byte_pats(seps);
        assert(ps[0] == seq![seps[0]]);
        assert(ps.skip(1) =~= byte_pats(seps.skip(1)));
        if s[pos] == seps[0] {
            assert(s.subrange(pos, pos + 1) =~= seq![seps[0]]);
        } else {
            if pos + 1 <= s.len() {
                assert(s.subrange(pos, pos + 1)[0] == s[pos]);
            }
            lemma_byte_pats_match(s, pos, seps.skip(1));
            if seps.contains(s[pos]) {
                let i = choose|i: int| 0 <= i < seps.len() && seps[i] == s[pos];
                assert(seps.skip(1)[i - 1] == s[pos]);
            }
            if seps.skip(1).contains(s[pos]) {
                let i = choose|i: int| 0 <= i < seps.skip(1).len() && seps.skip(1)[i] == s[pos];
                assert(seps[i + 1] == s[pos]);
            }
        }
    }
}

/// A one-byte pattern occurs at `x` exactly when `s[x]` is its byte.
proof fn lemma_starts_one(s: Seq<u8>, x: int, b: u8)
    ensures
        starts_at(s, x, seq![b]) == (0 <= x < s.len() && s[x] == b),
{
    if 0 <= x < s.len() {
        if s[x] == b {
            assert(s.subrange(x, x + 1) =~= seq![b]);
        }
        if starts_at(s, x, seq![b]) {
            assert(s.subrange(x, x + 1)[0] == s[x]);
        }
    }
}

/// With one-byte separators and escape and `\n` / `\r\n` rows, the walk of
/// a row and the single-byte streaming machine from the same state step
/// alike: where the walk ends the row at a terminator, the machine has
/// ended the line there too and goes on after it in the walk's final
/// state; where the walk reaches the end of input, so does the machine,
/// in the same state.
proof fn lemma_walk_stream(
    s: Seq<u8>,
    seps: Seq<u8>,
    esc: u8,
    pos: int,
    q: QuoteState,
    fstart: int,
    acc: Seq<(int, int)>,
    rs: int,
    lines: Seq<(int, int)>,
)
    requires
        0 <= pos <= s.len(),
    ensures
        ({
            let w = walk_row(s, byte_pats(seps), seq![esc], NewlineMode::Default, pos, q, fstart, acc);
            let g = stream_scan(s, seps, esc, true, pos, q, rs, lines);
            if w.3 > 0 {
                g == stream_scan(s, seps, esc, true, w.2 + w.3, w.4, w.2 + w.3, lines.push((rs, w.2)))
            } else {
                g == (s.len() as int, w.4, rs, lines)
            }
        }),
    decreases s.len() - pos,
{
    let e = seq![esc];
    let ps = byte_pats(seps);
    if pos < s.len() {
        lemma_starts_one(s, pos, esc);
        lemma_starts_one(s, pos + 1, esc);
        lemma_byte_pats_match(s, pos, seps);
        if q.in_quotes {
            if s[pos] == esc {
                if pos + 1 < s.len() && s[pos + 1] == esc {
                    lemma_walk_stream(s, seps, esc, pos + 2, on_escape_spec(q, pos as usize, true), fstart, acc, rs, lines);
                } else {
                    lemma_walk_stream(s, seps, esc, pos + 1, on_escape_spec(q, pos as usize, false), fstart, acc, rs, lines);
                }
            } else {
                lemma_walk_stream(s, seps, esc, pos + 1, q, fstart, acc, rs, lines);
            }
        } else if s[pos] == esc {
            lemma_walk_stream(s, seps, esc, pos + 1, on_escape_spec(q, pos as usize, false), fstart, acc, rs, lines);
        } else if seps.contains(s[pos]) {
            lemma_walk_stream(s, seps, esc, pos + 1, on_delimiter_spec(q), pos + 1, acc.push((fstart, pos)), rs, lines);
        } else if nl_len_at(s, pos, NewlineMode::Default) > 0 {
        } else {
            lemma_walk_stream(s, seps, esc, pos + 1, on_data_spec(q, pos as usize), fstart, acc, rs, lines);
        }
    }
}

/// A walk that starts inside quotes does not end its row where it starts.
proof fn lemma_quoted_moves(s: Seq<u8>, seps: Seq<u8>, esc: u8, p: int, q: QuoteState, fstart: int, acc: Seq<(int, int)>)
    requires
        0 <= p <= s.len(),
        q.in_quotes,
    ensures
        ({
            let w = walk_row(s, byte_pats(seps), seq![esc], NewlineMode::Default, p, q, fstart, acc);
            w.3 > 0 ==> w.2 > p
        }),
{
    let bp = byte_pats(seps);
    let e = seq![esc];
    if p < s.len() {
        lemma_starts_one(s, p, esc);
        lemma_starts_one(s, p + 1, esc);
        if s[p] == esc {
            if p + 1 < s.len() && s[p + 1] == esc {
                lemma_walk_stop_after(s, bp, e, NewlineMode::Default, p + 2, on_escape_spec(q, p as usize, true), fstart, acc);
            } else {
                lemma_walk_stop_after(s, bp, e, NewlineMode::Default, p + 1, on_escape_spec(q, p as usize, false), fstart, acc);
            }
        } else {
            lemma_walk_stop_after(s, bp, e, NewlineMode::Default, p + 1, q, fstart, acc);
        }
    }
}

/// With one-byte separators and escape apart from `\n` and `\r`, a row
/// that ends at a lone `\n` ends outside quotes, and the byte before that
/// `\n`, when the walk passed it, is no `\r`: a `\r` there would have been
/// read as the start of `\r\n`.
proof fn lemma_no_cr_before_lf(s: Seq<u8>, seps: Seq<u8>, esc: u8, pos: int, q: QuoteState, fstart: int, acc: Seq<(int, int)>)
    requires
        bytes_distinct(seps, esc),
        0 <= pos <= s.len(),
    ensures
        ({
            let w = walk_row(s, byte_pats(seps), seq![esc], NewlineMode::Default, pos, q, fstart, acc);
            &&& w.3 > 0 ==> !w.4.in_quotes
            &&& w.3 == 1 ==> w.2 < s.len() && s[w.2] == 10u8
            &&& (w.3 == 1 && w.2 > pos) ==> s[w.2 - 1] != 13u8
        }),
    decreases s.len() - pos,
{
    let bp = byte_pats(seps);
    let e = seq![esc];
    if pos < s.len() {
        lemma_starts_one(s, pos, esc);
        lemma_starts_one(s, pos + 1, esc);
        lemma_byte_pats_match(s, pos, seps);
        if q.in_quotes {
            if s[pos] == esc {
                if pos + 1 < s.len() && s[pos + 1] == esc {
                    lemma_no_cr_before_lf(s, seps, esc, pos + 2, on_escape_spec(q, pos as usize, true), fstart, acc);
                } else {
                    lemma_no_cr_before_lf(s, seps, esc, pos + 1, on_escape_spec(q, pos as usize, false), fstart, acc);
                }
            } else {
                lemma_no_cr_before_lf(s, seps, esc, pos + 1, q, fstart, acc);
                lemma_quoted_moves(s, seps, esc, pos + 1, q, fstart, acc);
            }
        } else if s[pos] == esc {
            lemma_no_cr_before_lf(s, seps, esc, pos + 1, on_escape_spec(q, pos as usize, false), fstart, acc);
        } else if seps.contains(s[pos]) {
            lemma_no_cr_before_lf(s, seps, esc, pos + 1, on_delimiter_spec(q), pos + 1, acc.push((fstart, pos)));
        } else if nl_len_at(s, pos, NewlineMode::Default) > 0 {
        } else {
            lemma_no_cr_before_lf(s, seps, esc, pos + 1, on_data_spec(q, pos as usize), fstart, acc);
        }
    }
}

/// With one-byte separators and escape, the walk of a row in `s` that
/// stops at `b` gives, with its last field, the single-byte line walk of
/// `s[a..b]` moved `a` bytes to the right.
proof fn lemma_walk_line(
    s: Seq<u8>,
    seps: Seq<u8>,
    esc: u8,
    a: int,
    b: int,
    p: int,
    q: QuoteState,
    fstart: int,
    acc: Seq<(int, int)>,
    acc2: Seq<(int, int)>,
)
    requires
        0 <= a <= fstart <= p <= b <= s.len(),
        walk_row(s, byte_pats(seps), seq![esc], NewlineMode::Default, p, q, fstart, acc).2 == b,
        acc == shift(acc2, a),
    ensures
        ({
            let w = walk_row(s, byte_pats(seps), seq![esc], NewlineMode::Default, p, q, fstart, acc);
            w.0.push((w.1, w.2)) == shift(line_walk(s.subrange(a, b), seps, esc, p - a, q.in_quotes, fstart - a, acc2), a)
        }),
    decreases s.len() - p,
{
    let bp = byte_pats(seps);
    let e = seq![esc];
    let m = NewlineMode::Default;
    let line = s.subrange(a, b);
    let lp = p - a;
    if p < s.len() {
        lemma_starts_one(s, p, esc);
        lemma_starts_one(s, p + 1, esc);
        lemma_byte_pats_match(s, p, seps);
    }
    if p >= s.len() || (p == b && !q.in_quotes && s[p] != esc && !seps.contains(s[p]) && nl_len_at(s, p, m) > 0) {
        assert(shift(acc2.push((fstart - a, b - a)), a) =~= acc.push((fstart, b)));
    } else if p == b {
        if q.in_quotes {
            if s[p] == esc {
                if p + 1 < s.len() && s[p + 1] == esc {
                    lemma_walk_stop_after(s, bp, e, m, p + 2, on_escape_spec(q, p as usize, true), fstart, acc);
                } else {
                    lemma_walk_stop_after(s, bp, e, m, p + 1, on_escape_spec(q, p as usize, false), fstart, acc);
                }
            } else {
                lemma_walk_stop_after(s, bp, e, m, p + 1, q, fstart, acc);
            }
        } else if s[p] == esc {
            lemma_walk_stop_after(s, bp, e, m, p + 1, on_escape_spec(q, p as usize, false), fstart, acc);
        } else if seps.contains(s[p]) {
            lemma_walk_stop_after(s, bp, e, m, p + 1, on_delimiter_spec(q), p + 1, acc.push((fstart, p)));
        } else {
            lemma_walk_stop_after(s, bp, e, m, p + 1, on_data_spec(q, p as usize), fstart, acc);
        }
        assert(false);
    } else {
        assert(line[lp] == s[p]);
        if p + 1 < b {
            assert(line[lp + 1] == s[p + 1]);
        }
        if q.in_quotes {
            if s[p] == esc {
                if p + 1 < s.len() && s[p + 1] == esc {
                    lemma_walk_stop_after(s, bp, e, m, p + 2, on_escape_spec(q, p as usize, true), fstart, acc);
                    lemma_walk_line(s, seps, esc, a, b, p + 2, on_escape_spec(q, p as usize, true), fstart, acc, acc2);
                } else {
                    lemma_walk_line(s, seps, esc, a, b, p + 1, on_escape_spec(q, p as usize, false), fstart, acc, acc2);
                }
            } else {
                lemma_walk_line(s, seps, esc, a, b, p + 1, q, fstart, acc, acc2);
            }
        } else if s[p] == esc {
            lemma_walk_line(s, seps, esc, a, b, p + 1, on_escape_spec(q, p as usize, false), fstart, acc, acc2);
        } else if seps.contains(s[p]) {
            let accn = acc.push((fstart, p));
            let acc2n = acc2.push((fstart - a, lp));
            assert(accn =~= shift(acc2n, a));
            lemma_walk_line(s, seps, esc, a, b, p + 1, on_delimiter_spec(q), p + 1, accn, acc2n);
        } else if nl_len_at(s, p, m) > 0 {
        } else {
            lemma_walk_line(s, seps, esc, a, b, p + 1, on_data_spec(q, p as usize), fstart, acc, acc2);
        }
    }
}

/// With one-byte separators and escape apart from `\n` and `\r`, the row
/// the general scan reads from `a` outside quotes has the bounds of the
/// single-byte line walk of its line, moved to its place.
proof fn lemma_row_bounds(s: Seq<u8>, seps: Seq<u8>, esc: u8, a: int, q: QuoteState)
    requires
        bytes_distinct(seps, esc),
        0 <= a <= s.len(),
        !q.in_quotes,
    ensures
        ({
            let w = walk_row(s, byte_pats(seps), seq![esc], NewlineMode::Default, a, q, a, Seq::empty());
            &&& a <= w.2 <= s.len()
            &&& general_row_at(s, byte_pats(seps), seq![esc], NewlineMode::Default, true, a, q).0 == shift(
                line_walk(s.subrange(a, w.2), seps, esc, 0, false, 0, Seq::empty()),
                a,
            )
        }),
{
    let bp = byte_pats(seps);
    let e = seq![esc];
    let w = walk_row(s, bp, e, NewlineMode::Default, a, q, a, Seq::empty());
    lemma_walk_stop_after(s, bp, e, NewlineMode::Default, a, q, a, Seq::empty());
    lemma_walk_row_bounds(s, bp, e, NewlineMode::Default, a, q, a, Seq::empty());
    lemma_no_cr_before_lf(s, seps, esc, a, q, a, Seq::empty());
    assert(Seq::<(int, int)>::empty() =~= shift(Seq::<(int, int)>::empty(), a));
    lemma_walk_line(s, seps, esc, a, w.2, a, q, a, Seq::empty(), Seq::empty());
}

/// From a row start outside quotes, the rows the general scan reads after
/// the rows `acc` are the single-byte streaming machine's lines after
/// `lines`, each split by the line walk, and both end in the same state.
proof fn lemma_rows_stream(
    s: Seq<u8>,
    seps: Seq<u8>,
    esc: u8,
    pos: int,
    q: QuoteState,
    acc: Seq<Seq<(int, int)>>,
    lines: Seq<(int, int)>,
)
    requires
        bytes_distinct(seps, esc),
        0 <= pos <= s.len(),
        !q.in_quotes,
        acc == line_bounds_rows(s, lines, seps, esc),
    ensures
        ({
            let g = stream_scan(s, seps, esc, true, pos, q, pos, lines);
            let fl = if g.2 < s.len() {
                g.3.push((g.2, s.len() as int))
            } else {
                g.3
            };
            let wr = walk_rows(s, byte_pats(seps), seq![esc], NewlineMode::Default, true, pos, q, acc);
            &&& wr.0 == line_bounds_rows(s, fl, seps, esc)
            &&& wr.1 == g.1
        }),
    decreases s.len() - pos,
{
    let bp = byte_pats(seps);
    let e = seq![esc];
    if pos < s.len() {
        let w = walk_row(s, bp, e, NewlineMode::Default, pos, q, pos, Seq::empty());
        let r = general_row_at(s, bp, e, NewlineMode::Default, true, pos, q);
        lemma_walk_stream(s, seps, esc, pos, q, pos, Seq::empty(), pos, lines);
        lemma_row_bounds(s, seps, esc, pos, q);
        lemma_no_cr_before_lf(s, seps, esc, pos, q, pos, Seq::empty());
        lemma_walk_row_bounds(s, bp, e, NewlineMode::Default, pos, q, pos, Seq::empty());
        let acc2 = acc.push(r.0);
        let lines2 = lines.push((pos, w.2));
        assert(acc2 =~= line_bounds_rows(s, lines2, seps, esc));
        if w.3 > 0 {
            lemma_rows_stream(s, seps, esc, w.2 + w.3, w.4, acc2, lines2);
        } else {
            assert(walk_rows(s, bp, e, NewlineMode::Default, true, s.len() as int, w.4, acc2) == (acc2, w.4));
        }
    }
}

/// The general scan with one-byte separators and escape, `\n` / `\r\n`
/// rows and a `\r` before `\n` trimmed, reads the single-byte batch scan's
/// field bounds and its first quoting violation, when the separators, the
/// escape and the row terminator bytes are distinct.
pub proof fn lemma_general_scan_single_byte(s: Seq<u8>, seps: Seq<u8>, esc: u8)
    requires
        bytes_distinct(seps, esc),
        s.len() <= MAX_INPUT_SIZE,
    ensures
        general_scan(s, byte_pats(seps), seq![esc], NewlineMode::Default, true).0 == batch_bounds(s, seps, esc).map_values(
            |row: Seq<(u32, u32)>| widen_row(row),
        ),
        finish_spec(general_scan(s, byte_pats(seps), seq![esc], NewlineMode::Default, true).1, s.len() as usize)
            == scan_violation(s, seps, esc),
{
    let q0 = initial_quote_state();
    assert(Seq::<Seq<(int, int)>>::empty() =~= line_bounds_rows(s, Seq::empty(), seps, esc));
    lemma_rows_stream(s, seps, esc, 0, q0, Seq::empty(), Seq::empty());
    lemma_stream_lines_bounds(s, seps, esc);
    lemma_stream_violation_matches_batch(s, seps, esc);
    let fl = stream_lines(s, seps, esc, q0);
    let lhs = line_bounds_rows(s, fl, seps, esc);
    let mid = fl.map_values(
        |r: (int, int)| shift(line_walk(s.subrange(r.0, r.1), seps, esc, 0, false, 0, Seq::empty()), r.0),
    );
    assert(lhs =~= mid);
}

/// The general boundary parser with one separator byte and a one-byte
/// escape gives the single-byte boundary parser's rows, and the general
/// scan's violation is the single-byte one, when neither byte is `\n` or
/// `\r` and they differ.
pub proof fn law_general_boundaries_match_single_byte(
    s: Seq<u8>,
    sep: u8,
    esc: u8,
    g: Seq<Vec<(usize, usize)>>,
    b: ScannedBoundaries,
)
    requires
        sep != esc,
        sep != 10u8 && sep != 13u8,
        esc != 10u8 && esc != 13u8,
        s.len() <= MAX_INPUT_SIZE,
        g.map_values(|row: Vec<(usize, usize)>| bounds_int(row@)) == general_scan(
            s,
            seq![seq![sep]],
            seq![esc],
            NewlineMode::Default,
            true,
        ).0,
        scanned_of(s, seq![sep], esc, b),
    ensures
        rows_view(g) == rows_view(b.rows@),
        finish_spec(general_scan(s, seq![seq![sep]], seq![esc], NewlineMode::Default, true).1, s.len() as usize)
            == b.violation,
{
    let seps = seq![sep];
    assert(seps.contains(10u8) ==> seps[0] == 10u8);
    assert(seps.contains(13u8) ==> seps[0] == 13u8);
    assert(seps.contains(esc) ==> seps[0] == esc);
    assert(byte_pats(seps) =~= seq![seq![sep]]);
    lemma_general_scan_single_byte(s, seps, esc);
    let bb = batch_bounds(s, seps, esc);
    let gi = g.map_values(|row: Vec<(usize, usize)>| bounds_int(row@));
    let wb = widen_bounds(bb);
    assert(gi.len() == bb.len());
    assert(rows_view(b.rows@).len() == wb.len());
    assert forall|k: int| 0 <= k < g.len() implies #[trigger] rows_view(g)[k] == rows_view(b.rows@)[k] by {
        let gr = g[k]@;
        let br = b.rows@[k]@;
        assert(gi[k] == bounds_int(gr));
        assert(gi[k] == widen_row(bb[k]));
        assert(br == wb[k]);
        assert(gr.len() == br.len()) by {
            assert(bounds_int(gr).len() == gr.len());
        }
        assert forall|i: int| 0 <= i < gr.len() implies gr[i] == br[i] by {
            assert(bounds_int(gr)[i] == widen_row(bb[k])[i]);
        }
        assert(gr =~= br);
    }
    assert(rows_view(g) =~= rows_view(b.rows@));
}

} // verus!
