//! The structural scan: one pass over the input that records every unquoted
//! separator and row end, and the first quoting rule the input breaks.
//!
//! Quoting is decided by parity: a byte lies inside a quoted region exactly
//! when an odd number of escape bytes precede it. A doubled escape inside a
//! quoted field toggles the parity twice and so leaves the field quoted.
//!
//! The three quoting rules are those of NimbleCSV:
//!   1. a quote may open a field only at the start of input or right after a
//!      separator, a line feed or another quote;
//!   2. a quote that closes a field must be followed by a separator, a row
//!      terminator, another quote, or the end of input;
//!   3. input must not end inside a quoted field.

use vstd::prelude::*;

use super::simd_index::{RowEnd, StructuralIndex, Violation, InputTooLarge, MAX_INPUT_SIZE, increasing, all_row_fields_of};
use super::field::extract_spec;

verus! {

/// Whether the byte at `i` lies inside a quoted region, for a scan that
/// starts at `start` with quoted state `q0`.
pub open spec fn quoted_at(s: Seq<u8>, esc: u8, start: int, q0: bool, i: int) -> bool
    decreases i - start,
{
    if i <= start {
        q0
    } else {
        quoted_at(s, esc, start, q0, i - 1) != (s[i - 1] == esc)
    }
}

/// An unquoted field separator at `i`.
pub open spec fn sep_at(s: Seq<u8>, seps: Seq<u8>, esc: u8, start: int, q0: bool, i: int) -> bool {
    &&& !quoted_at(s, esc, start, q0, i)
    &&& s[i] != esc
    &&& s[i] != 10u8
    &&& seps.contains(s[i])
}

/// An unquoted line feed at `i`.
pub open spec fn lf_at(s: Seq<u8>, esc: u8, start: int, q0: bool, i: int) -> bool {
    &&& !quoted_at(s, esc, start, q0, i)
    &&& s[i] != esc
    &&& s[i] == 10u8
}

/// The row end that an unquoted line feed at `i` terminates: a CRLF pair
/// when a carriage return precedes it.
pub open spec fn row_end_for(s: Seq<u8>, i: int) -> RowEnd {
    if i > 0 && s[i - 1] == 13u8 {
        RowEnd { pos: (i - 1) as u32, len: 2 }
    } else {
        RowEnd { pos: i as u32, len: 1 }
    }
}

/// Unquoted separator positions in `start..n`, in increasing order.
pub open spec fn seps_upto(s: Seq<u8>, seps: Seq<u8>, esc: u8, start: int, q0: bool, n: int) -> Seq<u32>
    decreases n - start,
{
    if n <= start {
        Seq::empty()
    } else if sep_at(s, seps, esc, start, q0, n - 1) {
        seps_upto(s, seps, esc, start, q0, n - 1).push((n - 1) as u32)
    } else {
        seps_upto(s, seps, esc, start, q0, n - 1)
    }
}

/// Row ends found in `start..n`, in increasing order.
pub open spec fn ends_upto(s: Seq<u8>, esc: u8, start: int, q0: bool, n: int) -> Seq<RowEnd>
    decreases n - start,
{
    if n <= start {
        Seq::empty()
    } else if lf_at(s, esc, start, q0, n - 1) {
        ends_upto(s, esc, start, q0, n - 1).push(row_end_for(s, n - 1))
    } else {
        ends_upto(s, esc, start, q0, n - 1)
    }
}

/// A quote at `i` may open a field: start of input, or right after a line
/// feed, a quote or a separator.
pub open spec fn opens_ok(s: Seq<u8>, seps: Seq<u8>, esc: u8, i: int) -> bool {
    i <= 0 || s[i - 1] == 10u8 || s[i - 1] == esc || seps.contains(s[i - 1])
}

/// The byte at `j`, which follows a closing quote, may follow it: end of
/// input, a separator, a line feed, a quote, or a CRLF pair.
pub open spec fn closes_ok(s: Seq<u8>, seps: Seq<u8>, esc: u8, j: int) -> bool {
    if j >= s.len() {
        true
    } else if s[j] == esc {
        true
    } else if s[j] == 13u8 {
        j + 1 < s.len() && s[j + 1] == 10u8
    } else {
        s[j] == 10u8 || s[j] == esc || seps.contains(s[j])
    }
}

/// The violation, if any, decided while scanning the byte at `i`.
pub open spec fn event_at(s: Seq<u8>, seps: Seq<u8>, esc: u8, start: int, q0: bool, i: int) -> Option<Violation> {
    if s[i] == esc && !quoted_at(s, esc, start, q0, i) && !opens_ok(s, seps, esc, i) {
        Some(Violation::UnexpectedQuote(i as usize))
    } else if s[i] == esc && quoted_at(s, esc, start, q0, i) && !closes_ok(s, seps, esc, i + 1) {
        Some(Violation::TrailingGarbage((i + 1) as usize))
    } else {
        None
    }
}

/// The violation decided at a resumption point: a quote just before `start`
/// that closed a field must be followed by a legal byte.
pub open spec fn boundary_event(s: Seq<u8>, seps: Seq<u8>, esc: u8, start: int, q0: bool) -> Option<Violation> {
    if start > 0 && s[start - 1] == esc && !q0 && !closes_ok(s, seps, esc, start) {
        Some(Violation::TrailingGarbage(start as usize))
    } else {
        None
    }
}

/// First violation decided while scanning `start..n`.
pub open spec fn first_event_upto(s: Seq<u8>, seps: Seq<u8>, esc: u8, start: int, q0: bool, n: int) -> Option<Violation>
    decreases n - start,
{
    if n <= start {
        boundary_event(s, seps, esc, start, q0)
    } else {
        match first_event_upto(s, seps, esc, start, q0, n - 1) {
            Some(v) => Some(v),
            None => event_at(s, seps, esc, start, q0, n - 1),
        }
    }
}

/// First violation of a whole input: the earliest positional one, else an
/// unterminated quote at the end.
pub open spec fn scan_violation(s: Seq<u8>, seps: Seq<u8>, esc: u8) -> Option<Violation> {
    match first_event_upto(s, seps, esc, 0, false, s.len() as int) {
        Some(v) => Some(v),
        None => if quoted_at(s, esc, 0, false, s.len() as int) {
            Some(Violation::UnterminatedQuote(s.len() as usize))
        } else {
            None
        },
    }
}

/// The structural index of a whole input.
pub open spec fn index_of(s: Seq<u8>, seps: Seq<u8>, esc: u8, idx: StructuralIndex) -> bool {
    &&& idx.field_seps@ == seps_upto(s, seps, esc, 0, false, s.len() as int)
    &&& idx.row_ends@ == ends_upto(s, esc, 0, false, s.len() as int)
    &&& idx.input_len == s.len()
    &&& idx.violation == scan_violation(s, seps, esc)
}


/// Separators found in `start..n` increase and lie below `n`.
pub proof fn lemma_seps_upto_wf(s: Seq<u8>, seps: Seq<u8>, esc: u8, start: int, q0: bool, n: int)
    requires
        0 <= start,
        n <= s.len() <= MAX_INPUT_SIZE,
    ensures
        increasing(seps_upto(s, seps, esc, start, q0, n)),
        forall|i: int|
            0 <= i < seps_upto(s, seps, esc, start, q0, n).len() ==> start <= #[trigger] seps_upto(
                s,
                seps,
                esc,
                start,
                q0,
                n,
            )[i] < n,
    decreases n - start,
{
    if n > start {
        lemma_seps_upto_wf(s, seps, esc, start, q0, n - 1);
    }
}

/// Row ends found in `start..n` are one or two bytes, do not overlap, and
/// end by `n`; one that ends exactly at `n` ends with a line feed.
pub proof fn lemma_ends_upto_wf(s: Seq<u8>, esc: u8, start: int, q0: bool, n: int)
    requires
        0 <= start,
        n <= s.len() <= MAX_INPUT_SIZE,
    ensures
        ({
            let e = ends_upto(s, esc, start, q0, n);
            &&& forall|k: int| 0 <= k < e.len() ==> 1 <= (#[trigger] e[k]).len <= 2
            &&& forall|k: int|
                0 <= k < e.len() ==> e[k].pos + e[k].len <= (if k + 1 < e.len() {
                    e[k + 1].pos as int
                } else {
                    n
                })
            &&& e.len() > 0 && e.last().pos + e.last().len == n ==> n > 0 && s[n - 1] == 10u8
        }),
    decreases n - start,
{
    if n > start {
        lemma_ends_upto_wf(s, esc, start, q0, n - 1);
        let e0 = ends_upto(s, esc, start, q0, n - 1);
        let e = ends_upto(s, esc, start, q0, n);
        if lf_at(s, esc, start, q0, n - 1) {
            assert(e == e0.push(row_end_for(s, n - 1)));
            assert forall|k: int|
                0 <= k < e.len() implies e[k].pos + e[k].len <= (if k + 1 < e.len() {
                    e[k + 1].pos as int
                } else {
                    n
                }) by {
                if k + 1 < e0.len() {
                    assert(e[k] == e0[k] && e[k + 1] == e0[k + 1]);
                } else if k + 1 == e0.len() {
                    assert(e[k] == e0[k]);
                }
            }
        }
    }
}

/// The index of a whole input is well formed.
pub proof fn lemma_index_of_wf(s: Seq<u8>, seps: Seq<u8>, esc: u8, idx: StructuralIndex)
    requires
        s.len() <= MAX_INPUT_SIZE,
        index_of(s, seps, esc, idx),
    ensures
        idx.wf(),
{
    lemma_seps_upto_wf(s, seps, esc, 0, false, s.len() as int);
    lemma_ends_upto_wf(s, esc, 0, false, s.len() as int);
}

/// Field bounds of every row of a whole input.
pub open spec fn batch_bounds(s: Seq<u8>, seps: Seq<u8>, esc: u8) -> Seq<Seq<(u32, u32)>> {
    all_row_fields_of(
        seps_upto(s, seps, esc, 0, false, s.len() as int),
        ends_upto(s, esc, 0, false, s.len() as int),
        s.len() as u32,
    )
}

/// Field values of a row with the given bounds.
pub open spec fn row_values(s: Seq<u8>, bounds: Seq<(u32, u32)>, esc: u8) -> Seq<Seq<u8>> {
    bounds.map_values(|f: (u32, u32)| extract_spec(s, f.0 as int, f.1 as int, esc))
}

/// Field values of every row of a whole input.
pub open spec fn batch_rows(s: Seq<u8>, seps: Seq<u8>, esc: u8) -> Seq<Seq<Seq<u8>>> {
    batch_bounds(s, seps, esc).map_values(|row: Seq<(u32, u32)>| row_values(s, row, esc))
}

/// Prefix XOR of a bit mask: bit `i` of the result is the parity of bits
/// `0..=i` of `x`. Over the quote bits of a block it marks the bytes inside
/// quoted regions. Stated as the one mask `r` whose neighbouring bits XOR
/// back to `x`: bit 0 of `r` is bit 0 of `x`, and each higher bit of `r` is
/// the one below it XOR the same bit of `x`.
pub fn prefix_xor(x: u64) -> (r: u64)
    ensures
        r ^ (r << 1u64) == x,
{
    let a = x ^ (x << 1u64);
    let b = a ^ (a << 2u64);
    let c = b ^ (b << 4u64);
    let d = c ^ (c << 8u64);
    let e = d ^ (d << 16u64);
    let f = e ^ (e << 32u64);
    assert(f ^ (f << 1u64) == x) by (bit_vector)
        requires
            a == x ^ (x << 1u64),
            b == a ^ (a << 2u64),
            c == b ^ (b << 4u64),
            d == c ^ (c << 8u64),
            e == d ^ (d << 16u64),
            f == e ^ (e << 32u64),
    ;
    f
}

/// Whether `byte` is one of `separators`.
fn is_sep_scalar(byte: u8, separators: &[u8]) -> (r: bool)
    ensures
        r == separators@.contains(byte),
{
    let mut i: usize = 0;
    while i < separators.len()
        invariant
            0 <= i <= separators@.len(),
            forall|k: int| 0 <= k < i ==> separators@[k] != byte,
        decreases separators@.len() - i,
    {
        if separators[i] == byte {
            assert(separators@[i as int] == byte);
            return true;
        }
        i += 1;
    }
    false
}

/// Whether a quote at `pos` may open a field.
fn opens_field_before(input: &[u8], pos: usize, separators: &[u8], escape: u8) -> (r: bool)
    requires
        pos < input@.len(),
    ensures
        r == opens_ok(input@, separators@, escape, pos as int),
{
    if pos == 0 {
        return true;
    }
    let prev = input[pos - 1];
    prev == 10u8 || prev == escape || is_sep_scalar(prev, separators)
}

/// Whether the byte at `pos`, which follows a closing quote, may follow it.
fn closes_field_at(input: &[u8], pos: usize, separators: &[u8], escape: u8) -> (r: bool)
    ensures
        r == closes_ok(input@, separators@, escape, pos as int),
{
    if pos >= input.len() {
        return true;
    }
    let next = input[pos];
    if next == escape {
        true
    } else if next == 13u8 {
        pos + 1 < input.len() && input[pos + 1] == 10u8
    } else {
        next == 10u8 || next == escape || is_sep_scalar(next, separators)
    }
}

/// One step of the parity recursion, for both specs that are defined by it.
proof fn lemma_step(s: Seq<u8>, seps: Seq<u8>, esc: u8, start: int, q0: bool, n: int)
    requires
        start <= n,
    ensures
        quoted_at(s, esc, start, q0, n + 1) == (quoted_at(s, esc, start, q0, n) != (s[n] == esc)),
        seps_upto(s, seps, esc, start, q0, n + 1) == (if sep_at(s, seps, esc, start, q0, n) {
            seps_upto(s, seps, esc, start, q0, n).push(n as u32)
        } else {
            seps_upto(s, seps, esc, start, q0, n)
        }),
        ends_upto(s, esc, start, q0, n + 1) == (if lf_at(s, esc, start, q0, n) {
            ends_upto(s, esc, start, q0, n).push(row_end_for(s, n))
        } else {
            ends_upto(s, esc, start, q0, n)
        }),
        first_event_upto(s, seps, esc, start, q0, n + 1) == (match first_event_upto(s, seps, esc, start, q0, n) {
            Some(v) => Some(v),
            None => event_at(s, seps, esc, start, q0, n),
        }),
{
}

/// Scan `input[start..]` from quoted state `in_quotes`, appending unquoted
/// separators and row ends and recording the first violation decided there
/// unless one is recorded already. Returns the quoted state at the end.
fn scan_scalar_tail(
    input: &[u8],
    start: usize,
    separators: &[u8],
    escape: u8,
    in_quotes: bool,
    field_seps: &mut Vec<u32>,
    row_ends: &mut Vec<RowEnd>,
    violation: &mut Option<Violation>,
) -> (r: bool)
    requires
        start <= input@.len(),
        input@.len() <= MAX_INPUT_SIZE,
    ensures
        r == quoted_at(input@, escape, start as int, in_quotes, input@.len() as int),
        final(field_seps)@ == old(field_seps)@ + seps_upto(
            input@,
            separators@,
            escape,
            start as int,
            in_quotes,
            input@.len() as int,
        ),
        final(row_ends)@ == old(row_ends)@ + ends_upto(
            input@,
            escape,
            start as int,
            in_quotes,
            input@.len() as int,
        ),
        *final(violation) == match *old(violation) {
            Some(v) => Some(v),
            None => first_event_upto(input@, separators@, escape, start as int, in_quotes, input@.len() as int),
        },
{
    let ghost s = input@;
    let ghost sp = separators@;
    let ghost st = start as int;
    let ghost q0 = in_quotes;
    let ghost seps0 = field_seps@;
    let ghost ends0 = row_ends@;
    let ghost v0 = *violation;
    let mut pos = start;
    let mut in_q = in_quotes;

    if start > 0 && input[start - 1] == escape && !in_quotes && violation.is_none()
        && !closes_field_at(input, start, separators, escape) {
        *violation = Some(Violation::TrailingGarbage(start));
    }
    assert(seps_upto(s, sp, escape, st, q0, st) =~= Seq::<u32>::empty());
    assert(ends_upto(s, escape, st, q0, st) =~= Seq::<RowEnd>::empty());

    while pos < input.len()
        invariant
            s == input@,
            sp == separators@,
            st == start as int,
            q0 == in_quotes,
            st <= pos <= s.len(),
            s.len() <= MAX_INPUT_SIZE,
            in_q == quoted_at(s, escape, st, q0, pos as int),
            field_seps@ == seps0 + seps_upto(s, sp, escape, st, q0, pos as int),
            row_ends@ == ends0 + ends_upto(s, escape, st, q0, pos as int),
            *violation == match v0 {
                Some(v) => Some(v),
                None => first_event_upto(s, sp, escape, st, q0, pos as int),
            },
        decreases s.len() - pos,
    {
        let byte = input[pos];
        let ghost p = pos as int;
        proof {
            lemma_step(s, sp, escape, st, q0, p);
        }
        if in_q {
            if byte == escape {
                if pos + 1 < input.len() && input[pos + 1] == escape {
                    proof {
                        lemma_step(s, sp, escape, st, q0, p + 1);
                    }
                    pos += 2;
                    continue;
                }
                in_q = false;
                if violation.is_none() && !closes_field_at(input, pos + 1, separators, escape) {
                    *violation = Some(Violation::TrailingGarbage(pos + 1));
                }
            }
            pos += 1;
        } else if byte == escape {
            if violation.is_none() && !opens_field_before(input, pos, separators, escape) {
                *violation = Some(Violation::UnexpectedQuote(pos));
            }
            in_q = true;
            pos += 1;
        } else if byte == 10u8 {
            if pos > 0 && input[pos - 1] == 13u8 {
                row_ends.push(RowEnd { pos: (pos - 1) as u32, len: 2 });
            } else {
                row_ends.push(RowEnd { pos: pos as u32, len: 1 });
            }
            pos += 1;
        } else if is_sep_scalar(byte, separators) {
            field_seps.push(pos as u32);
            pos += 1;
        } else {
            pos += 1;
        }
        assert(field_seps@ =~= seps0 + seps_upto(s, sp, escape, st, q0, pos as int));
        assert(row_ends@ =~= ends0 + ends_upto(s, escape, st, q0, pos as int));
    }
    in_q
}

/// Scan a whole input into its structural index.
///
/// Inputs longer than `MAX_INPUT_SIZE` are refused, since positions are
/// stored as `u32`.
pub fn scan_structural(input: &[u8], separators: &[u8], escape: u8) -> (r: Result<StructuralIndex, InputTooLarge>)
    ensures
        input@.len() > MAX_INPUT_SIZE <==> r is Err,
        r matches Ok(idx) ==> index_of(input@, separators@, escape, idx) && idx.wf(),
{
    if input.len() > MAX_INPUT_SIZE {
        return Err(InputTooLarge);
    }
    let mut field_seps: Vec<u32> = Vec::new();
    let mut row_ends: Vec<RowEnd> = Vec::new();
    let mut violation: Option<Violation> = None;
    let ends_in_quotes = scan_scalar_tail(
        input,
        0,
        separators,
        escape,
        false,
        &mut field_seps,
        &mut row_ends,
        &mut violation,
    );
    proof {
        assert(boundary_event(input@, separators@, escape, 0, false) is None);
    }
    if ends_in_quotes && violation.is_none() {
        violation = Some(Violation::UnterminatedQuote(input.len()));
    }
    assert(field_seps@ =~= seps_upto(input@, separators@, escape, 0, false, input@.len() as int));
    assert(row_ends@ =~= ends_upto(input@, escape, 0, false, input@.len() as int));
    let idx = StructuralIndex { field_seps, row_ends, input_len: input.len() as u32, violation };
    proof {
        lemma_index_of_wf(input@, separators@, escape, idx);
    }
    Ok(idx)
}

/// Scan `input[start..]` resuming from quoted state `in_quotes`, appending
/// to the given vectors. A stream that ends inside a quote is not reported
/// here: only the end of the whole stream decides that. Returns the quoted
/// state at the end of `input`.
pub fn scan_structural_incremental(
    input: &[u8],
    start: usize,
    separators: &[u8],
    escape: u8,
    in_quotes: bool,
    field_seps: &mut Vec<u32>,
    row_ends: &mut Vec<RowEnd>,
    violation: &mut Option<Violation>,
) -> (r: bool)
    requires
        start <= input@.len(),
        input@.len() <= MAX_INPUT_SIZE,
    ensures
        r == quoted_at(input@, escape, start as int, in_quotes, input@.len() as int),
        final(field_seps)@ == old(field_seps)@ + seps_upto(
            input@,
            separators@,
            escape,
            start as int,
            in_quotes,
            input@.len() as int,
        ),
        final(row_ends)@ == old(row_ends)@ + ends_upto(
            input@,
            escape,
            start as int,
            in_quotes,
            input@.len() as int,
        ),
        *final(violation) == match *old(violation) {
            Some(v) => Some(v),
            None => first_event_upto(input@, separators@, escape, start as int, in_quotes, input@.len() as int),
        },
{
    scan_scalar_tail(input, start, separators, escape, in_quotes, field_seps, row_ends, violation)
}

} // verus!
