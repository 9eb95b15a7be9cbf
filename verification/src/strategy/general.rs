//! Multi-byte separators and escapes, and custom newlines.
//!
//! The input is read by a left-to-right tokenizer: inside quotes an escape
//! followed by another escape is a literal escape and keeps the field
//! quoted, a lone escape closes the field, anything else is data; outside
//! quotes an escape opens a field, then the first separator that matches is
//! a separator, then a newline pattern ends the row, else the byte is data.
//! The quote state machine of `QuoteState` rides along and records the
//! first violation of the quoting rules.

use vstd::prelude::*;
use std::borrow::Cow;

use crate::base::field::{append_bytes, copy_bytes};
use crate::base::newlines::{Newlines, first_match_len, match_newline, patterns_of, starts_with_at, lemma_first_match_len_fits};
use crate::base::scanner::{QuoteState, on_escape_spec, on_delimiter_spec, on_data_spec, initial_quote_state, finish_spec};
use crate::base::simd_index::{ScannedBoundaries, Violation};
use crate::strategy::encode::occurs_in;
use crate::strategy::direct::cow_rows_view;
use crate::strategy::parallel::par_map;

verus! {

/// How rows end.
#[derive(Copy, Clone)]
pub enum NewlineMode<'a> {
    /// `\n`, or `\r\n`; a bare `\r` is data.
    Default,
    /// The given patterns, tried in order.
    Custom(&'a Newlines),
    /// No row ends: the input is one line.
    Off,
}

/// `pat` occurs in `s` at `pos`.
pub open spec fn starts_at(s: Seq<u8>, pos: int, pat: Seq<u8>) -> bool {
    0 <= pos && pos + pat.len() <= s.len() && s.subrange(pos, pos + pat.len()) == pat
}

/// Length of the first separator that occurs at `pos`, or 0.
pub open spec fn sep_len_at(s: Seq<u8>, pos: int, seps: Seq<Seq<u8>>) -> int {
    first_match_len(s, pos, seps)
}

/// Length of the row terminator at `pos`, or 0.
pub open spec fn nl_len_at(s: Seq<u8>, pos: int, mode: NewlineMode) -> int {
    match mode {
        NewlineMode::Default => if s[pos] == 10u8 {
            1
        } else if s[pos] == 13u8 && pos + 1 < s.len() && s[pos + 1] == 10u8 {
            2
        } else {
            0
        },
        NewlineMode::Custom(n) => first_match_len(s, pos, patterns_of(n)),
        NewlineMode::Off => 0,
    }
}

/// Separators are usable patterns: at least one byte each.
pub open spec fn seps_nonempty(seps: Seq<Seq<u8>>) -> bool {
    forall|k: int| 0 <= k < seps.len() ==> (#[trigger] seps[k]).len() > 0
}

/// Newline patterns are at least one byte each.
pub open spec fn mode_ok(mode: NewlineMode) -> bool {
    match mode {
        NewlineMode::Custom(n) => seps_nonempty(patterns_of(n)),
        _ => true,
    }
}

/// Walk one row from `pos` with quote state `q`: `acc` holds the bounds of
/// the fields already ended by a separator and `fstart` is where the open
/// field starts. Returns (ended fields, start of the last field, position
/// where the row stops, terminator length or 0 at end of input, quote state).
pub open spec fn walk_row(
    s: Seq<u8>,
    seps: Seq<Seq<u8>>,
    esc: Seq<u8>,
    mode: NewlineMode,
    pos: int,
    q: QuoteState,
    fstart: int,
    acc: Seq<(int, int)>,
) -> (Seq<(int, int)>, int, int, int, QuoteState)
    decreases s.len() - pos,
{
    if pos >= s.len() || esc.len() == 0 || pos < 0 {
        (acc, fstart, s.len() as int, 0, q)
    } else if q.in_quotes {
        if starts_at(s, pos, esc) {
            if starts_at(s, pos + esc.len(), esc) {
                walk_row(s, seps, esc, mode, pos + 2 * esc.len(), on_escape_spec(q, pos as usize, true), fstart, acc)
            } else {
                walk_row(s, seps, esc, mode, pos + esc.len(), on_escape_spec(q, pos as usize, false), fstart, acc)
            }
        } else {
            walk_row(s, seps, esc, mode, pos + 1, q, fstart, acc)
        }
    } else if starts_at(s, pos, esc) {
        walk_row(s, seps, esc, mode, pos + esc.len(), on_escape_spec(q, pos as usize, false), fstart, acc)
    } else if sep_len_at(s, pos, seps) > 0 {
        let l = sep_len_at(s, pos, seps);
        proof {
            lemma_first_match_len_fits(s, pos, seps);
        }
        walk_row(s, seps, esc, mode, pos + l, on_delimiter_spec(q), pos + l, acc.push((fstart, pos)))
    } else if nl_len_at(s, pos, mode) > 0 {
        (acc, fstart, pos, nl_len_at(s, pos, mode), on_delimiter_spec(q))
    } else {
        walk_row(s, seps, esc, mode, pos + 1, on_data_spec(q, pos as usize), fstart, acc)
    }
}

/// `inner` with each doubled escape collapsed, scanning left to right.
pub open spec fn unescape_general_spec(inner: Seq<u8>, esc: Seq<u8>) -> Seq<u8>
    decreases inner.len(),
{
    if inner.len() == 0 {
        Seq::empty()
    } else if esc.len() > 0 && 2 * esc.len() <= inner.len() && inner.subrange(0, esc.len() as int) == esc
        && inner.subrange(esc.len() as int, 2 * esc.len() as int) == esc {
        esc + unescape_general_spec(inner.skip(2 * esc.len() as int), esc)
    } else {
        seq![inner[0]] + unescape_general_spec(inner.skip(1), esc)
    }
}

/// The value of a field with a multi-byte escape.
pub open spec fn field_value_general(field: Seq<u8>, esc: Seq<u8>) -> Seq<u8> {
    if field.len() >= 2 * esc.len() && field.subrange(0, esc.len() as int) == esc
        && field.subrange(field.len() - esc.len(), field.len() as int) == esc {
        unescape_general_spec(field.subrange(esc.len() as int, field.len() - esc.len()), esc)
    } else {
        field
    }
}

/// The value of `input[start..end]`, empty when `start >= end`.
pub open spec fn extract_general_spec(input: Seq<u8>, start: int, end: int, esc: Seq<u8>) -> Seq<u8> {
    if start >= end {
        Seq::empty()
    } else {
        field_value_general(input.subrange(start, end), esc)
    }
}

/// Content without the escape unescapes to itself.
pub proof fn lemma_unescape_general_plain(inner: Seq<u8>, esc: Seq<u8>)
    requires
        esc.len() > 0,
        !occurs_in(inner, esc),
    ensures
        unescape_general_spec(inner, esc) == inner,
    decreases inner.len(),
{
    if inner.len() > 0 {
        let rest = inner.skip(1);
        assert forall|i: int| 0 <= i && i + esc.len() <= rest.len() implies #[trigger] rest.subrange(i, i + esc.len()) != esc by {
            assert(rest.subrange(i, i + esc.len()) =~= inner.subrange(i + 1, i + 1 + esc.len()));
        }
        lemma_unescape_general_plain(rest, esc);
        if 2 * esc.len() <= inner.len() {
            let z: int = 0;
            assert(inner.subrange(z, z + esc.len()) != esc);
            assert(inner.subrange(0, esc.len() as int) =~= inner.subrange(z, z + esc.len()));
        }
        assert(seq![inner[0]] + rest =~= inner);
    }
}

/// Length of the first separator occurring at `pos`, if any.
fn matches_separator(data: &[u8], pos: usize, separators: &[Vec<u8>]) -> (r: Option<usize>)
    requires
        seps_nonempty(seps_seq(separators@)),
    ensures
        r matches Some(l) ==> l > 0,
        r is None <==> first_match_len(data@, pos as int, seps_seq(separators@)) == 0
            && (forall|k: int| 0 <= k < separators@.len() ==> !starts_at(data@, pos as int, #[trigger] separators@[k]@)),
        r matches Some(l) ==> l == first_match_len(data@, pos as int, seps_seq(separators@)),
{
    let ghost ps = seps_seq(separators@);
    let mut i: usize = 0;
    assert(ps.skip(0) =~= ps);
    while i < separators.len()
        invariant
            0 <= i <= ps.len(),
            ps == seps_seq(separators@),
            first_match_len(data@, pos as int, ps.skip(i as int)) == first_match_len(data@, pos as int, ps),
            forall|k: int| 0 <= k < i ==> !starts_at(data@, pos as int, #[trigger] separators@[k]@),
            seps_nonempty(ps),
        decreases ps.len() - i,
    {
        let sep = &separators[i];
        assert(ps.skip(i as int)[0] == sep@);
        assert(ps[i as int] == sep@);
        if starts_with_at(data, pos, sep.as_slice()) {
            return Some(sep.len());
        }
        assert(ps.skip(i as int).skip(1) =~= ps.skip(i + 1));
        i += 1;
    }
    assert(ps.skip(i as int).len() == 0);
    None
}

/// Whether the escape occurs at `pos`.
fn starts_with_escape(data: &[u8], pos: usize, escape: &[u8]) -> (r: bool)
    ensures
        r == starts_at(data@, pos as int, escape@),
{
    starts_with_at(data, pos, escape)
}

/// Collapse each doubled escape of `inner` to one.
pub fn unescape_field_general(inner: &[u8], escape: &[u8]) -> (r: Vec<u8>)
    ensures
        r@ == unescape_general_spec(inner@, escape@),
{
    let esc_len = escape.len();
    let mut result: Vec<u8> = Vec::new();
    let mut i: usize = 0;
    assert(inner@.skip(0) =~= inner@);
    while i < inner.len()
        invariant
            0 <= i <= inner@.len(),
            esc_len == escape@.len(),
            result@ + unescape_general_spec(inner@.skip(i as int), escape@) == unescape_general_spec(inner@, escape@),
        decreases inner@.len() - i,
    {
        let ghost rest = inner@.skip(i as int);
        let doubled = esc_len > 0 && esc_len <= (inner.len() - i) / 2 && starts_with_at(inner, i, escape)
            && starts_with_at(inner, i + esc_len, escape);
        proof {
            if esc_len > 0 && 2 * esc_len <= rest.len() {
                assert(rest.subrange(0, esc_len as int) =~= inner@.subrange(i as int, i + esc_len));
                assert(rest.subrange(esc_len as int, 2 * esc_len) =~= inner@.subrange(i + esc_len, i + 2 * esc_len));
            }
        }
        if doubled {
            append_bytes(&mut result, escape);
            assert(rest.skip(2 * esc_len) =~= inner@.skip(i + 2 * esc_len));
            i += 2 * esc_len;
        } else {
            result.push(inner[i]);
            assert(rest.skip(1) =~= inner@.skip(i + 1));
            i += 1;
        }
        assert(result@ + unescape_general_spec(inner@.skip(i as int), escape@) =~= unescape_general_spec(inner@, escape@));
    }
    assert(inner@.skip(i as int) =~= Seq::<u8>::empty());
    assert(result@ =~= result@ + unescape_general_spec(inner@.skip(i as int), escape@));
    result
}

/// Whether `inner` holds the escape.
pub fn contains_escape(inner: &[u8], escape: &[u8]) -> (r: bool)
    requires
        escape@.len() > 0,
    ensures
        r == occurs_in(inner@, escape@),
{
    if escape.len() == 1 {
        let c = crate::base::field::contains_byte(inner, escape[0]);
        proof {
            if c {
                let i = choose|i: int| 0 <= i < inner@.len() && inner@[i] == escape@[0];
                assert(inner@.subrange(i, i + 1) =~= escape@);
            } else {
                assert forall|i: int| 0 <= i && i + escape@.len() <= inner@.len() implies #[trigger] inner@.subrange(i, i + escape@.len()) != escape@ by {
                    assert(inner@.subrange(i, i + 1)[0] == inner@[i]);
                }
            }
        }
        return c;
    }
    crate::strategy::encode::pattern_occurs(inner, escape)
}

/// The field `input[start..end]` is wrapped in the escape and the escape
/// occurs inside: its value must be built by collapsing doubled escapes.
pub open spec fn needs_collapse_general(input: Seq<u8>, start: int, end: int, escape: Seq<u8>) -> bool {
    let field = input.subrange(start, end);
    let k = escape.len() as int;
    &&& start < end
    &&& 2 * k <= field.len()
    &&& field.subrange(0, k) == escape
    &&& field.subrange(field.len() - k, field.len() as int) == escape
    &&& occurs_in(field.subrange(k, field.len() - k), escape)
}

/// The value of `input[start..end]` with a multi-byte escape, borrowed when
/// nothing needs collapsing.
pub fn extract_field_cow_general<'a>(input: &'a [u8], start: usize, end: usize, escape: &[u8]) -> (r: Cow<'a, [u8]>)
    requires
        start >= end || end <= input@.len(),
        escape@.len() > 0,
    ensures
        r@ == extract_general_spec(input@, start as int, end as int, escape@),
        (r matches Cow::Borrowed(_)) <==> !needs_collapse_general(input@, start as int, end as int, escape@),
{
    if start >= end {
        return Cow::Borrowed(&input[0..0]);
    }
    let field = &input[start..end];
    let esc_len = escape.len();
    let n = field.len();
    if esc_len <= n / 2 && starts_with_at(field, 0, escape) && starts_with_at(field, n - esc_len, escape) {
        let inner = &field[esc_len..n - esc_len];
        if contains_escape(inner, escape) {
            Cow::Owned(unescape_field_general(inner, escape))
        } else {
            proof {
                lemma_unescape_general_plain(inner@, escape@);
            }
            Cow::Borrowed(inner)
        }
    } else {
        Cow::Borrowed(field)
    }
}

/// The value of `input[start..end]` with a multi-byte escape, owned.
pub fn extract_field_owned_general(input: &[u8], start: usize, end: usize, escape: &[u8]) -> (r: Vec<u8>)
    requires
        start >= end || end <= input@.len(),
        escape@.len() > 0,
    ensures
        r@ == extract_general_spec(input@, start as int, end as int, escape@),
{
    let c = extract_field_cow_general(input, start, end, escape);
    match c {
        Cow::Borrowed(b) => copy_bytes(b),
        Cow::Owned(v) => v,
    }
}


/// Bounds as integer pairs.
pub open spec fn bounds_int(b: Seq<(usize, usize)>) -> Seq<(int, int)> {
    b.map_values(|f: (usize, usize)| (f.0 as int, f.1 as int))
}

/// The separators as sequences.
pub open spec fn seps_seq(seps: Seq<Vec<u8>>) -> Seq<Seq<u8>> {
    seps.map_values(|p: Vec<u8>| p@)
}

/// A row walk stops at or after its start, ends inside the input, keeps its
/// field bounds ordered within it, and moves past its start.
pub proof fn lemma_walk_row_bounds(
    s: Seq<u8>,
    seps: Seq<Seq<u8>>,
    esc: Seq<u8>,
    mode: NewlineMode,
    pos: int,
    q: QuoteState,
    fstart: int,
    acc: Seq<(int, int)>,
)
    requires
        0 <= fstart <= pos <= s.len(),
        forall|j: int| 0 <= j < acc.len() ==> 0 <= (#[trigger] acc[j]).0 <= acc[j].1 <= fstart,
    ensures
        ({
            let w = walk_row(s, seps, esc, mode, pos, q, fstart, acc);
            &&& pos <= w.2 <= s.len()
            &&& fstart <= w.1 <= w.2
            &&& w.3 >= 0 && w.2 + w.3 <= s.len()
            &&& (w.3 == 0 ==> w.2 == s.len())
            &&& w.0.len() >= acc.len()
            &&& forall|j: int| 0 <= j < w.0.len() ==> 0 <= (#[trigger] w.0[j]).0 <= w.0[j].1 <= w.1
            &&& forall|j: int| 0 <= j < acc.len() ==> w.0[j] == acc[j]
            &&& (w.0.len() == acc.len() ==> w.1 == fstart)
        }),
    decreases s.len() - pos,
{
    if pos >= s.len() || esc.len() == 0 || pos < 0 {
    } else if q.in_quotes {
        if starts_at(s, pos, esc) {
            if starts_at(s, pos + esc.len(), esc) {
                lemma_walk_row_bounds(s, seps, esc, mode, pos + 2 * esc.len(), on_escape_spec(q, pos as usize, true), fstart, acc);
            } else {
                lemma_walk_row_bounds(s, seps, esc, mode, pos + esc.len(), on_escape_spec(q, pos as usize, false), fstart, acc);
            }
        } else {
            lemma_walk_row_bounds(s, seps, esc, mode, pos + 1, q, fstart, acc);
        }
    } else if starts_at(s, pos, esc) {
        lemma_walk_row_bounds(s, seps, esc, mode, pos + esc.len(), on_escape_spec(q, pos as usize, false), fstart, acc);
    } else if sep_len_at(s, pos, seps) > 0 {
        let l = sep_len_at(s, pos, seps);
        lemma_first_match_len_fits(s, pos, seps);
        let acc2 = acc.push((fstart, pos));
        lemma_walk_row_bounds(s, seps, esc, mode, pos + l, on_delimiter_spec(q), pos + l, acc2);
        let w = walk_row(s, seps, esc, mode, pos + l, on_delimiter_spec(q), pos + l, acc2);
        assert(w.0.len() >= acc2.len());
        assert forall|j: int| 0 <= j < acc.len() implies w.0[j] == acc[j] by {
            assert(acc2[j] == acc[j]);
        }
    } else if nl_len_at(s, pos, mode) > 0 {
        match mode {
            NewlineMode::Custom(n) => {
                lemma_first_match_len_fits(s, pos, patterns_of(n));
            },
            _ => {},
        }
    } else {
        lemma_walk_row_bounds(s, seps, esc, mode, pos + 1, on_data_spec(q, pos as usize), fstart, acc);
    }
}

/// Length of the row terminator at `pos` in `mode`.
fn newline_len(input: &[u8], pos: usize, mode: NewlineMode) -> (r: usize)
    requires
        pos < input@.len(),
    ensures
        r == nl_len_at(input@, pos as int, mode),
{
    match mode {
        NewlineMode::Default => default_newline_len(input, pos),
        NewlineMode::Custom(n) => match_newline(input, pos, n),
        NewlineMode::Off => 0,
    }
}

/// Length of a default terminator at `pos`: `\n` is 1, `\r\n` is 2; a bare
/// `\r` is data.
fn default_newline_len(input: &[u8], pos: usize) -> (r: usize)
    requires
        pos < input@.len(),
    ensures
        r == nl_len_at(input@, pos as int, NewlineMode::Default),
{
    if input[pos] == 10u8 {
        1
    } else if input[pos] == 13u8 && pos + 1 < input.len() && input[pos + 1] == 10u8 {
        2
    } else {
        0
    }
}

/// Walk one row from `start`: the bounds of the fields ended by a
/// separator, the start of the last field, where the row stops, and the
/// terminator's length (0 at end of input).
fn walk_row_exec(
    input: &[u8],
    start: usize,
    separators: &[Vec<u8>],
    escape: &[u8],
    mode: NewlineMode,
    quote: &mut QuoteState,
) -> (r: (Vec<(usize, usize)>, usize, usize, usize))
    requires
        start <= input@.len(),
        escape@.len() > 0,
        seps_nonempty(seps_seq(separators@)),
        mode_ok(mode),
    ensures
        ({
            let w = walk_row(input@, seps_seq(separators@), escape@, mode, start as int, *old(quote), start as int, Seq::empty());
            &&& bounds_int(r.0@) == w.0
            &&& r.1 == w.1
            &&& r.2 == w.2
            &&& r.3 == w.3
            &&& *final(quote) == w.4
        }),
{
    let ghost s = input@;
    let ghost sp = seps_seq(separators@);
    let ghost goal = walk_row(s, sp, escape@, mode, start as int, *quote, start as int, Seq::empty());
    let esc_len = escape.len();
    let mut bounds: Vec<(usize, usize)> = Vec::new();
    let mut pos = start;
    let mut field_start = start;
    assert(bounds_int(bounds@) =~= Seq::<(int, int)>::empty());
    while pos < input.len()
        invariant
            s == input@,
            sp == seps_seq(separators@),
            esc_len == escape@.len(),
            esc_len > 0,
            seps_nonempty(sp),
            mode_ok(mode),
            start <= field_start <= pos <= s.len(),
            walk_row(s, sp, escape@, mode, pos as int, *quote, field_start as int, bounds_int(bounds@)) == goal,
            goal == walk_row(s, sp, escape@, mode, start as int, *old(quote), start as int, Seq::empty()),
        decreases s.len() - pos,
    {
        let ghost p0 = pos as int;
        let ghost q0 = *quote;
        let ghost f0 = field_start as int;
        let ghost b0 = bounds_int(bounds@);
        let ghost e = escape@;
        if quote.in_quotes() {
            if starts_with_escape(input, pos, escape) {
                let doubled = starts_with_escape(input, pos + esc_len, escape);
                quote.on_escape(pos, doubled);
                if doubled {
                    assert(walk_row(s, sp, e, mode, p0, q0, f0, b0)
                        == walk_row(s, sp, e, mode, p0 + 2 * esc_len, on_escape_spec(q0, pos, true), f0, b0));
                    pos += 2 * esc_len;
                } else {
                    assert(walk_row(s, sp, e, mode, p0, q0, f0, b0)
                        == walk_row(s, sp, e, mode, p0 + esc_len, on_escape_spec(q0, pos, false), f0, b0));
                    pos += esc_len;
                }
            } else {
                assert(walk_row(s, sp, e, mode, p0, q0, f0, b0) == walk_row(s, sp, e, mode, p0 + 1, q0, f0, b0));
                pos += 1;
            }
        } else if starts_with_escape(input, pos, escape) {
            assert(walk_row(s, sp, e, mode, p0, q0, f0, b0)
                == walk_row(s, sp, e, mode, p0 + esc_len, on_escape_spec(q0, pos, false), f0, b0));
            quote.on_escape(pos, false);
            pos += esc_len;
        } else {
            match matches_separator(input, pos, separators) {
                Some(l) => {
                    proof {
                        lemma_first_match_len_fits(s, pos as int, sp);
                    }
                    assert(walk_row(s, sp, e, mode, p0, q0, f0, b0)
                        == walk_row(s, sp, e, mode, p0 + l, on_delimiter_spec(q0), p0 + l, b0.push((f0, p0))));
                    let ghost old_b = bounds@;
                    bounds.push((field_start, pos));
                    assert(bounds_int(bounds@) =~= bounds_int(old_b).push((field_start as int, pos as int)));
                    quote.on_delimiter();
                    pos += l;
                    field_start = pos;
                },
                None => {
                    let nl = newline_len(input, pos, mode);
                    if nl > 0 {
                        assert(walk_row(s, sp, e, mode, p0, q0, f0, b0) == (b0, f0, p0, nl as int, on_delimiter_spec(q0)));
                        quote.on_delimiter();
                        return (bounds, field_start, pos, nl);
                    }
                    assert(walk_row(s, sp, e, mode, p0, q0, f0, b0)
                        == walk_row(s, sp, e, mode, p0 + 1, on_data_spec(q0, pos), f0, b0));
                    quote.on_data(pos);
                    pos += 1;
                },
            }
        }
    }
    (bounds, field_start, input.len(), 0)
}

/// Where the last field of a row ends: at the row's stop, or one byte
/// earlier when `trim_cr` is set, the row ends with a lone `\n` in default
/// mode and a `\r` inside the field precedes it.
pub open spec fn last_field_end(s: Seq<u8>, mode: NewlineMode, trim_cr: bool, fstart: int, stop: int, nl: int) -> int {
    if trim_cr && mode is Default && nl == 1 && stop > fstart && s[stop - 1] == 13u8 {
        stop - 1
    } else {
        stop
    }
}

/// The row that starts at `pos` in quote state `q`: its field bounds, where
/// the next row starts, and the quote state there.
pub open spec fn general_row_at(
    s: Seq<u8>,
    seps: Seq<Seq<u8>>,
    esc: Seq<u8>,
    mode: NewlineMode,
    trim_cr: bool,
    pos: int,
    q: QuoteState,
) -> (Seq<(int, int)>, int, QuoteState) {
    let w = walk_row(s, seps, esc, mode, pos, q, pos, Seq::empty());
    (w.0.push((w.1, last_field_end(s, mode, trim_cr, w.1, w.2, w.3))), w.2 + w.3, w.4)
}

/// The rows from `pos` on, after the rows `acc`, and the final quote state.
pub open spec fn walk_rows(
    s: Seq<u8>,
    seps: Seq<Seq<u8>>,
    esc: Seq<u8>,
    mode: NewlineMode,
    trim_cr: bool,
    pos: int,
    q: QuoteState,
    acc: Seq<Seq<(int, int)>>,
) -> (Seq<Seq<(int, int)>>, QuoteState)
    decreases s.len() - pos,
{
    if pos < 0 || pos >= s.len() {
        (acc, q)
    } else {
        let r = general_row_at(s, seps, esc, mode, trim_cr, pos, q);
        if r.1 <= pos || r.1 > s.len() {
            (acc.push(r.0), r.2)
        } else {
            walk_rows(s, seps, esc, mode, trim_cr, r.1, r.2, acc.push(r.0))
        }
    }
}

/// The field bounds of every row of `s`, and the quote state at its end.
pub open spec fn general_scan(
    s: Seq<u8>,
    seps: Seq<Seq<u8>>,
    esc: Seq<u8>,
    mode: NewlineMode,
    trim_cr: bool,
) -> (Seq<Seq<(int, int)>>, QuoteState) {
    walk_rows(s, seps, esc, mode, trim_cr, 0, initial_quote_state(), Seq::empty())
}

/// The values of the fields of one row.
pub open spec fn row_values_general(s: Seq<u8>, row: Seq<(int, int)>, esc: Seq<u8>) -> Seq<Seq<u8>> {
    row.map_values(|b: (int, int)| extract_general_spec(s, b.0, b.1, esc))
}

/// The values of the fields of every row.
pub open spec fn general_values(s: Seq<u8>, rows: Seq<Seq<(int, int)>>, esc: Seq<u8>) -> Seq<Seq<Seq<u8>>> {
    rows.map_values(|row: Seq<(int, int)>| row_values_general(s, row, esc))
}

/// The rows of a general scan, and its violation at the end of input.
pub open spec fn general_scanned_of(
    s: Seq<u8>,
    seps: Seq<Seq<u8>>,
    esc: Seq<u8>,
    mode: NewlineMode,
    r: ScannedBoundaries,
) -> bool {
    let g = general_scan(s, seps, esc, mode, true);
    &&& r.rows@.map_values(|row: Vec<(usize, usize)>| bounds_int(row@)) == g.0
    &&& r.violation == finish_spec(g.1, s.len() as usize)
}

/// A row starting inside the input ends after its start and within the
/// input, and its field bounds are ordered within the input.
pub proof fn lemma_row_advances(
    s: Seq<u8>,
    seps: Seq<Seq<u8>>,
    esc: Seq<u8>,
    mode: NewlineMode,
    trim_cr: bool,
    pos: int,
    q: QuoteState,
)
    requires
        0 <= pos < s.len(),
    ensures
        ({
            let r = general_row_at(s, seps, esc, mode, trim_cr, pos, q);
            &&& pos < r.1 <= s.len()
            &&& r.0.len() > 0
            &&& forall|j: int| 0 <= j < r.0.len() ==> pos <= (#[trigger] r.0[j]).0 <= r.0[j].1 <= s.len()
        }),
{
    lemma_walk_row_bounds(s, seps, esc, mode, pos, q, pos, Seq::empty());
    let w = walk_row(s, seps, esc, mode, pos, q, pos, Seq::empty());
    let r = general_row_at(s, seps, esc, mode, trim_cr, pos, q);
    assert forall|j: int| 0 <= j < r.0.len() implies pos <= (#[trigger] r.0[j]).0 <= r.0[j].1 <= s.len() by {
        if j < w.0.len() {
            assert(r.0[j] == w.0[j]);
            if w.0.len() > 0 {
                lemma_first_bound_from(s, seps, esc, mode, pos, q, pos, Seq::empty(), j);
            }
        }
    }
}

/// Every field bound a row walk adds starts at or after its start.
proof fn lemma_first_bound_from(
    s: Seq<u8>,
    seps: Seq<Seq<u8>>,
    esc: Seq<u8>,
    mode: NewlineMode,
    pos: int,
    q: QuoteState,
    fstart: int,
    acc: Seq<(int, int)>,
    j: int,
)
    requires
        0 <= fstart <= pos <= s.len(),
        forall|i: int| 0 <= i < acc.len() ==> 0 <= (#[trigger] acc[i]).0 <= acc[i].1 <= fstart,
        acc.len() <= j < walk_row(s, seps, esc, mode, pos, q, fstart, acc).0.len(),
    ensures
        walk_row(s, seps, esc, mode, pos, q, fstart, acc).0[j].0 >= fstart,
    decreases s.len() - pos,
{
    let w = walk_row(s, seps, esc, mode, pos, q, fstart, acc);
    if pos >= s.len() || esc.len() == 0 || pos < 0 {
    } else if q.in_quotes {
        if starts_at(s, pos, esc) {
            if starts_at(s, pos + esc.len(), esc) {
                let q2 = on_escape_spec(q, pos as usize, true);
                assert(w == walk_row(s, seps, esc, mode, pos + 2 * esc.len(), q2, fstart, acc));
                lemma_first_bound_from(s, seps, esc, mode, pos + 2 * esc.len(), q2, fstart, acc, j);
            } else {
                let q2 = on_escape_spec(q, pos as usize, false);
                assert(w == walk_row(s, seps, esc, mode, pos + esc.len(), q2, fstart, acc));
                lemma_first_bound_from(s, seps, esc, mode, pos + esc.len(), q2, fstart, acc, j);
            }
        } else {
            assert(w == walk_row(s, seps, esc, mode, pos + 1, q, fstart, acc));
            lemma_first_bound_from(s, seps, esc, mode, pos + 1, q, fstart, acc, j);
        }
    } else if starts_at(s, pos, esc) {
        let q2 = on_escape_spec(q, pos as usize, false);
        assert(w == walk_row(s, seps, esc, mode, pos + esc.len(), q2, fstart, acc));
        lemma_first_bound_from(s, seps, esc, mode, pos + esc.len(), q2, fstart, acc, j);
    } else if sep_len_at(s, pos, seps) > 0 {
        let l = sep_len_at(s, pos, seps);
        lemma_first_match_len_fits(s, pos, seps);
        let acc2 = acc.push((fstart, pos));
        assert(w == walk_row(s, seps, esc, mode, pos + l, on_delimiter_spec(q), pos + l, acc2));
        if j > acc.len() {
            lemma_first_bound_from(s, seps, esc, mode, pos + l, on_delimiter_spec(q), pos + l, acc2, j);
        } else {
            lemma_walk_row_bounds(s, seps, esc, mode, pos + l, on_delimiter_spec(q), pos + l, acc2);
            assert(acc2[j] == (fstart, pos));
        }
    } else if nl_len_at(s, pos, mode) > 0 {
    } else {
        let q2 = on_data_spec(q, pos as usize);
        assert(w == walk_row(s, seps, esc, mode, pos + 1, q2, fstart, acc));
        lemma_first_bound_from(s, seps, esc, mode, pos + 1, q2, fstart, acc, j);
    }
}

/// Field bounds of the row at `start`, and where the next row starts.
fn parse_row_boundaries_general(
    input: &[u8],
    start: usize,
    separators: &[Vec<u8>],
    escape: &[u8],
    mode: NewlineMode,
    trim_cr: bool,
    quote: &mut QuoteState,
) -> (r: (Vec<(usize, usize)>, usize))
    requires
        start < input@.len(),
        escape@.len() > 0,
        seps_nonempty(seps_seq(separators@)),
        mode_ok(mode),
    ensures
        ({
            let g = general_row_at(input@, seps_seq(separators@), escape@, mode, trim_cr, start as int, *old(quote));
            &&& bounds_int(r.0@) == g.0
            &&& r.1 == g.1
            &&& *final(quote) == g.2
        }),
        start < r.1 <= input@.len(),
        r.0@.len() > 0,
        forall|j: int| 0 <= j < r.0@.len() ==> (#[trigger] r.0@[j]).0 <= r.0@[j].1 <= input@.len(),
{
    let ghost q0 = *quote;
    let (mut bounds, field_start, stop, nl) = walk_row_exec(input, start, separators, escape, mode, quote);
    proof {
        lemma_walk_row_bounds(input@, seps_seq(separators@), escape@, mode, start as int, q0, start as int, Seq::empty());
        lemma_row_advances(input@, seps_seq(separators@), escape@, mode, trim_cr, start as int, q0);
        let w = walk_row(input@, seps_seq(separators@), escape@, mode, start as int, q0, start as int, Seq::empty());
        assert(stop == w.2);
        assert(nl == w.3);
        assert(w.2 + w.3 <= input@.len());
    }
    let mut end = stop;
    if trim_cr && matches!(mode, NewlineMode::Default) && nl == 1 && stop > field_start && input[stop - 1] == 13u8 {
        end = stop - 1;
    }
    let ghost old_b = bounds@;
    bounds.push((field_start, end));
    proof {
        assert(bounds_int(bounds@) =~= bounds_int(old_b).push((field_start as int, end as int)));
        let g = general_row_at(input@, seps_seq(separators@), escape@, mode, trim_cr, start as int, q0);
        assert forall|j: int| 0 <= j < bounds@.len() implies (#[trigger] bounds@[j]).0 <= bounds@[j].1 <= input@.len() by {
            assert(bounds_int(bounds@)[j] == g.0[j]);
        }
    }
    let n = input.len();
    assert(stop + nl <= n);
    (bounds, stop + nl)
}

/// Field bounds with a start and an end.
#[derive(Debug, Clone, Copy)]
#[must_use]
pub struct GeneralFieldBound {
    pub start: usize,
    pub end: usize,
}

/// Index rows as integer bounds.
pub open spec fn general_index_view(rows: Seq<Vec<GeneralFieldBound>>) -> Seq<Seq<(int, int)>> {
    rows.map_values(|row: Vec<GeneralFieldBound>| row@.map_values(|b: GeneralFieldBound| (b.start as int, b.end as int)))
}

/// Field bounds of the row at `start`, and where the next row starts.
fn index_row_general(
    input: &[u8],
    start: usize,
    separators: &[Vec<u8>],
    escape: &[u8],
    mode: NewlineMode,
    quote: &mut QuoteState,
) -> (r: (Vec<GeneralFieldBound>, usize))
    requires
        start < input@.len(),
        escape@.len() > 0,
        seps_nonempty(seps_seq(separators@)),
        mode_ok(mode),
    ensures
        ({
            let g = general_row_at(input@, seps_seq(separators@), escape@, mode, false, start as int, *old(quote));
            &&& r.0@.map_values(|b: GeneralFieldBound| (b.start as int, b.end as int)) == g.0
            &&& r.1 == g.1
            &&& *final(quote) == g.2
        }),
        start < r.1 <= input@.len(),
        r.0@.len() > 0,
        forall|j: int| 0 <= j < r.0@.len() ==> (#[trigger] r.0@[j]).start <= r.0@[j].end <= input@.len(),
{
    let (bounds, next) = parse_row_boundaries_general(input, start, separators, escape, mode, false, quote);
    let mut fields: Vec<GeneralFieldBound> = Vec::new();
    let mut k: usize = 0;
    while k < bounds.len()
        invariant
            0 <= k <= bounds@.len(),
            fields@.len() == k,
            forall|j: int| 0 <= j < k ==> (#[trigger] fields@[j]).start == bounds@[j].0 && fields@[j].end == bounds@[j].1,
        decreases bounds@.len() - k,
    {
        fields.push(GeneralFieldBound { start: bounds[k].0, end: bounds[k].1 });
        k += 1;
    }
    assert(fields@.map_values(|b: GeneralFieldBound| (b.start as int, b.end as int)) =~= bounds_int(bounds@));
    (fields, next)
}

/// The values of the fields at `bounds`.
fn extract_row_general<'a>(input: &'a [u8], bounds: &[(usize, usize)], escape: &[u8]) -> (r: Vec<Cow<'a, [u8]>>)
    requires
        escape@.len() > 0,
        forall|j: int| 0 <= j < bounds@.len() ==> (#[trigger] bounds@[j]).0 <= bounds@[j].1 <= input@.len(),
    ensures
        r@.map_values(|f: Cow<'a, [u8]>| f@) == row_values_general(input@, bounds_int(bounds@), escape@),
{
    let mut fields: Vec<Cow<'a, [u8]>> = Vec::new();
    let mut k: usize = 0;
    while k < bounds.len()
        invariant
            0 <= k <= bounds@.len(),
            escape@.len() > 0,
            forall|j: int| 0 <= j < bounds@.len() ==> (#[trigger] bounds@[j]).0 <= bounds@[j].1 <= input@.len(),
            fields@.len() == k,
            forall|j: int| 0 <= j < k ==> (#[trigger] fields@[j])@ == extract_general_spec(input@, bounds@[j].0 as int, bounds@[j].1 as int, escape@),
        decreases bounds@.len() - k,
    {
        let (a, b) = bounds[k];
        fields.push(extract_field_cow_general(input, a, b, escape));
        k += 1;
    }
    assert(fields@.map_values(|f: Cow<'a, [u8]>| f@) =~= row_values_general(input@, bounds_int(bounds@), escape@));
    fields
}

/// The field values of the row at `start`, and where the next row starts.
fn parse_row_general<'a>(
    input: &'a [u8],
    start: usize,
    separators: &[Vec<u8>],
    escape: &[u8],
    mode: NewlineMode,
    quote: &mut QuoteState,
) -> (r: (Vec<Cow<'a, [u8]>>, usize))
    requires
        start < input@.len(),
        escape@.len() > 0,
        seps_nonempty(seps_seq(separators@)),
        mode_ok(mode),
    ensures
        ({
            let g = general_row_at(input@, seps_seq(separators@), escape@, mode, false, start as int, *old(quote));
            &&& r.0@.map_values(|f: Cow<'a, [u8]>| f@) == row_values_general(input@, g.0, escape@)
            &&& r.1 == g.1
            &&& *final(quote) == g.2
        }),
        start < r.1 <= input@.len(),
{
    let (bounds, next) = parse_row_boundaries_general(input, start, separators, escape, mode, false, quote);
    (extract_row_general(input, bounds.as_slice(), escape), next)
}

/// Parse every row in `mode`.
fn parse_csv_general_in<'a>(input: &'a [u8], separators: &[Vec<u8>], escape: &[u8], mode: NewlineMode) -> (rows: Vec<
    Vec<Cow<'a, [u8]>>,
>)
    requires
        escape@.len() > 0,
        seps_nonempty(seps_seq(separators@)),
        mode_ok(mode),
    ensures
        cow_rows_view(rows@) == general_values(
            input@,
            general_scan(input@, seps_seq(separators@), escape@, mode, false).0,
            escape@,
        ),
{
    let ghost s = input@;
    let ghost sp = seps_seq(separators@);
    let ghost e = escape@;
    let mut rows: Vec<Vec<Cow<'a, [u8]>>> = Vec::new();
    let ghost mut acc: Seq<Seq<(int, int)>> = Seq::empty();
    let mut quote = QuoteState::new();
    let mut pos: usize = 0;
    assert(cow_rows_view(rows@) =~= general_values(s, acc, e));
    while pos < input.len()
        invariant
            s == input@,
            sp == seps_seq(separators@),
            e == escape@,
            e.len() > 0,
            seps_nonempty(sp),
            mode_ok(mode),
            pos <= s.len(),
            walk_rows(s, sp, e, mode, false, pos as int, quote, acc) == general_scan(s, sp, e, mode, false),
            cow_rows_view(rows@) == general_values(s, acc, e),
        decreases s.len() - pos,
    {
        let ghost q0 = quote;
        let (row, next) = parse_row_general(input, pos, separators, escape, mode, &mut quote);
        let ghost g = general_row_at(s, sp, e, mode, false, pos as int, q0);
        let ghost old_rows = rows@;
        rows.push(row);
        proof {
            assert(walk_rows(s, sp, e, mode, false, pos as int, q0, acc) == walk_rows(s, sp, e, mode, false, next as int, quote, acc.push(g.0)));
            assert(cow_rows_view(rows@) =~= cow_rows_view(old_rows).push(row_values_general(s, g.0, e)));
            assert(general_values(s, acc.push(g.0), e) =~= general_values(s, acc, e).push(row_values_general(s, g.0, e)));
            acc = acc.push(g.0);
        }
        pos = next;
    }
    rows
}

/// Parse with multi-byte separators and escape; rows end at `\n` or
/// `\r\n`.
pub fn parse_csv_general<'a>(input: &'a [u8], separators: &[Vec<u8>], escape: &[u8]) -> (rows: Vec<Vec<Cow<'a, [u8]>>>)
    requires
        escape@.len() > 0,
        seps_nonempty(seps_seq(separators@)),
    ensures
        cow_rows_view(rows@) == general_values(
            input@,
            general_scan(input@, seps_seq(separators@), escape@, NewlineMode::Default, false).0,
            escape@,
        ),
{
    parse_csv_general_in(input, separators, escape, NewlineMode::Default)
}

/// Parse with multi-byte separators and escape; rows end at the given
/// newline patterns.
pub fn parse_csv_general_with_newlines<'a>(
    input: &'a [u8],
    separators: &[Vec<u8>],
    escape: &[u8],
    newlines: &Newlines,
) -> (rows: Vec<Vec<Cow<'a, [u8]>>>)
    requires
        escape@.len() > 0,
        seps_nonempty(seps_seq(separators@)),
        seps_nonempty(patterns_of(newlines)),
    ensures
        cow_rows_view(rows@) == general_values(
            input@,
            general_scan(input@, seps_seq(separators@), escape@, NewlineMode::Custom(newlines), false).0,
            escape@,
        ),
{
    parse_csv_general_in(input, separators, escape, NewlineMode::Custom(newlines))
}

/// Every bound of an index lies ordered within `len` bytes.
pub open spec fn index_fits(rows: Seq<Vec<GeneralFieldBound>>, len: int) -> bool {
    forall|k: int, j: int| 0 <= k < rows.len() && 0 <= j < rows[k]@.len() ==>
        (#[trigger] rows[k]@[j]).start <= rows[k]@[j].end <= len
}

/// Index every row in `mode`.
fn build_index_general_in(input: &[u8], separators: &[Vec<u8>], escape: &[u8], mode: NewlineMode) -> (r: Vec<
    Vec<GeneralFieldBound>,
>)
    requires
        escape@.len() > 0,
        seps_nonempty(seps_seq(separators@)),
        mode_ok(mode),
    ensures
        general_index_view(r@) == general_scan(input@, seps_seq(separators@), escape@, mode, false).0,
        index_fits(r@, input@.len() as int),
{
    let ghost s = input@;
    let ghost sp = seps_seq(separators@);
    let ghost e = escape@;
    let mut all_fields: Vec<Vec<GeneralFieldBound>> = Vec::new();
    let ghost mut acc: Seq<Seq<(int, int)>> = Seq::empty();
    let mut quote = QuoteState::new();
    let mut pos: usize = 0;
    assert(general_index_view(all_fields@) =~= acc);
    while pos < input.len()
        invariant
            s == input@,
            sp == seps_seq(separators@),
            e == escape@,
            e.len() > 0,
            seps_nonempty(sp),
            mode_ok(mode),
            pos <= s.len(),
            walk_rows(s, sp, e, mode, false, pos as int, quote, acc) == general_scan(s, sp, e, mode, false),
            general_index_view(all_fields@) == acc,
            index_fits(all_fields@, s.len() as int),
        decreases s.len() - pos,
    {
        let ghost q0 = quote;
        let (fields, next) = index_row_general(input, pos, separators, escape, mode, &mut quote);
        let ghost g = general_row_at(s, sp, e, mode, false, pos as int, q0);
        let ghost old_rows = all_fields@;
        if !fields.is_empty() {
            all_fields.push(fields);
        }
        proof {
            assert(walk_rows(s, sp, e, mode, false, pos as int, q0, acc) == walk_rows(s, sp, e, mode, false, next as int, quote, acc.push(g.0)));
            assert(general_index_view(all_fields@) =~= general_index_view(old_rows).push(g.0));
            assert forall|k: int, j: int| 0 <= k < all_fields@.len() && 0 <= j < all_fields@[k]@.len() implies
                (#[trigger] all_fields@[k]@[j]).start <= all_fields@[k]@[j].end <= s.len() by {
                if k < old_rows.len() {
                    assert(all_fields@[k] == old_rows[k]);
                }
            }
            acc = acc.push(g.0);
        }
        pos = next;
    }
    all_fields
}

/// Index with multi-byte separators and escape; rows end at `\n` or `\r\n`.
pub fn build_index_general(input: &[u8], separators: &[Vec<u8>], escape: &[u8]) -> (r: Vec<Vec<GeneralFieldBound>>)
    requires
        escape@.len() > 0,
        seps_nonempty(seps_seq(separators@)),
    ensures
        general_index_view(r@) == general_scan(input@, seps_seq(separators@), escape@, NewlineMode::Default, false).0,
        index_fits(r@, input@.len() as int),
{
    build_index_general_in(input, separators, escape, NewlineMode::Default)
}

/// Index with multi-byte separators and escape; rows end at the given
/// newline patterns.
fn build_index_general_with_newlines(input: &[u8], separators: &[Vec<u8>], escape: &[u8], newlines: &Newlines) -> (r: Vec<
    Vec<GeneralFieldBound>,
>)
    requires
        escape@.len() > 0,
        seps_nonempty(seps_seq(separators@)),
        seps_nonempty(patterns_of(newlines)),
    ensures
        general_index_view(r@) == general_scan(input@, seps_seq(separators@), escape@, NewlineMode::Custom(newlines), false).0,
        index_fits(r@, input@.len() as int),
{
    build_index_general_in(input, separators, escape, NewlineMode::Custom(newlines))
}

/// The field values of every indexed row.
fn extract_indexed_general<'a>(input: &'a [u8], index: &Vec<Vec<GeneralFieldBound>>, escape: &[u8]) -> (rows: Vec<
    Vec<Cow<'a, [u8]>>,
>)
    requires
        escape@.len() > 0,
        index_fits(index@, input@.len() as int),
    ensures
        cow_rows_view(rows@) == general_values(input@, general_index_view(index@), escape@),
{
    let mut rows: Vec<Vec<Cow<'a, [u8]>>> = Vec::new();
    let mut k: usize = 0;
    while k < index.len()
        invariant
            0 <= k <= index@.len(),
            escape@.len() > 0,
            index_fits(index@, input@.len() as int),
            cow_rows_view(rows@) == general_values(input@, general_index_view(index@).take(k as int), escape@),
        decreases index@.len() - k,
    {
        let row_fields = &index[k];
        let mut fields: Vec<Cow<'a, [u8]>> = Vec::new();
        let mut j: usize = 0;
        while j < row_fields.len()
            invariant
                0 <= j <= row_fields@.len(),
                k < index@.len(),
                row_fields == index@[k as int],
                escape@.len() > 0,
                index_fits(index@, input@.len() as int),
                fields@.len() == j,
                forall|i: int| 0 <= i < j ==> (#[trigger] fields@[i])@ == extract_general_spec(
                    input@,
                    row_fields@[i].start as int,
                    row_fields@[i].end as int,
                    escape@,
                ),
            decreases row_fields@.len() - j,
        {
            let bound = row_fields[j];
            assert(index@[k as int]@[j as int] == bound);
            fields.push(extract_field_cow_general(input, bound.start, bound.end, escape));
            j += 1;
        }
        let ghost old_rows = rows@;
        rows.push(fields);
        proof {
            let row_b = general_index_view(index@)[k as int];
            assert(fields@.map_values(|f: Cow<'a, [u8]>| f@) =~= row_values_general(input@, row_b, escape@));
            assert(general_index_view(index@).take(k + 1) =~= general_index_view(index@).take(k as int).push(row_b));
            assert(cow_rows_view(rows@) =~= cow_rows_view(old_rows).push(row_values_general(input@, row_b, escape@)));
            assert(general_values(input@, general_index_view(index@).take(k + 1), escape@) =~= general_values(
                input@,
                general_index_view(index@).take(k as int),
                escape@,
            ).push(row_values_general(input@, row_b, escape@)));
        }
        k += 1;
    }
    assert(general_index_view(index@).take(k as int) =~= general_index_view(index@));
    rows
}

/// Index, then extract every field; rows end at `\n` or `\r\n`.
pub fn parse_csv_indexed_general<'a>(input: &'a [u8], separators: &[Vec<u8>], escape: &[u8]) -> (rows: Vec<
    Vec<Cow<'a, [u8]>>,
>)
    requires
        escape@.len() > 0,
        seps_nonempty(seps_seq(separators@)),
    ensures
        cow_rows_view(rows@) == general_values(
            input@,
            general_scan(input@, seps_seq(separators@), escape@, NewlineMode::Default, false).0,
            escape@,
        ),
{
    let index = build_index_general(input, separators, escape);
    extract_indexed_general(input, &index, escape)
}

/// Index, then extract every field; rows end at the given newline patterns.
pub fn parse_csv_indexed_general_with_newlines<'a>(
    input: &'a [u8],
    separators: &[Vec<u8>],
    escape: &[u8],
    newlines: &Newlines,
) -> (rows: Vec<Vec<Cow<'a, [u8]>>>)
    requires
        escape@.len() > 0,
        seps_nonempty(seps_seq(separators@)),
        seps_nonempty(patterns_of(newlines)),
    ensures
        cow_rows_view(rows@) == general_values(
            input@,
            general_scan(input@, seps_seq(separators@), escape@, NewlineMode::Custom(newlines), false).0,
            escape@,
        ),
{
    let index = build_index_general_with_newlines(input, separators, escape, newlines);
    extract_indexed_general(input, &index, escape)
}

/// Field bounds of every row in `mode`, and the first quoting violation.
pub(crate) fn scan_boundaries_general(input: &[u8], separators: &[Vec<u8>], escape: &[u8], mode: NewlineMode) -> (r:
    ScannedBoundaries)
    requires
        escape@.len() > 0,
        seps_nonempty(seps_seq(separators@)),
        mode_ok(mode),
    ensures
        general_scanned_of(input@, seps_seq(separators@), escape@, mode, r),
{
    let ghost s = input@;
    let ghost sp = seps_seq(separators@);
    let ghost e = escape@;
    let mut rows: Vec<Vec<(usize, usize)>> = Vec::new();
    let mut quote = QuoteState::new();
    let mut pos: usize = 0;
    assert(rows@.map_values(|row: Vec<(usize, usize)>| bounds_int(row@)) =~= Seq::<Seq<(int, int)>>::empty());
    while pos < input.len()
        invariant
            s == input@,
            sp == seps_seq(separators@),
            e == escape@,
            e.len() > 0,
            seps_nonempty(sp),
            mode_ok(mode),
            pos <= s.len(),
            walk_rows(s, sp, e, mode, true, pos as int, quote, rows@.map_values(|row: Vec<(usize, usize)>| bounds_int(row@)))
                == general_scan(s, sp, e, mode, true),
        decreases s.len() - pos,
    {
        let ghost q0 = quote;
        let ghost acc = rows@.map_values(|row: Vec<(usize, usize)>| bounds_int(row@));
        let (boundaries, next) = parse_row_boundaries_general(input, pos, separators, escape, mode, true, &mut quote);
        let ghost g = general_row_at(s, sp, e, mode, true, pos as int, q0);
        if !boundaries.is_empty() {
            rows.push(boundaries);
        }
        proof {
            assert(walk_rows(s, sp, e, mode, true, pos as int, q0, acc) == walk_rows(s, sp, e, mode, true, next as int, quote, acc.push(g.0)));
            assert(rows@.map_values(|row: Vec<(usize, usize)>| bounds_int(row@)) =~= acc.push(g.0));
        }
        pos = next;
    }
    let violation = quote.finish(input.len());
    ScannedBoundaries { rows, violation }
}

/// Field bounds of every row with multi-byte separators and escape, rows
/// ending at `\n` or `\r\n` (a `\r` before a lone `\n` is left out of the
/// field).
pub fn parse_csv_boundaries_general(input: &[u8], separators: &[Vec<u8>], escape: &[u8]) -> (r: Vec<Vec<(usize, usize)>>)
    requires
        escape@.len() > 0,
        seps_nonempty(seps_seq(separators@)),
    ensures
        r@.map_values(|row: Vec<(usize, usize)>| bounds_int(row@)) == general_scan(
            input@,
            seps_seq(separators@),
            escape@,
            NewlineMode::Default,
            true,
        ).0,
{
    scan_boundaries_general(input, separators, escape, NewlineMode::Default).rows
}

/// Field bounds of every row with multi-byte separators and escape, rows
/// ending at the given newline patterns.
pub fn parse_csv_boundaries_general_with_newlines(
    input: &[u8],
    separators: &[Vec<u8>],
    escape: &[u8],
    newlines: &Newlines,
) -> (r: Vec<Vec<(usize, usize)>>)
    requires
        escape@.len() > 0,
        seps_nonempty(seps_seq(separators@)),
        seps_nonempty(patterns_of(newlines)),
    ensures
        r@.map_values(|row: Vec<(usize, usize)>| bounds_int(row@)) == general_scan(
            input@,
            seps_seq(separators@),
            escape@,
            NewlineMode::Custom(newlines),
            true,
        ).0,
{
    scan_boundaries_general(input, separators, escape, NewlineMode::Custom(newlines)).rows
}

/// Starts of the rows after the row at `pos`, walking with no separators.
pub open spec fn row_starts_from(s: Seq<u8>, esc: Seq<u8>, mode: NewlineMode, pos: int, q: QuoteState) -> Seq<int>
    decreases s.len() - pos,
{
    if pos < 0 || pos >= s.len() {
        Seq::empty()
    } else {
        let r = general_row_at(s, Seq::empty(), esc, mode, false, pos, q);
        if r.1 <= pos || r.1 >= s.len() {
            Seq::empty()
        } else {
            seq![r.1] + row_starts_from(s, esc, mode, r.1, r.2)
        }
    }
}

/// Row starts of `s`: 0, then every position after a row terminator that
/// lies outside quotes and before the end of input.
pub open spec fn row_starts_general(s: Seq<u8>, esc: Seq<u8>, mode: NewlineMode) -> Seq<int> {
    seq![0int] + row_starts_from(s, esc, mode, 0, initial_quote_state())
}

/// Row starts found in `mode`.
fn find_row_starts_general_inner(input: &[u8], escape: &[u8], mode: NewlineMode) -> (r: Vec<usize>)
    requires
        escape@.len() > 0,
        mode_ok(mode),
    ensures
        r@.map_values(|p: usize| p as int) == row_starts_general(input@, escape@, mode),
{
    let ghost s = input@;
    let ghost e = escape@;
    let no_seps: Vec<Vec<u8>> = Vec::new();
    assert(seps_seq(no_seps@) =~= Seq::<Seq<u8>>::empty());
    let mut starts: Vec<usize> = Vec::new();
    starts.push(0);
    let mut quote = QuoteState::new();
    let mut pos: usize = 0;
    assert(starts@.map_values(|p: usize| p as int) =~= seq![0int]);
    while pos < input.len()
        invariant
            s == input@,
            e == escape@,
            e.len() > 0,
            mode_ok(mode),
            seps_seq(no_seps@) == Seq::<Seq<u8>>::empty(),
            pos <= s.len(),
            starts@.map_values(|p: usize| p as int) + row_starts_from(s, e, mode, pos as int, quote) == row_starts_general(s, e, mode),
        decreases s.len() - pos,
    {
        let ghost q0 = quote;
        let ghost old_starts = starts@;
        let (_bounds, _field_start, stop, nl) = walk_row_exec(input, pos, no_seps.as_slice(), escape, mode, &mut quote);
        proof {
            lemma_walk_row_bounds(s, Seq::empty(), e, mode, pos as int, q0, pos as int, Seq::empty());
            lemma_row_advances(s, Seq::empty(), e, mode, false, pos as int, q0);
        }
        let n = input.len();
        assert(stop + nl <= n);
        let next = stop + nl;
        if next < input.len() {
            starts.push(next);
            assert(starts@.map_values(|p: usize| p as int) =~= old_starts.map_values(|p: usize| p as int).push(next as int));
            assert(row_starts_from(s, e, mode, pos as int, q0) =~= seq![next as int] + row_starts_from(s, e, mode, next as int, quote));
        }
        pos = next;
    }
    assert(starts@.map_values(|p: usize| p as int) + row_starts_from(s, e, mode, pos as int, quote) =~= starts@.map_values(|p: usize| p as int));
    starts
}

/// Row starts with rows ending at `\n` or `\r\n`.
pub fn find_row_starts_general(input: &[u8], escape: &[u8]) -> (r: Vec<usize>)
    requires
        escape@.len() > 0,
    ensures
        r@.map_values(|p: usize| p as int) == row_starts_general(input@, escape@, NewlineMode::Default),
{
    find_row_starts_general_inner(input, escape, NewlineMode::Default)
}

/// Row starts with rows ending at the given newline patterns.
pub fn find_row_starts_general_with_newlines(input: &[u8], escape: &[u8], newlines: &Newlines) -> (r: Vec<usize>)
    requires
        escape@.len() > 0,
        seps_nonempty(patterns_of(newlines)),
    ensures
        r@.map_values(|p: usize| p as int) == row_starts_general(input@, escape@, NewlineMode::Custom(newlines)),
{
    find_row_starts_general_inner(input, escape, NewlineMode::Custom(newlines))
}

/// The field bounds of a line that holds no row terminator.
pub open spec fn line_bounds_spec(line: Seq<u8>, seps: Seq<Seq<u8>>, esc: Seq<u8>) -> Seq<(int, int)> {
    general_row_at(line, seps, esc, NewlineMode::Off, false, 0, initial_quote_state()).0
}

/// Field bounds of one line: separators split it, nothing ends it.
fn parse_line_boundaries_general(line: &[u8], separators: &[Vec<u8>], escape: &[u8]) -> (r: Vec<(usize, usize)>)
    requires
        escape@.len() > 0,
        seps_nonempty(seps_seq(separators@)),
    ensures
        bounds_int(r@) == line_bounds_spec(line@, seps_seq(separators@), escape@),
        forall|j: int| 0 <= j < r@.len() ==> (#[trigger] r@[j]).0 <= r@[j].1 <= line@.len(),
{
    let mut quote = QuoteState::new();
    let ghost q0 = quote;
    let (mut bounds, field_start, stop, _nl) = walk_row_exec(line, 0, separators, escape, NewlineMode::Off, &mut quote);
    proof {
        lemma_walk_row_bounds(line@, seps_seq(separators@), escape@, NewlineMode::Off, 0, q0, 0, Seq::empty());
    }
    let ghost old_b = bounds@;
    bounds.push((field_start, stop));
    proof {
        assert(bounds_int(bounds@) =~= bounds_int(old_b).push((field_start as int, stop as int)));
        let g = line_bounds_spec(line@, seps_seq(separators@), escape@);
        assert forall|j: int| 0 <= j < bounds@.len() implies (#[trigger] bounds@[j]).0 <= bounds@[j].1 <= line@.len() by {
            assert(bounds_int(bounds@)[j] == g[j]);
        }
    }
    bounds
}

/// Owned field values of rows.
pub open spec fn owned_rows_view(rows: Seq<Vec<Vec<u8>>>) -> Seq<Seq<Seq<u8>>> {
    rows.map_values(|row: Vec<Vec<u8>>| row@.map_values(|f: Vec<u8>| f@))
}

/// Owned field values of one line: separators split it, nothing ends it.
pub(crate) fn parse_line_fields_owned_general(line: &[u8], separators: &[Vec<u8>], escape: &[u8]) -> (r: Vec<Vec<u8>>)
    requires
        escape@.len() > 0,
        seps_nonempty(seps_seq(separators@)),
    ensures
        r@.map_values(|f: Vec<u8>| f@) == row_values_general(line@, line_bounds_spec(line@, seps_seq(separators@), escape@), escape@),
{
    let bounds = parse_line_boundaries_general(line, separators, escape);
    let mut fields: Vec<Vec<u8>> = Vec::new();
    let mut k: usize = 0;
    while k < bounds.len()
        invariant
            0 <= k <= bounds@.len(),
            escape@.len() > 0,
            forall|j: int| 0 <= j < bounds@.len() ==> (#[trigger] bounds@[j]).0 <= bounds@[j].1 <= line@.len(),
            fields@.len() == k,
            forall|j: int| 0 <= j < k ==> (#[trigger] fields@[j])@ == extract_general_spec(line@, bounds@[j].0 as int, bounds@[j].1 as int, escape@),
        decreases bounds@.len() - k,
    {
        let (a, b) = bounds[k];
        fields.push(extract_field_owned_general(line, a, b, escape));
        k += 1;
    }
    assert(fields@.map_values(|f: Vec<u8>| f@) =~= row_values_general(line@, bounds_int(bounds@), escape@));
    fields
}

/// Row starts after `pos` lie after it and inside the input, increasing.
proof fn lemma_row_starts_from(s: Seq<u8>, esc: Seq<u8>, mode: NewlineMode, pos: int, q: QuoteState)
    requires
        0 <= pos,
    ensures
        ({
            let rs = row_starts_from(s, esc, mode, pos, q);
            &&& forall|i: int| 0 <= i < rs.len() ==> pos < #[trigger] rs[i] < s.len()
            &&& forall|i: int, j: int| 0 <= i < j < rs.len() ==> rs[i] < rs[j]
        }),
    decreases s.len() - pos,
{
    if pos < s.len() {
        lemma_row_advances(s, Seq::empty(), esc, mode, false, pos, q);
        let r = general_row_at(s, Seq::empty(), esc, mode, false, pos, q);
        if r.1 < s.len() {
            lemma_row_starts_from(s, esc, mode, r.1, r.2);
            let rest = row_starts_from(s, esc, mode, r.1, r.2);
            let rs = row_starts_from(s, esc, mode, pos, q);
            assert(rs == seq![r.1] + rest);
            assert forall|i: int| 0 <= i < rs.len() implies pos < #[trigger] rs[i] < s.len() by {
                if i > 0 {
                    assert(rs[i] == rest[i - 1]);
                }
            }
            assert forall|i: int, j: int| 0 <= i < j < rs.len() implies rs[i] < rs[j] by {
                assert(rs[j] == rest[j - 1]);
                if i > 0 {
                    assert(rs[i] == rest[i - 1]);
                }
            }
        }
    }
}

/// The row starts of `s` begin at 0, increase, and stay inside the input
/// after the first.
pub proof fn lemma_row_starts_general(s: Seq<u8>, esc: Seq<u8>, mode: NewlineMode)
    ensures
        ({
            let rs = row_starts_general(s, esc, mode);
            &&& rs.len() > 0 && rs[0] == 0
            &&& forall|i: int| 0 <= i < rs.len() ==> 0 <= #[trigger] rs[i] <= s.len()
            &&& forall|i: int, j: int| 0 <= i < j < rs.len() ==> rs[i] < rs[j]
        }),
{
    lemma_row_starts_from(s, esc, mode, 0, initial_quote_state());
    let rest = row_starts_from(s, esc, mode, 0, initial_quote_state());
    let rs = row_starts_general(s, esc, mode);
    assert forall|i: int| 0 <= i < rs.len() implies 0 <= #[trigger] rs[i] <= s.len() by {
        if i > 0 {
            assert(rs[i] == rest[i - 1]);
        }
    }
    assert forall|i: int, j: int| 0 <= i < j < rs.len() implies rs[i] < rs[j] by {
        assert(rs[j] == rest[j - 1]);
        if i > 0 {
            assert(rs[i] == rest[i - 1]);
        }
    }
}

/// The first pattern (in order) that ends `s[start..end]`, stripped.
pub open spec fn strip_first_pattern(s: Seq<u8>, pats: Seq<Seq<u8>>, start: int, end: int) -> int
    decreases pats.len(),
{
    if pats.len() == 0 {
        end
    } else if end >= start + pats[0].len() && s.subrange(end - pats[0].len(), end) == pats[0] {
        end - pats[0].len()
    } else {
        strip_first_pattern(s, pats.skip(1), start, end)
    }
}

/// Where a row range's line ends once its terminator is stripped: a final
/// `\n` and a `\r` before it, or the first newline pattern that ends it.
pub open spec fn strip_terminator(s: Seq<u8>, mode: NewlineMode, start: int, end: int) -> int {
    match mode {
        NewlineMode::Default => if end > start && s[end - 1] == 10u8 {
            if end - 1 > start && s[end - 2] == 13u8 {
                end - 2
            } else {
                end - 1
            }
        } else {
            end
        },
        NewlineMode::Custom(n) => strip_first_pattern(s, patterns_of(n), start, end),
        NewlineMode::Off => end,
    }
}

/// Consecutive row starts as ranges, the last one running to `len`.
pub open spec fn row_ranges_of(starts: Seq<int>, len: int) -> Seq<(int, int)> {
    Seq::new(starts.len(), |i: int| (starts[i], if i + 1 < starts.len() { starts[i + 1] } else { len }))
}

/// The items that are present, in order.
pub open spec fn keep_some<T>(xs: Seq<Option<T>>) -> Seq<T>
    decreases xs.len(),
{
    if xs.len() == 0 {
        Seq::empty()
    } else {
        let rest = keep_some(xs.drop_last());
        match xs.last() {
            Some(v) => rest.push(v),
            None => rest,
        }
    }
}

/// The fields of the line of range `start..end`, its terminator stripped;
/// a blank line is one empty field. An empty range has no line.
pub open spec fn parallel_line(
    s: Seq<u8>,
    seps: Seq<Seq<u8>>,
    esc: Seq<u8>,
    mode: NewlineMode,
    start: int,
    end: int,
) -> Option<Seq<Seq<u8>>> {
    if end <= start {
        None
    } else {
        let line = s.subrange(start, strip_terminator(s, mode, start, end));
        Some(row_values_general(line, line_bounds_spec(line, seps, esc), esc))
    }
}

/// The field bounds of the line of range `start..end`, in the input; a
/// blank line is one empty field. An empty range has no line.
pub open spec fn parallel_line_bounds(
    s: Seq<u8>,
    seps: Seq<Seq<u8>>,
    esc: Seq<u8>,
    mode: NewlineMode,
    start: int,
    end: int,
) -> Option<Seq<(int, int)>> {
    if end <= start {
        None
    } else {
        let lb = line_bounds_spec(s.subrange(start, strip_terminator(s, mode, start, end)), seps, esc);
        Some(lb.map_values(|b: (int, int)| (b.0 + start, b.1 + start)))
    }
}

/// Rows of the parallel general parser: every row range's line, parsed on
/// its own; blank lines are rows of one empty field.
pub open spec fn parallel_general_rows(s: Seq<u8>, seps: Seq<Seq<u8>>, esc: Seq<u8>, mode: NewlineMode) -> Seq<
    Seq<Seq<u8>>,
> {
    keep_some(
        row_ranges_of(row_starts_general(s, esc, mode), s.len() as int).map_values(
            |r: (int, int)| parallel_line(s, seps, esc, mode, r.0, r.1),
        ),
    )
}

/// Row bounds of the parallel general parser.
pub open spec fn parallel_general_bounds(s: Seq<u8>, seps: Seq<Seq<u8>>, esc: Seq<u8>, mode: NewlineMode) -> Seq<
    Seq<(int, int)>,
> {
    keep_some(
        row_ranges_of(row_starts_general(s, esc, mode), s.len() as int).map_values(
            |r: (int, int)| parallel_line_bounds(s, seps, esc, mode, r.0, r.1),
        ),
    )
}

/// `pat` is non-empty and ends the range `start..end` of `s`.
pub open spec fn ends_range(s: Seq<u8>, start: int, end: int, pat: Seq<u8>) -> bool {
    &&& pat.len() > 0
    &&& start + pat.len() <= end
    &&& s.subrange(end - pat.len(), end) == pat
}

/// Stripping with non-empty patterns removes a pattern that ends the range
/// exactly when one does.
proof fn lemma_strip_first_pattern(s: Seq<u8>, pats: Seq<Seq<u8>>, start: int, end: int)
    requires
        0 <= start <= end <= s.len(),
        seps_nonempty(pats),
    ensures
        start <= strip_first_pattern(s, pats, start, end) <= end,
        (exists|k: int| 0 <= k < pats.len() && #[trigger] ends_range(s, start, end, pats[k]))
            <==> strip_first_pattern(s, pats, start, end) < end,
        strip_first_pattern(s, pats, start, end) < end ==> exists|k: int|
            0 <= k < pats.len() && #[trigger] ends_range(s, start, end, pats[k]) && strip_first_pattern(s, pats, start, end)
                == end - pats[k].len(),
    decreases pats.len(),
{
    if pats.len() > 0 {
        let rest = pats.skip(1);
        assert forall|k: int| 0 <= k < rest.len() implies (#[trigger] rest[k]).len() > 0 by {
            assert(rest[k] == pats[k + 1]);
        }
        lemma_strip_first_pattern(s, rest, start, end);
        assert(pats[0].len() > 0);
        if end >= start + pats[0].len() && s.subrange(end - pats[0].len(), end) == pats[0] {
            assert(ends_range(s, start, end, pats[0]));
        } else {
            assert(!ends_range(s, start, end, pats[0]));
            if exists|k: int| 0 <= k < pats.len() && #[trigger] ends_range(s, start, end, pats[k]) {
                let k = choose|k: int| 0 <= k < pats.len() && #[trigger] ends_range(s, start, end, pats[k]);
                assert(k > 0);
                assert(rest[k - 1] == pats[k]);
                assert(ends_range(s, start, end, rest[k - 1]));
            }
            if strip_first_pattern(s, pats, start, end) < end {
                let k = choose|k: int|
                    0 <= k < rest.len() && #[trigger] ends_range(s, start, end, rest[k]) && strip_first_pattern(s, rest, start, end)
                        == end - rest[k].len();
                assert(rest[k] == pats[k + 1]);
                assert(ends_range(s, start, end, pats[k + 1]));
            }
        }
    }
}

/// With custom newlines, the line of a row range loses its terminator:
/// when one of the configured patterns ends the range, exactly one such
/// pattern is removed from its end, whichever pattern it is; when none
/// does, the range is kept whole.
pub proof fn law_custom_strip_removes_the_terminator(s: Seq<u8>, n: &Newlines, start: int, end: int)
    requires
        0 <= start <= end <= s.len(),
        seps_nonempty(patterns_of(n)),
    ensures
        start <= strip_terminator(s, NewlineMode::Custom(n), start, end) <= end,
        (exists|k: int| 0 <= k < patterns_of(n).len() && #[trigger] ends_range(s, start, end, patterns_of(n)[k]))
            <==> strip_terminator(s, NewlineMode::Custom(n), start, end) < end,
        strip_terminator(s, NewlineMode::Custom(n), start, end) < end ==> exists|k: int|
            0 <= k < patterns_of(n).len() && #[trigger] ends_range(s, start, end, patterns_of(n)[k]) && strip_terminator(
                s,
                NewlineMode::Custom(n),
                start,
                end,
            ) == end - patterns_of(n)[k].len(),
{
    lemma_strip_first_pattern(s, patterns_of(n), start, end);
}

/// With `\n` / `\r\n` rows, the line of a row range loses a final `\n`,
/// with the `\r` before it when there is one in the range, and nothing
/// else.
pub proof fn law_default_strip_removes_the_terminator(s: Seq<u8>, start: int, end: int)
    requires
        0 <= start <= end <= s.len(),
    ensures
        ({
            let e = strip_terminator(s, NewlineMode::Default, start, end);
            &&& start <= e <= end
            &&& (end > start && s[end - 1] == 10u8) <==> e < end
            &&& e < end ==> (e == end - 2 && s[end - 2] == 13u8 && s[end - 1] == 10u8) || (e == end - 1 && s[end - 1] == 10u8
                && !(end - 2 >= start && s[end - 2] == 13u8))
        }),
{
}

/// End of `input[start..end]` once its terminator is stripped.
fn strip_terminator_exec(input: &[u8], start: usize, end: usize, mode: NewlineMode) -> (r: usize)
    requires
        start <= end <= input@.len(),
    ensures
        r == strip_terminator(input@, mode, start as int, end as int),
        start <= r <= end,
{
    match mode {
        NewlineMode::Default => {
            let mut line_end = end;
            if line_end > start && input[line_end - 1] == 10u8 {
                line_end -= 1;
                if line_end > start && input[line_end - 1] == 13u8 {
                    line_end -= 1;
                }
            }
            line_end
        },
        NewlineMode::Custom(n) => {
            let ghost ps = patterns_of(n);
            let mut i: usize = 0;
            assert(ps.skip(0) =~= ps);
            while i < n.patterns.len()
                invariant
                    0 <= i <= ps.len(),
                    ps == patterns_of(n),
                    mode == NewlineMode::Custom(n),
                    start <= end <= input@.len(),
                    strip_first_pattern(input@, ps.skip(i as int), start as int, end as int) == strip_first_pattern(
                        input@,
                        ps,
                        start as int,
                        end as int,
                    ),
                decreases ps.len() - i,
            {
                let pattern = &n.patterns[i];
                assert(ps.skip(i as int)[0] == pattern@);
                if end - start >= pattern.len() && starts_with_at(input, end - pattern.len(), pattern.as_slice()) {
                    assert(input@.subrange(end - pattern@.len(), end as int) == pattern@);
                    assert(strip_first_pattern(input@, ps.skip(i as int), start as int, end as int) == end - pattern@.len());
                    return end - pattern.len();
                }
                assert(ps.skip(i as int).skip(1) =~= ps.skip(i + 1));
                i += 1;
            }
            end
        },
        NewlineMode::Off => end,
    }
}

/// The fields of the line of range `start..end`, unless the range is empty.
fn parallel_line_exec(
    input: &[u8],
    start: usize,
    end: usize,
    separators: &[Vec<u8>],
    escape: &[u8],
    mode: NewlineMode,
) -> (r: Option<Vec<Vec<u8>>>)
    requires
        start <= end <= input@.len(),
        escape@.len() > 0,
        seps_nonempty(seps_seq(separators@)),
    ensures
        r is Some == parallel_line(input@, seps_seq(separators@), escape@, mode, start as int, end as int) is Some,
        r matches Some(v) ==> v@.map_values(|f: Vec<u8>| f@) == parallel_line(
            input@,
            seps_seq(separators@),
            escape@,
            mode,
            start as int,
            end as int,
        )->0,
{
    if end <= start {
        return None;
    }
    let line_end = strip_terminator_exec(input, start, end, mode);
    let line = &input[start..line_end];
    let fields = parse_line_fields_owned_general(line, separators, escape);
    proof {
        assert(line@ =~= input@.subrange(start as int, line_end as int));
    }
    Some(fields)
}

/// The field bounds of the line of range `start..end` in the input, unless
/// the range is empty.
fn parallel_line_bounds_exec(
    input: &[u8],
    start: usize,
    end: usize,
    separators: &[Vec<u8>],
    escape: &[u8],
    mode: NewlineMode,
) -> (r: Option<Vec<(usize, usize)>>)
    requires
        start <= end <= input@.len(),
        escape@.len() > 0,
        seps_nonempty(seps_seq(separators@)),
    ensures
        r is Some == parallel_line_bounds(input@, seps_seq(separators@), escape@, mode, start as int, end as int) is Some,
        r matches Some(v) ==> bounds_int(v@) == parallel_line_bounds(
            input@,
            seps_seq(separators@),
            escape@,
            mode,
            start as int,
            end as int,
        )->0,
{
    if end <= start {
        return None;
    }
    let line_end = strip_terminator_exec(input, start, end, mode);
    let line = &input[start..line_end];
    let line_boundaries = parse_line_boundaries_general(line, separators, escape);
    proof {
        assert(line@ =~= input@.subrange(start as int, line_end as int));
    }
    let mut adjusted: Vec<(usize, usize)> = Vec::new();
    let mut k: usize = 0;
    while k < line_boundaries.len()
        invariant
            0 <= k <= line_boundaries@.len(),
            start <= line_end <= input@.len(),
            line@.len() == line_end - start,
            forall|j: int| 0 <= j < line_boundaries@.len() ==> (#[trigger] line_boundaries@[j]).0 <= line_boundaries@[j].1 <= line@.len(),
            adjusted@.len() == k,
            forall|j: int| 0 <= j < k ==> #[trigger] adjusted@[j] == (
                (line_boundaries@[j].0 + start) as usize,
                (line_boundaries@[j].1 + start) as usize,
            ),
        decreases line_boundaries@.len() - k,
    {
        let (a, b) = line_boundaries[k];
        adjusted.push((a + start, b + start));
        k += 1;
    }
    assert(bounds_int(adjusted@) =~= bounds_int(line_boundaries@).map_values(|b: (int, int)| (b.0 + start, b.1 + start)));
    Some(adjusted)
}

/// Consecutive starts as ranges, the last one running to `len`.
fn row_ranges(starts: &Vec<usize>, len: usize) -> (r: Vec<(usize, usize)>)
    requires
        forall|i: int| 0 <= i < starts@.len() ==> #[trigger] starts@[i] <= len,
        forall|i: int, j: int| 0 <= i < j < starts@.len() ==> starts@[i] < starts@[j],
    ensures
        bounds_int(r@) == row_ranges_of(starts@.map_values(|p: usize| p as int), len as int),
        forall|i: int| 0 <= i < r@.len() ==> (#[trigger] r@[i]).0 <= r@[i].1 <= len,
{
    let mut ranges: Vec<(usize, usize)> = Vec::new();
    let mut i: usize = 0;
    let n = starts.len();
    while i < n
        invariant
            n == starts@.len(),
            0 <= i <= n,
            forall|k: int| 0 <= k < starts@.len() ==> #[trigger] starts@[k] <= len,
            forall|a: int, b: int| 0 <= a < b < starts@.len() ==> starts@[a] < starts@[b],
            ranges@.len() == i,
            forall|k: int| 0 <= k < i ==> #[trigger] ranges@[k] == (starts@[k], if k + 1 < n { starts@[k + 1] } else { len }),
        decreases n - i,
    {
        let end = if i + 1 < n { starts[i + 1] } else { len };
        ranges.push((starts[i], end));
        i += 1;
    }
    assert(bounds_int(ranges@) =~= row_ranges_of(starts@.map_values(|p: usize| p as int), len as int));
    ranges
}

/// The fields of every row, each line parsed on its own in parallel.
fn parse_csv_parallel_general_in(input: &[u8], separators: &[Vec<u8>], escape: &[u8], mode: NewlineMode) -> (rows: Vec<
    Vec<Vec<u8>>,
>)
    requires
        escape@.len() > 0,
        seps_nonempty(seps_seq(separators@)),
        mode_ok(mode),
    ensures
        owned_rows_view(rows@) == parallel_general_rows(input@, seps_seq(separators@), escape@, mode),
{
    let row_starts = find_row_starts_general_inner(input, escape, mode);
    proof {
        lemma_row_starts_general(input@, escape@, mode);
        assert forall|i: int| 0 <= i < row_starts@.len() implies #[trigger] row_starts@[i] <= input@.len() by {
            assert(row_starts@.map_values(|p: usize| p as int)[i] == row_starts@[i]);
        }
        assert forall|i: int, j: int| 0 <= i < j < row_starts@.len() implies row_starts@[i] < row_starts@[j] by {
            assert(row_starts@.map_values(|p: usize| p as int)[i] == row_starts@[i]);
            assert(row_starts@.map_values(|p: usize| p as int)[j] == row_starts@[j]);
        }
    }
    let ranges = row_ranges(&row_starts, input.len());
    let ghost rv = ranges@;
    let ghost target = row_ranges_of(row_starts_general(input@, escape@, mode), input@.len() as int).map_values(
        |r: (int, int)| parallel_line(input@, seps_seq(separators@), escape@, mode, r.0, r.1),
    );
    let f = |r: (usize, usize)| -> (o: Option<Vec<Vec<u8>>>)
        requires
            r.0 <= r.1 <= input@.len(),
        ensures
            o is Some == parallel_line(input@, seps_seq(separators@), escape@, mode, r.0 as int, r.1 as int) is Some,
            o matches Some(v) ==> v@.map_values(|x: Vec<u8>| x@) == parallel_line(
                input@,
                seps_seq(separators@),
                escape@,
                mode,
                r.0 as int,
                r.1 as int,
            )->0,
        { parallel_line_exec(input, r.0, r.1, separators, escape, mode) };
    let results = par_map(ranges, f);
    proof {
        assert forall|i: int| 0 <= i < results@.len() implies #[trigger] results@[i] is Some == target[i] is Some
            && (results@[i] matches Some(v) ==> v@.map_values(|x: Vec<u8>| x@) == target[i]->0) by {
            assert(f.ensures((rv[i],), results@[i]));
            assert(bounds_int(rv)[i] == (rv[i].0 as int, rv[i].1 as int));
        }
    }
    let mut rows: Vec<Vec<Vec<u8>>> = Vec::new();
    let mut i: usize = 0;
    let mut results = results;
    let n = results.len();
    let ghost all = results@;
    assert(target.take(0) =~= Seq::<Option<Seq<Seq<u8>>>>::empty());
    while i < n
        invariant
            n == all.len(),
            all.len() == target.len(),
            0 <= i <= n,
            results@.len() == n - i,
            forall|k: int| 0 <= k < results@.len() ==> #[trigger] results@[k] == all[k + i],
            forall|k: int| 0 <= k < n ==> (#[trigger] all[k]) is Some == target[k] is Some
                && (all[k] matches Some(v) ==> v@.map_values(|x: Vec<u8>| x@) == target[k]->0),
            owned_rows_view(rows@) == keep_some(target.take(i as int)),
        decreases n - i,
    {
        let item = results.remove(0);
        assert(item == all[i as int]);
        let ghost old_rows = rows@;
        assert(target.take(i + 1).drop_last() =~= target.take(i as int));
        match item {
            Some(fields) => {
                rows.push(fields);
                assert(owned_rows_view(rows@) =~= owned_rows_view(old_rows).push(target[i as int]->0));
            },
            None => {},
        }
        i += 1;
    }
    assert(target.take(n as int) =~= target);
    rows
}

/// Parse in parallel with multi-byte separators and escape; rows end at
/// `\n` or `\r\n`, and a blank line is a row of one empty field.
pub fn parse_csv_parallel_general(input: &[u8], separators: &[Vec<u8>], escape: &[u8]) -> (rows: Vec<Vec<Vec<u8>>>)
    requires
        escape@.len() > 0,
        seps_nonempty(seps_seq(separators@)),
    ensures
        owned_rows_view(rows@) == parallel_general_rows(input@, seps_seq(separators@), escape@, NewlineMode::Default),
{
    parse_csv_parallel_general_in(input, separators, escape, NewlineMode::Default)
}

/// Parse in parallel with multi-byte separators and escape; rows end at the
/// given newline patterns, and a blank line is a row of one empty field.
pub fn parse_csv_parallel_general_with_newlines(
    input: &[u8],
    separators: &[Vec<u8>],
    escape: &[u8],
    newlines: &Newlines,
) -> (rows: Vec<Vec<Vec<u8>>>)
    requires
        escape@.len() > 0,
        seps_nonempty(seps_seq(separators@)),
        seps_nonempty(patterns_of(newlines)),
    ensures
        owned_rows_view(rows@) == parallel_general_rows(input@, seps_seq(separators@), escape@, NewlineMode::Custom(newlines)),
{
    parse_csv_parallel_general_in(input, separators, escape, NewlineMode::Custom(newlines))
}

/// The first quoting violation of a general scan of the whole input.
fn general_violation_in(input: &[u8], separators: &[Vec<u8>], escape: &[u8], mode: NewlineMode) -> (r: Option<Violation>)
    requires
        escape@.len() > 0,
        seps_nonempty(seps_seq(separators@)),
        mode_ok(mode),
    ensures
        r == finish_spec(general_scan(input@, seps_seq(separators@), escape@, mode, true).1, input@.len() as usize),
{
    let ghost s = input@;
    let ghost sp = seps_seq(separators@);
    let ghost e = escape@;
    let ghost mut acc: Seq<Seq<(int, int)>> = Seq::empty();
    let mut quote = QuoteState::new();
    let mut pos: usize = 0;
    while pos < input.len()
        invariant
            s == input@,
            sp == seps_seq(separators@),
            e == escape@,
            e.len() > 0,
            seps_nonempty(sp),
            mode_ok(mode),
            pos <= s.len(),
            walk_rows(s, sp, e, mode, true, pos as int, quote, acc) == general_scan(s, sp, e, mode, true),
        decreases s.len() - pos,
    {
        let ghost q0 = quote;
        let (_bounds, next) = parse_row_boundaries_general(input, pos, separators, escape, mode, true, &mut quote);
        let ghost g = general_row_at(s, sp, e, mode, true, pos as int, q0);
        proof {
            assert(walk_rows(s, sp, e, mode, true, pos as int, q0, acc) == walk_rows(s, sp, e, mode, true, next as int, quote, acc.push(g.0)));
            acc = acc.push(g.0);
        }
        pos = next;
    }
    quote.finish(input.len())
}

/// Field bounds of every row, each line scanned on its own in parallel, and
/// the first quoting violation of the whole input.
pub(crate) fn scan_parallel_boundaries_general(input: &[u8], separators: &[Vec<u8>], escape: &[u8], mode: NewlineMode) -> (r:
    ScannedBoundaries)
    requires
        escape@.len() > 0,
        seps_nonempty(seps_seq(separators@)),
        mode_ok(mode),
    ensures
        r.rows@.map_values(|row: Vec<(usize, usize)>| bounds_int(row@)) == parallel_general_bounds(
            input@,
            seps_seq(separators@),
            escape@,
            mode,
        ),
        r.violation == finish_spec(general_scan(input@, seps_seq(separators@), escape@, mode, true).1, input@.len() as usize),
{
    let row_starts = find_row_starts_general_inner(input, escape, mode);
    proof {
        lemma_row_starts_general(input@, escape@, mode);
        assert forall|i: int| 0 <= i < row_starts@.len() implies #[trigger] row_starts@[i] <= input@.len() by {
            assert(row_starts@.map_values(|p: usize| p as int)[i] == row_starts@[i]);
        }
        assert forall|i: int, j: int| 0 <= i < j < row_starts@.len() implies row_starts@[i] < row_starts@[j] by {
            assert(row_starts@.map_values(|p: usize| p as int)[i] == row_starts@[i]);
            assert(row_starts@.map_values(|p: usize| p as int)[j] == row_starts@[j]);
        }
    }
    let ranges = row_ranges(&row_starts, input.len());
    let ghost rv = ranges@;
    let ghost target = row_ranges_of(row_starts_general(input@, escape@, mode), input@.len() as int).map_values(
        |r: (int, int)| parallel_line_bounds(input@, seps_seq(separators@), escape@, mode, r.0, r.1),
    );
    let f = |r: (usize, usize)| -> (o: Option<Vec<(usize, usize)>>)
        requires
            r.0 <= r.1 <= input@.len(),
        ensures
            o is Some == parallel_line_bounds(input@, seps_seq(separators@), escape@, mode, r.0 as int, r.1 as int) is Some,
            o matches Some(v) ==> bounds_int(v@) == parallel_line_bounds(
                input@,
                seps_seq(separators@),
                escape@,
                mode,
                r.0 as int,
                r.1 as int,
            )->0,
        { parallel_line_bounds_exec(input, r.0, r.1, separators, escape, mode) };
    let results = par_map(ranges, f);
    proof {
        assert forall|i: int| 0 <= i < results@.len() implies #[trigger] results@[i] is Some == target[i] is Some
            && (results@[i] matches Some(v) ==> bounds_int(v@) == target[i]->0) by {
            assert(f.ensures((rv[i],), results@[i]));
            assert(bounds_int(rv)[i] == (rv[i].0 as int, rv[i].1 as int));
        }
    }
    let mut rows: Vec<Vec<(usize, usize)>> = Vec::new();
    let mut i: usize = 0;
    let mut results = results;
    let n = results.len();
    let ghost all = results@;
    assert(target.take(0) =~= Seq::<Option<Seq<(int, int)>>>::empty());
    assert(rows@.map_values(|row: Vec<(usize, usize)>| bounds_int(row@)) =~= Seq::<Seq<(int, int)>>::empty());
    while i < n
        invariant
            n == all.len(),
            all.len() == target.len(),
            0 <= i <= n,
            results@.len() == n - i,
            forall|k: int| 0 <= k < results@.len() ==> #[trigger] results@[k] == all[k + i],
            forall|k: int| 0 <= k < n ==> (#[trigger] all[k]) is Some == target[k] is Some
                && (all[k] matches Some(v) ==> bounds_int(v@) == target[k]->0),
            rows@.map_values(|row: Vec<(usize, usize)>| bounds_int(row@)) == keep_some(target.take(i as int)),
        decreases n - i,
    {
        let item = results.remove(0);
        assert(item == all[i as int]);
        let ghost old_rows = rows@;
        assert(target.take(i + 1).drop_last() =~= target.take(i as int));
        match item {
            Some(b) => {
                rows.push(b);
                assert(rows@.map_values(|row: Vec<(usize, usize)>| bounds_int(row@)) =~= old_rows.map_values(
                    |row: Vec<(usize, usize)>| bounds_int(row@),
                ).push(target[i as int]->0));
            },
            None => {},
        }
        i += 1;
    }
    assert(target.take(n as int) =~= target);
    let violation = general_violation_in(input, separators, escape, mode);
    ScannedBoundaries { rows, violation }
}

/// Field bounds in parallel with multi-byte separators and escape; rows end
/// at `\n` or `\r\n`, and a blank line is a row of one empty field.
pub fn parse_csv_parallel_boundaries_general(input: &[u8], separators: &[Vec<u8>], escape: &[u8]) -> (r: Vec<
    Vec<(usize, usize)>,
>)
    requires
        escape@.len() > 0,
        seps_nonempty(seps_seq(separators@)),
    ensures
        r@.map_values(|row: Vec<(usize, usize)>| bounds_int(row@)) == parallel_general_bounds(
            input@,
            seps_seq(separators@),
            escape@,
            NewlineMode::Default,
        ),
{
    scan_parallel_boundaries_general(input, separators, escape, NewlineMode::Default).rows
}

/// Field bounds in parallel with multi-byte separators and escape; rows end
/// at the given newline patterns, and a blank line is a row of one empty
/// field.
pub fn parse_csv_parallel_boundaries_general_with_newlines(
    input: &[u8],
    separators: &[Vec<u8>],
    escape: &[u8],
    newlines: &Newlines,
) -> (r: Vec<Vec<(usize, usize)>>)
    requires
        escape@.len() > 0,
        seps_nonempty(seps_seq(separators@)),
        seps_nonempty(patterns_of(newlines)),
    ensures
        r@.map_values(|row: Vec<(usize, usize)>| bounds_int(row@)) == parallel_general_bounds(
            input@,
            seps_seq(separators@),
            escape@,
            NewlineMode::Custom(newlines),
        ),
{
    scan_parallel_boundaries_general(input, separators, escape, NewlineMode::Custom(newlines)).rows
}

} // verus!
