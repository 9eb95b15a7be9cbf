//! Streaming parsers for multi-byte separators and escapes, with default or
//! custom newlines.
//!
//! The buffer is scanned once, resuming where the previous feed stopped,
//! with a quote flag: a row ends at a newline outside quotes, and each
//! row's line is then split into fields on its own. A `\r` at the
//! end of the buffer, or a position where the longest custom newline does
//! not fit yet and none of the shorter ones matches, waits for more input.

use vstd::prelude::*;

use crate::base::field::{append_bytes, copy_bytes};
use crate::base::newlines::{Newlines, first_match_len, lemma_first_match_len_fits, match_newline, max_len_or_one, patterns_of, starts_with_at};
use crate::strategy::general::{
    line_bounds_spec, owned_rows_view, parse_line_fields_owned_general, row_values_general, seps_nonempty, seps_seq, starts_at,
};
use crate::strategy::streaming::{BufferOverflow, DEFAULT_MAX_BUFFER, lines_within, shrink_excess};

verus! {

/// The bytes from `pos` to the end are a proper prefix of `esc`: more input
/// could still complete the escape there.
pub open spec fn esc_cut(s: Seq<u8>, pos: int, esc: Seq<u8>) -> bool {
    &&& 0 <= pos <= s.len()
    &&& s.len() - pos < esc.len()
    &&& s.subrange(pos, s.len() as int) == esc.subrange(0, s.len() - pos)
}

/// One step of the general scan at `pos` with quote flag `in_q`: the next
/// position, the next flag and the terminator length (0 for none), or
/// `None` when the byte must wait for more input, which never happens
/// `at_end`. `pats` is `None` for the `\n` / `\r\n` newlines, else the
/// custom patterns. A step waits where an escape, a doubled escape, a
/// `\r\n` or a custom newline could still begin in bytes not yet fed.
pub open spec fn gstream_step(s: Seq<u8>, esc: Seq<u8>, pats: Option<Seq<Seq<u8>>>, at_end: bool, pos: int, in_q: bool) -> Option<
    (int, bool, int),
> {
    if in_q {
        if starts_at(s, pos, esc) {
            if starts_at(s, pos + esc.len(), esc) {
                Some((pos + 2 * esc.len(), true, 0))
            } else if !at_end && esc_cut(s, pos + esc.len(), esc) {
                None
            } else {
                Some((pos + esc.len(), false, 0))
            }
        } else if !at_end && esc_cut(s, pos, esc) {
            None
        } else {
            Some((pos + 1, true, 0))
        }
    } else if starts_at(s, pos, esc) {
        Some((pos + esc.len(), true, 0))
    } else if !at_end && esc_cut(s, pos, esc) {
        None
    } else {
        match pats {
            None => if s[pos] == 10u8 {
                Some((pos + 1, false, 1))
            } else if s[pos] == 13u8 {
                if pos + 1 < s.len() {
                    if s[pos + 1] == 10u8 {
                        Some((pos + 2, false, 2))
                    } else {
                        Some((pos + 1, false, 0))
                    }
                } else if at_end {
                    Some((pos + 1, false, 0))
                } else {
                    None
                }
            } else {
                Some((pos + 1, false, 0))
            },
            Some(ps) => if !at_end && pos + max_len_or_one(ps) > s.len() {
                None
            } else {
                let nl = first_match_len(s, pos, ps);
                if nl > 0 {
                    Some((pos + nl, false, nl))
                } else {
                    Some((pos + 1, false, 0))
                }
            },
        }
    }
}

/// The general scan from `pos` with flag `in_q`, row start `rs` and the
/// completed lines `lines`, until the end of `s` or a byte that waits.
/// Returns the stop position, the flag, the row start and the lines.
pub open spec fn gstream_scan(
    s: Seq<u8>,
    esc: Seq<u8>,
    pats: Option<Seq<Seq<u8>>>,
    at_end: bool,
    pos: int,
    in_q: bool,
    rs: int,
    lines: Seq<(int, int)>,
) -> (int, bool, int, Seq<(int, int)>)
    decreases s.len() - pos,
{
    if pos < 0 || pos >= s.len() {
        (pos, in_q, rs, lines)
    } else {
        match gstream_step(s, esc, pats, at_end, pos, in_q) {
            None => (pos, in_q, rs, lines),
            Some(st) => if st.0 <= pos || st.0 > s.len() {
                (pos, in_q, rs, lines)
            } else if st.2 > 0 {
                gstream_scan(s, esc, pats, at_end, st.0, st.1, st.0, lines.push((rs, pos)))
            } else {
                gstream_scan(s, esc, pats, at_end, st.0, st.1, rs, lines)
            },
        }
    }
}

/// No pattern is longer than `max_len_or_one`.
proof fn lemma_max_len(pats: Seq<Seq<u8>>)
    ensures
        forall|k: int| 0 <= k < pats.len() ==> (#[trigger] pats[k]).len() <= max_len_or_one(pats),
        max_len_or_one(pats) >= 0,
    decreases pats.len(),
{
    if pats.len() > 1 {
        let d = pats.drop_last();
        lemma_max_len(d);
        assert forall|k: int| 0 <= k < pats.len() implies (#[trigger] pats[k]).len() <= max_len_or_one(pats) by {
            if k < d.len() {
                assert(pats[k] == d[k]);
            }
        }
    }
}

/// A first match that fits in `s` is the same in any extension of `s`,
/// when every pattern fits at `pos` already.
proof fn lemma_first_match_extend(s: Seq<u8>, t: Seq<u8>, pos: int, pats: Seq<Seq<u8>>)
    requires
        0 <= pos,
        forall|k: int| 0 <= k < pats.len() ==> pos + (#[trigger] pats[k]).len() <= s.len(),
    ensures
        first_match_len(s + t, pos, pats) == first_match_len(s, pos, pats),
    decreases pats.len(),
{
    if pats.len() > 0 {
        assert(pos + pats[0].len() <= s.len());
        assert((s + t).subrange(pos, pos + pats[0].len()) =~= s.subrange(pos, pos + pats[0].len()));
        assert forall|k: int| 0 <= k < pats.skip(1).len() implies pos + (#[trigger] pats.skip(1)[k]).len() <= s.len() by {
            assert(pats.skip(1)[k] == pats[k + 1]);
        }
        lemma_first_match_extend(s, t, pos, pats.skip(1));
    }
}

/// Whether the escape starts at `pos` is decided by `s` once `s` is not a
/// proper prefix of the escape from `pos`.
proof fn lemma_starts_extend(s: Seq<u8>, t: Seq<u8>, pos: int, esc: Seq<u8>)
    requires
        0 <= pos <= s.len(),
        !esc_cut(s, pos, esc),
    ensures
        starts_at(s + t, pos, esc) == starts_at(s, pos, esc),
        !esc_cut(s + t, pos, esc),
{
    let u = s + t;
    if pos + esc.len() <= s.len() {
        assert(u.subrange(pos, pos + esc.len()) =~= s.subrange(pos, pos + esc.len()));
        if u.len() - pos < esc.len() {
            assert(false);
        }
    } else {
        let m = s.len() - pos;
        assert(s.subrange(pos, s.len() as int) != esc.subrange(0, m));
        assert(!(s.subrange(pos, s.len() as int) =~= esc.subrange(0, m)));
        assert(s.subrange(pos, s.len() as int).len() == esc.subrange(0, m).len());
        let i = choose|i: int| 0 <= i < m && s.subrange(pos, s.len() as int)[i] != esc.subrange(0, m)[i];
        assert(u[pos + i] == s[pos + i]);
        if starts_at(u, pos, esc) {
            assert(u.subrange(pos, pos + esc.len())[i] == esc[i]);
        }
        if esc_cut(u, pos, esc) {
            assert(u.subrange(pos, u.len() as int)[i] == esc.subrange(0, u.len() - pos)[i]);
        }
    }
}

/// A step that does not wait goes forward within the input, and gives the
/// same in any extension of the input and at the end of input.
pub proof fn lemma_gstep_extend(s: Seq<u8>, t: Seq<u8>, esc: Seq<u8>, pats: Option<Seq<Seq<u8>>>, pos: int, in_q: bool)
    requires
        0 <= pos < s.len(),
        esc.len() > 0,
        gstream_step(s, esc, pats, false, pos, in_q) is Some,
    ensures
        gstream_step(s + t, esc, pats, false, pos, in_q) == gstream_step(s, esc, pats, false, pos, in_q),
        gstream_step(s, esc, pats, true, pos, in_q) == gstream_step(s, esc, pats, false, pos, in_q),
        ({
            let st = gstream_step(s, esc, pats, false, pos, in_q)->0;
            pos < st.0 <= s.len()
        }),
{
    let u = s + t;
    let k = esc.len() as int;
    assert(u[pos] == s[pos]);
    if pos + 1 < s.len() {
        assert(u[pos + 1] == s[pos + 1]);
    }
    if starts_at(s, pos, esc) {
        assert(u.subrange(pos, pos + k) =~= s.subrange(pos, pos + k));
        if in_q {
            if starts_at(s, pos + k, esc) {
                assert(u.subrange(pos + k, pos + 2 * k) =~= s.subrange(pos + k, pos + 2 * k));
            } else {
                lemma_starts_extend(s, t, pos + k, esc);
            }
        }
    } else {
        lemma_starts_extend(s, t, pos, esc);
        if !in_q {
            match pats {
                Some(ps) => {
                    lemma_max_len(ps);
                    lemma_first_match_extend(s, t, pos, ps);
                    lemma_first_match_len_fits(s, pos, ps);
                },
                None => {},
            }
        }
    }
}

/// Scanning an extension of `s` passes through where the scan of `s`
/// stopped.
pub proof fn lemma_gscan_extend(
    s: Seq<u8>,
    t: Seq<u8>,
    esc: Seq<u8>,
    pats: Option<Seq<Seq<u8>>>,
    pos: int,
    in_q: bool,
    rs: int,
    lines: Seq<(int, int)>,
)
    requires
        0 <= pos <= s.len(),
        esc.len() > 0,
    ensures
        ({
            let r = gstream_scan(s, esc, pats, false, pos, in_q, rs, lines);
            gstream_scan(s + t, esc, pats, false, pos, in_q, rs, lines) == gstream_scan(s + t, esc, pats, false, r.0, r.1, r.2, r.3)
        }),
    decreases s.len() - pos,
{
    if pos < s.len() {
        if gstream_step(s, esc, pats, false, pos, in_q) is Some {
            lemma_gstep_extend(s, t, esc, pats, pos, in_q);
            let st = gstream_step(s, esc, pats, false, pos, in_q)->0;
            if st.2 > 0 {
                lemma_gscan_extend(s, t, esc, pats, st.0, st.1, st.0, lines.push((rs, pos)));
            } else {
                lemma_gscan_extend(s, t, esc, pats, st.0, st.1, rs, lines);
            }
        }
    }
}

/// At the end of input the scan goes on from where the waiting scan
/// stopped.
pub proof fn lemma_gscan_finish(
    s: Seq<u8>,
    esc: Seq<u8>,
    pats: Option<Seq<Seq<u8>>>,
    pos: int,
    in_q: bool,
    rs: int,
    lines: Seq<(int, int)>,
)
    requires
        0 <= pos <= s.len(),
        esc.len() > 0,
    ensures
        ({
            let r = gstream_scan(s, esc, pats, false, pos, in_q, rs, lines);
            gstream_scan(s, esc, pats, true, pos, in_q, rs, lines) == gstream_scan(s, esc, pats, true, r.0, r.1, r.2, r.3)
        }),
    decreases s.len() - pos,
{
    if pos < s.len() {
        if gstream_step(s, esc, pats, false, pos, in_q) is Some {
            lemma_gstep_extend(s, Seq::empty(), esc, pats, pos, in_q);
            let st = gstream_step(s, esc, pats, false, pos, in_q)->0;
            if st.2 > 0 {
                lemma_gscan_finish(s, esc, pats, st.0, st.1, st.0, lines.push((rs, pos)));
            } else {
                lemma_gscan_finish(s, esc, pats, st.0, st.1, rs, lines);
            }
        }
    }
}

/// The lines of a whole input `s` read by the general scan at the end of
/// input: every terminated line, then what follows the last terminator.
pub open spec fn full_lines(s: Seq<u8>, esc: Seq<u8>, pats: Option<Seq<Seq<u8>>>) -> Seq<(int, int)> {
    let sc = gstream_scan(s, esc, pats, true, 0, false, 0, Seq::empty());
    if sc.2 < s.len() {
        sc.3.push((sc.2, s.len() as int))
    } else {
        sc.3
    }
}

/// The rows of the given lines of `s`, each line split into fields alone.
pub open spec fn general_lines_rows(s: Seq<u8>, lines: Seq<(int, int)>, seps: Seq<Seq<u8>>, esc: Seq<u8>) -> Seq<
    Seq<Seq<u8>>,
> {
    lines.map_values(
        |r: (int, int)|
            {
                let line = s.subrange(r.0, r.1);
                row_values_general(line, line_bounds_spec(line, seps, esc), esc)
            },
    )
}

/// A scan moves forward within the input, keeps its row start behind its
/// position, and adds only lines that end before its row start.
proof fn lemma_gscan_bounds(
    s: Seq<u8>,
    esc: Seq<u8>,
    pats: Option<Seq<Seq<u8>>>,
    at_end: bool,
    pos: int,
    in_q: bool,
    rs: int,
    lines: Seq<(int, int)>,
)
    requires
        0 <= rs <= pos <= s.len(),
        lines_within(lines, rs),
    ensures
        ({
            let r = gstream_scan(s, esc, pats, at_end, pos, in_q, rs, lines);
            &&& pos <= r.0 <= s.len()
            &&& rs <= r.2 <= r.0
            &&& lines_within(r.3, r.2)
        }),
    decreases s.len() - pos,
{
    if pos < 0 || pos >= s.len() {
    } else {
        match gstream_step(s, esc, pats, at_end, pos, in_q) {
            None => {},
            Some(st) => {
                if st.0 <= pos || st.0 > s.len() {
                } else if st.2 > 0 {
                    let l2 = lines.push((rs, pos));
                    assert(lines_within(l2, st.0));
                    lemma_gscan_bounds(s, esc, pats, at_end, st.0, st.1, st.0, l2);
                } else {
                    lemma_gscan_bounds(s, esc, pats, at_end, st.0, st.1, rs, lines);
                }
            },
        }
    }
}

/// Rows of lines that lie within `s` are the same read from any extension.
proof fn lemma_general_rows_extend(s: Seq<u8>, t: Seq<u8>, lines: Seq<(int, int)>, seps: Seq<Seq<u8>>, esc: Seq<u8>)
    requires
        lines_within(lines, s.len() as int),
    ensures
        general_lines_rows(s + t, lines, seps, esc) == general_lines_rows(s, lines, seps, esc),
{
    assert forall|j: int| 0 <= j < lines.len() implies #[trigger] general_lines_rows(s + t, lines, seps, esc)[j]
        == general_lines_rows(s, lines, seps, esc)[j] by {
        assert((s + t).subrange(lines[j].0, lines[j].1) =~= s.subrange(lines[j].0, lines[j].1));
    }
    assert(general_lines_rows(s + t, lines, seps, esc) =~= general_lines_rows(s, lines, seps, esc));
}

/// Whether the bytes of `s` from `pos` to the end are a proper prefix of
/// `esc`.
fn escape_cut(s: &[u8], pos: usize, esc: &[u8]) -> (r: bool)
    requires
        pos <= s@.len(),
    ensures
        r == esc_cut(s@, pos as int, esc@),
{
    let n = s.len();
    let rest = n - pos;
    if rest >= esc.len() {
        return false;
    }
    let mut k: usize = 0;
    while k < rest
        invariant
            n == s@.len(),
            pos <= n,
            rest == s@.len() - pos,
            rest < esc@.len(),
            0 <= k <= rest,
            forall|i: int| 0 <= i < k ==> s@[pos + i] == esc@[i],
        decreases rest - k,
    {
        if s[pos + k] != esc[k] {
            assert(s@.subrange(pos as int, s@.len() as int)[k as int] != esc@.subrange(0, rest as int)[k as int]);
            return false;
        }
        k += 1;
    }
    assert(s@.subrange(pos as int, s@.len() as int) =~= esc@.subrange(0, rest as int));
    true
}

/// The newline patterns of an optional custom set.
pub open spec fn pats_of(newlines: Option<Newlines>) -> Option<Seq<Seq<u8>>> {
    match newlines {
        Some(n) => Some(patterns_of(&n)),
        None => None,
    }
}

/// State shared by the general streaming parsers.
pub struct GeneralStream {
    buffer: Vec<u8>,
    complete_rows: Vec<Vec<Vec<u8>>>,
    partial_row_start: usize,
    scan_pos: usize,
    in_quotes: bool,
    separators: Vec<Vec<u8>>,
    escape: Vec<u8>,
    newlines: Option<Newlines>,
    max_buffer_size: usize,
    fed: Ghost<Seq<u8>>,
    taken: Ghost<Seq<Seq<Seq<u8>>>>,
    lines: Ghost<Seq<(int, int)>>,
    offset: Ghost<int>,
}

impl GeneralStream {
    /// What `feed` does: refuse when the buffer would outgrow its cap, else scan on.
    pub open spec fn feed_post(old: Self, new: Self, chunk: Seq<u8>, r: Result<(), BufferOverflow>) -> bool {
        &&& new.wf()
        &&& new.consistent()
        &&& r is Err <==> old.buffered() + chunk.len() > old.max_buffer()
        &&& r is Err ==> new == old
        &&& r is Ok ==> {
            let f = old.fed() + chunk;
            let sc = gstream_scan(f, old.esc(), old.pats(), false, old.scan_at(), old.quoted(), old.row_start(), old.lines());
            &&& new.fed() == f
            &&& new.scan_at() == sc.0
            &&& new.quoted() == sc.1
            &&& new.row_start() == sc.2
            &&& new.lines() == sc.3
            &&& new.taken() == old.taken()
            &&& new.seps() == old.seps()
            &&& new.esc() == old.esc()
            &&& new.pats() == old.pats()
            &&& new.max_buffer() == old.max_buffer()
            &&& ({
                let pr = sc.2 - old.offset();
                new.offset() == if pr > 0 && pr >= (f.len() - old.offset()) / 2 {
                    sc.2
                } else {
                    old.offset()
                }
            })
        }
    }

    /// What `set_max_buffer_size` does: only the cap changes.
    pub open spec fn set_max_post(old: Self, new: Self, max: usize) -> bool {
        &&& new.wf()
        &&& new.max_buffer() == max
        &&& new.fed() == old.fed()
        &&& new.taken() == old.taken()
        &&& new.pending() == old.pending()
        &&& new.lines() == old.lines()
        &&& new.scan_at() == old.scan_at()
        &&& new.quoted() == old.quoted()
        &&& new.row_start() == old.row_start()
        &&& new.offset() == old.offset()
        &&& new.seps() == old.seps()
        &&& new.esc() == old.esc()
        &&& new.pats() == old.pats()
    }

    /// What `take_rows` does: the oldest pending rows move to the taken ones.
    pub open spec fn take_post(old: Self, new: Self, max: usize, r: Seq<Seq<Seq<u8>>>) -> bool {
        &&& new.wf()
        &&& ({
            let k = if max < old.pending().len() { max as int } else { old.pending().len() as int };
            &&& r == old.pending().take(k)
            &&& new.pending() == old.pending().skip(k)
            &&& new.taken() == old.taken() + old.pending().take(k)
        })
        &&& new.fed() == old.fed()
        &&& new.lines() == old.lines()
        &&& new.scan_at() == old.scan_at()
        &&& new.quoted() == old.quoted()
        &&& new.row_start() == old.row_start()
        &&& new.offset() == old.offset()
        &&& new.seps() == old.seps()
        &&& new.esc() == old.esc()
        &&& new.pats() == old.pats()
        &&& new.max_buffer() == old.max_buffer()
    }

    /// The lines of `fed` at the end of input: the scan finished without
    /// waiting, then the row after the last terminator, if any.
    pub open spec fn final_lines(&self) -> Seq<(int, int)> {
        let sc = gstream_scan(self.fed(), self.esc(), self.pats(), true, self.scan_at(), self.quoted(), self.row_start(), self.lines());
        if sc.2 < self.fed().len() {
            sc.3.push((sc.2, self.fed().len() as int))
        } else {
            sc.3
        }
    }

    /// What `finalize` does: every remaining row comes out and the stream
    /// starts over, outside quotes.
    pub open spec fn finalize_post(old: Self, new: Self, r: Seq<Seq<Seq<u8>>>) -> bool {
        &&& new.wf()
        &&& new.consistent()
        &&& old.taken() + r == general_lines_rows(old.fed(), old.final_lines(), old.seps(), old.esc())
        &&& new.fed() == Seq::<u8>::empty()
        &&& new.taken() == Seq::<Seq<Seq<u8>>>::empty()
        &&& new.pending() == Seq::<Seq<Seq<u8>>>::empty()
        &&& new.lines() == Seq::<(int, int)>::empty()
        &&& new.scan_at() == 0
        &&& new.row_start() == 0
        &&& new.offset() == 0
        &&& !new.quoted()
        &&& new.seps() == old.seps()
        &&& new.esc() == old.esc()
        &&& new.pats() == old.pats()
        &&& new.max_buffer() == old.max_buffer()
    }

    /// Bytes fed since creation or the last `finalize`.
    pub closed spec fn fed(&self) -> Seq<u8> {
        self.fed@
    }

    /// Rows handed out by `take_rows` since then.
    pub closed spec fn taken(&self) -> Seq<Seq<Seq<u8>>> {
        self.taken@
    }

    /// Complete rows waiting to be taken.
    pub closed spec fn pending(&self) -> Seq<Seq<Seq<u8>>> {
        owned_rows_view(self.complete_rows@)
    }

    /// Completed lines of `fed`.
    pub closed spec fn lines(&self) -> Seq<(int, int)> {
        self.lines@
    }

    /// Where the scan stopped in `fed`.
    pub closed spec fn scan_at(&self) -> int {
        self.offset@ + self.scan_pos
    }

    /// Whether the scan stopped inside quotes.
    pub closed spec fn quoted(&self) -> bool {
        self.in_quotes
    }

    /// Where the partial row starts in `fed`.
    pub closed spec fn row_start(&self) -> int {
        self.offset@ + self.partial_row_start
    }

    /// Bytes of `fed` dropped from the front of the buffer.
    pub closed spec fn offset(&self) -> int {
        self.offset@
    }

    /// Separator patterns.
    pub closed spec fn seps(&self) -> Seq<Seq<u8>> {
        seps_seq(self.separators@)
    }

    /// Escape pattern.
    pub closed spec fn esc(&self) -> Seq<u8> {
        self.escape@
    }

    /// Newline patterns, `None` for `\n` and `\r\n`.
    pub closed spec fn pats(&self) -> Option<Seq<Seq<u8>>> {
        pats_of(self.newlines)
    }

    /// Cap on buffered bytes.
    pub closed spec fn max_buffer(&self) -> usize {
        self.max_buffer_size
    }

    /// Bytes held in the buffer.
    pub open spec fn buffered(&self) -> int {
        self.fed().len() - self.offset()
    }

    /// Taken and pending rows are the rows of the completed lines.
    pub open spec fn consistent(&self) -> bool {
        self.taken() + self.pending() == general_lines_rows(self.fed(), self.lines(), self.seps(), self.esc())
    }

    /// Well formed: settled, and the scan state is that of scanning all of
    /// `fed` from its start.
    pub closed spec fn wf(&self) -> bool {
        &&& self.settled()
        &&& gstream_scan(self.fed@, self.escape@, pats_of(self.newlines), false, 0, false, 0, Seq::empty()) == (
            self.offset@ + self.scan_pos,
            self.in_quotes,
            self.offset@ + self.partial_row_start,
            self.lines@,
        )
    }

    /// Patterns are usable, the buffer holds `fed` from the offset, and the
    /// scan is at rest where it stopped.
    closed spec fn settled(&self) -> bool {
        let f = self.fed@;
        &&& self.escape@.len() > 0
        &&& seps_nonempty(seps_seq(self.separators@))
        &&& (self.newlines matches Some(n) ==> seps_nonempty(patterns_of(&n)))
        &&& 0 <= self.offset@
        &&& self.offset@ + self.buffer@.len() == f.len()
        &&& self.buffer@ == f.subrange(self.offset@, f.len() as int)
        &&& self.partial_row_start <= self.scan_pos <= self.buffer@.len()
        &&& lines_within(self.lines@, self.offset@ + self.partial_row_start)
        &&& self.taken@ + owned_rows_view(self.complete_rows@) == general_lines_rows(
            f,
            self.lines@,
            seps_seq(self.separators@),
            self.escape@,
        )
        &&& gstream_scan(
            f,
            self.escape@,
            pats_of(self.newlines),
            false,
            self.offset@ + self.scan_pos,
            self.in_quotes,
            self.offset@ + self.partial_row_start,
            self.lines@,
        ) == (self.offset@ + self.scan_pos, self.in_quotes, self.offset@ + self.partial_row_start, self.lines@)
    }

    /// A stream with nothing fed.
    pub fn new(separators: Vec<Vec<u8>>, escape: Vec<u8>, newlines: Option<Newlines>) -> (r: Self)
        requires
            escape@.len() > 0,
            seps_nonempty(seps_seq(separators@)),
            newlines matches Some(n) ==> seps_nonempty(patterns_of(&n)),
        ensures
            r.wf(),
            r.consistent(),
            r.fed() == Seq::<u8>::empty(),
            r.taken() == Seq::<Seq<Seq<u8>>>::empty(),
            r.pending() == Seq::<Seq<Seq<u8>>>::empty(),
            r.lines() == Seq::<(int, int)>::empty(),
            r.scan_at() == 0,
            r.row_start() == 0,
            r.offset() == 0,
            !r.quoted(),
            r.seps() == seps_seq(separators@),
            r.esc() == escape@,
            r.pats() == pats_of(newlines),
            r.max_buffer() == DEFAULT_MAX_BUFFER,
    {
        let r = GeneralStream {
            buffer: Vec::new(),
            complete_rows: Vec::new(),
            partial_row_start: 0,
            scan_pos: 0,
            in_quotes: false,
            separators,
            escape,
            newlines,
            max_buffer_size: DEFAULT_MAX_BUFFER,
            fed: Ghost(Seq::empty()),
            taken: Ghost(Seq::empty()),
            lines: Ghost(Seq::empty()),
            offset: Ghost(0),
        };
        assert(r.buffer@ =~= r.fed@.subrange(0, 0));
        assert(owned_rows_view(r.complete_rows@) =~= Seq::<Seq<Seq<u8>>>::empty());
        assert(general_lines_rows(r.fed@, r.lines@, seps_seq(r.separators@), r.escape@) =~= Seq::<Seq<Seq<u8>>>::empty());
        assert(r.taken@ + owned_rows_view(r.complete_rows@) =~= Seq::<Seq<Seq<u8>>>::empty());
        r
    }

    /// Parse the line `buffer[start..end]` into a complete row.
    fn push_row(&mut self, start: usize, end: usize)
        requires
            start <= end <= old(self).buffer@.len(),
            old(self).escape@.len() > 0,
            seps_nonempty(seps_seq(old(self).separators@)),
        ensures
            owned_rows_view(final(self).complete_rows@) == owned_rows_view(old(self).complete_rows@).push(
                ({
                    let line = old(self).buffer@.subrange(start as int, end as int);
                    row_values_general(line, line_bounds_spec(line, seps_seq(old(self).separators@), old(self).escape@), old(self).escape@)
                }),
            ),
            final(self).buffer == old(self).buffer,
            final(self).partial_row_start == old(self).partial_row_start,
            final(self).scan_pos == old(self).scan_pos,
            final(self).in_quotes == old(self).in_quotes,
            final(self).separators == old(self).separators,
            final(self).escape == old(self).escape,
            final(self).newlines == old(self).newlines,
            final(self).max_buffer_size == old(self).max_buffer_size,
            final(self).fed == old(self).fed,
            final(self).taken == old(self).taken,
            final(self).lines == old(self).lines,
            final(self).offset == old(self).offset,
    {
        let row = parse_line_fields_owned_general(&self.buffer.as_slice()[start..end], self.separators.as_slice(), self.escape.as_slice());
        let ghost old_rows = self.complete_rows@;
        self.complete_rows.push(row);
        assert(owned_rows_view(self.complete_rows@) =~= owned_rows_view(old_rows).push(row@.map_values(|f: Vec<u8>| f@)));
    }

    /// Scan from the scan position as far as the buffered bytes decide (to
    /// the end of the buffer, `at_end`), then compact.
    #[verifier::rlimit(80)]
    fn process_buffer(&mut self, at_end: bool)
        requires
            old(self).escape@.len() > 0,
            seps_nonempty(seps_seq(old(self).separators@)),
            old(self).newlines matches Some(n) ==> seps_nonempty(patterns_of(&n)),
            0 <= old(self).offset@,
            old(self).offset@ + old(self).buffer@.len() == old(self).fed@.len(),
            old(self).buffer@ == old(self).fed@.subrange(old(self).offset@, old(self).fed@.len() as int),
            old(self).partial_row_start <= old(self).scan_pos <= old(self).buffer@.len(),
            lines_within(old(self).lines@, old(self).offset@ + old(self).partial_row_start),
            old(self).taken@ + owned_rows_view(old(self).complete_rows@) == general_lines_rows(
                old(self).fed@,
                old(self).lines@,
                seps_seq(old(self).separators@),
                old(self).escape@,
            ),
        ensures
            final(self).settled(),
            ({
                let r = gstream_scan(
                    old(self).fed@,
                    old(self).escape@,
                    pats_of(old(self).newlines),
                    at_end,
                    old(self).offset@ + old(self).scan_pos,
                    old(self).in_quotes,
                    old(self).offset@ + old(self).partial_row_start,
                    old(self).lines@,
                );
                &&& final(self).scan_at() == r.0
                &&& final(self).in_quotes == r.1
                &&& final(self).row_start() == r.2
                &&& final(self).lines@ == r.3
                &&& ({
                    let pr = r.2 - old(self).offset@;
                    final(self).offset@ == if pr > 0 && pr >= old(self).buffer@.len() / 2 {
                        r.2
                    } else {
                        old(self).offset@
                    }
                })
            }),
            at_end ==> final(self).scan_at() == old(self).fed@.len(),
            final(self).fed == old(self).fed,
            final(self).taken == old(self).taken,
            final(self).separators == old(self).separators,
            final(self).escape == old(self).escape,
            final(self).newlines == old(self).newlines,
            final(self).max_buffer_size == old(self).max_buffer_size,
    {
        let ghost f = self.fed@;
        let ghost e = self.escape@;
        let ghost pats = pats_of(self.newlines);
        let ghost goal = gstream_scan(
            f,
            e,
            pats,
            at_end,
            self.offset@ + self.scan_pos,
            self.in_quotes,
            self.offset@ + self.partial_row_start,
            self.lines@,
        );
        let esc_len = self.escape.len();
        let mut pos = self.scan_pos;
        let mut waiting = false;
        while !waiting && pos < self.buffer.len()
            invariant
                f == self.fed@,
                e == self.escape@,
                pats == pats_of(self.newlines),
                esc_len == e.len(),
                e.len() > 0,
                seps_nonempty(seps_seq(self.separators@)),
                self.newlines matches Some(n) ==> seps_nonempty(patterns_of(&n)),
                0 <= self.offset@,
                self.offset@ + self.buffer@.len() == f.len(),
                self.buffer@ == f.subrange(self.offset@, f.len() as int),
                self.partial_row_start <= pos <= self.buffer@.len(),
                lines_within(self.lines@, self.offset@ + self.partial_row_start),
                self.taken@ + owned_rows_view(self.complete_rows@) == general_lines_rows(
                    f,
                    self.lines@,
                    seps_seq(self.separators@),
                    e,
                ),
                gstream_scan(f, e, pats, at_end, self.offset@ + pos, self.in_quotes, self.offset@ + self.partial_row_start, self.lines@)
                    == goal,
                waiting ==> !at_end && pos < self.buffer@.len() && gstream_step(f, e, pats, at_end, self.offset@ + pos, self.in_quotes) is None,
                self.fed == old(self).fed,
                self.taken == old(self).taken,
                self.separators == old(self).separators,
                self.escape == old(self).escape,
                self.newlines == old(self).newlines,
                self.max_buffer_size == old(self).max_buffer_size,
                self.offset == old(self).offset,
                self.buffer == old(self).buffer,
            decreases self.buffer@.len() - pos, if waiting { 0int } else { 1int },
        {
            let ghost a = self.offset@ + pos;
            let ghost r0 = self.offset@ + self.partial_row_start;
            let ghost l0 = self.lines@;
            let n = self.buffer.len();
            assert(self.buffer@[pos as int] == f[a]);
            if pos + 1 < n {
                assert(self.buffer@[pos + 1] == f[a + 1]);
            }
            proof {
                assert(self.buffer@.subrange(pos as int, n as int) =~= f.subrange(a, f.len() as int));
                if pos + e.len() <= n {
                    assert(self.buffer@.subrange(pos as int, pos + e.len()) =~= f.subrange(a, a + e.len()));
                    assert(self.buffer@.subrange(pos + e.len(), n as int) =~= f.subrange(a + e.len(), f.len() as int));
                }
                if pos + 2 * e.len() <= n {
                    assert(self.buffer@.subrange(pos + e.len(), pos + 2 * e.len()) =~= f.subrange(a + e.len(), a + 2 * e.len()));
                }
            }
            let at_esc = starts_with_at(self.buffer.as_slice(), pos, self.escape.as_slice());
            assert(at_esc == starts_at(f, a, e));
            if self.in_quotes {
                if at_esc {
                    let doubled = starts_with_at(self.buffer.as_slice(), pos + esc_len, self.escape.as_slice());
                    assert(doubled == starts_at(f, a + e.len(), e));
                    if doubled {
                        pos += 2 * esc_len;
                    } else if !at_end && escape_cut(self.buffer.as_slice(), pos + esc_len, self.escape.as_slice()) {
                        waiting = true;
                    } else {
                        self.in_quotes = false;
                        pos += esc_len;
                    }
                } else if !at_end && escape_cut(self.buffer.as_slice(), pos, self.escape.as_slice()) {
                    waiting = true;
                } else {
                    pos += 1;
                }
            } else if at_esc {
                self.in_quotes = true;
                pos += esc_len;
            } else if !at_end && escape_cut(self.buffer.as_slice(), pos, self.escape.as_slice()) {
                waiting = true;
            } else {
                let nl = match &self.newlines {
                    None => {
                        if self.buffer[pos] == 10u8 {
                            1
                        } else if self.buffer[pos] == 13u8 {
                            if pos + 1 < n {
                                if self.buffer[pos + 1] == 10u8 {
                                    2
                                } else {
                                    0
                                }
                            } else {
                                if !at_end {
                                    waiting = true;
                                }
                                0
                            }
                        } else {
                            0
                        }
                    },
                    Some(newlines) => {
                        if !at_end && newlines.max_pattern_len() > n - pos {
                            waiting = true;
                            0
                        } else {
                            let m = match_newline(self.buffer.as_slice(), pos, newlines);
                            proof {
                                lemma_first_match_len_fits(self.buffer@, pos as int, patterns_of(newlines));
                                lemma_first_match_shift(self.buffer@, f, self.offset@, pos as int, patterns_of(newlines));
                            }
                            m
                        }
                    },
                };
                if nl > 0 {
                    let start = self.partial_row_start;
                    self.push_row(start, pos);
                    proof {
                        assert(self.buffer@.subrange(start as int, pos as int) =~= f.subrange(r0, a));
                        let l1 = l0.push((r0, a));
                        assert(general_lines_rows(f, l1, seps_seq(self.separators@), e) =~= general_lines_rows(
                            f,
                            l0,
                            seps_seq(self.separators@),
                            e,
                        ).push(({
                            let line = f.subrange(r0, a);
                            row_values_general(line, line_bounds_spec(line, seps_seq(self.separators@), e), e)
                        })));
                        self.lines@ = l1;
                    }
                    pos += nl;
                    self.partial_row_start = pos;
                    self.in_quotes = false;
                } else if !waiting {
                    pos += 1;
                }
            }
        }
        self.scan_pos = pos;
        if self.partial_row_start > 0 && self.partial_row_start >= self.buffer.len() / 2 {
            let p = self.partial_row_start;
            let blen = self.buffer.len();
            let mut rest = copy_bytes(&self.buffer.as_slice()[p..blen]);
            shrink_excess(&mut rest);
            self.buffer = rest;
            self.scan_pos = self.scan_pos - p;
            self.partial_row_start = 0;
            proof {
                self.offset@ = self.offset@ + p;
                assert(self.buffer@ =~= f.subrange(self.offset@, f.len() as int));
            }
        }
    }

    /// Append a chunk and scan on from where the scan stopped; refused,
    /// with nothing changed, when the buffer would grow past its cap.
    pub fn feed(&mut self, chunk: &[u8]) -> (r: Result<(), BufferOverflow>)
        requires
            old(self).wf(),
        ensures
            Self::feed_post(*old(self), *final(self), chunk@, r),

    {
        let blen = self.buffer.len();
        if chunk.len() > self.max_buffer_size || blen > self.max_buffer_size - chunk.len() {
            return Err(BufferOverflow);
        }
        let ghost f0 = self.fed@;
        proof {
            lemma_general_rows_extend(f0, chunk@, self.lines@, seps_seq(self.separators@), self.escape@);
            lemma_gscan_extend(f0, chunk@, self.escape@, pats_of(self.newlines), 0, false, 0, Seq::empty());
        }
        append_bytes(&mut self.buffer, chunk);
        proof {
            self.fed@ = f0 + chunk@;
            assert(self.buffer@ =~= self.fed@.subrange(self.offset@, self.fed@.len() as int));
        }
        self.process_buffer(false);
        Ok(())
    }

    /// Set the cap on buffered bytes.
    pub fn set_max_buffer_size(&mut self, max: usize)
        requires
            old(self).wf(),
        ensures
            Self::set_max_post(*old(self), *final(self), max),

    {
        self.max_buffer_size = max;
    }

    /// Take up to `max` complete rows, oldest first.
    pub fn take_rows(&mut self, max: usize) -> (r: Vec<Vec<Vec<u8>>>)
        requires
            old(self).wf(),
        ensures
            Self::take_post(*old(self), *final(self), max, owned_rows_view(r@)),

    {
        let n = self.complete_rows.len();
        let take_count = if max < n { max } else { n };
        let ghost all = owned_rows_view(self.complete_rows@);
        let mut rows = self.complete_rows.split_off(take_count);
        core::mem::swap(&mut rows, &mut self.complete_rows);
        shrink_excess(&mut self.complete_rows);
        proof {
            assert(owned_rows_view(rows@) =~= all.take(take_count as int));
            assert(owned_rows_view(self.complete_rows@) =~= all.skip(take_count as int));
            assert(all =~= all.take(take_count as int) + all.skip(take_count as int));
            self.taken@ = self.taken@ + all.take(take_count as int);
            assert(self.taken@ + owned_rows_view(self.complete_rows@) =~= old(self).taken@ + all);
        }
        rows
    }

    /// Number of complete rows waiting to be taken.
    pub fn available_rows(&self) -> (r: usize)
        ensures
            r == self.pending().len(),
    {
        self.complete_rows.len()
    }

    /// Whether bytes of an unfinished row are buffered.
    pub fn has_partial(&self) -> (r: bool)
        requires
            self.wf(),
        ensures
            r == (self.row_start() < self.fed().len()),
    {
        self.partial_row_start < self.buffer.len()
    }

    /// Number of buffered bytes.
    pub fn buffer_size(&self) -> (r: usize)
        requires
            self.wf(),
        ensures
            r == self.buffered(),
    {
        self.buffer.len()
    }

    /// End of input: decide the waiting bytes, return every pending row and
    /// the row after the last terminator, and empty the buffer; the next
    /// input starts outside quotes.
    pub fn finalize(&mut self) -> (r: Vec<Vec<Vec<u8>>>)
        requires
            old(self).wf(),
        ensures
            Self::finalize_post(*old(self), *final(self), owned_rows_view(r@)),
    {
        let ghost f0 = self.fed@;
        let ghost e = self.escape@;
        let ghost sp = seps_seq(self.separators@);
        self.process_buffer(true);
        let n = self.buffer.len();
        if self.partial_row_start < n {
            let start = self.partial_row_start;
            let ghost l0 = self.lines@;
            let ghost r0 = self.offset@ + start;
            self.push_row(start, n);
            proof {
                assert(self.buffer@.subrange(start as int, n as int) =~= f0.subrange(r0, f0.len() as int));
                let l1 = l0.push((r0, f0.len() as int));
                assert(general_lines_rows(f0, l1, sp, e) =~= general_lines_rows(f0, l0, sp, e).push(({
                    let line = f0.subrange(r0, f0.len() as int);
                    row_values_general(line, line_bounds_spec(line, sp, e), e)
                })));
                self.lines@ = l1;
            }
        }
        let mut rows: Vec<Vec<Vec<u8>>> = Vec::new();
        core::mem::swap(&mut rows, &mut self.complete_rows);
        self.buffer = Vec::new();
        self.partial_row_start = 0;
        self.scan_pos = 0;
        self.in_quotes = false;
        proof {
            self.fed@ = Seq::empty();
            self.taken@ = Seq::empty();
            self.lines@ = Seq::empty();
            self.offset@ = 0;
            assert(self.buffer@ =~= self.fed@.subrange(0, 0));
            assert(owned_rows_view(self.complete_rows@) =~= Seq::<Seq<Seq<u8>>>::empty());
            assert(general_lines_rows(self.fed@, self.lines@, sp, e) =~= Seq::<Seq<Seq<u8>>>::empty());
            assert(self.taken@ + owned_rows_view(self.complete_rows@) =~= Seq::<Seq<Seq<u8>>>::empty());
        }
        rows
    }
}

/// The lines a well-formed stream finishes with are those of its whole
/// input, however it was fed; its escape, separators and newline patterns
/// are usable.
pub proof fn lemma_final_lines(p: &GeneralStream)
    requires
        p.wf(),
    ensures
        p.final_lines() == full_lines(p.fed(), p.esc(), p.pats()),
        p.esc().len() > 0,
        seps_nonempty(p.seps()),
        p.pats() matches Some(ps) ==> seps_nonempty(ps),
{
    lemma_gscan_finish(p.fed(), p.esc(), p.pats(), 0, false, 0, Seq::empty());
}

/// However a well-formed stream was fed, its completed lines are those of
/// scanning its whole input from the start.
pub proof fn lemma_lines_of_fed(p: &GeneralStream)
    requires
        p.wf(),
    ensures
        p.lines() == gstream_scan(p.fed(), p.esc(), p.pats(), false, 0, false, 0, Seq::empty()).3,
{
}

/// Chunk independence of the general streaming parsers: two streams with
/// the same separators, escape and newlines that were fed the same bytes,
/// however cut into chunks, and had the same rows taken, hold the same
/// pending rows, and their `finalize` returns the same rows.
pub proof fn law_general_chunking_irrelevant(
    p1: GeneralStream,
    p2: GeneralStream,
    f1: GeneralStream,
    f2: GeneralStream,
    r1: Seq<Seq<Seq<u8>>>,
    r2: Seq<Seq<Seq<u8>>>,
)
    requires
        p1.wf(),
        p2.wf(),
        p1.consistent(),
        p2.consistent(),
        p1.fed() == p2.fed(),
        p1.seps() == p2.seps(),
        p1.esc() == p2.esc(),
        p1.pats() == p2.pats(),
        p1.taken() == p2.taken(),
        GeneralStream::finalize_post(p1, f1, r1),
        GeneralStream::finalize_post(p2, f2, r2),
    ensures
        p1.pending() == p2.pending(),
        r1 == r2,
{
    lemma_lines_of_fed(&p1);
    lemma_lines_of_fed(&p2);
    lemma_final_lines(&p1);
    lemma_final_lines(&p2);
    let t = p1.taken();
    assert(p1.pending() =~= (t + p1.pending()).skip(t.len() as int));
    assert(p2.pending() =~= (t + p2.pending()).skip(t.len() as int));
    assert(r1 =~= (t + r1).skip(t.len() as int));
    assert(r2 =~= (t + r2).skip(t.len() as int));
}

/// `ps[i + 1]` is `ps[i]` after a successful `feed` of `chunks[i]`.
pub open spec fn gfed_in_turn(ps: Seq<GeneralStream>, chunks: Seq<Seq<u8>>) -> bool {
    &&& ps.len() == chunks.len() + 1
    &&& forall|i: int| 0 <= i < chunks.len() ==> #[trigger] GeneralStream::feed_post(ps[i], ps[i + 1], chunks[i], Ok(()))
}

/// After feeding chunks in turn, the stream has been fed their join and
/// keeps its configuration and the rows taken.
proof fn lemma_gfed_in_turn(ps: Seq<GeneralStream>, chunks: Seq<Seq<u8>>)
    requires
        gfed_in_turn(ps, chunks),
        ps[0].wf(),
        ps[0].consistent(),
    ensures
        ({
            let last = ps[chunks.len() as int];
            &&& last.wf()
            &&& last.consistent()
            &&& last.fed() == ps[0].fed() + crate::strategy::stream_agreement::joined(chunks)
            &&& last.taken() == ps[0].taken()
            &&& last.seps() == ps[0].seps()
            &&& last.esc() == ps[0].esc()
            &&& last.pats() == ps[0].pats()
        }),
    decreases chunks.len(),
{
    let n = chunks.len() as int;
    if n == 0 {
        assert(ps[0].fed() + crate::strategy::stream_agreement::joined(chunks) =~= ps[0].fed());
    } else {
        let ps2 = ps.take(n);
        let c2 = chunks.drop_last();
        assert forall|i: int| 0 <= i < c2.len() implies #[trigger] GeneralStream::feed_post(ps2[i], ps2[i + 1], c2[i], Ok(())) by {
            assert(GeneralStream::feed_post(ps[i], ps[i + 1], chunks[i], Ok(())));
        }
        lemma_gfed_in_turn(ps2, c2);
        assert(GeneralStream::feed_post(ps[n - 1], ps[(n - 1) + 1], chunks[n - 1], Ok(())));
        assert(ps2[n - 1] == ps[n - 1]);
        assert(ps[0].fed() + crate::strategy::stream_agreement::joined(chunks) =~= ps[0].fed()
            + crate::strategy::stream_agreement::joined(c2) + chunks[n - 1]);
    }
}

/// Chunk independence of the general streaming parsers over any number of
/// feeds: two streams that start alike and are fed, in turn, chunks whose
/// joins are the same bytes, hold the same pending rows, and their
/// `finalize` returns the same rows.
pub proof fn law_general_feeds_in_any_chunks(
    ps1: Seq<GeneralStream>,
    chunks1: Seq<Seq<u8>>,
    ps2: Seq<GeneralStream>,
    chunks2: Seq<Seq<u8>>,
    f1: GeneralStream,
    r1: Seq<Seq<Seq<u8>>>,
    f2: GeneralStream,
    r2: Seq<Seq<Seq<u8>>>,
)
    requires
        gfed_in_turn(ps1, chunks1),
        gfed_in_turn(ps2, chunks2),
        ps1[0].wf(),
        ps2[0].wf(),
        ps1[0].consistent(),
        ps2[0].consistent(),
        ps1[0].fed() == ps2[0].fed(),
        ps1[0].seps() == ps2[0].seps(),
        ps1[0].esc() == ps2[0].esc(),
        ps1[0].pats() == ps2[0].pats(),
        ps1[0].taken() == ps2[0].taken(),
        crate::strategy::stream_agreement::joined(chunks1) == crate::strategy::stream_agreement::joined(chunks2),
        GeneralStream::finalize_post(ps1.last(), f1, r1),
        GeneralStream::finalize_post(ps2.last(), f2, r2),
    ensures
        ps1.last().pending() == ps2.last().pending(),
        r1 == r2,
{
    lemma_gfed_in_turn(ps1, chunks1);
    lemma_gfed_in_turn(ps2, chunks2);
    assert(ps1.last() == ps1[chunks1.len() as int]);
    assert(ps2.last() == ps2[chunks2.len() as int]);
    law_general_chunking_irrelevant(ps1.last(), ps2.last(), f1, f2, r1, r2);
}

/// A pattern match in the buffer is the same match in `fed` at the shifted
/// position.
proof fn lemma_first_match_shift(b: Seq<u8>, f: Seq<u8>, off: int, pos: int, pats: Seq<Seq<u8>>)
    requires
        0 <= off,
        off + b.len() == f.len(),
        b == f.subrange(off, f.len() as int),
        0 <= pos <= b.len(),
    ensures
        first_match_len(b, pos, pats) == first_match_len(f, off + pos, pats),
    decreases pats.len(),
{
    if pats.len() > 0 {
        if pos + pats[0].len() <= b.len() {
            assert(b.subrange(pos, pos + pats[0].len()) =~= f.subrange(off + pos, off + pos + pats[0].len()));
        }
        lemma_first_match_shift(b, f, off, pos, pats.skip(1));
    }
}

/// Streaming parser for multi-byte separators and escape; rows end at `\n`
/// or `\r\n`.
#[must_use]
pub struct GeneralStreamingParser {
    inner: GeneralStream,
}

impl GeneralStreamingParser {
    /// A parser with nothing fed.
    pub fn new(separators: Vec<Vec<u8>>, escape: Vec<u8>) -> (r: Self)
        requires
            escape@.len() > 0,
            seps_nonempty(seps_seq(separators@)),
        ensures
            r.state().wf(),
            r.state().consistent(),
            r.state().fed() == Seq::<u8>::empty(),
            r.state().taken() == Seq::<Seq<Seq<u8>>>::empty(),
            r.state().pending() == Seq::<Seq<Seq<u8>>>::empty(),
            r.state().lines() == Seq::<(int, int)>::empty(),
            r.state().scan_at() == 0,
            r.state().row_start() == 0,
            r.state().offset() == 0,
            !r.state().quoted(),
            r.state().seps() == seps_seq(separators@),
            r.state().esc() == escape@,
            r.state().max_buffer() == DEFAULT_MAX_BUFFER,
            r.state().pats() is None,
    {
        GeneralStreamingParser { inner: GeneralStream::new(separators, escape, None) }
    }
}

impl GeneralStreamingParser {
    /// The shared stream state.
    pub closed spec fn state(&self) -> GeneralStream {
        self.inner
    }

    /// Append a chunk and take every row it completes.
    pub fn feed(&mut self, chunk: &[u8]) -> (r: Result<(), BufferOverflow>)
        requires
            old(self).state().wf(),
        ensures
            GeneralStream::feed_post(old(self).state(), final(self).state(), chunk@, r),
    {
        self.inner.feed(chunk)
    }

    /// Set the cap on buffered bytes.
    pub fn set_max_buffer_size(&mut self, max: usize)
        requires
            old(self).state().wf(),
        ensures
            GeneralStream::set_max_post(old(self).state(), final(self).state(), max),
    {
        self.inner.set_max_buffer_size(max)
    }

    /// Take up to `max` complete rows, oldest first.
    pub fn take_rows(&mut self, max: usize) -> (r: Vec<Vec<Vec<u8>>>)
        requires
            old(self).state().wf(),
        ensures
            GeneralStream::take_post(old(self).state(), final(self).state(), max, owned_rows_view(r@)),
    {
        self.inner.take_rows(max)
    }

    /// Number of complete rows waiting to be taken.
    pub fn available_rows(&self) -> (r: usize)
        ensures
            r == self.state().pending().len(),
    {
        self.inner.available_rows()
    }

    /// Whether bytes of an unfinished row are buffered.
    pub fn has_partial(&self) -> (r: bool)
        requires
            self.state().wf(),
        ensures
            r == (self.state().row_start() < self.state().fed().len()),
    {
        self.inner.has_partial()
    }

    /// Number of buffered bytes.
    pub fn buffer_size(&self) -> (r: usize)
        requires
            self.state().wf(),
        ensures
            r == self.state().buffered(),
    {
        self.inner.buffer_size()
    }

    /// End of input: every pending row and the non-empty row after the
    /// last terminator.
    pub fn finalize(&mut self) -> (r: Vec<Vec<Vec<u8>>>)
        requires
            old(self).state().wf(),
        ensures
            GeneralStream::finalize_post(old(self).state(), final(self).state(), owned_rows_view(r@)),
    {
        self.inner.finalize()
    }
}

/// Streaming parser for multi-byte separators and escape; rows end at the
/// given newline patterns.
#[must_use]
pub struct GeneralStreamingParserNewlines {
    inner: GeneralStream,
}

impl GeneralStreamingParserNewlines {
    /// A parser with nothing fed.
    pub fn new(separators: Vec<Vec<u8>>, escape: Vec<u8>, newlines: Newlines) -> (r: Self)
        requires
            escape@.len() > 0,
            seps_nonempty(seps_seq(separators@)),
            seps_nonempty(patterns_of(&newlines)),
        ensures
            r.state().wf(),
            r.state().consistent(),
            r.state().fed() == Seq::<u8>::empty(),
            r.state().taken() == Seq::<Seq<Seq<u8>>>::empty(),
            r.state().pending() == Seq::<Seq<Seq<u8>>>::empty(),
            r.state().lines() == Seq::<(int, int)>::empty(),
            r.state().scan_at() == 0,
            r.state().row_start() == 0,
            r.state().offset() == 0,
            !r.state().quoted(),
            r.state().seps() == seps_seq(separators@),
            r.state().esc() == escape@,
            r.state().max_buffer() == DEFAULT_MAX_BUFFER,
            r.state().pats() == Some(patterns_of(&newlines)),
    {
        GeneralStreamingParserNewlines { inner: GeneralStream::new(separators, escape, Some(newlines)) }
    }
}

impl GeneralStreamingParserNewlines {
    /// The shared stream state.
    pub closed spec fn state(&self) -> GeneralStream {
        self.inner
    }

    /// Append a chunk and take every row it completes.
    pub fn feed(&mut self, chunk: &[u8]) -> (r: Result<(), BufferOverflow>)
        requires
            old(self).state().wf(),
        ensures
            GeneralStream::feed_post(old(self).state(), final(self).state(), chunk@, r),
    {
        self.inner.feed(chunk)
    }

    /// Set the cap on buffered bytes.
    pub fn set_max_buffer_size(&mut self, max: usize)
        requires
            old(self).state().wf(),
        ensures
            GeneralStream::set_max_post(old(self).state(), final(self).state(), max),
    {
        self.inner.set_max_buffer_size(max)
    }

    /// Take up to `max` complete rows, oldest first.
    pub fn take_rows(&mut self, max: usize) -> (r: Vec<Vec<Vec<u8>>>)
        requires
            old(self).state().wf(),
        ensures
            GeneralStream::take_post(old(self).state(), final(self).state(), max, owned_rows_view(r@)),
    {
        self.inner.take_rows(max)
    }

    /// Number of complete rows waiting to be taken.
    pub fn available_rows(&self) -> (r: usize)
        ensures
            r == self.state().pending().len(),
    {
        self.inner.available_rows()
    }

    /// Whether bytes of an unfinished row are buffered.
    pub fn has_partial(&self) -> (r: bool)
        requires
            self.state().wf(),
        ensures
            r == (self.state().row_start() < self.state().fed().len()),
    {
        self.inner.has_partial()
    }

    /// Number of buffered bytes.
    pub fn buffer_size(&self) -> (r: usize)
        requires
            self.state().wf(),
        ensures
            r == self.state().buffered(),
    {
        self.inner.buffer_size()
    }

    /// End of input: every pending row and the non-empty row after the
    /// last terminator.
    pub fn finalize(&mut self) -> (r: Vec<Vec<Vec<u8>>>)
        requires
            old(self).state().wf(),
        ensures
            GeneralStream::finalize_post(old(self).state(), final(self).state(), owned_rows_view(r@)),
    {
        self.inner.finalize()
    }
}

} // verus!
