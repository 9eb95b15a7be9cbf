//! Streaming parser: feed chunks of any size, take complete rows as they
//! appear, finalize to get the last row.
//!
//! The parser owns a buffer of the bytes of the current partial row. A byte
//! machine walks the buffer once, carrying the quote state across chunks;
//! a byte that cannot be decided without the next one (a quote inside a
//! quoted field, a `\r` outside one) waits for the next chunk, or for
//! `finalize`, where the end of input decides it. Each row terminator ends
//! a row, whose line is split into fields on its own.

use vstd::prelude::*;

use crate::base::field::{append_bytes, copy_bytes, extract_field_owned_with_escape, extract_spec};
use crate::base::scanner::{
    QuoteState, is_separator, on_escape_spec, on_delimiter_spec, on_data_spec, finish_spec, initial_quote_state,
};
use crate::base::simd_index::Violation;
use crate::strategy::general::owned_rows_view;

verus! {

/// Default cap on buffered bytes (256 MiB).
pub const DEFAULT_MAX_BUFFER: usize = 268435456;

/// `Vec::capacity`: how many elements the vector can hold without
/// reallocating. Nothing is claimed of the number.
#[verifier::external_body]
fn vec_capacity<T>(v: &Vec<T>) -> usize {
    v.capacity()
}

/// `Vec::shrink_to`: lowers the capacity toward `min_capacity`; the
/// documentation promises that the elements are left as they are.
#[verifier::external_body]
fn vec_shrink_to<T>(v: &mut Vec<T>, min_capacity: usize)
    ensures
        final(v)@ == old(v)@,
{
    v.shrink_to(min_capacity)
}

/// Release capacity when it exceeds four times the length (with a floor of
/// 1 KiB worth of elements), down to twice the length. The elements stay.
pub fn shrink_excess<T>(v: &mut Vec<T>)
    ensures
        final(v)@ == old(v)@,
{
    let len = v.len();
    let size = core::mem::size_of::<T>();
    let floor_elements = if size > 1 { 1024 / size } else { 1024 };
    let four = if len > usize::MAX / 4 { usize::MAX } else { len * 4 };
    let limit = if four > floor_elements { four } else { floor_elements };
    if vec_capacity(v) > limit {
        let two = if len > usize::MAX / 2 { usize::MAX } else { len * 2 };
        vec_shrink_to(v, two);
    }
}

/// A feed refused because the buffer would grow past its cap.
#[derive(Copy, Clone, Debug, PartialEq, Eq)]
#[must_use]
pub struct BufferOverflow;

/// Field bounds of one line of a row, walking with a quote flag: separators
/// outside quotes split fields.
pub open spec fn line_walk(
    line: Seq<u8>,
    seps: Seq<u8>,
    esc: u8,
    pos: int,
    in_q: bool,
    fstart: int,
    acc: Seq<(int, int)>,
) -> Seq<(int, int)>
    decreases line.len() - pos,
{
    if pos < 0 || pos >= line.len() {
        acc.push((fstart, line.len() as int))
    } else if in_q {
        if line[pos] == esc {
            if pos + 1 < line.len() && line[pos + 1] == esc {
                line_walk(line, seps, esc, pos + 2, true, fstart, acc)
            } else {
                line_walk(line, seps, esc, pos + 1, false, fstart, acc)
            }
        } else {
            line_walk(line, seps, esc, pos + 1, true, fstart, acc)
        }
    } else if line[pos] == esc {
        line_walk(line, seps, esc, pos + 1, true, fstart, acc)
    } else if seps.contains(line[pos]) {
        line_walk(line, seps, esc, pos + 1, false, pos + 1, acc.push((fstart, pos)))
    } else {
        line_walk(line, seps, esc, pos + 1, false, fstart, acc)
    }
}

/// The field values of one line.
pub open spec fn line_fields(line: Seq<u8>, seps: Seq<u8>, esc: u8) -> Seq<Seq<u8>> {
    line_walk(line, seps, esc, 0, false, 0, Seq::empty()).map_values(|b: (int, int)| extract_spec(line, b.0, b.1, esc))
}

/// Owned field values of one line: separators outside quotes split it.
pub fn parse_line_owned(line: &[u8], separators: &[u8], escape: u8) -> (r: Vec<Vec<u8>>)
    ensures
        r@.map_values(|f: Vec<u8>| f@) == line_fields(line@, separators@, escape),
{
    let ghost l = line@;
    let ghost goal = line_walk(l, separators@, escape, 0, false, 0, Seq::empty());
    let mut bounds: Vec<(usize, usize)> = Vec::new();
    let mut pos: usize = 0;
    let mut field_start: usize = 0;
    let mut in_quotes = false;
    let n = line.len();
    assert(bounds@.map_values(|b: (usize, usize)| (b.0 as int, b.1 as int)) =~= Seq::<(int, int)>::empty());
    while pos < n
        invariant
            l == line@,
            n == l.len(),
            0 <= field_start <= pos <= n,
            forall|j: int| 0 <= j < bounds@.len() ==> (#[trigger] bounds@[j]).0 <= bounds@[j].1 <= field_start,
            line_walk(l, separators@, escape, pos as int, in_quotes, field_start as int, bounds@.map_values(
                |b: (usize, usize)| (b.0 as int, b.1 as int),
            )) == goal,
        decreases n - pos,
    {
        let byte = line[pos];
        if in_quotes {
            if byte == escape {
                if pos + 1 < n && line[pos + 1] == escape {
                    pos += 2;
                } else {
                    in_quotes = false;
                    pos += 1;
                }
            } else {
                pos += 1;
            }
        } else if byte == escape {
            in_quotes = true;
            pos += 1;
        } else if is_separator(byte, separators) {
            let ghost old_b = bounds@;
            bounds.push((field_start, pos));
            assert(bounds@.map_values(|b: (usize, usize)| (b.0 as int, b.1 as int)) =~= old_b.map_values(
                |b: (usize, usize)| (b.0 as int, b.1 as int),
            ).push((field_start as int, pos as int)));
            pos += 1;
            field_start = pos;
        } else {
            pos += 1;
        }
    }
    let ghost old_b = bounds@;
    bounds.push((field_start, n));
    assert(bounds@.map_values(|b: (usize, usize)| (b.0 as int, b.1 as int)) =~= goal);
    let mut fields: Vec<Vec<u8>> = Vec::new();
    let mut k: usize = 0;
    while k < bounds.len()
        invariant
            0 <= k <= bounds@.len(),
            n == line@.len(),
            forall|j: int| 0 <= j < bounds@.len() ==> (#[trigger] bounds@[j]).0 <= bounds@[j].1 <= n,
            fields@.len() == k,
            forall|j: int| 0 <= j < k ==> (#[trigger] fields@[j])@ == extract_spec(line@, bounds@[j].0 as int, bounds@[j].1 as int, escape),
        decreases bounds@.len() - k,
    {
        let (a, b) = bounds[k];
        fields.push(extract_field_owned_with_escape(line, a, b, escape));
        k += 1;
    }
    assert(fields@.map_values(|f: Vec<u8>| f@) =~= goal.map_values(|b: (int, int)| extract_spec(l, b.0, b.1, escape)));
    fields
}

/// Whether deciding the byte at `pos` needs the byte after it, which `s`
/// does not hold yet: an escape inside a quoted field (it may be doubled),
/// or a carriage return outside one (it may start `\r\n`).
pub open spec fn needs_more(s: Seq<u8>, seps: Seq<u8>, esc: u8, pos: int, q: QuoteState) -> bool {
    &&& pos + 1 >= s.len()
    &&& if q.in_quotes {
        s[pos] == esc
    } else {
        s[pos] != esc && !seps.contains(s[pos]) && s[pos] != 10u8 && s[pos] == 13u8
    }
}

/// One step of the byte machine at `pos` in state `q`, the end of `s` being
/// the end of input: the next position, the next state, and the length of
/// the row terminator consumed (0 for none).
pub open spec fn stream_step(s: Seq<u8>, seps: Seq<u8>, esc: u8, pos: int, q: QuoteState) -> (int, QuoteState, int) {
    let b = s[pos];
    if q.in_quotes {
        if b == esc {
            if pos + 1 < s.len() && s[pos + 1] == esc {
                (pos + 2, on_escape_spec(q, pos as usize, true), 0)
            } else {
                (pos + 1, on_escape_spec(q, pos as usize, false), 0)
            }
        } else {
            (pos + 1, q, 0)
        }
    } else if b == esc {
        (pos + 1, on_escape_spec(q, pos as usize, false), 0)
    } else if seps.contains(b) {
        (pos + 1, on_delimiter_spec(q), 0)
    } else if b == 10u8 {
        (pos + 1, on_delimiter_spec(q), 1)
    } else if b == 13u8 && pos + 1 < s.len() && s[pos + 1] == 10u8 {
        (pos + 2, on_delimiter_spec(q), 2)
    } else {
        (pos + 1, on_data_spec(q, pos as usize), 0)
    }
}

/// The machine run from `pos` in state `q`, with the current row starting
/// at `rs` and the completed lines `lines` (start, content end), until the
/// end of `s` or, unless `at_end`, a byte that needs more input. Returns the
/// stop position, the state, the current row start and the lines.
pub open spec fn stream_scan(
    s: Seq<u8>,
    seps: Seq<u8>,
    esc: u8,
    at_end: bool,
    pos: int,
    q: QuoteState,
    rs: int,
    lines: Seq<(int, int)>,
) -> (int, QuoteState, int, Seq<(int, int)>)
    decreases s.len() - pos,
{
    if pos < 0 || pos >= s.len() || (!at_end && needs_more(s, seps, esc, pos, q)) {
        (pos, q, rs, lines)
    } else {
        let st = stream_step(s, seps, esc, pos, q);
        if st.0 <= pos || st.0 > s.len() {
            (pos, q, rs, lines)
        } else if st.2 > 0 {
            stream_scan(s, seps, esc, at_end, st.0, st.1, st.0, lines.push((rs, pos)))
        } else {
            stream_scan(s, seps, esc, at_end, st.0, st.1, rs, lines)
        }
    }
}

/// The rows of the given lines of `s`.
pub open spec fn lines_rows(s: Seq<u8>, lines: Seq<(int, int)>, seps: Seq<u8>, esc: u8) -> Seq<Seq<Seq<u8>>> {
    lines.map_values(|r: (int, int)| line_fields(s.subrange(r.0, r.1), seps, esc))
}

/// The lines of a whole input read by the byte machine from state `q0`:
/// every terminated line, then what follows the last terminator, if any.
pub open spec fn stream_lines(s: Seq<u8>, seps: Seq<u8>, esc: u8, q0: QuoteState) -> Seq<(int, int)> {
    let f = stream_scan(s, seps, esc, true, 0, q0, 0, Seq::empty());
    if f.2 < s.len() {
        f.3.push((f.2, s.len() as int))
    } else {
        f.3
    }
}

/// The rows of a whole input read by the streaming parser.
pub open spec fn stream_rows(s: Seq<u8>, seps: Seq<u8>, esc: u8) -> Seq<Seq<Seq<u8>>> {
    lines_rows(s, stream_lines(s, seps, esc, initial_quote_state()), seps, esc)
}

/// The first quoting violation of a whole input read by the streaming
/// parser.
pub open spec fn stream_violation(s: Seq<u8>, seps: Seq<u8>, esc: u8) -> Option<Violation> {
    finish_spec(stream_scan(s, seps, esc, true, 0, initial_quote_state(), 0, Seq::empty()).1, s.len() as usize)
}

/// Lines within `0..=bound`, each ordered.
pub open spec fn lines_within(lines: Seq<(int, int)>, bound: int) -> bool {
    forall|j: int| 0 <= j < lines.len() ==> 0 <= (#[trigger] lines[j]).0 <= lines[j].1 <= bound
}

/// A scan moves forward within the input, keeps its row start behind its
/// position, and adds only lines that end before its row start.
proof fn lemma_scan_bounds(
    s: Seq<u8>,
    seps: Seq<u8>,
    esc: u8,
    at_end: bool,
    pos: int,
    q: QuoteState,
    rs: int,
    lines: Seq<(int, int)>,
)
    requires
        0 <= rs <= pos <= s.len(),
        lines_within(lines, rs),
    ensures
        ({
            let r = stream_scan(s, seps, esc, at_end, pos, q, rs, lines);
            &&& pos <= r.0 <= s.len()
            &&& rs <= r.2 <= r.0
            &&& lines_within(r.3, r.2)
            &&& r.3.len() >= lines.len()
            &&& r.3.take(lines.len() as int) == lines
        }),
    decreases s.len() - pos,
{
    let r = stream_scan(s, seps, esc, at_end, pos, q, rs, lines);
    if pos < 0 || pos >= s.len() || (!at_end && needs_more(s, seps, esc, pos, q)) {
        assert(lines.take(lines.len() as int) =~= lines);
    } else {
        let st = stream_step(s, seps, esc, pos, q);
        if st.0 <= pos || st.0 > s.len() {
            assert(lines.take(lines.len() as int) =~= lines);
        } else if st.2 > 0 {
            let l2 = lines.push((rs, pos));
            lemma_scan_bounds(s, seps, esc, at_end, st.0, st.1, st.0, l2);
            assert(r.3.take(l2.len() as int).take(lines.len() as int) =~= r.3.take(lines.len() as int));
            assert(l2.take(lines.len() as int) =~= lines);
        } else {
            lemma_scan_bounds(s, seps, esc, at_end, st.0, st.1, rs, lines);
        }
    }
}

/// Before a byte that needs more input, a step reads only bytes of `s`, so
/// it is the same on any extension of `s`.
proof fn lemma_step_extends(s: Seq<u8>, t: Seq<u8>, seps: Seq<u8>, esc: u8, pos: int, q: QuoteState)
    requires
        0 <= pos < s.len(),
        !needs_more(s, seps, esc, pos, q),
    ensures
        stream_step(s + t, seps, esc, pos, q) == stream_step(s, seps, esc, pos, q),
        !needs_more(s + t, seps, esc, pos, q),
{
    let st = s + t;
    assert(st[pos] == s[pos]);
    if pos + 1 < s.len() {
        assert(st[pos + 1] == s[pos + 1]);
    }
}

/// Scanning an extension of `s` goes through the state where scanning `s`
/// stopped.
proof fn lemma_scan_extends(
    s: Seq<u8>,
    t: Seq<u8>,
    seps: Seq<u8>,
    esc: u8,
    pos: int,
    q: QuoteState,
    rs: int,
    lines: Seq<(int, int)>,
)
    requires
        0 <= pos <= s.len(),
    ensures
        ({
            let r = stream_scan(s, seps, esc, false, pos, q, rs, lines);
            stream_scan(s + t, seps, esc, false, pos, q, rs, lines) == stream_scan(s + t, seps, esc, false, r.0, r.1, r.2, r.3)
        }),
    decreases s.len() - pos,
{
    if pos >= s.len() || needs_more(s, seps, esc, pos, q) {
    } else {
        lemma_step_extends(s, t, seps, esc, pos, q);
        let st = stream_step(s, seps, esc, pos, q);
        if st.0 <= pos || st.0 > s.len() {
        } else if st.2 > 0 {
            lemma_scan_extends(s, t, seps, esc, st.0, st.1, st.0, lines.push((rs, pos)));
        } else {
            lemma_scan_extends(s, t, seps, esc, st.0, st.1, rs, lines);
        }
    }
}

/// Scanning to the end of input goes through the state where the scan that
/// waits for more input stopped.
proof fn lemma_scan_finishes(
    s: Seq<u8>,
    seps: Seq<u8>,
    esc: u8,
    pos: int,
    q: QuoteState,
    rs: int,
    lines: Seq<(int, int)>,
)
    requires
        0 <= pos <= s.len(),
    ensures
        ({
            let r = stream_scan(s, seps, esc, false, pos, q, rs, lines);
            stream_scan(s, seps, esc, true, pos, q, rs, lines) == stream_scan(s, seps, esc, true, r.0, r.1, r.2, r.3)
        }),
    decreases s.len() - pos,
{
    if pos >= s.len() || needs_more(s, seps, esc, pos, q) {
    } else {
        let st = stream_step(s, seps, esc, pos, q);
        if st.0 <= pos || st.0 > s.len() {
        } else if st.2 > 0 {
            lemma_scan_finishes(s, seps, esc, st.0, st.1, st.0, lines.push((rs, pos)));
        } else {
            lemma_scan_finishes(s, seps, esc, st.0, st.1, rs, lines);
        }
    }
}

/// Rows of lines that lie within `s` are the same read from any extension.
proof fn lemma_lines_rows_extend(s: Seq<u8>, t: Seq<u8>, lines: Seq<(int, int)>, seps: Seq<u8>, esc: u8)
    requires
        lines_within(lines, s.len() as int),
    ensures
        lines_rows(s + t, lines, seps, esc) == lines_rows(s, lines, seps, esc),
{
    assert forall|j: int| 0 <= j < lines.len() implies #[trigger] lines_rows(s + t, lines, seps, esc)[j] == lines_rows(
        s,
        lines,
        seps,
        esc,
    )[j] by {
        assert((s + t).subrange(lines[j].0, lines[j].1) =~= s.subrange(lines[j].0, lines[j].1));
    }
    assert(lines_rows(s + t, lines, seps, esc) =~= lines_rows(s, lines, seps, esc));
}

/// Streaming parser with single-byte separators and a single-byte escape.
#[must_use]
pub struct StreamingParser {
    buffer: Vec<u8>,
    complete_rows: Vec<Vec<Vec<u8>>>,
    partial_row_start: usize,
    scan_pos: usize,
    quote: QuoteState,
    separators: Vec<u8>,
    escape: u8,
    max_buffer_size: usize,
    buffer_offset: usize,
    violation: Option<Violation>,
    fed: Ghost<Seq<u8>>,
    taken: Ghost<Seq<Seq<Seq<u8>>>>,
    lines: Ghost<Seq<(int, int)>>,
    start_state: Ghost<QuoteState>,
    carried: Ghost<Option<Violation>>,
}

impl StreamingParser {
    /// What `feed` does: refuse when the buffer would outgrow its cap, else scan the extended input.
    pub open spec fn feed_post(old: Self, new: Self, chunk: Seq<u8>, r: Result<(), BufferOverflow>) -> bool {
        &&& new.wf()
        &&& new.consistent()
        &&& r is Err <==> old.buffered() + chunk.len() > old.max_buffer()
        &&& r is Err ==> new == old
        &&& r is Ok ==> {
            &&& new.fed() == old.fed() + chunk
            &&& new.taken() == old.taken()
            &&& new.seps() == old.seps()
            &&& new.esc() == old.esc()
            &&& new.max_buffer() == old.max_buffer()
            &&& new.start_state() == old.start_state()
            &&& new.carried() is None
            &&& ({
                let pr = new.scan_state().2 - old.offset();
                let blen = new.fed().len() - old.offset();
                new.offset() == if pr > 0 && pr >= blen / 2 {
                    new.scan_state().2
                } else {
                    old.offset()
                }
            })
        }
    }

    /// What `set_max_buffer_size` does: only the cap changes.
    pub open spec fn set_max_post(old: Self, new: Self, max: usize) -> bool {
        &&& new.wf()
        &&& new.consistent()
        &&& new.max_buffer() == max
        &&& new.fed() == old.fed()
        &&& new.taken() == old.taken()
        &&& new.pending() == old.pending()
        &&& new.seps() == old.seps()
        &&& new.esc() == old.esc()
        &&& new.offset() == old.offset()
        &&& new.start_state() == old.start_state()
        &&& new.carried() == old.carried()
    }

    /// What `take_rows` does: the oldest pending rows move to the taken ones.
    pub open spec fn take_post(old: Self, new: Self, max: usize, r: Seq<Seq<Seq<u8>>>) -> bool {
        &&& new.wf()
        &&& new.consistent()
        &&& ({
            let k = if max < old.pending().len() { max as int } else { old.pending().len() as int };
            &&& r == old.pending().take(k)
            &&& new.pending() == old.pending().skip(k)
            &&& new.taken() == old.taken() + old.pending().take(k)
        })
        &&& new.fed() == old.fed()
        &&& new.seps() == old.seps()
        &&& new.esc() == old.esc()
        &&& new.max_buffer() == old.max_buffer()
        &&& new.offset() == old.offset()
        &&& new.start_state() == old.start_state()
        &&& new.carried() == old.carried()
    }

    /// What `finalize` does: every remaining row comes out and the parser starts over.
    pub open spec fn finalize_post(old: Self, new: Self, r: Seq<Seq<Seq<u8>>>) -> bool {
        &&& new.wf()
        &&& new.consistent()
        &&& old.taken() + r == lines_rows(
            old.fed(),
            stream_lines(old.fed(), old.seps(), old.esc(), old.start_state()),
            old.seps(),
            old.esc(),
        )
        &&& ({
            let f = stream_scan(old.fed(), old.seps(), old.esc(), true, 0, old.start_state(), 0, Seq::empty());
            &&& new.start_state() == initial_quote_state()
            &&& new.carried() == match old.carried() {
                Some(v) => Some(v),
                None => finish_spec(f.1, old.fed().len() as usize),
            }
        })
        &&& new.fed() == Seq::<u8>::empty()
        &&& new.taken() == Seq::<Seq<Seq<u8>>>::empty()
        &&& new.pending() == Seq::<Seq<Seq<u8>>>::empty()
        &&& new.offset() == 0
        &&& new.seps() == old.seps()
        &&& new.esc() == old.esc()
        &&& new.max_buffer() == old.max_buffer()
    }

    /// What `reset` does: everything fed is forgotten; the separators, the
    /// escape and the cap stay.
    pub open spec fn reset_post(old: Self, new: Self) -> bool {
        &&& new.wf()
        &&& new.consistent()
        &&& new.fed() == Seq::<u8>::empty()
        &&& new.taken() == Seq::<Seq<Seq<u8>>>::empty()
        &&& new.pending() == Seq::<Seq<Seq<u8>>>::empty()
        &&& new.offset() == 0
        &&& new.start_state() == initial_quote_state()
        &&& new.carried() is None
        &&& new.seps() == old.seps()
        &&& new.esc() == old.esc()
        &&& new.max_buffer() == old.max_buffer()
    }

    /// One call other than `set_max_buffer_size`: `feed`, `take_rows`,
    /// `finalize`, `reset`, or a call that only reads.
    pub open spec fn other_call(old: Self, new: Self) -> bool {
        ||| exists|c: Seq<u8>, r: Result<(), BufferOverflow>| #[trigger] Self::feed_post(old, new, c, r)
        ||| exists|m: usize, r: Seq<Seq<Seq<u8>>>| #[trigger] Self::take_post(old, new, m, r)
        ||| exists|r: Seq<Seq<Seq<u8>>>| #[trigger] Self::finalize_post(old, new, r)
        ||| Self::reset_post(old, new)
        ||| new == old
    }

    /// Bytes fed since creation, the last `finalize` or `reset`.
    pub closed spec fn fed(&self) -> Seq<u8> {
        self.fed@
    }

    /// Rows handed out by `take_rows` since then.
    pub closed spec fn taken(&self) -> Seq<Seq<Seq<u8>>> {
        self.taken@
    }

    /// Complete rows waiting to be taken.
    pub closed spec fn pending(&self) -> Seq<Seq<Seq<u8>>> {
        owned_rows_view(self.complete_rows@)
    }

    /// Separator bytes.
    pub closed spec fn seps(&self) -> Seq<u8> {
        self.separators@
    }

    /// Escape byte.
    pub closed spec fn esc(&self) -> u8 {
        self.escape
    }

    /// Cap on buffered bytes.
    pub closed spec fn max_buffer(&self) -> usize {
        self.max_buffer_size
    }

    /// Bytes of `fed` dropped from the front of the buffer.
    pub closed spec fn offset(&self) -> int {
        self.buffer_offset as int
    }

    /// Quote state at the first byte of `fed`.
    pub closed spec fn start_state(&self) -> QuoteState {
        self.start_state@
    }

    /// Violation carried over from before `fed`.
    pub closed spec fn carried(&self) -> Option<Violation> {
        self.carried@
    }

    /// Where the byte machine stopped on what was fed: position, state,
    /// start of the partial row, completed lines.
    pub open spec fn scan_state(&self) -> (int, QuoteState, int, Seq<(int, int)>) {
        stream_scan(self.fed(), self.seps(), self.esc(), false, 0, self.start_state(), 0, Seq::empty())
    }

    /// The violation reported now.
    pub open spec fn current_violation(&self) -> Option<Violation> {
        match self.carried() {
            Some(v) => Some(v),
            None => self.scan_state().1.violation,
        }
    }

    /// Bytes held in the buffer.
    pub open spec fn buffered(&self) -> int {
        self.fed().len() - self.offset()
    }

    /// Rows taken and pending together are the rows of the completed lines.
    pub open spec fn consistent(&self) -> bool {
        self.taken() + self.pending() == lines_rows(self.fed(), self.scan_state().3, self.seps(), self.esc())
    }

    /// The buffer holds `fed` from the offset; the machine state, the
    /// partial row and the completed lines are those of scanning `fed` (to
    /// the end of input when `at_end`) up to the scan position.
    closed spec fn progress(&self, at_end: bool) -> bool {
        let f = self.fed@;
        &&& f.len() <= usize::MAX
        &&& self.buffer_offset + self.buffer@.len() == f.len()
        &&& self.buffer@ == f.subrange(self.buffer_offset as int, f.len() as int)
        &&& self.partial_row_start <= self.scan_pos <= self.buffer@.len()
        &&& lines_within(self.lines@, self.buffer_offset + self.partial_row_start)
        &&& stream_scan(
            f,
            self.separators@,
            self.escape,
            at_end,
            self.buffer_offset + self.scan_pos,
            self.quote,
            self.buffer_offset + self.partial_row_start,
            self.lines@,
        ) == stream_scan(f, self.separators@, self.escape, at_end, 0, self.start_state@, 0, Seq::empty())
        &&& self.taken@ + owned_rows_view(self.complete_rows@) == lines_rows(f, self.lines@, self.separators@, self.escape)
        &&& self.violation == match self.carried@ {
            Some(v) => Some(v),
            None => self.quote.violation,
        }
    }

    /// The scan stopped at the scan position.
    closed spec fn stopped(&self, at_end: bool) -> bool {
        stream_scan(
            self.fed@,
            self.separators@,
            self.escape,
            at_end,
            self.buffer_offset + self.scan_pos,
            self.quote,
            self.buffer_offset + self.partial_row_start,
            self.lines@,
        ) == (
            (self.buffer_offset + self.scan_pos) as int,
            self.quote,
            (self.buffer_offset + self.partial_row_start) as int,
            self.lines@,
        )
    }

    /// Well-formed: the machine has gone as far as the fed bytes decide.
    pub closed spec fn wf(&self) -> bool {
        self.progress(false) && self.stopped(false)
    }

    /// A parser with nothing fed.
    fn fresh(separators: Vec<u8>, escape: u8) -> (r: Self)
        ensures
            r.wf(),
            r.consistent(),
            r.fed() == Seq::<u8>::empty(),
            r.taken() == Seq::<Seq<Seq<u8>>>::empty(),
            r.pending() == Seq::<Seq<Seq<u8>>>::empty(),
            r.seps() == separators@,
            r.esc() == escape,
            r.max_buffer() == DEFAULT_MAX_BUFFER,
            r.offset() == 0,
            r.start_state() == initial_quote_state(),
            r.carried() is None,
    {
        let r = StreamingParser {
            buffer: Vec::new(),
            complete_rows: Vec::new(),
            partial_row_start: 0,
            scan_pos: 0,
            quote: QuoteState::new(),
            separators,
            escape,
            max_buffer_size: DEFAULT_MAX_BUFFER,
            buffer_offset: 0,
            violation: None,
            fed: Ghost(Seq::empty()),
            taken: Ghost(Seq::empty()),
            lines: Ghost(Seq::empty()),
            start_state: Ghost(initial_quote_state()),
            carried: Ghost(None),
        };
        assert(r.buffer@ =~= r.fed@.subrange(0, 0));
        assert(owned_rows_view(r.complete_rows@) =~= Seq::<Seq<Seq<u8>>>::empty());
        assert(lines_rows(r.fed@, r.lines@, r.separators@, r.escape) =~= Seq::<Seq<Seq<u8>>>::empty());
        assert(r.taken@ + owned_rows_view(r.complete_rows@) =~= Seq::<Seq<Seq<u8>>>::empty());
        r
    }

    /// A parser with the comma separator and the `"` escape.
    pub fn new() -> (r: Self)
        ensures
            r.wf(),
            r.consistent(),
            r.fed() == Seq::<u8>::empty(),
            r.taken() == Seq::<Seq<Seq<u8>>>::empty(),
            r.pending() == Seq::<Seq<Seq<u8>>>::empty(),
            r.seps() == seq![44u8],
            r.esc() == 34u8,
            r.max_buffer() == DEFAULT_MAX_BUFFER,
            r.offset() == 0,
            r.start_state() == initial_quote_state(),
            r.carried() is None,
    {
        Self::with_config(44u8, 34u8)
    }

    /// A parser with one separator byte and an escape byte.
    pub fn with_config(separator: u8, escape: u8) -> (r: Self)
        ensures
            r.wf(),
            r.consistent(),
            r.fed() == Seq::<u8>::empty(),
            r.taken() == Seq::<Seq<Seq<u8>>>::empty(),
            r.pending() == Seq::<Seq<Seq<u8>>>::empty(),
            r.seps() == seq![separator],
            r.esc() == escape,
            r.max_buffer() == DEFAULT_MAX_BUFFER,
            r.offset() == 0,
            r.start_state() == initial_quote_state(),
            r.carried() is None,
    {
        let mut seps: Vec<u8> = Vec::new();
        seps.push(separator);
        assert(seps@ =~= seq![separator]);
        Self::fresh(seps, escape)
    }

    /// A parser with any set of separator bytes and an escape byte.
    pub fn with_multi_sep(separators: &[u8], escape: u8) -> (r: Self)
        ensures
            r.wf(),
            r.consistent(),
            r.fed() == Seq::<u8>::empty(),
            r.taken() == Seq::<Seq<Seq<u8>>>::empty(),
            r.pending() == Seq::<Seq<Seq<u8>>>::empty(),
            r.seps() == separators@,
            r.esc() == escape,
            r.max_buffer() == DEFAULT_MAX_BUFFER,
            r.offset() == 0,
            r.start_state() == initial_quote_state(),
            r.carried() is None,
    {
        Self::fresh(copy_bytes(separators), escape)
    }

    /// Whether the byte at `pos` must wait for more input.
    fn waits_at(&self, pos: usize, at_end: bool) -> (r: bool)
        requires
            self.buffer_offset + self.buffer@.len() == self.fed@.len(),
            self.buffer@ == self.fed@.subrange(self.buffer_offset as int, self.fed@.len() as int),
            pos < self.buffer@.len(),
        ensures
            r == (!at_end && needs_more(self.fed@, self.separators@, self.escape, self.buffer_offset + pos, self.quote)),
    {
        let ghost f = self.fed@;
        let ghost a = self.buffer_offset + pos;
        assert(self.buffer@[pos as int] == f[a]);
        let n = self.buffer.len();
        if at_end || pos + 1 < n {
            return false;
        }
        let byte = self.buffer[pos];
        if self.quote.in_quotes() {
            byte == self.escape
        } else {
            byte != self.escape && !is_separator(byte, self.separators.as_slice()) && byte != 10u8 && byte == 13u8
        }
    }

    /// Parse the line `buffer[start..end]` into a complete row.
    fn push_complete_row(&mut self, start: usize, end: usize)
        requires
            start <= end <= old(self).buffer@.len(),
        ensures
            final(self).complete_rows@.len() == old(self).complete_rows@.len() + 1,
            owned_rows_view(final(self).complete_rows@) == owned_rows_view(old(self).complete_rows@).push(
                line_fields(old(self).buffer@.subrange(start as int, end as int), old(self).separators@, old(self).escape),
            ),
            final(self).buffer == old(self).buffer,
            final(self).partial_row_start == old(self).partial_row_start,
            final(self).scan_pos == old(self).scan_pos,
            final(self).quote == old(self).quote,
            final(self).separators == old(self).separators,
            final(self).escape == old(self).escape,
            final(self).max_buffer_size == old(self).max_buffer_size,
            final(self).buffer_offset == old(self).buffer_offset,
            final(self).violation == old(self).violation,
            final(self).fed == old(self).fed,
            final(self).taken == old(self).taken,
            final(self).lines == old(self).lines,
            final(self).start_state == old(self).start_state,
            final(self).carried == old(self).carried,
    {
        let row = parse_line_owned(&self.buffer.as_slice()[start..end], self.separators.as_slice(), self.escape);
        let ghost old_rows = self.complete_rows@;
        self.complete_rows.push(row);
        assert(owned_rows_view(self.complete_rows@) =~= owned_rows_view(old_rows).push(row@.map_values(|f: Vec<u8>| f@)));
    }

    /// Drop the bytes before the partial row from the buffer.
    fn compact_buffer(&mut self)
        requires
            old(self).partial_row_start <= old(self).scan_pos <= old(self).buffer@.len(),
            old(self).buffer_offset + old(self).buffer@.len() == old(self).fed@.len(),
            old(self).fed@.len() <= usize::MAX,
            old(self).buffer@ == old(self).fed@.subrange(old(self).buffer_offset as int, old(self).fed@.len() as int),
        ensures
            final(self).buffer_offset + final(self).scan_pos == old(self).buffer_offset + old(self).scan_pos,
            final(self).buffer_offset + final(self).partial_row_start == old(self).buffer_offset + old(self).partial_row_start,
            final(self).buffer_offset == old(self).buffer_offset + old(self).partial_row_start,
            final(self).partial_row_start == 0,
            final(self).buffer_offset + final(self).buffer@.len() == final(self).fed@.len(),
            final(self).buffer@ == final(self).fed@.subrange(final(self).buffer_offset as int, final(self).fed@.len() as int),
            final(self).complete_rows == old(self).complete_rows,
            final(self).quote == old(self).quote,
            final(self).separators == old(self).separators,
            final(self).escape == old(self).escape,
            final(self).max_buffer_size == old(self).max_buffer_size,
            final(self).violation == old(self).violation,
            final(self).fed == old(self).fed,
            final(self).taken == old(self).taken,
            final(self).lines == old(self).lines,
            final(self).start_state == old(self).start_state,
            final(self).carried == old(self).carried,
    {
        if self.partial_row_start > 0 {
            let p = self.partial_row_start;
            let blen = self.buffer.len();
            let mut rest = copy_bytes(&self.buffer.as_slice()[p..blen]);
            shrink_excess(&mut rest);
            self.buffer = rest;
            self.buffer_offset = self.buffer_offset + p;
            self.scan_pos = self.scan_pos - p;
            self.partial_row_start = 0;
            assert(self.buffer@ =~= self.fed@.subrange(self.buffer_offset as int, self.fed@.len() as int));
        }
    }

    /// Run the byte machine over the buffer from the scan position, as far
    /// as the bytes decide (to the end when `at_end`), then compact.
    fn process_buffer(&mut self, at_end: bool)
        requires
            old(self).progress(at_end),
        ensures
            final(self).progress(at_end),
            final(self).stopped(at_end),
            at_end ==> final(self).scan_pos == final(self).buffer@.len(),
            final(self).fed == old(self).fed,
            final(self).taken == old(self).taken,
            final(self).start_state == old(self).start_state,
            final(self).carried == old(self).carried,
            final(self).separators == old(self).separators,
            final(self).escape == old(self).escape,
            final(self).max_buffer_size == old(self).max_buffer_size,
            ({
                let pr = final(self).buffer_offset + final(self).partial_row_start - old(self).buffer_offset;
                let blen = old(self).buffer@.len() + 0;
                final(self).buffer_offset == if pr > 0 && pr >= blen / 2 {
                    old(self).buffer_offset + pr
                } else {
                    old(self).buffer_offset as int
                }
            }),
    {
        let ghost f = self.fed@;
        let ghost goal = stream_scan(f, self.separators@, self.escape, at_end, 0, self.start_state@, 0, Seq::empty());
        let mut pos = self.scan_pos;
        while pos < self.buffer.len() && !self.waits_at(pos, at_end)
            invariant
                f == self.fed@,
                f.len() <= usize::MAX,
                self.buffer_offset + self.buffer@.len() == f.len(),
                self.buffer@ == f.subrange(self.buffer_offset as int, f.len() as int),
                self.partial_row_start <= pos <= self.buffer@.len(),
                lines_within(self.lines@, self.buffer_offset + self.partial_row_start),
                stream_scan(
                    f,
                    self.separators@,
                    self.escape,
                    at_end,
                    self.buffer_offset + pos,
                    self.quote,
                    self.buffer_offset + self.partial_row_start,
                    self.lines@,
                ) == goal,
                goal == stream_scan(f, self.separators@, self.escape, at_end, 0, self.start_state@, 0, Seq::empty()),
                self.taken@ + owned_rows_view(self.complete_rows@) == lines_rows(f, self.lines@, self.separators@, self.escape),
                self.violation == match self.carried@ {
                    Some(v) => Some(v),
                    None => self.quote.violation,
                },
                self.fed == old(self).fed,
                self.taken == old(self).taken,
                self.start_state == old(self).start_state,
                self.carried == old(self).carried,
                self.separators == old(self).separators,
                self.escape == old(self).escape,
                self.max_buffer_size == old(self).max_buffer_size,
                self.buffer_offset == old(self).buffer_offset,
                self.buffer == old(self).buffer,
            decreases self.buffer@.len() - pos,
        {
            let ghost a = self.buffer_offset + pos;
            let ghost q0 = self.quote;
            let ghost r0 = self.buffer_offset + self.partial_row_start;
            let ghost l0 = self.lines@;
            let ghost seps = self.separators@;
            let ghost esc = self.escape;
            let byte = self.buffer[pos];
            let abs = self.buffer_offset + pos;
            let n = self.buffer.len();
            assert(self.buffer@[pos as int] == f[a]);
            if pos + 1 < n {
                assert(self.buffer@[pos + 1] == f[a + 1]);
            }
            let ghost st = stream_step(f, seps, esc, a, q0);
            assert(stream_scan(f, seps, esc, at_end, a, q0, r0, l0) == if st.2 > 0 {
                stream_scan(f, seps, esc, at_end, st.0, st.1, st.0, l0.push((r0, a)))
            } else {
                stream_scan(f, seps, esc, at_end, st.0, st.1, r0, l0)
            });
            if self.quote.in_quotes() {
                if byte == self.escape {
                    let doubled = pos + 1 < n && self.buffer[pos + 1] == self.escape;
                    self.quote.on_escape(abs, doubled);
                    pos += if doubled { 2 } else { 1 };
                } else {
                    pos += 1;
                }
            } else if byte == self.escape {
                self.quote.on_escape(abs, false);
                pos += 1;
            } else if is_separator(byte, self.separators.as_slice()) {
                self.quote.on_delimiter();
                pos += 1;
            } else if byte == 10u8 {
                self.quote.on_delimiter();
                let start = self.partial_row_start;
                self.push_complete_row(start, pos);
                proof {
                    assert(self.buffer@.subrange(start as int, pos as int) =~= f.subrange(r0, a));
                    let l1 = l0.push((r0, a));
                    assert(lines_rows(f, l1, seps, esc) =~= lines_rows(f, l0, seps, esc).push(line_fields(f.subrange(r0, a), seps, esc)));
                    self.lines@ = l1;
                }
                pos += 1;
                self.partial_row_start = pos;
            } else if byte == 13u8 && pos + 1 < n && self.buffer[pos + 1] == 10u8 {
                self.quote.on_delimiter();
                let start = self.partial_row_start;
                self.push_complete_row(start, pos);
                proof {
                    assert(self.buffer@.subrange(start as int, pos as int) =~= f.subrange(r0, a));
                    let l1 = l0.push((r0, a));
                    assert(lines_rows(f, l1, seps, esc) =~= lines_rows(f, l0, seps, esc).push(line_fields(f.subrange(r0, a), seps, esc)));
                    self.lines@ = l1;
                }
                pos += 2;
                self.partial_row_start = pos;
            } else {
                self.quote.on_data(abs);
                pos += 1;
            }
            if self.violation.is_none() {
                self.violation = self.quote.violation();
            }
        }
        self.scan_pos = pos;
        if self.partial_row_start > 0 && self.partial_row_start >= self.buffer.len() / 2 {
            self.compact_buffer();
        }
    }

    /// Append a chunk and take every row it completes. Refused, with nothing
    /// changed, when the buffer would grow past its cap. A violation left by
    /// `finalize` is dropped.
    pub fn feed(&mut self, chunk: &[u8]) -> (r: Result<(), BufferOverflow>)
        requires
            old(self).wf(),
            old(self).fed().len() + chunk@.len() <= usize::MAX,
        ensures
            Self::feed_post(*old(self), *final(self), chunk@, r),

    {
        let blen = self.buffer.len();
        if chunk.len() > self.max_buffer_size || blen > self.max_buffer_size - chunk.len() {
            return Err(BufferOverflow);
        }
        self.violation = self.quote.violation;
        proof {
            self.carried@ = None;
        }
        let ghost f0 = self.fed@;
        proof {
            lemma_scan_extends(f0, chunk@, self.separators@, self.escape, 0, self.start_state@, 0, Seq::empty());
            lemma_scan_bounds(f0, self.separators@, self.escape, false, 0, self.start_state@, 0, Seq::empty());
            lemma_lines_rows_extend(f0, chunk@, self.lines@, self.separators@, self.escape);
        }
        append_bytes(&mut self.buffer, chunk);
        proof {
            self.fed@ = f0 + chunk@;
            assert(self.buffer@ =~= self.fed@.subrange(self.buffer_offset as int, self.fed@.len() as int));
        }
        self.process_buffer(false);
        Ok(())
    }

    /// Set the cap on buffered bytes.
    pub fn set_max_buffer_size(&mut self, max: usize)
        requires
            old(self).wf(),
        ensures
            Self::set_max_post(*old(self), *final(self), max),

    {
        self.max_buffer_size = max;
    }

    /// Take up to `max` complete rows, oldest first.
    pub fn take_rows(&mut self, max: usize) -> (r: Vec<Vec<Vec<u8>>>)
        requires
            old(self).wf(),
        ensures
            Self::take_post(*old(self), *final(self), max, owned_rows_view(r@)),

    {
        let n = self.complete_rows.len();
        let take_count = if max < n { max } else { n };
        let ghost all = owned_rows_view(self.complete_rows@);
        let mut rows = self.complete_rows.split_off(take_count);
        core::mem::swap(&mut rows, &mut self.complete_rows);
        shrink_excess(&mut self.complete_rows);
        proof {
            assert(owned_rows_view(rows@) =~= all.take(take_count as int));
            assert(owned_rows_view(self.complete_rows@) =~= all.skip(take_count as int));
            assert(all =~= all.take(take_count as int) + all.skip(take_count as int));
            self.taken@ = self.taken@ + all.take(take_count as int);
            assert(self.taken@ + owned_rows_view(self.complete_rows@) =~= old(self).taken@ + all);
        }
        rows
    }

    /// Number of complete rows waiting to be taken.
    pub fn available_rows(&self) -> (r: usize)
        ensures
            r == self.pending().len(),
    {
        self.complete_rows.len()
    }

    /// Whether bytes of an unfinished row are buffered.
    pub fn has_partial(&self) -> (r: bool)
        requires
            self.wf(),
        ensures
            r == (self.scan_state().2 < self.fed().len()),
    {
        self.partial_row_start < self.buffer.len()
    }

    /// Number of buffered bytes.
    pub fn buffer_size(&self) -> (r: usize)
        requires
            self.wf(),
        ensures
            r == self.buffered(),
    {
        self.buffer.len()
    }

    /// The first quoting violation seen so far.
    pub fn violation(&self) -> (r: Option<Violation>)
        requires
            self.wf(),
        ensures
            r == self.current_violation(),
    {
        self.violation
    }

    /// End of input: decide the waiting bytes, return every pending row and
    /// the row after the last terminator, settle the violation (a quoted
    /// field still open is one) and empty the buffer. The settled violation
    /// stays reported until the next feed; the next input is read afresh,
    /// outside quotes.
    pub fn finalize(&mut self) -> (r: Vec<Vec<Vec<u8>>>)
        requires
            old(self).wf(),
        ensures
            Self::finalize_post(*old(self), *final(self), owned_rows_view(r@)),

    {
        let ghost f0 = self.fed@;
        let ghost seps = self.separators@;
        let ghost esc = self.escape;
        proof {
            lemma_scan_finishes(f0, seps, esc, 0, self.start_state@, 0, Seq::empty());
        }
        self.process_buffer(true);
        let ghost fin = stream_scan(f0, seps, esc, true, 0, self.start_state@, 0, Seq::empty());
        assert(fin == (f0.len() as int, self.quote, (self.buffer_offset + self.partial_row_start) as int, self.lines@));
        let n = self.buffer.len();
        if self.partial_row_start < n {
            let start = self.partial_row_start;
            let ghost l0 = self.lines@;
            let ghost r0 = self.buffer_offset + start;
            self.push_complete_row(start, n);
            proof {
                assert(self.buffer@.subrange(start as int, n as int) =~= f0.subrange(r0, f0.len() as int));
                let l1 = l0.push((r0, f0.len() as int));
                assert(lines_rows(f0, l1, seps, esc) =~= lines_rows(f0, l0, seps, esc).push(
                    line_fields(f0.subrange(r0, f0.len() as int), seps, esc),
                ));
                self.lines@ = l1;
            }
        }
        assert(self.lines@ == stream_lines(f0, seps, esc, self.start_state@));
        if self.violation.is_none() {
            let end = self.buffer_offset + n;
            self.violation = self.quote.finish(end);
        }
        let mut rows: Vec<Vec<Vec<u8>>> = Vec::new();
        core::mem::swap(&mut rows, &mut self.complete_rows);
        self.buffer = Vec::new();
        self.partial_row_start = 0;
        self.buffer_offset = 0;
        self.scan_pos = 0;
        self.quote = QuoteState::new();
        proof {
            self.fed@ = Seq::empty();
            self.taken@ = Seq::empty();
            self.lines@ = Seq::empty();
            self.start_state@ = initial_quote_state();
            self.carried@ = self.violation;
            assert(self.buffer@ =~= self.fed@.subrange(0, 0));
            assert(owned_rows_view(self.complete_rows@) =~= Seq::<Seq<Seq<u8>>>::empty());
            assert(lines_rows(self.fed@, self.lines@, self.separators@, self.escape) =~= Seq::<Seq<Seq<u8>>>::empty());
            assert(self.taken@ + owned_rows_view(self.complete_rows@) =~= Seq::<Seq<Seq<u8>>>::empty());
        }
        rows
    }

    /// Forget everything fed; keep the separators, the escape and the cap.
    pub fn reset(&mut self)
        requires
            old(self).wf(),
        ensures
            Self::reset_post(*old(self), *final(self)),
    {
        self.buffer = Vec::new();
        self.complete_rows = Vec::new();
        self.partial_row_start = 0;
        self.scan_pos = 0;
        self.quote = QuoteState::new();
        self.buffer_offset = 0;
        self.violation = None;
        proof {
            self.fed@ = Seq::empty();
            self.taken@ = Seq::empty();
            self.lines@ = Seq::empty();
            self.start_state@ = initial_quote_state();
            self.carried@ = None;
            assert(self.buffer@ =~= self.fed@.subrange(0, 0));
            assert(owned_rows_view(self.complete_rows@) =~= Seq::<Seq<Seq<u8>>>::empty());
            assert(lines_rows(self.fed@, self.lines@, self.separators@, self.escape) =~= Seq::<Seq<Seq<u8>>>::empty());
            assert(self.taken@ + owned_rows_view(self.complete_rows@) =~= Seq::<Seq<Seq<u8>>>::empty());
        }
    }

    /// The separator bytes.
    pub fn separators(&self) -> (r: &[u8])
        ensures
            r@ == self.seps(),
    {
        self.separators.as_slice()
    }

    /// The first separator byte, or a comma when there is none.
    pub fn separator(&self) -> (r: u8)
        ensures
            r == if self.seps().len() > 0 { self.seps()[0] } else { 44u8 },
    {
        if self.separators.len() > 0 {
            self.separators[0]
        } else {
            44u8
        }
    }

    /// The escape byte.
    pub fn escape(&self) -> (r: u8)
        ensures
            r == self.esc(),
    {
        self.escape
    }
}

impl Default for StreamingParser {
    /// The comma-separated, `"`-escaped parser with nothing fed.
    fn default() -> (r: Self)
        ensures
            r.wf(),
            r.consistent(),
            r.fed() == Seq::<u8>::empty(),
            r.taken() == Seq::<Seq<Seq<u8>>>::empty(),
            r.pending() == Seq::<Seq<Seq<u8>>>::empty(),
            r.seps() == seq![44u8],
            r.esc() == 34u8,
            r.max_buffer() == DEFAULT_MAX_BUFFER,
    {
        Self::new()
    }
}

/// A call other than `set_max_buffer_size` keeps the cap.
proof fn lemma_other_call_keeps_cap(old: StreamingParser, new: StreamingParser)
    requires
        StreamingParser::other_call(old, new),
    ensures
        new.max_buffer() == old.max_buffer(),
{
    if exists|c: Seq<u8>, r: Result<(), BufferOverflow>| #[trigger] StreamingParser::feed_post(old, new, c, r) {
        let (c, r) = choose|c: Seq<u8>, r: Result<(), BufferOverflow>| #[trigger] StreamingParser::feed_post(old, new, c, r);
        assert(StreamingParser::feed_post(old, new, c, r));
    } else if exists|m: usize, r: Seq<Seq<Seq<u8>>>| #[trigger] StreamingParser::take_post(old, new, m, r) {
        let (m, r) = choose|m: usize, r: Seq<Seq<Seq<u8>>>| #[trigger] StreamingParser::take_post(old, new, m, r);
        assert(StreamingParser::take_post(old, new, m, r));
    } else if exists|r: Seq<Seq<Seq<u8>>>| #[trigger] StreamingParser::finalize_post(old, new, r) {
        let r = choose|r: Seq<Seq<Seq<u8>>>| #[trigger] StreamingParser::finalize_post(old, new, r);
        assert(StreamingParser::finalize_post(old, new, r));
    }
}

/// Along a run of other calls that starts at cap `m`, the cap stays `m`.
proof fn lemma_cap_along(ps: Seq<StreamingParser>, m: usize, i: int)
    requires
        0 <= i < ps.len(),
        ps[0].max_buffer() == m,
        forall|j: int| 0 <= j < ps.len() - 1 ==> #[trigger] StreamingParser::other_call(ps[j], ps[j + 1]),
    ensures
        ps[i].max_buffer() == m,
    decreases i,
{
    if i > 0 {
        lemma_cap_along(ps, m, i - 1);
        let j = i - 1;
        assert(StreamingParser::other_call(ps[j], ps[j + 1]));
        lemma_other_call_keeps_cap(ps[j], ps[j + 1]);
    }
}

/// The buffer cap: `set_max_buffer_size(m)` changes nothing a caller sees
/// but the cap: the buffered bytes, the rows waiting, the partial row and
/// the violation stay. Until the next `set_max_buffer_size`, whatever else
/// is called in between (`ps[0]` is the state right after the set, each
/// later state comes from the one before by one other call), every `feed`
/// is refused exactly when the buffered bytes and the chunk together exceed
/// `m`, and a refused feed changes nothing.
pub proof fn law_buffer_cap(p: StreamingParser, ps: Seq<StreamingParser>, m: usize)
    requires
        ps.len() > 0,
        StreamingParser::set_max_post(p, ps[0], m),
        forall|j: int| 0 <= j < ps.len() - 1 ==> #[trigger] StreamingParser::other_call(ps[j], ps[j + 1]),
    ensures
        ps[0].buffered() == p.buffered(),
        ps[0].pending() == p.pending(),
        ps[0].scan_state() == p.scan_state(),
        ps[0].fed() == p.fed(),
        ps[0].current_violation() == p.current_violation(),
        forall|i: int| 0 <= i < ps.len() ==> #[trigger] ps[i].max_buffer() == m,
        forall|i: int, c: Seq<u8>, r: Result<(), BufferOverflow>, q: StreamingParser|
            0 <= i < ps.len() && #[trigger] StreamingParser::feed_post(ps[i], q, c, r) ==> {
                &&& (r is Err <==> ps[i].buffered() + c.len() > m)
                &&& (r is Err ==> q == ps[i])
            },
{
    assert forall|i: int| 0 <= i < ps.len() implies #[trigger] ps[i].max_buffer() == m by {
        lemma_cap_along(ps, m, i);
    }
}

} // verus!
