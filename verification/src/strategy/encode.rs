//! Field quoting for the encoder: which fields need quoting, and how a
//! quoted field is written (wrapped in the escape, inner escapes doubled).

use vstd::prelude::*;

use crate::base::field::append_bytes;
use crate::base::newlines::starts_with_at;

verus! {

/// `field` with every occurrence of the escape `esc` written twice,
/// scanning left to right.
pub open spec fn double_escapes(field: Seq<u8>, esc: Seq<u8>) -> Seq<u8>
    decreases field.len(),
{
    if field.len() == 0 {
        Seq::empty()
    } else if esc.len() > 0 && esc.len() <= field.len() && field.subrange(0, esc.len() as int) == esc {
        esc + esc + double_escapes(field.skip(esc.len() as int), esc)
    } else {
        seq![field[0]] + double_escapes(field.skip(1), esc)
    }
}

/// `field` quoted with `esc`: wrapped in it, inner occurrences doubled.
pub open spec fn quote_spec(field: Seq<u8>, esc: Seq<u8>) -> Seq<u8> {
    esc + double_escapes(field, esc) + esc
}

/// `needle` occurs in `hay`.
pub open spec fn occurs_in(hay: Seq<u8>, needle: Seq<u8>) -> bool {
    exists|i: int| 0 <= i && i + needle.len() <= hay.len() && #[trigger] hay.subrange(i, i + needle.len()) == needle
}

/// Write `field` quoted with the single escape byte `escape`.
pub fn write_quoted_field(out: &mut Vec<u8>, field: &[u8], escape: u8)
    ensures
        final(out)@ == old(out)@ + quote_spec(field@, seq![escape]),
{
    out.push(escape);
    write_quoted_field_inner(out, field, escape);
    out.push(escape);
    assert(final(out)@ =~= old(out)@ + quote_spec(field@, seq![escape]));
}

/// Write `field` quoted with the escape pattern `escape`.
pub fn write_quoted_field_general(out: &mut Vec<u8>, field: &[u8], escape: &[u8])
    requires
        escape@.len() > 0,
    ensures
        final(out)@ == old(out)@ + quote_spec(field@, escape@),
{
    append_bytes(out, escape);
    write_quoted_field_inner_general(out, field, escape);
    append_bytes(out, escape);
    assert(final(out)@ =~= old(out)@ + quote_spec(field@, escape@));
}

/// Write `field` with each escape byte doubled, without surrounding escapes.
pub fn write_quoted_field_inner(out: &mut Vec<u8>, field: &[u8], escape: u8)
    ensures
        final(out)@ == old(out)@ + double_escapes(field@, seq![escape]),
{
    let ghost start = out@;
    let ghost esc = seq![escape];
    let mut i: usize = 0;
    assert(field@.skip(0) =~= field@);
    while i < field.len()
        invariant
            0 <= i <= field@.len(),
            esc == seq![escape],
            out@ + double_escapes(field@.skip(i as int), esc) == start + double_escapes(field@, esc),
        decreases field@.len() - i,
    {
        let ghost rest = field@.skip(i as int);
        let b = field[i];
        out.push(b);
        if b == escape {
            out.push(escape);
            assert(rest.subrange(0, 1) =~= esc);
        } else {
            assert(rest.subrange(0, 1) != esc) by {
                assert(rest.subrange(0, 1)[0] == b);
            }
        }
        assert(rest.skip(1) =~= field@.skip(i + 1));
        i += 1;
        assert(out@ + double_escapes(field@.skip(i as int), esc) =~= start + double_escapes(field@, esc));
    }
    assert(field@.skip(i as int) =~= Seq::<u8>::empty());
    assert(out@ =~= start + double_escapes(field@, esc));
}

/// Write `field` with each occurrence of `escape` doubled, without
/// surrounding escapes.
pub fn write_quoted_field_inner_general(out: &mut Vec<u8>, field: &[u8], escape: &[u8])
    requires
        escape@.len() > 0,
    ensures
        final(out)@ == old(out)@ + double_escapes(field@, escape@),
{
    let ghost start = out@;
    let esc_len = escape.len();
    let mut i: usize = 0;
    assert(field@.skip(0) =~= field@);
    while i < field.len()
        invariant
            0 <= i <= field@.len(),
            esc_len == escape@.len(),
            esc_len > 0,
            out@ + double_escapes(field@.skip(i as int), escape@) == start + double_escapes(field@, escape@),
        decreases field@.len() - i,
    {
        let ghost rest = field@.skip(i as int);
        if starts_with_at(field, i, escape) {
            assert(rest.subrange(0, esc_len as int) =~= field@.subrange(i as int, i + esc_len));
            append_bytes(out, escape);
            append_bytes(out, escape);
            assert(rest.skip(esc_len as int) =~= field@.skip(i + esc_len));
            i += esc_len;
        } else {
            proof {
                if esc_len <= rest.len() {
                    assert(rest.subrange(0, esc_len as int) =~= field@.subrange(i as int, i + esc_len));
                }
            }
            out.push(field[i]);
            assert(rest.skip(1) =~= field@.skip(i + 1));
            i += 1;
        }
        assert(out@ + double_escapes(field@.skip(i as int), escape@) =~= start + double_escapes(field@, escape@));
    }
    assert(field@.skip(i as int) =~= Seq::<u8>::empty());
    assert(out@ =~= start + double_escapes(field@, escape@));
}

/// Patterns that make a field need quoting: single bytes, and longer
/// patterns that hold none of those bytes (a field with such a byte is
/// quoted anyway).
pub struct ReservedPatterns {
    single_bytes: Vec<u8>,
    multi_bytes: Vec<Vec<u8>>,
}

/// The given patterns, partitioned: the bytes of one-byte patterns, and the
/// other patterns in order, dropping those that hold one of those bytes.
pub open spec fn single_of(patterns: Seq<Seq<u8>>) -> Seq<u8>
    decreases patterns.len(),
{
    if patterns.len() == 0 {
        Seq::empty()
    } else {
        let prev = single_of(patterns.drop_last());
        if patterns.last().len() == 1 {
            prev.push(patterns.last()[0])
        } else {
            prev
        }
    }
}

/// Patterns of other lengths, in order.
pub open spec fn multi_of(patterns: Seq<Seq<u8>>) -> Seq<Seq<u8>>
    decreases patterns.len(),
{
    if patterns.len() == 0 {
        Seq::empty()
    } else {
        let prev = multi_of(patterns.drop_last());
        if patterns.last().len() != 1 {
            prev.push(patterns.last())
        } else {
            prev
        }
    }
}

/// `p` holds one of `bytes`.
pub open spec fn shares_byte(p: Seq<u8>, bytes: Seq<u8>) -> bool {
    exists|i: int| 0 <= i < p.len() && bytes.contains(#[trigger] p[i])
}

/// Patterns of `ps` that hold none of `bytes`, in order.
pub open spec fn without_shared(ps: Seq<Seq<u8>>, bytes: Seq<u8>) -> Seq<Seq<u8>>
    decreases ps.len(),
{
    if ps.len() == 0 {
        Seq::empty()
    } else {
        let prev = without_shared(ps.drop_last(), bytes);
        if shares_byte(ps.last(), bytes) {
            prev
        } else {
            prev.push(ps.last())
        }
    }
}

impl ReservedPatterns {
    /// The single reserved bytes.
    pub closed spec fn singles(&self) -> Seq<u8> {
        self.single_bytes@
    }

    /// The longer reserved patterns kept.
    pub closed spec fn multis(&self) -> Seq<Seq<u8>> {
        self.multi_bytes@.map_values(|p: Vec<u8>| p@)
    }

    /// Partition `patterns` into single bytes and longer patterns, dropping
    /// the longer patterns that hold a single reserved byte.
    pub fn new(patterns: Vec<Vec<u8>>) -> (r: Self)
        ensures
            r.singles() == single_of(patterns@.map_values(|p: Vec<u8>| p@)),
            r.multis() == without_shared(
                multi_of(patterns@.map_values(|p: Vec<u8>| p@)),
                single_of(patterns@.map_values(|p: Vec<u8>| p@)),
            ),
    {
        let ghost ps = patterns@.map_values(|p: Vec<u8>| p@);
        let mut single_bytes: Vec<u8> = Vec::new();
        let mut multi: Vec<Vec<u8>> = Vec::new();
        let n = patterns.len();
        let mut rest = patterns;
        let mut i: usize = 0;
        assert(ps.take(0) =~= Seq::<Seq<u8>>::empty());
        while i < n
            invariant
                0 <= i <= n,
                n as int == ps.len(),
                rest@.len() == n - i,
                forall|k: int| 0 <= k < rest@.len() ==> rest@[k]@ == ps[i + k],
                single_bytes@ == single_of(ps.take(i as int)),
                multi@.map_values(|p: Vec<u8>| p@) == multi_of(ps.take(i as int)),
            decreases n - i,
        {
            let p = rest.remove(0);
            assert(ps.take(i + 1).drop_last() =~= ps.take(i as int));
            assert(ps.take(i + 1).last() == p@);
            if p.len() == 1 {
                single_bytes.push(p[0]);
            } else {
                multi.push(p);
                assert(multi@.map_values(|q: Vec<u8>| q@) =~= multi_of(ps.take(i + 1)));
            }
            i += 1;
        }
        assert(ps.take(n as int) =~= ps);
        let ghost mv = multi@.map_values(|q: Vec<u8>| q@);
        let mut kept: Vec<Vec<u8>> = Vec::new();
        let m = multi.len();
        let mut rest2 = multi;
        let mut j: usize = 0;
        assert(mv.take(0) =~= Seq::<Seq<u8>>::empty());
        while j < m
            invariant
                0 <= j <= m,
                m as int == mv.len(),
                rest2@.len() == m - j,
                forall|k: int| 0 <= k < rest2@.len() ==> rest2@[k]@ == mv[j + k],
                kept@.map_values(|q: Vec<u8>| q@) == without_shared(mv.take(j as int), single_bytes@),
            decreases m - j,
        {
            let p = rest2.remove(0);
            assert(mv.take(j + 1).drop_last() =~= mv.take(j as int));
            assert(mv.take(j + 1).last() == p@);
            let mut hit = false;
            let mut k: usize = 0;
            while k < p.len()
                invariant
                    0 <= k <= p@.len(),
                    hit == exists|t: int| 0 <= t < k && single_bytes@.contains(#[trigger] p@[t]),
                decreases p@.len() - k,
            {
                let c = crate::base::field::contains_byte(single_bytes.as_slice(), p[k]);
                if c {
                    hit = true;
                }
                k += 1;
            }
            if !hit {
                kept.push(p);
                assert(kept@.map_values(|q: Vec<u8>| q@) =~= without_shared(mv.take(j + 1), single_bytes@));
            }
            j += 1;
        }
        assert(mv.take(m as int) =~= mv);
        ReservedPatterns { single_bytes, multi_bytes: kept }
    }

    /// The single reserved bytes, in the order they were given.
    pub fn single_bytes(&self) -> (r: &[u8])
        ensures
            r@ == self.singles(),
    {
        self.single_bytes.as_slice()
    }

    /// The longer reserved patterns kept, in the order they were given.
    pub fn multi_bytes(&self) -> (r: &[Vec<u8>])
        ensures
            r@.map_values(|p: Vec<u8>| p@) == self.multis(),
    {
        self.multi_bytes.as_slice()
    }
}

/// A byte is a single reserved byte exactly when it makes up one of the
/// one-byte patterns.
proof fn lemma_single_of_contains(ps: Seq<Seq<u8>>, b: u8)
    ensures
        single_of(ps).contains(b) <==> exists|k: int| 0 <= k < ps.len() && (#[trigger] ps[k]).len() == 1 && ps[k][0] == b,
    decreases ps.len(),
{
    if ps.len() > 0 {
        let init = ps.drop_last();
        lemma_single_of_contains(init, b);
        let prev = single_of(init);
        if ps.last().len() == 1 {
            assert(single_of(ps) == prev.push(ps.last()[0]));
            if single_of(ps).contains(b) {
                if prev.contains(b) {
                    let k = choose|k: int| 0 <= k < init.len() && (#[trigger] init[k]).len() == 1 && init[k][0] == b;
                    assert(ps[k] == init[k]);
                } else {
                    let j = choose|j: int| 0 <= j < single_of(ps).len() && single_of(ps)[j] == b;
                    assert(j == prev.len());
                    assert(ps[ps.len() - 1] == ps.last());
                }
            }
            if exists|k: int| 0 <= k < ps.len() && (#[trigger] ps[k]).len() == 1 && ps[k][0] == b {
                let k = choose|k: int| 0 <= k < ps.len() && (#[trigger] ps[k]).len() == 1 && ps[k][0] == b;
                if k < init.len() {
                    assert(init[k] == ps[k]);
                    let j = choose|j: int| 0 <= j < prev.len() && prev[j] == b;
                    assert(single_of(ps)[j] == b);
                } else {
                    assert(single_of(ps)[prev.len() as int] == b);
                }
            }
        } else {
            assert(single_of(ps) == prev);
            if exists|k: int| 0 <= k < ps.len() && (#[trigger] ps[k]).len() == 1 && ps[k][0] == b {
                let k = choose|k: int| 0 <= k < ps.len() && (#[trigger] ps[k]).len() == 1 && ps[k][0] == b;
                assert(k < init.len());
                assert(init[k] == ps[k]);
            }
            if prev.contains(b) {
                let k = choose|k: int| 0 <= k < init.len() && (#[trigger] init[k]).len() == 1 && init[k][0] == b;
                assert(ps[k] == init[k]);
            }
        }
    }
}

/// The longer patterns kept are the given patterns of other lengths that
/// share no byte with `bytes`.
proof fn lemma_kept_contains(ps: Seq<Seq<u8>>, bytes: Seq<u8>, p: Seq<u8>)
    ensures
        without_shared(multi_of(ps), bytes).contains(p) <==> exists|k: int|
            0 <= k < ps.len() && #[trigger] ps[k] == p && p.len() != 1 && !shares_byte(p, bytes),
    decreases ps.len(),
{
    if ps.len() > 0 {
        let init = ps.drop_last();
        lemma_kept_contains(init, bytes, p);
        let m = multi_of(ps);
        let mi = multi_of(init);
        let prev = without_shared(mi, bytes);
        let cur = without_shared(m, bytes);
        let last = ps.last();
        if last.len() != 1 {
            assert(m == mi.push(last));
            assert(m.drop_last() =~= mi);
            if shares_byte(last, bytes) {
                assert(cur == prev);
            } else {
                assert(cur == prev.push(last));
            }
        } else {
            assert(m == mi);
            assert(cur == prev);
        }
        if cur.contains(p) {
            if prev.contains(p) {
                let k = choose|k: int| 0 <= k < init.len() && #[trigger] init[k] == p && p.len() != 1 && !shares_byte(p, bytes);
                assert(ps[k] == init[k]);
            } else {
                let j = choose|j: int| 0 <= j < cur.len() && cur[j] == p;
                assert(j == prev.len());
                assert(ps[ps.len() - 1] == last);
            }
        }
        if exists|k: int| 0 <= k < ps.len() && #[trigger] ps[k] == p && p.len() != 1 && !shares_byte(p, bytes) {
            let k = choose|k: int| 0 <= k < ps.len() && #[trigger] ps[k] == p && p.len() != 1 && !shares_byte(p, bytes);
            if k < init.len() {
                assert(init[k] == ps[k]);
                let j = choose|j: int| 0 <= j < prev.len() && prev[j] == p;
                assert(cur[j] == p);
            } else {
                assert(last == p);
                assert(cur[prev.len() as int] == p);
            }
        }
    }
}

/// Partitioning loses nothing: a field holds one of the reserved bytes or
/// kept longer patterns exactly when one of the given non-empty patterns
/// occurs in it, since a dropped longer pattern holds a reserved byte.
pub proof fn law_reserved_quoting(reserved: &ReservedPatterns, patterns: Seq<Seq<u8>>, field: Seq<u8>)
    requires
        reserved.singles() == single_of(patterns),
        reserved.multis() == without_shared(multi_of(patterns), single_of(patterns)),
        forall|k: int| 0 <= k < patterns.len() ==> (#[trigger] patterns[k]).len() > 0,
    ensures
        ((exists|i: int| 0 <= i < field.len() && reserved.singles().contains(#[trigger] field[i]))
            || (exists|k: int| 0 <= k < reserved.multis().len() && occurs_in(field, #[trigger] reserved.multis()[k])))
            <==> (exists|k: int| 0 <= k < patterns.len() && occurs_in(field, #[trigger] patterns[k])),
{
    let singles = single_of(patterns);
    let multis = reserved.multis();
    if exists|i: int| 0 <= i < field.len() && singles.contains(#[trigger] field[i]) {
        let i = choose|i: int| 0 <= i < field.len() && singles.contains(#[trigger] field[i]);
        lemma_single_of_contains(patterns, field[i]);
        let k = choose|k: int| 0 <= k < patterns.len() && (#[trigger] patterns[k]).len() == 1 && patterns[k][0] == field[i];
        assert(field.subrange(i, i + 1) =~= patterns[k]);
        assert(occurs_in(field, patterns[k]));
    }
    if exists|k: int| 0 <= k < multis.len() && occurs_in(field, #[trigger] multis[k]) {
        let k = choose|k: int| 0 <= k < multis.len() && occurs_in(field, #[trigger] multis[k]);
        assert(multis.contains(multis[k]));
        lemma_kept_contains(patterns, singles, multis[k]);
        let j = choose|j: int| 0 <= j < patterns.len() && #[trigger] patterns[j] == multis[k] && multis[k].len() != 1
            && !shares_byte(multis[k], singles);
        assert(occurs_in(field, patterns[j]));
    }
    if exists|k: int| 0 <= k < patterns.len() && occurs_in(field, #[trigger] patterns[k]) {
        let k = choose|k: int| 0 <= k < patterns.len() && occurs_in(field, #[trigger] patterns[k]);
        let p = patterns[k];
        let i = choose|i: int| 0 <= i && i + p.len() <= field.len() && #[trigger] field.subrange(i, i + p.len()) == p;
        if p.len() == 1 {
            assert(field[i] == field.subrange(i, i + 1)[0]);
            lemma_single_of_contains(patterns, field[i]);
            assert(singles.contains(field[i]));
        } else if shares_byte(p, singles) {
            let t = choose|t: int| 0 <= t < p.len() && singles.contains(#[trigger] p[t]);
            assert(field[i + t] == field.subrange(i, i + p.len())[t]);
            assert(singles.contains(field[i + t]));
        } else {
            lemma_kept_contains(patterns, singles, p);
            let j = choose|j: int| 0 <= j < multis.len() && multis[j] == p;
            assert(occurs_in(field, multis[j]));
        }
    }
}

/// Whether `field` holds a reserved byte or a reserved longer pattern.
pub fn field_needs_quoting(field: &[u8], reserved: &ReservedPatterns) -> (r: bool)
    requires
        forall|k: int| 0 <= k < reserved.multis().len() ==> (#[trigger] reserved.multis()[k]).len() > 0,
    ensures
        r == ((exists|i: int| 0 <= i < field@.len() && reserved.singles().contains(#[trigger] field@[i]))
            || (exists|k: int| 0 <= k < reserved.multis().len() && occurs_in(field@, #[trigger] reserved.multis()[k]))),
{
    let mut pos: usize = 0;
    while pos < field.len()
        invariant
            0 <= pos <= field@.len(),
            forall|i: int| 0 <= i < pos ==> !reserved.singles().contains(#[trigger] field@[i]),
        decreases field@.len() - pos,
    {
        if crate::base::field::contains_byte(reserved.single_bytes.as_slice(), field[pos]) {
            return true;
        }
        pos += 1;
    }
    let mut k: usize = 0;
    while k < reserved.multi_bytes.len()
        invariant
            0 <= k <= reserved.multis().len(),
            forall|i: int| 0 <= i < field@.len() ==> !reserved.singles().contains(#[trigger] field@[i]),
            forall|kk: int| 0 <= kk < k ==> !occurs_in(field@, #[trigger] reserved.multis()[kk]),
        decreases reserved.multis().len() - k,
    {
        let pattern = &reserved.multi_bytes[k];
        assert(reserved.multis()[k as int] == pattern@);
        if pattern_occurs(field, pattern.as_slice()) {
            return true;
        }
        k += 1;
    }
    false
}

/// Whether `needle` occurs in `hay`.
pub fn pattern_occurs(hay: &[u8], needle: &[u8]) -> (r: bool)
    ensures
        r == occurs_in(hay@, needle@),
{
    if needle.len() > hay.len() {
        return false;
    }
    let last = hay.len() - needle.len();
    let mut i: usize = 0;
    loop
        invariant
            last + needle@.len() == hay@.len(),
            0 <= i <= last,
            forall|j: int| 0 <= j < i ==> #[trigger] hay@.subrange(j, j + needle@.len()) != needle@,
        ensures
            forall|j: int| 0 <= j <= last ==> #[trigger] hay@.subrange(j, j + needle@.len()) != needle@,
        decreases last - i,
    {
        if starts_with_at(hay, i, needle) {
            return true;
        }
        if i == last {
            break;
        }
        i += 1;
    }
    assert forall|j: int| 0 <= j && j + needle@.len() <= hay@.len() implies #[trigger] hay@.subrange(j, j + needle@.len()) != needle@ by {
        assert(j <= last);
    }
    false
}

} // verus!
