//! Row terminators: the default `\r\n` / `\n` pair, or custom patterns
//! matched greedily, longest first.

use vstd::prelude::*;

verus! {

/// Newline patterns, longest first, and whether they are the default pair.
#[derive(Debug, Clone)]
pub struct Newlines {
    pub patterns: Vec<Vec<u8>>,
    pub is_default: bool,
}

/// The patterns of a `Newlines`, as byte sequences.
pub open spec fn patterns_of(n: &Newlines) -> Seq<Seq<u8>> {
    n.patterns@.map_values(|p: Vec<u8>| p@)
}

/// Insert `p` into `s` (ordered longest first) after every pattern at
/// least as long as `p`, keeping equal lengths in arrival order.
pub open spec fn insert_longest_first(s: Seq<Seq<u8>>, p: Seq<u8>) -> Seq<Seq<u8>>
    decreases s.len(),
{
    if s.len() == 0 {
        seq![p]
    } else if s.last().len() >= p.len() {
        s.push(p)
    } else {
        insert_longest_first(s.drop_last(), p).push(s.last())
    }
}

/// Stable sort of `ps`, longest first.
pub open spec fn sort_longest_first(ps: Seq<Seq<u8>>) -> Seq<Seq<u8>>
    decreases ps.len(),
{
    if ps.len() == 0 {
        Seq::empty()
    } else {
        insert_longest_first(sort_longest_first(ps.drop_last()), ps.last())
    }
}

/// Non-increasing length.
pub open spec fn longest_first(s: Seq<Seq<u8>>) -> bool {
    forall|i: int, j: int| 0 <= i < j < s.len() ==> s[i].len() >= s[j].len()
}

/// Length of the first pattern in `pats` that starts `s` at `pos`, else 0.
pub open spec fn first_match_len(s: Seq<u8>, pos: int, pats: Seq<Seq<u8>>) -> int
    decreases pats.len(),
{
    if pats.len() == 0 {
        0
    } else if pos + pats[0].len() <= s.len() && s.subrange(pos, pos + pats[0].len()) == pats[0] {
        pats[0].len() as int
    } else {
        first_match_len(s, pos, pats.skip(1))
    }
}

/// A match length is 0 or the length of a pattern that fits at `pos`.
pub proof fn lemma_first_match_len_fits(s: Seq<u8>, pos: int, pats: Seq<Seq<u8>>)
    ensures
        first_match_len(s, pos, pats) >= 0,
        first_match_len(s, pos, pats) > 0 ==> pos + first_match_len(s, pos, pats) <= s.len(),
    decreases pats.len(),
{
    if pats.len() > 0 {
        lemma_first_match_len_fits(s, pos, pats.skip(1));
    }
}

/// Longest pattern length, or 1 when there is none.
pub open spec fn max_len_or_one(pats: Seq<Seq<u8>>) -> int
    decreases pats.len(),
{
    if pats.len() == 0 {
        1
    } else if pats.len() == 1 {
        pats[0].len() as int
    } else {
        let m = max_len_or_one(pats.drop_last());
        if pats.last().len() > m {
            pats.last().len() as int
        } else {
            m
        }
    }
}

/// Every pattern of an insertion is the inserted one or was there before.
proof fn lemma_insert_elems(s: Seq<Seq<u8>>, p: Seq<u8>)
    ensures
        forall|i: int| 0 <= i < insert_longest_first(s, p).len() ==> (#[trigger] insert_longest_first(s, p)[i] == p
            || s.contains(insert_longest_first(s, p)[i])),
    decreases s.len(),
{
    let r = insert_longest_first(s, p);
    if s.len() == 0 {
    } else if s.last().len() >= p.len() {
        assert forall|i: int| 0 <= i < r.len() implies (#[trigger] r[i] == p || s.contains(r[i])) by {
            if i < s.len() {
                assert(r[i] == s[i]);
            }
        }
    } else {
        let d = s.drop_last();
        lemma_insert_elems(d, p);
        let rd = insert_longest_first(d, p);
        assert forall|i: int| 0 <= i < r.len() implies (#[trigger] r[i] == p || s.contains(r[i])) by {
            if i < rd.len() {
                assert(r[i] == rd[i]);
                if rd[i] != p {
                    let j = choose|j: int| 0 <= j < d.len() && d[j] == rd[i];
                    assert(s[j] == d[j]);
                }
            } else {
                assert(r[i] == s.last());
                assert(s[s.len() - 1] == s.last());
            }
        }
    }
}

/// Sorting keeps only patterns of the input.
proof fn lemma_sort_elems(ps: Seq<Seq<u8>>)
    ensures
        forall|i: int| 0 <= i < sort_longest_first(ps).len() ==> ps.contains(#[trigger] sort_longest_first(ps)[i]),
    decreases ps.len(),
{
    if ps.len() > 0 {
        let d = ps.drop_last();
        lemma_sort_elems(d);
        let sd = sort_longest_first(d);
        lemma_insert_elems(sd, ps.last());
        let r = sort_longest_first(ps);
        assert forall|i: int| 0 <= i < r.len() implies ps.contains(#[trigger] r[i]) by {
            if r[i] == ps.last() {
                assert(ps[ps.len() - 1] == ps.last());
            } else {
                let j = choose|j: int| 0 <= j < sd.len() && sd[j] == r[i];
                let k = choose|k: int| 0 <= k < d.len() && d[k] == sd[j];
                assert(ps[k] == d[k]);
            }
        }
    }
}

/// Sorting keeps every pattern non-empty when the input's are.
pub proof fn lemma_sort_nonempty(ps: Seq<Seq<u8>>)
    requires
        forall|k: int| 0 <= k < ps.len() ==> (#[trigger] ps[k]).len() > 0,
    ensures
        forall|k: int| 0 <= k < sort_longest_first(ps).len() ==> (#[trigger] sort_longest_first(ps)[k]).len() > 0,
{
    lemma_sort_elems(ps);
    assert forall|k: int| 0 <= k < sort_longest_first(ps).len() implies (#[trigger] sort_longest_first(ps)[k]).len() > 0 by {
        let x = sort_longest_first(ps)[k];
        assert(ps.contains(x));
        let j = choose|j: int| 0 <= j < ps.len() && ps[j] == x;
    }
}

/// Inserting at the split point found from the end is
/// `insert_longest_first`.
proof fn lemma_insert_at(s: Seq<Seq<u8>>, p: Seq<u8>, j: int)
    requires
        0 <= j <= s.len(),
        j == 0 || s[j - 1].len() >= p.len(),
        forall|k: int| j <= k < s.len() ==> s[k].len() < p.len(),
    ensures
        insert_longest_first(s, p) == s.take(j) + seq![p] + s.skip(j),
    decreases s.len(),
{
    if s.len() == 0 {
        assert(s.take(j) + seq![p] + s.skip(j) =~= seq![p]);
    } else if j == s.len() {
        assert(s.take(j) + seq![p] + s.skip(j) =~= s.push(p));
    } else {
        let d = s.drop_last();
        lemma_insert_at(d, p, j);
        assert(d.take(j) + seq![p] + d.skip(j) + seq![s.last()] =~= s.take(j) + seq![p] + s.skip(j));
    }
}

/// Inserting into a list ordered longest first keeps it so.
proof fn lemma_insert_sorted(s: Seq<Seq<u8>>, p: Seq<u8>)
    requires
        longest_first(s),
    ensures
        longest_first(insert_longest_first(s, p)),
    decreases s.len(),
{
    let r = insert_longest_first(s, p);
    if s.len() > 0 {
        if s.last().len() >= p.len() {
            assert forall|i: int, j: int| 0 <= i < j < r.len() implies r[i].len() >= r[j].len() by {
                if j < s.len() {
                    assert(r[i] == s[i] && r[j] == s[j]);
                } else {
                    assert(r[i] == s[i]);
                    assert(s[i].len() >= s[s.len() - 1].len());
                }
            }
        } else {
            let d = s.drop_last();
            assert(longest_first(d)) by {
                assert forall|i: int, j: int| 0 <= i < j < d.len() implies d[i].len() >= d[j].len() by {
                    assert(d[i] == s[i] && d[j] == s[j]);
                }
            }
            lemma_insert_sorted(d, p);
            lemma_insert_elems(d, p);
            let rd = insert_longest_first(d, p);
            assert forall|i: int, j: int| 0 <= i < j < r.len() implies r[i].len() >= r[j].len() by {
                assert(r[i] == rd[i]);
                if j < rd.len() {
                    assert(r[j] == rd[j]);
                } else {
                    assert(r[j] == s.last());
                    if rd[i] != p {
                        let k = choose|k: int| 0 <= k < d.len() && d[k] == rd[i];
                        assert(s[k] == d[k]);
                        assert(s[k].len() >= s[s.len() - 1].len());
                    }
                }
            }
        }
    }
}

/// With the patterns ordered longest first, the first pattern that
/// matches is at least as long as any other that matches.
proof fn lemma_first_match_longest(s: Seq<u8>, pos: int, pats: Seq<Seq<u8>>)
    requires
        longest_first(pats),
    ensures
        forall|k: int|
            0 <= k < pats.len() && pos + pats[k].len() <= s.len() && s.subrange(pos, pos + pats[k].len())
                == #[trigger] pats[k] ==> pats[k].len() <= first_match_len(s, pos, pats),
    decreases pats.len(),
{
    if pats.len() > 0 {
        let rest = pats.skip(1);
        assert(longest_first(rest)) by {
            assert forall|i: int, j: int| 0 <= i < j < rest.len() implies rest[i].len() >= rest[j].len() by {
                assert(rest[i] == pats[i + 1] && rest[j] == pats[j + 1]);
            }
        }
        lemma_first_match_longest(s, pos, rest);
        assert forall|k: int|
            0 <= k < pats.len() && pos + pats[k].len() <= s.len() && s.subrange(pos, pos + pats[k].len())
                == #[trigger] pats[k] implies pats[k].len() <= first_match_len(s, pos, pats) by {
            if k > 0 {
                assert(rest[k - 1] == pats[k]);
            }
        }
    }
}

/// Custom newlines match greedily: `custom` orders the patterns longest
/// first, keeping the given order among equal lengths, so that
/// `match_newline` takes the longest pattern that matches.
pub proof fn law_custom_match_is_longest(ps: Seq<Seq<u8>>, s: Seq<u8>, pos: int)
    ensures
        longest_first(sort_longest_first(ps)),
        forall|k: int|
            0 <= k < sort_longest_first(ps).len() && pos + sort_longest_first(ps)[k].len() <= s.len() && s.subrange(
                pos,
                pos + sort_longest_first(ps)[k].len(),
            ) == #[trigger] sort_longest_first(ps)[k] ==> sort_longest_first(ps)[k].len() <= first_match_len(
                s,
                pos,
                sort_longest_first(ps),
            ),
    decreases ps.len(),
{
    if ps.len() > 0 {
        law_custom_match_is_longest(ps.drop_last(), s, pos);
        lemma_insert_sorted(sort_longest_first(ps.drop_last()), ps.last());
    }
    lemma_first_match_longest(s, pos, sort_longest_first(ps));
}

/// Whether `s[pos..]` starts with `pat`.
pub fn starts_with_at(s: &[u8], pos: usize, pat: &[u8]) -> (r: bool)
    ensures
        r == (pos + pat@.len() <= s@.len() && s@.subrange(pos as int, pos + pat@.len()) == pat@),
{
    let slen = s.len();
    if pos > slen || pat.len() > slen - pos {
        return false;
    }
    let mut k: usize = 0;
    while k < pat.len()
        invariant
            slen == s@.len(),
            pos + pat@.len() <= s@.len(),
            0 <= k <= pat@.len(),
            forall|i: int| 0 <= i < k ==> s@[pos + i] == pat@[i],
        decreases pat@.len() - k,
    {
        assert(pos + k < slen);
        let i = pos + k;
        if s[i] != pat[k] {
            assert(s@.subrange(pos as int, pos + pat@.len())[k as int] != pat@[k as int]);
            return false;
        }
        k += 1;
    }
    assert(s@.subrange(pos as int, pos + pat@.len()) =~= pat@);
    true
}

impl Newlines {
    /// The default terminators `\r\n` and `\n`.
    pub fn default_newlines() -> (r: Self)
        ensures
            r.is_default,
            patterns_of(&r) == seq![seq![13u8, 10u8], seq![10u8]],
    {
        let mut crlf: Vec<u8> = Vec::new();
        crlf.push(13u8);
        crlf.push(10u8);
        let mut lf: Vec<u8> = Vec::new();
        lf.push(10u8);
        assert(crlf@ =~= seq![13u8, 10u8]);
        assert(lf@ =~= seq![10u8]);
        let mut patterns: Vec<Vec<u8>> = Vec::new();
        patterns.push(crlf);
        patterns.push(lf);
        let r = Newlines { patterns, is_default: true };
        assert(patterns_of(&r) =~= seq![seq![13u8, 10u8], seq![10u8]]);
        r
    }

    /// Custom terminators, stably sorted longest first so that matching is
    /// greedy.
    pub fn custom(patterns: Vec<Vec<u8>>) -> (r: Self)
        ensures
            !r.is_default,
            patterns_of(&r) == sort_longest_first(patterns@.map_values(|p: Vec<u8>| p@)),
    {
        let ghost input = patterns@.map_values(|p: Vec<u8>| p@);
        let mut sorted: Vec<Vec<u8>> = Vec::new();
        let n = patterns.len();
        let mut rest = patterns;
        let mut taken: usize = 0;
        assert(input.take(0) =~= Seq::<Seq<u8>>::empty());
        while taken < n
            invariant
                0 <= taken <= n,
                n as int == input.len(),
                rest@.len() == n - taken,
                forall|k: int| 0 <= k < rest@.len() ==> rest@[k]@ == input[taken + k],
                sorted@.map_values(|p: Vec<u8>| p@) == sort_longest_first(input.take(taken as int)),
            decreases n - taken,
        {
            let p = rest.remove(0);
            let ghost pv = p@;
            assert(pv == input[taken as int]);
            let ghost sv = sorted@.map_values(|q: Vec<u8>| q@);
            let mut j = sorted.len();
            let plen = p.len();
            while j > 0
                invariant
                    0 <= j <= sorted@.len(),
                    sv == sorted@.map_values(|q: Vec<u8>| q@),
                    plen == pv.len(),
                    forall|k: int| j <= k < sv.len() ==> sv[k].len() < pv.len(),
                ensures
                    0 <= j <= sv.len(),
                    j == 0 || sv[j - 1].len() >= pv.len(),
                    forall|k: int| j <= k < sv.len() ==> sv[k].len() < pv.len(),
                decreases j,
            {
                let ql = sorted[j - 1].len();
                assert(sv[j - 1] == sorted@[j - 1]@);
                if ql >= plen {
                    break;
                }
                j -= 1;
            }
            proof {
                lemma_insert_at(sv, pv, j as int);
                assert(input.take(taken + 1).drop_last() =~= input.take(taken as int));
            }
            sorted.insert(j, p);
            assert(sorted@.map_values(|q: Vec<u8>| q@) =~= sv.take(j as int) + seq![pv] + sv.skip(j as int));
            taken += 1;
            assert forall|k: int| 0 <= k < rest@.len() implies rest@[k]@ == input[taken + k] by {
            }
        }
        assert(input.take(n as int) =~= input);
        Newlines { patterns: sorted, is_default: false }
    }

    /// Longest pattern length, or 1 when there are no patterns.
    pub fn max_pattern_len(&self) -> (r: usize)
        ensures
            r == max_len_or_one(patterns_of(self)),
    {
        let ghost ps = patterns_of(self);
        if self.patterns.len() == 0 {
            return 1;
        }
        let mut m = self.patterns[0].len();
        let mut i: usize = 1;
        assert(ps.take(1).drop_last() =~= Seq::<Seq<u8>>::empty());
        assert(max_len_or_one(ps.take(1)) == ps[0].len());
        while i < self.patterns.len()
            invariant
                1 <= i <= ps.len(),
                ps == patterns_of(self),
                m == max_len_or_one(ps.take(i as int)),
            decreases ps.len() - i,
        {
            let l = self.patterns[i].len();
            assert(ps.take(i + 1).drop_last() =~= ps.take(i as int));
            if l > m {
                m = l;
            }
            i += 1;
        }
        assert(ps.take(ps.len() as int) =~= ps);
        m
    }
}

/// Length of the first pattern that matches at `pos`, or 0 when none does.
pub fn match_newline(input: &[u8], pos: usize, newlines: &Newlines) -> (r: usize)
    requires
        pos <= input@.len(),
    ensures
        r == first_match_len(input@, pos as int, patterns_of(newlines)),
{
    let ghost ps = patterns_of(newlines);
    let mut i: usize = 0;
    assert(ps.skip(0) =~= ps);
    while i < newlines.patterns.len()
        invariant
            0 <= i <= ps.len(),
            ps == patterns_of(newlines),
            first_match_len(input@, pos as int, ps.skip(i as int)) == first_match_len(input@, pos as int, ps),
        decreases ps.len() - i,
    {
        let pattern = &newlines.patterns[i];
        assert(ps.skip(i as int)[0] == pattern@);
        if starts_with_at(input, pos, pattern.as_slice()) {
            return pattern.len();
        }
        assert(ps.skip(i as int).skip(1) =~= ps.skip(i + 1));
        i += 1;
    }
    0
}

} // verus!
