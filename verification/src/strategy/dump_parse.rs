//! What the encoder dumps, the batch parsers read back: rows encoded with a
//! one-byte separator and escape, one after the other, parse to the same
//! rows, each field with its formula replacement in front when a rule
//! fired.

use vstd::prelude::*;

use crate::base::field::{extract_spec, field_value};
use crate::base::simd_index::{MAX_INPUT_SIZE, RowEnd, row_start_of, row_count_of, content_end_of};
use crate::base::simd_scanner::{batch_rows, ends_upto, lf_at, quoted_at, row_end_for};
use crate::encoder::{field_bytes, formula_prefix, joined_fields, needs_quoting_spec, row_bytes};
use crate::strategy::stream_agreement::{bytes_distinct, lemma_row_matches, pq};
use crate::strategy::encode::{ReservedPatterns, double_escapes, quote_spec};
use crate::strategy::encoding::EncodingTarget;
use crate::strategy::roundtrip::law_quote_roundtrip;
use crate::strategy::streaming::{line_fields, line_walk};

verus! {

/// The value a field reads back as: the replacement of the formula rule it
/// triggers in front of it, or the field itself.
pub open spec fn written_value(rules: Seq<(u8, Seq<u8>)>, field: Seq<u8>) -> Seq<u8> {
    match formula_prefix(rules, field) {
        Some(p) => p + field,
        None => field,
    }
}

/// The encoded bytes of one UTF-8 field.
pub open spec fn field_out(field: Seq<u8>, esc: u8, rules: Seq<(u8, Seq<u8>)>, reserved: &ReservedPatterns) -> Seq<u8> {
    field_bytes(field, seq![esc], rules, reserved, EncodingTarget::Utf8)
}

/// The encoded fields of one UTF-8 row, joined by the separator.
pub open spec fn line_out(row: Seq<Seq<u8>>, sep: u8, esc: u8, rules: Seq<(u8, Seq<u8>)>, reserved: &ReservedPatterns) -> Seq<u8> {
    joined_fields(row, seq![sep], seq![esc], rules, reserved, EncodingTarget::Utf8)
}

/// The separator, the escape and both terminator bytes make a field need
/// quoting.
pub open spec fn reserves_structure(reserved: &ReservedPatterns, sep: u8, esc: u8) -> bool {
    &&& reserved.singles().contains(sep)
    &&& reserved.singles().contains(esc)
    &&& reserved.singles().contains(10u8)
    &&& reserved.singles().contains(13u8)
}

/// An encoded field is its value quoted, or its value as it is, holding no
/// escape, separator or terminator byte.
proof fn lemma_field_shape(f: Seq<u8>, sep: u8, esc: u8, rules: Seq<(u8, Seq<u8>)>, reserved: &ReservedPatterns)
    requires
        reserves_structure(reserved, sep, esc),
    ensures
        field_out(f, esc, rules, reserved) == quote_spec(written_value(rules, f), seq![esc]) || (
        field_out(f, esc, rules, reserved) == written_value(rules, f) && forall|i: int|
            0 <= i < f.len() ==> {
                &&& #[trigger] f[i] != esc
                &&& f[i] != sep
                &&& f[i] != 10u8
                &&& f[i] != 13u8
            }),
{
    if formula_prefix(rules, f) is None && !needs_quoting_spec(f, reserved) {
        assert forall|i: int| 0 <= i < f.len() implies {
            &&& #[trigger] f[i] != esc
            &&& f[i] != sep
            &&& f[i] != 10u8
            &&& f[i] != 13u8
        } by {
            assert(!reserved.singles().contains(f[i]));
        }
    }
}

/// Inside quotes, the walk steps over a field's doubled escapes without
/// leaving the quotes.
proof fn lemma_walk_doubled(l: Seq<u8>, sep: u8, esc: u8, p: int, g: Seq<u8>, fs: int, acc: Seq<(int, int)>)
    requires
        0 <= p,
        p + double_escapes(g, seq![esc]).len() < l.len(),
        l.subrange(p, p + double_escapes(g, seq![esc]).len()) == double_escapes(g, seq![esc]),
    ensures
        line_walk(l, seq![sep], esc, p, true, fs, acc) == line_walk(
            l,
            seq![sep],
            esc,
            p + double_escapes(g, seq![esc]).len(),
            true,
            fs,
            acc,
        ),
    decreases g.len(),
{
    let e = seq![esc];
    let d = double_escapes(g, e);
    if g.len() > 0 {
        let rest = g.skip(1);
        let dr = double_escapes(rest, e);
        if g.subrange(0, 1) == e {
            assert(d == e + e + dr);
            assert(l[p] == l.subrange(p, p + d.len())[0]);
            assert(l[p + 1] == l.subrange(p, p + d.len())[1]);
            assert(l.subrange(p + 2, p + 2 + dr.len()) =~= dr) by {
                assert forall|i: int| 0 <= i < dr.len() implies l.subrange(p + 2, p + 2 + dr.len())[i] == dr[i] by {
                    assert(l.subrange(p, p + d.len())[2 + i] == d[2 + i]);
                }
            }
            lemma_walk_doubled(l, sep, esc, p + 2, rest, fs, acc);
        } else {
            assert(g[0] != esc) by {
                if g[0] == esc {
                    assert(g.subrange(0, 1) =~= e);
                }
            }
            assert(d == seq![g[0]] + dr);
            assert(l[p] == l.subrange(p, p + d.len())[0]);
            assert(l.subrange(p + 1, p + 1 + dr.len()) =~= dr) by {
                assert forall|i: int| 0 <= i < dr.len() implies l.subrange(p + 1, p + 1 + dr.len())[i] == dr[i] by {
                    assert(l.subrange(p, p + d.len())[1 + i] == d[1 + i]);
                }
            }
            lemma_walk_doubled(l, sep, esc, p + 1, rest, fs, acc);
        }
    }
}

/// Outside quotes, the walk steps over bytes that are neither the escape
/// nor the separator.
proof fn lemma_walk_plain(l: Seq<u8>, sep: u8, esc: u8, p: int, n: int, fs: int, acc: Seq<(int, int)>)
    requires
        0 <= p,
        0 <= n,
        p + n <= l.len(),
        forall|i: int| p <= i < p + n ==> #[trigger] l[i] != esc && l[i] != sep,
    ensures
        line_walk(l, seq![sep], esc, p, false, fs, acc) == line_walk(l, seq![sep], esc, p + n, false, fs, acc),
    decreases n,
{
    if n > 0 {
        assert(!seq![sep].contains(l[p])) by {
            if seq![sep].contains(l[p]) {
                assert(seq![sep][0] == l[p]);
            }
        }
        lemma_walk_plain(l, sep, esc, p + 1, n - 1, fs, acc);
    }
}

/// The walk steps over one encoded field, ending outside quotes, when the
/// field is followed by the separator or ends the line.
proof fn lemma_walk_field(
    l: Seq<u8>,
    f: Seq<u8>,
    sep: u8,
    esc: u8,
    rules: Seq<(u8, Seq<u8>)>,
    reserved: &ReservedPatterns,
    p: int,
    fs: int,
    acc: Seq<(int, int)>,
)
    requires
        reserves_structure(reserved, sep, esc),
        sep != esc,
        0 <= p,
        p + field_out(f, esc, rules, reserved).len() <= l.len(),
        l.subrange(p, p + field_out(f, esc, rules, reserved).len()) == field_out(f, esc, rules, reserved),
        p + field_out(f, esc, rules, reserved).len() == l.len() || l[p + field_out(f, esc, rules, reserved).len()]
            == sep,
    ensures
        line_walk(l, seq![sep], esc, p, false, fs, acc) == line_walk(
            l,
            seq![sep],
            esc,
            p + field_out(f, esc, rules, reserved).len(),
            false,
            fs,
            acc,
        ),
{
    let fo = field_out(f, esc, rules, reserved);
    lemma_field_shape(f, sep, esc, rules, reserved);
    if fo == quote_spec(written_value(rules, f), seq![esc]) {
        let w = written_value(rules, f);
        let d = double_escapes(w, seq![esc]);
        assert(fo == seq![esc] + d + seq![esc]);
        let c = p + 1 + d.len();
        assert(l[p] == fo[0]);
        assert(l[c] == fo[1 + d.len() as int]);
        assert(l.subrange(p + 1, p + 1 + d.len()) =~= d) by {
            assert forall|i: int| 0 <= i < d.len() implies l.subrange(p + 1, p + 1 + d.len())[i] == d[i] by {
                assert(l.subrange(p, p + fo.len())[1 + i] == fo[1 + i]);
            }
        }
        lemma_walk_doubled(l, sep, esc, p + 1, w, fs, acc);
    } else {
        assert forall|i: int| p <= i < p + fo.len() implies #[trigger] l[i] != esc && l[i] != sep by {
            assert(l.subrange(p, p + fo.len())[i - p] == fo[i - p]);
        }
        lemma_walk_plain(l, sep, esc, p, fo.len() as int, fs, acc);
    }
}

/// The value read back from an encoded field is its written value.
proof fn lemma_extract_field(
    l: Seq<u8>,
    f: Seq<u8>,
    sep: u8,
    esc: u8,
    rules: Seq<(u8, Seq<u8>)>,
    reserved: &ReservedPatterns,
    p: int,
)
    requires
        reserves_structure(reserved, sep, esc),
        0 <= p,
        p + field_out(f, esc, rules, reserved).len() <= l.len(),
        l.subrange(p, p + field_out(f, esc, rules, reserved).len()) == field_out(f, esc, rules, reserved),
    ensures
        extract_spec(l, p, p + field_out(f, esc, rules, reserved).len(), esc) == written_value(rules, f),
{
    let fo = field_out(f, esc, rules, reserved);
    lemma_field_shape(f, sep, esc, rules, reserved);
    if fo == quote_spec(written_value(rules, f), seq![esc]) {
        law_quote_roundtrip(written_value(rules, f), esc);
    } else if fo.len() > 0 {
        assert(fo[0] == f[0]);
        assert(field_value(fo, esc) == fo);
    } else {
        assert(written_value(rules, f) =~= Seq::<u8>::empty());
    }
}

/// A row of two or more fields: the first field's bytes, the separator,
/// then the rest of the row.
proof fn lemma_line_front(row: Seq<Seq<u8>>, sep: u8, esc: u8, rules: Seq<(u8, Seq<u8>)>, reserved: &ReservedPatterns)
    requires
        row.len() >= 2,
    ensures
        line_out(row, sep, esc, rules, reserved) == field_out(row[0], esc, rules, reserved) + seq![sep] + line_out(
            row.skip(1),
            sep,
            esc,
            rules,
            reserved,
        ),
    decreases row.len(),
{
    let init = row.drop_last();
    let tail = row.skip(1);
    assert(tail.drop_last() =~= init.skip(1));
    assert(tail.last() == row.last());
    if row.len() == 2 {
        assert(init.len() == 1);
        assert(tail.len() == 1);
        assert(line_out(init, sep, esc, rules, reserved) == field_out(row[0], esc, rules, reserved));
        assert(line_out(tail, sep, esc, rules, reserved) == field_out(row[1], esc, rules, reserved));
    } else {
        lemma_line_front(init, sep, esc, rules, reserved);
        assert(init[0] == row[0]);
        assert(line_out(row, sep, esc, rules, reserved) =~= field_out(row[0], esc, rules, reserved) + seq![sep]
            + line_out(tail, sep, esc, rules, reserved));
    }
}

/// Walking an encoded row from `p` to the end of the line yields one field
/// per value, each reading back as its written value.
proof fn lemma_walk_row(
    l: Seq<u8>,
    row: Seq<Seq<u8>>,
    sep: u8,
    esc: u8,
    rules: Seq<(u8, Seq<u8>)>,
    reserved: &ReservedPatterns,
    p: int,
    acc: Seq<(int, int)>,
)
    requires
        reserves_structure(reserved, sep, esc),
        sep != esc,
        row.len() >= 1,
        0 <= p <= l.len(),
        l.subrange(p, l.len() as int) == line_out(row, sep, esc, rules, reserved),
    ensures
        ({
            let w = line_walk(l, seq![sep], esc, p, false, p, acc);
            &&& w.len() == acc.len() + row.len()
            &&& forall|k: int| 0 <= k < acc.len() ==> w[k] == acc[k]
            &&& forall|k: int|
                0 <= k < row.len() ==> extract_spec(l, w[acc.len() + k].0, w[acc.len() + k].1, esc) == written_value(
                    rules,
                    #[trigger] row[k],
                )
        }),
    decreases row.len(),
{
    let f0 = row[0];
    let fo = field_out(f0, esc, rules, reserved);
    let e = p + fo.len();
    if row.len() == 1 {
        assert(line_out(row, sep, esc, rules, reserved) == fo);
        assert(l.subrange(p, e) == fo);
        lemma_walk_field(l, f0, sep, esc, rules, reserved, p, p, acc);
        lemma_extract_field(l, f0, sep, esc, rules, reserved, p);
        let w = line_walk(l, seq![sep], esc, p, false, p, acc);
        assert(w == acc.push((p, l.len() as int)));
    } else {
        lemma_line_front(row, sep, esc, rules, reserved);
        let rest = line_out(row.skip(1), sep, esc, rules, reserved);
        let whole = l.subrange(p, l.len() as int);
        assert(whole == fo + seq![sep] + rest);
        assert(l.subrange(p, e) =~= fo) by {
            assert forall|i: int| 0 <= i < fo.len() implies l.subrange(p, e)[i] == fo[i] by {
                assert(whole[i] == fo[i]);
            }
        }
        assert(l[e] == whole[fo.len() as int]);
        lemma_walk_field(l, f0, sep, esc, rules, reserved, p, p, acc);
        lemma_extract_field(l, f0, sep, esc, rules, reserved, p);
        assert(!seq![sep].contains(esc)) by {
            if seq![sep].contains(esc) {
                assert(seq![sep][0] == esc);
            }
        }
        assert(seq![sep].contains(l[e])) by {
            assert(seq![sep][0] == l[e]);
        }
        let acc2 = acc.push((p, e));
        assert(line_walk(l, seq![sep], esc, e, false, p, acc) == line_walk(l, seq![sep], esc, e + 1, false, e + 1, acc2));
        assert(l.subrange(e + 1, l.len() as int) =~= rest) by {
            assert forall|i: int| 0 <= i < rest.len() implies l.subrange(e + 1, l.len() as int)[i] == rest[i] by {
                assert(whole[fo.len() + 1 + i] == rest[i]);
            }
        }
        lemma_walk_row(l, row.skip(1), sep, esc, rules, reserved, e + 1, acc2);
        let w = line_walk(l, seq![sep], esc, p, false, p, acc);
        assert forall|k: int| 0 <= k < row.len() implies extract_spec(l, w[acc.len() + k].0, w[acc.len() + k].1, esc)
            == written_value(rules, #[trigger] row[k]) by {
            if k > 0 {
                assert(row.skip(1)[k - 1] == row[k]);
                assert(acc2.len() + (k - 1) == acc.len() + k);
            } else {
                assert(w[acc.len() as int] == acc2[acc.len() as int]);
            }
        }
    }
}

/// An encoded row, read as a line, gives back its written values.
pub proof fn lemma_line_fields(row: Seq<Seq<u8>>, sep: u8, esc: u8, rules: Seq<(u8, Seq<u8>)>, reserved: &ReservedPatterns)
    requires
        reserves_structure(reserved, sep, esc),
        sep != esc,
        row.len() >= 1,
    ensures
        line_fields(line_out(row, sep, esc, rules, reserved), seq![sep], esc) == row.map_values(
            |f: Seq<u8>| written_value(rules, f),
        ),
{
    let l = line_out(row, sep, esc, rules, reserved);
    assert(l.subrange(0, l.len() as int) =~= l);
    lemma_walk_row(l, row, sep, esc, rules, reserved, 0, Seq::empty());
    let lf = line_fields(l, seq![sep], esc);
    let want = row.map_values(|f: Seq<u8>| written_value(rules, f));
    assert forall|k: int| 0 <= k < row.len() implies lf[k] == want[k] by {
        assert(row[k] == row[k]);
    }
    assert(lf =~= want);
}

/// Rows dumped one after the other, each followed by the line separator.
pub open spec fn dump_out(
    rows: Seq<Seq<Seq<u8>>>,
    sep: u8,
    esc: u8,
    line_sep: Seq<u8>,
    rules: Seq<(u8, Seq<u8>)>,
    reserved: &ReservedPatterns,
) -> Seq<u8>
    decreases rows.len(),
{
    if rows.len() == 0 {
        Seq::empty()
    } else {
        dump_out(rows.drop_last(), sep, esc, line_sep, rules, reserved) + row_bytes(
            rows.last(),
            seq![sep],
            seq![esc],
            line_sep,
            rules,
            reserved,
            EncodingTarget::Utf8,
        )
    }
}

/// Outside the escape, the parity does not change.
proof fn lemma_par_plain(s: Seq<u8>, esc: u8, p: int, n: int)
    requires
        0 <= p,
        0 <= n,
        p + n <= s.len(),
        forall|i: int| p <= i < p + n ==> #[trigger] s[i] != esc,
    ensures
        pq(s, esc, p + n) == pq(s, esc, p),
    decreases n,
{
    if n > 0 {
        lemma_par_plain(s, esc, p, n - 1);
    }
}

/// Over doubled escapes the parity comes back to quoted, and every byte
/// other than an escape lies inside the quotes.
proof fn lemma_par_doubled(s: Seq<u8>, esc: u8, p: int, g: Seq<u8>)
    requires
        0 <= p,
        p + double_escapes(g, seq![esc]).len() <= s.len(),
        s.subrange(p, p + double_escapes(g, seq![esc]).len()) == double_escapes(g, seq![esc]),
        pq(s, esc, p),
    ensures
        pq(s, esc, p + double_escapes(g, seq![esc]).len()),
        forall|i: int|
            p <= i < p + double_escapes(g, seq![esc]).len() && #[trigger] s[i] != esc ==> pq(s, esc, i),
    decreases g.len(),
{
    let e = seq![esc];
    let d = double_escapes(g, e);
    if g.len() > 0 {
        let rest = g.skip(1);
        let dr = double_escapes(rest, e);
        if g.subrange(0, 1) == e {
            assert(d == e + e + dr);
            assert(s[p] == s.subrange(p, p + d.len())[0]);
            assert(s[p + 1] == s.subrange(p, p + d.len())[1]);
            assert(s.subrange(p + 2, p + 2 + dr.len()) =~= dr) by {
                assert forall|i: int| 0 <= i < dr.len() implies s.subrange(p + 2, p + 2 + dr.len())[i] == dr[i] by {
                    assert(s.subrange(p, p + d.len())[2 + i] == d[2 + i]);
                }
            }
            assert(!pq(s, esc, p + 1));
            assert(pq(s, esc, p + 2));
            lemma_par_doubled(s, esc, p + 2, rest);
        } else {
            assert(g[0] != esc) by {
                if g[0] == esc {
                    assert(g.subrange(0, 1) =~= e);
                }
            }
            assert(d == seq![g[0]] + dr);
            assert(s[p] == s.subrange(p, p + d.len())[0]);
            assert(s.subrange(p + 1, p + 1 + dr.len()) =~= dr) by {
                assert forall|i: int| 0 <= i < dr.len() implies s.subrange(p + 1, p + 1 + dr.len())[i] == dr[i] by {
                    assert(s.subrange(p, p + d.len())[1 + i] == d[1 + i]);
                }
            }
            lemma_par_doubled(s, esc, p + 1, rest);
        }
    }
}

/// An encoded field that starts outside quotes ends outside them, holds
/// line feeds only inside them, and does not end with a carriage return.
proof fn lemma_par_field(
    s: Seq<u8>,
    f: Seq<u8>,
    sep: u8,
    esc: u8,
    rules: Seq<(u8, Seq<u8>)>,
    reserved: &ReservedPatterns,
    p: int,
)
    requires
        reserves_structure(reserved, sep, esc),
        esc != 10u8,
        esc != 13u8,
        0 <= p,
        p + field_out(f, esc, rules, reserved).len() <= s.len(),
        s.subrange(p, p + field_out(f, esc, rules, reserved).len()) == field_out(f, esc, rules, reserved),
        !pq(s, esc, p),
    ensures
        !pq(s, esc, p + field_out(f, esc, rules, reserved).len()),
        forall|i: int|
            p <= i < p + field_out(f, esc, rules, reserved).len() && #[trigger] s[i] == 10u8 ==> pq(s, esc, i),
        field_out(f, esc, rules, reserved).len() > 0 ==> s[p + field_out(f, esc, rules, reserved).len() - 1]
            != 13u8,
{
    let fo = field_out(f, esc, rules, reserved);
    lemma_field_shape(f, sep, esc, rules, reserved);
    if fo == quote_spec(written_value(rules, f), seq![esc]) {
        let w = written_value(rules, f);
        let d = double_escapes(w, seq![esc]);
        assert(fo == seq![esc] + d + seq![esc]);
        let c = p + 1 + d.len();
        assert(s[p] == s.subrange(p, p + fo.len())[0]);
        assert(s[c] == s.subrange(p, p + fo.len())[1 + d.len() as int]);
        assert(s.subrange(p + 1, p + 1 + d.len()) =~= d) by {
            assert forall|i: int| 0 <= i < d.len() implies s.subrange(p + 1, p + 1 + d.len())[i] == d[i] by {
                assert(s.subrange(p, p + fo.len())[1 + i] == fo[1 + i]);
            }
        }
        assert(pq(s, esc, p + 1));
        lemma_par_doubled(s, esc, p + 1, w);
        assert(!pq(s, esc, c + 1));
    } else {
        assert forall|i: int| p <= i < p + fo.len() implies #[trigger] s[i] != esc && s[i] != 10u8 && s[i] != 13u8 by {
            assert(s.subrange(p, p + fo.len())[i - p] == fo[i - p]);
        }
        lemma_par_plain(s, esc, p, fo.len() as int);
    }
}

/// An encoded row that starts outside quotes ends outside them, holds line
/// feeds only inside them, and does not end with a carriage return.
proof fn lemma_par_line(
    s: Seq<u8>,
    row: Seq<Seq<u8>>,
    sep: u8,
    esc: u8,
    rules: Seq<(u8, Seq<u8>)>,
    reserved: &ReservedPatterns,
    p: int,
)
    requires
        reserves_structure(reserved, sep, esc),
        bytes_distinct(seq![sep], esc),
        row.len() >= 1,
        0 <= p,
        p + line_out(row, sep, esc, rules, reserved).len() <= s.len(),
        s.subrange(p, p + line_out(row, sep, esc, rules, reserved).len()) == line_out(row, sep, esc, rules, reserved),
        !pq(s, esc, p),
    ensures
        !pq(s, esc, p + line_out(row, sep, esc, rules, reserved).len()),
        forall|i: int|
            p <= i < p + line_out(row, sep, esc, rules, reserved).len() && #[trigger] s[i] == 10u8 ==> pq(s, esc, i),
        line_out(row, sep, esc, rules, reserved).len() > 0 ==> s[p + line_out(row, sep, esc, rules, reserved).len() - 1]
            != 13u8,
    decreases row.len(),
{
    let l = line_out(row, sep, esc, rules, reserved);
    let fo = field_out(row[0], esc, rules, reserved);
    assert(sep != 10u8 && sep != 13u8 && sep != esc) by {
        assert(seq![sep].contains(sep)) by {
            assert(seq![sep][0] == sep);
        }
    }
    if row.len() == 1 {
        assert(l == fo);
        lemma_par_field(s, row[0], sep, esc, rules, reserved, p);
    } else {
        lemma_line_front(row, sep, esc, rules, reserved);
        let rest = line_out(row.skip(1), sep, esc, rules, reserved);
        let whole = s.subrange(p, p + l.len());
        assert(whole == fo + seq![sep] + rest);
        let e = p + fo.len();
        assert(s.subrange(p, e) =~= fo) by {
            assert forall|i: int| 0 <= i < fo.len() implies s.subrange(p, e)[i] == fo[i] by {
                assert(whole[i] == fo[i]);
            }
        }
        assert(s[e] == whole[fo.len() as int]);
        lemma_par_field(s, row[0], sep, esc, rules, reserved, p);
        assert(!pq(s, esc, e + 1));
        assert(s.subrange(e + 1, e + 1 + rest.len()) =~= rest) by {
            assert forall|i: int| 0 <= i < rest.len() implies s.subrange(e + 1, e + 1 + rest.len())[i] == rest[i] by {
                assert(whole[fo.len() + 1 + i] == rest[i]);
            }
        }
        lemma_par_line(s, row.skip(1), sep, esc, rules, reserved, e + 1);
        assert(p + l.len() == e + 1 + rest.len());
    }
}

/// With no unquoted line feed in `a..a + n`, no row end is found there.
proof fn lemma_no_ends(s: Seq<u8>, esc: u8, a: int, n: int)
    requires
        0 <= a,
        0 <= n,
        forall|i: int| a <= i < a + n ==> !#[trigger] lf_at(s, esc, 0, false, i),
    ensures
        ends_upto(s, esc, 0, false, a + n) == ends_upto(s, esc, 0, false, a),
    decreases n,
{
    if n > 0 {
        lemma_no_ends(s, esc, a, n - 1);
    }
}

/// One dumped row, starting outside quotes after a line feed: it ends
/// outside quotes with a line feed, and adds exactly its own row end.
proof fn lemma_row_step(
    s: Seq<u8>,
    row: Seq<Seq<u8>>,
    sep: u8,
    esc: u8,
    line_sep: Seq<u8>,
    rules: Seq<(u8, Seq<u8>)>,
    reserved: &ReservedPatterns,
    off: int,
)
    requires
        reserves_structure(reserved, sep, esc),
        bytes_distinct(seq![sep], esc),
        line_sep == seq![10u8] || line_sep == seq![13u8, 10u8],
        row.len() >= 1,
        0 <= off,
        off + line_out(row, sep, esc, rules, reserved).len() + line_sep.len() <= s.len(),
        s.len() <= MAX_INPUT_SIZE,
        s.subrange(off, off + line_out(row, sep, esc, rules, reserved).len() + line_sep.len()) == line_out(
            row,
            sep,
            esc,
            rules,
            reserved,
        ) + line_sep,
        !pq(s, esc, off),
        off == 0 || s[off - 1] == 10u8,
    ensures
        ({
            let j = line_out(row, sep, esc, rules, reserved).len();
            let n = off + j + line_sep.len();
            &&& !pq(s, esc, n)
            &&& s[n - 1] == 10u8
            &&& ends_upto(s, esc, 0, false, n) == ends_upto(s, esc, 0, false, off).push(
                RowEnd { pos: (off + j) as u32, len: line_sep.len() as u8 },
            )
        }),
{
    let l = line_out(row, sep, esc, rules, reserved);
    let j = l.len() as int;
    let r = l + line_sep;
    let m = off + j;
    assert(s.subrange(off, m) =~= l) by {
        assert forall|i: int| 0 <= i < j implies s.subrange(off, m)[i] == l[i] by {
            assert(s.subrange(off, m + line_sep.len())[i] == r[i]);
        }
    }
    lemma_par_line(s, row, sep, esc, rules, reserved, off);
    assert forall|i: int| off <= i < off + j implies !#[trigger] lf_at(s, esc, 0, false, i) by {
        if s[i] == 10u8 {
            assert(pq(s, esc, i));
        }
    }
    lemma_no_ends(s, esc, off, j);
    assert forall|t: int| 0 <= t < line_sep.len() implies s[m + t] == #[trigger] line_sep[t] by {
        assert(s.subrange(off, m + line_sep.len())[j + t] == r[j + t]);
    }
    if line_sep == seq![10u8] {
        assert(line_sep[0] == 10u8);
        assert(s[m] == line_sep[0]);
        assert(lf_at(s, esc, 0, false, m));
        if j > 0 {
            assert(s[m - 1] != 13u8);
        } else if off > 0 {
            assert(s[m - 1] == 10u8);
        }
        assert(row_end_for(s, m) == RowEnd { pos: m as u32, len: 1u8 });
    } else {
        assert(line_sep[0] == 13u8 && line_sep[1] == 10u8);
        assert(s[m] == line_sep[0]);
        assert(s[m + 1] == line_sep[1]);
        assert(!lf_at(s, esc, 0, false, m));
        assert(ends_upto(s, esc, 0, false, m + 1) == ends_upto(s, esc, 0, false, m));
        assert(!pq(s, esc, m + 1));
        assert(lf_at(s, esc, 0, false, m + 1));
        assert(row_end_for(s, m + 1) == RowEnd { pos: m as u32, len: 2u8 });
    }
}

/// A shorter dump is a prefix of a longer one, and one more row appends its
/// bytes.
proof fn lemma_dump_prefix(
    rows: Seq<Seq<Seq<u8>>>,
    sep: u8,
    esc: u8,
    line_sep: Seq<u8>,
    rules: Seq<(u8, Seq<u8>)>,
    reserved: &ReservedPatterns,
    k: int,
)
    requires
        0 <= k <= rows.len(),
    ensures
        dump_out(rows.take(k), sep, esc, line_sep, rules, reserved).len() <= dump_out(rows, sep, esc, line_sep, rules, reserved).len(),
        dump_out(rows, sep, esc, line_sep, rules, reserved).subrange(
            0,
            dump_out(rows.take(k), sep, esc, line_sep, rules, reserved).len() as int,
        ) == dump_out(rows.take(k), sep, esc, line_sep, rules, reserved),
    decreases rows.len(),
{
    let d = dump_out(rows, sep, esc, line_sep, rules, reserved);
    if k == rows.len() {
        assert(rows.take(k) =~= rows);
        assert(d.subrange(0, d.len() as int) =~= d);
    } else {
        let init = rows.drop_last();
        lemma_dump_prefix(init, sep, esc, line_sep, rules, reserved, k);
        assert(init.take(k) =~= rows.take(k));
        let di = dump_out(init, sep, esc, line_sep, rules, reserved);
        let dk = dump_out(rows.take(k), sep, esc, line_sep, rules, reserved);
        assert(d.subrange(0, dk.len() as int) =~= di.subrange(0, dk.len() as int));
    }
}

/// Where row `k` of a dump starts.
pub open spec fn dump_offset(
    rows: Seq<Seq<Seq<u8>>>,
    sep: u8,
    esc: u8,
    line_sep: Seq<u8>,
    rules: Seq<(u8, Seq<u8>)>,
    reserved: &ReservedPatterns,
    k: int,
) -> int {
    dump_out(rows.take(k), sep, esc, line_sep, rules, reserved).len() as int
}

/// Row `k` of a dump lies at its offset: its encoded line, then the line
/// separator, up to the next row's offset.
proof fn lemma_dump_row(
    rows: Seq<Seq<Seq<u8>>>,
    sep: u8,
    esc: u8,
    line_sep: Seq<u8>,
    rules: Seq<(u8, Seq<u8>)>,
    reserved: &ReservedPatterns,
    k: int,
)
    requires
        0 <= k < rows.len(),
    ensures
        ({
            let s = dump_out(rows, sep, esc, line_sep, rules, reserved);
            let o = dump_offset(rows, sep, esc, line_sep, rules, reserved, k);
            let r = line_out(rows[k], sep, esc, rules, reserved) + line_sep;
            &&& dump_offset(rows, sep, esc, line_sep, rules, reserved, k + 1) == o + r.len()
            &&& o + r.len() <= s.len()
            &&& s.subrange(o, o + r.len()) == r
        }),
{
    let s = dump_out(rows, sep, esc, line_sep, rules, reserved);
    let t = rows.take(k + 1);
    assert(t.drop_last() =~= rows.take(k));
    assert(t.last() == rows[k]);
    let dk = dump_out(rows.take(k), sep, esc, line_sep, rules, reserved);
    let r = line_out(rows[k], sep, esc, rules, reserved) + line_sep;
    let dt = dump_out(t, sep, esc, line_sep, rules, reserved);
    assert(dt == dk + r);
    lemma_dump_prefix(rows, sep, esc, line_sep, rules, reserved, k + 1);
    let o = dk.len() as int;
    assert(s.subrange(o, o + r.len()) =~= r) by {
        assert forall|i: int| 0 <= i < r.len() implies s.subrange(o, o + r.len())[i] == r[i] by {
            assert(s.subrange(0, dt.len() as int)[o + i] == dt[o + i]);
        }
    }
}

/// Through the first `k` rows of a dump, the parity is even, the last byte
/// is a line feed, and the row ends found are those of the `k` rows.
proof fn lemma_dump_ends(
    rows: Seq<Seq<Seq<u8>>>,
    sep: u8,
    esc: u8,
    line_sep: Seq<u8>,
    rules: Seq<(u8, Seq<u8>)>,
    reserved: &ReservedPatterns,
    k: int,
)
    requires
        reserves_structure(reserved, sep, esc),
        bytes_distinct(seq![sep], esc),
        line_sep == seq![10u8] || line_sep == seq![13u8, 10u8],
        forall|i: int| 0 <= i < rows.len() ==> (#[trigger] rows[i]).len() >= 1,
        dump_out(rows, sep, esc, line_sep, rules, reserved).len() <= MAX_INPUT_SIZE,
        0 <= k <= rows.len(),
    ensures
        ({
            let s = dump_out(rows, sep, esc, line_sep, rules, reserved);
            let o = dump_offset(rows, sep, esc, line_sep, rules, reserved, k);
            let re = ends_upto(s, esc, 0, false, o);
            &&& 0 <= o <= s.len()
            &&& !pq(s, esc, o)
            &&& o == 0 || s[o - 1] == 10u8
            &&& re.len() == k
            &&& forall|j: int|
                0 <= j < k ==> #[trigger] re[j] == RowEnd {
                    pos: (dump_offset(rows, sep, esc, line_sep, rules, reserved, j) + line_out(
                        rows[j],
                        sep,
                        esc,
                        rules,
                        reserved,
                    ).len()) as u32,
                    len: line_sep.len() as u8,
                }
        }),
    decreases k,
{
    let s = dump_out(rows, sep, esc, line_sep, rules, reserved);
    if k == 0 {
        assert(rows.take(0) =~= Seq::<Seq<Seq<u8>>>::empty());
        assert(dump_offset(rows, sep, esc, line_sep, rules, reserved, 0) == 0);
    } else {
        lemma_dump_ends(rows, sep, esc, line_sep, rules, reserved, k - 1);
        lemma_dump_row(rows, sep, esc, line_sep, rules, reserved, k - 1);
        let o1 = dump_offset(rows, sep, esc, line_sep, rules, reserved, k - 1);
        lemma_row_step(s, rows[k - 1], sep, esc, line_sep, rules, reserved, o1);
        let o = dump_offset(rows, sep, esc, line_sep, rules, reserved, k);
        let prev = ends_upto(s, esc, 0, false, o1);
        let re = ends_upto(s, esc, 0, false, o);
        assert forall|j: int| 0 <= j < k implies #[trigger] re[j] == RowEnd {
            pos: (dump_offset(rows, sep, esc, line_sep, rules, reserved, j) + line_out(
                rows[j],
                sep,
                esc,
                rules,
                reserved,
            ).len()) as u32,
            len: line_sep.len() as u8,
        } by {
            if j < k - 1 {
                assert(re[j] == prev[j]);
            }
        }
    }
}

/// Dumping rows and parsing them back gives the rows: for rows of at least
/// one field each, encoded with a one-byte separator and escape as UTF-8
/// and ended with `\n` or `\r\n`, where the separator, the escape and both
/// terminator bytes are distinct and all make a field need quoting, the
/// batch parsers read every field back as written, with the replacement of
/// the formula rule it triggers in front of it.
pub proof fn law_dump_then_parse(
    rows: Seq<Seq<Seq<u8>>>,
    sep: u8,
    esc: u8,
    line_sep: Seq<u8>,
    rules: Seq<(u8, Seq<u8>)>,
    reserved: &ReservedPatterns,
)
    requires
        reserves_structure(reserved, sep, esc),
        bytes_distinct(seq![sep], esc),
        line_sep == seq![10u8] || line_sep == seq![13u8, 10u8],
        forall|i: int| 0 <= i < rows.len() ==> (#[trigger] rows[i]).len() >= 1,
        dump_out(rows, sep, esc, line_sep, rules, reserved).len() <= MAX_INPUT_SIZE,
    ensures
        batch_rows(dump_out(rows, sep, esc, line_sep, rules, reserved), seq![sep], esc) == rows.map_values(
            |row: Seq<Seq<u8>>| row.map_values(|f: Seq<u8>| written_value(rules, f)),
        ),
{
    let s = dump_out(rows, sep, esc, line_sep, rules, reserved);
    let n = s.len() as int;
    let m = rows.len() as int;
    lemma_dump_ends(rows, sep, esc, line_sep, rules, reserved, m);
    assert(rows.take(m) =~= rows);
    assert(dump_offset(rows, sep, esc, line_sep, rules, reserved, m) == n);
    let re = ends_upto(s, esc, 0, false, n);
    assert forall|k: int| 0 <= k <= m implies row_start_of(re, k) as int == dump_offset(
        rows,
        sep,
        esc,
        line_sep,
        rules,
        reserved,
        k,
    ) by {
        if k == 0 {
            assert(rows.take(0) =~= Seq::<Seq<Seq<u8>>>::empty());
        } else {
            lemma_dump_row(rows, sep, esc, line_sep, rules, reserved, k - 1);
            assert(re[k - 1].pos + re[k - 1].len == dump_offset(rows, sep, esc, line_sep, rules, reserved, k));
        }
    }
    assert(row_count_of(re, n as u32) == m);
    let want = rows.map_values(|row: Seq<Seq<u8>>| row.map_values(|f: Seq<u8>| written_value(rules, f)));
    let got = batch_rows(s, seq![sep], esc);
    assert forall|k: int| 0 <= k < m implies got[k] == want[k] by {
        lemma_row_matches(s, seq![sep], esc, k);
        lemma_dump_row(rows, sep, esc, line_sep, rules, reserved, k);
        let o = dump_offset(rows, sep, esc, line_sep, rules, reserved, k);
        let l = line_out(rows[k], sep, esc, rules, reserved);
        let r = l + line_sep;
        assert(content_end_of(re, n as u32, k) as int == o + l.len());
        assert(s.subrange(o, o + l.len()) =~= l) by {
            assert forall|i: int| 0 <= i < l.len() implies s.subrange(o, o + l.len())[i] == l[i] by {
                assert(s.subrange(o, o + r.len())[i] == r[i]);
            }
        }
        assert(sep != esc) by {
            assert(seq![sep][0] == sep);
        }
        lemma_line_fields(rows[k], sep, esc, rules, reserved);
    }
    assert(got =~= want);
}

} // verus!
