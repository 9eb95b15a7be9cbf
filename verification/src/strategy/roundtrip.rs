//! What the encoder writes, the parsers read back: a field quoted with an
//! escape and then read as a field gives back the same bytes.

use vstd::prelude::*;

use crate::base::field::{field_value, unescape_spec};
use crate::strategy::encode::{double_escapes, quote_spec};
use crate::strategy::general::{field_value_general, unescape_general_spec};

verus! {

/// Undoing the doubling of a single-byte escape gives the field back.
proof fn lemma_unescape_doubled(field: Seq<u8>, esc: u8)
    ensures
        unescape_spec(double_escapes(field, seq![esc]), esc) == field,
    decreases field.len(),
{
    let e = seq![esc];
    if field.len() > 0 {
        let rest = field.skip(1);
        lemma_unescape_doubled(rest, esc);
        let d = double_escapes(field, e);
        if field.subrange(0, 1) == e {
            assert(d == e + e + double_escapes(rest, e));
            assert(d.skip(2) =~= double_escapes(rest, e));
            assert(field.subrange(0, 1)[0] == field[0]);
            assert(field[0] == esc);
            assert(seq![esc] + rest =~= field);
        } else {
            assert(field[0] != esc) by {
                if field[0] == esc {
                    assert(field.subrange(0, 1) =~= e);
                }
            }
            assert(d == seq![field[0]] + double_escapes(rest, e));
            assert(d.skip(1) =~= double_escapes(rest, e));
            assert(seq![field[0]] + rest =~= field);
        }
    }
}

/// Reading back a field quoted with a single-byte escape gives the field.
pub proof fn law_quote_roundtrip(field: Seq<u8>, esc: u8)
    ensures
        field_value(quote_spec(field, seq![esc]), esc) == field,
{
    let q = quote_spec(field, seq![esc]);
    let d = double_escapes(field, seq![esc]);
    lemma_unescape_doubled(field, esc);
    assert(q.subrange(1, q.len() - 1) =~= d);
}

/// Doubling the escape keeps the start of the field: the first bytes, up
/// to the escape's length, are the field's.
proof fn lemma_doubled_prefix(f: Seq<u8>, esc: Seq<u8>)
    requires
        esc.len() > 0,
    ensures
        double_escapes(f, esc).len() >= f.len(),
        forall|i: int| 0 <= i < f.len() && i < esc.len() ==> #[trigger] double_escapes(f, esc)[i] == f[i],
        f.len() < esc.len() ==> double_escapes(f, esc) == f,
    decreases f.len(),
{
    let d = double_escapes(f, esc);
    let k = esc.len() as int;
    if f.len() > 0 {
        let r1 = f.skip(1);
        lemma_doubled_prefix(r1, esc);
        if k <= f.len() && f.subrange(0, k) == esc {
            let rk = f.skip(k);
            lemma_doubled_prefix(rk, esc);
            assert(d == esc + esc + double_escapes(rk, esc));
            assert forall|i: int| 0 <= i < f.len() && i < k implies #[trigger] d[i] == f[i] by {
                assert(d[i] == esc[i]);
                assert(f.subrange(0, k)[i] == f[i]);
            }
        } else {
            assert(d == seq![f[0]] + double_escapes(r1, esc));
            assert forall|i: int| 0 <= i < f.len() && i < k implies #[trigger] d[i] == f[i] by {
                if i > 0 {
                    assert(d[i] == double_escapes(r1, esc)[i - 1]);
                    assert(r1[i - 1] == f[i]);
                }
            }
            if f.len() < k {
                assert(d =~= f);
            }
        }
    }
}

/// Undoing the doubling of an escape of any length gives the field back.
proof fn lemma_unescape_doubled_general(f: Seq<u8>, esc: Seq<u8>)
    requires
        esc.len() > 0,
    ensures
        unescape_general_spec(double_escapes(f, esc), esc) == f,
    decreases f.len(),
{
    let k = esc.len() as int;
    let d = double_escapes(f, esc);
    if f.len() > 0 {
        if k <= f.len() && f.subrange(0, k) == esc {
            let rk = f.skip(k);
            lemma_unescape_doubled_general(rk, esc);
            assert(d == esc + esc + double_escapes(rk, esc));
            assert(d.subrange(0, k) =~= esc);
            assert(d.subrange(k, 2 * k) =~= esc);
            assert(d.skip(2 * k) =~= double_escapes(rk, esc));
            assert(esc + rk =~= f);
        } else {
            let r1 = f.skip(1);
            lemma_unescape_doubled_general(r1, esc);
            lemma_doubled_prefix(f, esc);
            assert(d == seq![f[0]] + double_escapes(r1, esc));
            assert(!(2 * k <= d.len() && d.subrange(0, k) == esc && d.subrange(k, 2 * k) == esc)) by {
                if 2 * k <= d.len() && d.subrange(0, k) == esc {
                    if f.len() >= k {
                        assert(f.subrange(0, k) =~= d.subrange(0, k)) by {
                            assert forall|i: int| 0 <= i < k implies f.subrange(0, k)[i] == d.subrange(0, k)[i] by {
                                assert(d[i] == f[i]);
                            }
                        }
                    } else {
                        assert(d == f);
                    }
                }
            }
            assert(d.skip(1) =~= double_escapes(r1, esc));
            assert(seq![f[0]] + r1 =~= f);
        }
    }
}

/// Reading back a field quoted with an escape of any length gives the
/// field.
pub proof fn law_quote_roundtrip_general(field: Seq<u8>, esc: Seq<u8>)
    requires
        esc.len() > 0,
    ensures
        field_value_general(quote_spec(field, esc), esc) == field,
{
    let q = quote_spec(field, esc);
    let d = double_escapes(field, esc);
    let k = esc.len() as int;
    lemma_unescape_doubled_general(field, esc);
    lemma_doubled_prefix(field, esc);
    assert(q.subrange(0, k) =~= esc);
    assert(q.subrange(q.len() - k, q.len() as int) =~= esc);
    assert(q.subrange(k, q.len() - k) =~= d);
}

} // verus!
