//! Field extraction: strip the surrounding escape bytes of a quoted field and
//! undo the doubling of escape bytes inside it.

use vstd::prelude::*;
use std::borrow::Cow;

verus! {

/// Inner content with every doubled escape byte collapsed to one, scanning
/// left to right.
pub open spec fn unescape_spec(inner: Seq<u8>, escape: u8) -> Seq<u8>
    decreases inner.len(),
{
    if inner.len() == 0 {
        Seq::empty()
    } else if inner.len() >= 2 && inner[0] == escape && inner[1] == escape {
        seq![escape] + unescape_spec(inner.skip(2), escape)
    } else {
        seq![inner[0]] + unescape_spec(inner.skip(1), escape)
    }
}

/// The field is wrapped in escape bytes.
pub open spec fn is_quoted(field: Seq<u8>, escape: u8) -> bool {
    field.len() >= 2 && field[0] == escape && field[field.len() - 1] == escape
}

/// The field with its surrounding escape bytes removed, if it has them.
pub open spec fn strip_spec(field: Seq<u8>, escape: u8) -> Seq<u8> {
    if is_quoted(field, escape) {
        field.subrange(1, field.len() - 1)
    } else {
        field
    }
}

/// The value of a field: a quoted field is unwrapped and unescaped, any
/// other field stands as it is.
pub open spec fn field_value(field: Seq<u8>, escape: u8) -> Seq<u8> {
    if is_quoted(field, escape) {
        unescape_spec(field.subrange(1, field.len() - 1), escape)
    } else {
        field
    }
}

/// The value of the field `input[start..end]`; empty when `start >= end`.
pub open spec fn extract_spec(input: Seq<u8>, start: int, end: int, escape: u8) -> Seq<u8> {
    if start >= end {
        Seq::empty()
    } else {
        field_value(input.subrange(start, end), escape)
    }
}

/// The field `input[start..end]` with its surrounding escape bytes removed;
/// empty when `start >= end`.
pub open spec fn strip_range_spec(input: Seq<u8>, start: int, end: int, escape: u8) -> Seq<u8> {
    if start >= end {
        Seq::empty()
    } else {
        strip_spec(input.subrange(start, end), escape)
    }
}

/// Content without an escape byte unescapes to itself.
pub proof fn lemma_unescape_plain(inner: Seq<u8>, escape: u8)
    requires
        !inner.contains(escape),
    ensures
        unescape_spec(inner, escape) == inner,
    decreases inner.len(),
{
    if inner.len() > 0 {
        let rest = inner.skip(1);
        assert forall|k: int| 0 <= k < rest.len() implies rest[k] != escape by {
            assert(rest[k] == inner[k + 1]);
        }
        lemma_unescape_plain(rest, escape);
        assert(inner[0] != escape);
        assert(seq![inner[0]] + rest =~= inner);
    }
}

/// Whether `bytes` holds `b`.
pub fn contains_byte(bytes: &[u8], b: u8) -> (r: bool)
    ensures
        r == bytes@.contains(b),
{
    let mut i: usize = 0;
    while i < bytes.len()
        invariant
            0 <= i <= bytes@.len(),
            forall|k: int| 0 <= k < i ==> bytes@[k] != b,
        decreases bytes@.len() - i,
    {
        if bytes[i] == b {
            assert(bytes@[i as int] == b);
            return true;
        }
        i += 1;
    }
    false
}

/// An owned copy of `bytes`.
pub fn copy_bytes(bytes: &[u8]) -> (r: Vec<u8>)
    ensures
        r@ == bytes@,
{
    let mut out: Vec<u8> = Vec::new();
    append_bytes(&mut out, bytes);
    assert(out@ =~= bytes@);
    out
}

/// Append `bytes` to `out`.
pub fn append_bytes(out: &mut Vec<u8>, bytes: &[u8])
    ensures
        final(out)@ == old(out)@ + bytes@,
{
    let ghost start = out@;
    let mut i: usize = 0;
    while i < bytes.len()
        invariant
            0 <= i <= bytes@.len(),
            out@ == start + bytes@.take(i as int),
        decreases bytes@.len() - i,
    {
        out.push(bytes[i]);
        i += 1;
        assert(out@ =~= start + bytes@.take(i as int));
    }
    assert(bytes@.take(i as int) =~= bytes@);
}

/// Collapse each doubled escape byte of a field's inner content to one.
pub fn unescape_field(inner: &[u8], escape: u8) -> (r: Vec<u8>)
    ensures
        r@ == unescape_spec(inner@, escape),
{
    let mut result: Vec<u8> = Vec::new();
    let mut i: usize = 0;
    assert(inner@.skip(0) =~= inner@);
    while i < inner.len()
        invariant
            0 <= i <= inner@.len(),
            result@ + unescape_spec(inner@.skip(i as int), escape) == unescape_spec(inner@, escape),
        decreases inner@.len() - i,
    {
        let ghost rest = inner@.skip(i as int);
        if inner[i] == escape && i + 1 < inner.len() && inner[i + 1] == escape {
            result.push(escape);
            assert(rest.skip(2) =~= inner@.skip(i + 2));
            i += 2;
        } else {
            result.push(inner[i]);
            assert(rest.skip(1) =~= inner@.skip(i + 1));
            i += 1;
        }
        assert(result@ + unescape_spec(inner@.skip(i as int), escape) =~= unescape_spec(inner@, escape));
    }
    assert(inner@.skip(i as int) =~= Seq::<u8>::empty());
    assert(result@ =~= result@ + unescape_spec(inner@.skip(i as int), escape));
    result
}

/// The field `input[start..end]` is wrapped in the escape and holds the
/// escape inside: its value must be built by collapsing doubled escapes.
pub open spec fn needs_collapse(input: Seq<u8>, start: int, end: int, escape: u8) -> bool {
    &&& start < end
    &&& is_quoted(input.subrange(start, end), escape)
    &&& input.subrange(start + 1, end - 1).contains(escape)
}

/// The value of the field `input[start..end]` with the default escape `"`.
pub fn extract_field_cow(input: &[u8], start: usize, end: usize) -> (r: Cow<'_, [u8]>)
    requires
        start >= end || end <= input@.len(),
    ensures
        r@ == extract_spec(input@, start as int, end as int, 34u8),
        (r matches Cow::Borrowed(_)) <==> !needs_collapse(input@, start as int, end as int, 34u8),
{
    extract_field_cow_with_escape(input, start, end, 34u8)
}

/// The value of the field `input[start..end]`: borrowed from the input when
/// no escape byte needs collapsing, owned otherwise.
pub fn extract_field_cow_with_escape(input: &[u8], start: usize, end: usize, escape: u8) -> (r: Cow<'_, [u8]>)
    requires
        start >= end || end <= input@.len(),
    ensures
        r@ == extract_spec(input@, start as int, end as int, escape),
        (r matches Cow::Borrowed(_)) <==> !needs_collapse(input@, start as int, end as int, escape),
{
    if start >= end {
        return Cow::Borrowed(&input[0..0]);
    }
    let field = &input[start..end];
    let n = field.len();
    if n < 2 || field[0] != escape || field[n - 1] != escape {
        return Cow::Borrowed(field);
    }
    let inner = &field[1..n - 1];
    assert(inner@ =~= input@.subrange(start + 1, end - 1));
    if !contains_byte(inner, escape) {
        proof {
            lemma_unescape_plain(inner@, escape);
        }
        return Cow::Borrowed(inner);
    }
    Cow::Owned(unescape_field(inner, escape))
}

/// The field `input[start..end]` with surrounding `"` removed, without
/// collapsing doubled quotes.
pub fn extract_field(input: &[u8], start: usize, end: usize) -> (r: &[u8])
    requires
        start >= end || end <= input@.len(),
    ensures
        r@ == strip_range_spec(input@, start as int, end as int, 34u8),
{
    extract_field_with_escape(input, start, end, 34u8)
}

/// The field `input[start..end]` with surrounding escape bytes removed,
/// without collapsing doubled escapes.
pub fn extract_field_with_escape(input: &[u8], start: usize, end: usize, escape: u8) -> (r: &[u8])
    requires
        start >= end || end <= input@.len(),
    ensures
        r@ == strip_range_spec(input@, start as int, end as int, escape),
{
    if start >= end {
        return &input[0..0];
    }
    let field = &input[start..end];
    let n = field.len();
    if n >= 2 && field[0] == escape && field[n - 1] == escape {
        &field[1..n - 1]
    } else {
        field
    }
}

/// The value of the field `input[start..end]`, as an owned vector.
pub fn extract_field_owned_with_escape(input: &[u8], start: usize, end: usize, escape: u8) -> (r: Vec<u8>)
    requires
        start >= end || end <= input@.len(),
    ensures
        r@ == extract_spec(input@, start as int, end as int, escape),
{
    if start >= end {
        return Vec::new();
    }
    let field = &input[start..end];
    let n = field.len();
    if n < 2 || field[0] != escape || field[n - 1] != escape {
        return copy_bytes(field);
    }
    let inner = &field[1..n - 1];
    if !contains_byte(inner, escape) {
        proof {
            lemma_unescape_plain(inner@, escape);
        }
        return copy_bytes(inner);
    }
    unescape_field(inner, escape)
}

} // verus!
