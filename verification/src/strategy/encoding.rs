//! Conversion of UTF-8 bytes to the encoder's target encodings.
//!
//! Input that is not valid UTF-8 passes through unchanged. Latin-1 replaces
//! scalars above 255 with `?`.

use vstd::prelude::*;
use vstd::utf8::{valid_utf8, valid_first_scalar, decode_first_scalar, pop_first_scalar, length_of_first_scalar, decode_first_codepoint, length_of_first_codepoint};

use crate::base::field::{append_bytes, copy_bytes};

verus! {

/// Target encoding of encoder output.
#[derive(Copy, Clone, Debug, Eq, PartialEq, Structural)]
pub enum EncodingTarget {
    Utf8,
    Latin1,
    Utf16Le,
    Utf16Be,
    Utf32Le,
    Utf32Be,
}

/// The scalar values encoded in `bytes`, up to the first invalid sequence.
pub open spec fn scalars_of(bytes: Seq<u8>) -> Seq<u32>
    decreases bytes.len(),
{
    if bytes.len() == 0 || !valid_first_scalar(bytes) {
        Seq::empty()
    } else {
        seq![decode_first_scalar(bytes)] + scalars_of(pop_first_scalar(bytes))
    }
}

/// All bytes are ASCII.
pub open spec fn all_ascii(bytes: Seq<u8>) -> bool {
    forall|i: int| 0 <= i < bytes.len() ==> bytes[i] < 0x80
}

/// Latin-1 byte of a scalar: itself when it fits, else `?`.
pub open spec fn latin1_byte(c: u32) -> u8 {
    if c <= 255 {
        c as u8
    } else {
        63u8
    }
}

/// The two bytes of a UTF-16 code unit.
pub open spec fn unit_bytes(u: int, big_endian: bool) -> Seq<u8> {
    if big_endian {
        seq![(u / 256) as u8, (u % 256) as u8]
    } else {
        seq![(u % 256) as u8, (u / 256) as u8]
    }
}

/// UTF-16 bytes of one scalar: one code unit below 0x10000, else a
/// surrogate pair.
pub open spec fn utf16_scalar_bytes(c: u32, big_endian: bool) -> Seq<u8> {
    if c < 0x10000 {
        unit_bytes(c as int, big_endian)
    } else {
        let v = c - 0x10000;
        unit_bytes(0xD800 + v / 1024, big_endian) + unit_bytes(0xDC00 + v % 1024, big_endian)
    }
}

/// UTF-32 bytes of one scalar.
pub open spec fn utf32_scalar_bytes(c: u32, big_endian: bool) -> Seq<u8> {
    let b0 = (c % 256) as u8;
    let b1 = ((c / 256) % 256) as u8;
    let b2 = ((c / 65536) % 256) as u8;
    let b3 = (c / 16777216) as u8;
    if big_endian {
        seq![b3, b2, b1, b0]
    } else {
        seq![b0, b1, b2, b3]
    }
}

/// Latin-1 bytes of a scalar sequence.
pub open spec fn latin1_of(cs: Seq<u32>) -> Seq<u8> {
    cs.map_values(|c: u32| latin1_byte(c))
}

/// UTF-16 bytes of a scalar sequence.
pub open spec fn utf16_of(cs: Seq<u32>, big_endian: bool) -> Seq<u8>
    decreases cs.len(),
{
    if cs.len() == 0 {
        Seq::empty()
    } else {
        utf16_of(cs.drop_last(), big_endian) + utf16_scalar_bytes(cs.last(), big_endian)
    }
}

/// UTF-32 bytes of a scalar sequence.
pub open spec fn utf32_of(cs: Seq<u32>, big_endian: bool) -> Seq<u8>
    decreases cs.len(),
{
    if cs.len() == 0 {
        Seq::empty()
    } else {
        utf32_of(cs.drop_last(), big_endian) + utf32_scalar_bytes(cs.last(), big_endian)
    }
}

/// Latin-1 conversion: ASCII and invalid UTF-8 pass through.
pub open spec fn latin1_spec(input: Seq<u8>) -> Seq<u8> {
    if all_ascii(input) || !valid_utf8(input) {
        input
    } else {
        latin1_of(scalars_of(input))
    }
}

/// UTF-16 conversion: invalid UTF-8 passes through.
pub open spec fn utf16_spec(input: Seq<u8>, big_endian: bool) -> Seq<u8> {
    if !valid_utf8(input) {
        input
    } else {
        utf16_of(scalars_of(input), big_endian)
    }
}

/// UTF-32 conversion: invalid UTF-8 passes through.
pub open spec fn utf32_spec(input: Seq<u8>, big_endian: bool) -> Seq<u8> {
    if !valid_utf8(input) {
        input
    } else {
        utf32_of(scalars_of(input), big_endian)
    }
}

/// UTF-8 bytes converted to `target`.
pub open spec fn encode_spec(input: Seq<u8>, target: EncodingTarget) -> Seq<u8> {
    match target {
        EncodingTarget::Utf8 => input,
        EncodingTarget::Latin1 => latin1_spec(input),
        EncodingTarget::Utf16Le => utf16_spec(input, false),
        EncodingTarget::Utf16Be => utf16_spec(input, true),
        EncodingTarget::Utf32Le => utf32_spec(input, false),
        EncodingTarget::Utf32Be => utf32_spec(input, true),
    }
}

/// Decode the scalar at the start of `bytes[i..]`: its value and byte
/// length, or `None` when no valid scalar starts there.
fn first_scalar(bytes: &[u8], i: usize) -> (r: Option<(u32, usize)>)
    requires
        i < bytes@.len(),
    ensures
        r is Some <==> valid_first_scalar(bytes@.skip(i as int)),
        r matches Some((c, n)) ==> c == decode_first_scalar(bytes@.skip(i as int)) && n == length_of_first_scalar(
            bytes@.skip(i as int),
        ) && 1 <= n <= 4 && i + n <= bytes@.len() && c <= 0x10ffff,
{
    let ghost s = bytes@.skip(i as int);
    let b0 = bytes[i];
    let rem = bytes.len() - i;
    assert(s[0] == b0);
    if b0 <= 0x7f {
        let c = (b0 & 0x7F) as u32;
        assert((b0 & 0x7F) as u32 <= 0x7f) by (bit_vector);
        return Some((c, 1));
    }
    if 0xc0 <= b0 && b0 <= 0xdf {
        if rem < 2 {
            return None;
        }
        let b1 = bytes[i + 1];
        assert(s[1] == b1);
        if !(0x80 <= b1 && b1 <= 0xbf) {
            return None;
        }
        let c = (((b0 & 0x1F) as u32) << 6) | ((b1 & 0x3f) as u32);
        assert((((b0 & 0x1F) as u32) << 6) | ((b1 & 0x3f) as u32) <= 0x7ff) by (bit_vector);
        if c < 0x80 {
            return None;
        }
        return Some((c, 2));
    }
    if 0xe0 <= b0 && b0 <= 0xef {
        if rem < 3 {
            return None;
        }
        let b1 = bytes[i + 1];
        let b2 = bytes[i + 2];
        assert(s[1] == b1 && s[2] == b2);
        if !(0x80 <= b1 && b1 <= 0xbf) || !(0x80 <= b2 && b2 <= 0xbf) {
            return None;
        }
        let c = (((b0 & 0x0F) as u32) << 12) | (((b1 & 0x3f) as u32) << 6) | ((b2 & 0x3f) as u32);
        assert((((b0 & 0x0F) as u32) << 12) | (((b1 & 0x3f) as u32) << 6) | ((b2 & 0x3f) as u32) <= 0xffff) by (bit_vector);
        if c < 0x800 || (0xD800 <= c && c <= 0xDFFF) {
            return None;
        }
        return Some((c, 3));
    }
    if 0xf0 <= b0 && b0 <= 0xf7 {
        if rem < 4 {
            return None;
        }
        let b1 = bytes[i + 1];
        let b2 = bytes[i + 2];
        let b3 = bytes[i + 3];
        assert(s[1] == b1 && s[2] == b2 && s[3] == b3);
        if !(0x80 <= b1 && b1 <= 0xbf) || !(0x80 <= b2 && b2 <= 0xbf) || !(0x80 <= b3 && b3 <= 0xbf) {
            return None;
        }
        let c = (((b0 & 0x07) as u32) << 18) | (((b1 & 0x3f) as u32) << 12) | (((b2 & 0x3f) as u32) << 6) | ((
        b3 & 0x3f) as u32);
        if c < 0x10000 || c > 0x10ffff || (0xD800 <= c && c <= 0xDFFF) {
            return None;
        }
        return Some((c, 4));
    }
    None
}

/// The scalars of `input`, or `None` when it is not valid UTF-8.
fn decode_scalars(input: &[u8]) -> (r: Option<Vec<u32>>)
    ensures
        r is Some <==> valid_utf8(input@),
        r matches Some(v) ==> v@ == scalars_of(input@),
        r matches Some(v) ==> forall|j: int| 0 <= j < v@.len() ==> #[trigger] v@[j] <= 0x10ffff,
{
    let mut out: Vec<u32> = Vec::new();
    let mut i: usize = 0;
    assert(input@.skip(0) =~= input@);
    while i < input.len()
        invariant
            0 <= i <= input@.len(),
            forall|j: int| 0 <= j < out@.len() ==> #[trigger] out@[j] <= 0x10ffff,
            valid_utf8(input@) == valid_utf8(input@.skip(i as int)),
            valid_utf8(input@) ==> out@ + scalars_of(input@.skip(i as int)) == scalars_of(input@),
        decreases input@.len() - i,
    {
        let ghost rest = input@.skip(i as int);
        match first_scalar(input, i) {
            None => {
                return None;
            },
            Some((c, n)) => {
                assert(pop_first_scalar(rest) =~= input@.skip(i + n));
                out.push(c);
                i += n;
                assert(valid_utf8(input@) ==> out@ + scalars_of(input@.skip(i as int)) =~= scalars_of(input@));
            },
        }
    }
    assert(input@.skip(i as int) =~= Seq::<u8>::empty());
    assert(out@ =~= out@ + scalars_of(input@.skip(i as int)));
    Some(out)
}

/// Whether every byte is ASCII.
fn is_all_ascii(input: &[u8]) -> (r: bool)
    ensures
        r == all_ascii(input@),
{
    let mut i: usize = 0;
    while i < input.len()
        invariant
            0 <= i <= input@.len(),
            forall|k: int| 0 <= k < i ==> input@[k] < 0x80,
        decreases input@.len() - i,
    {
        if input[i] >= 0x80 {
            return false;
        }
        i += 1;
    }
    true
}

/// Append the two bytes of a UTF-16 code unit.
fn push_unit(out: &mut Vec<u8>, u: u32, big_endian: bool)
    requires
        u < 65536,
    ensures
        final(out)@ == old(out)@ + unit_bytes(u as int, big_endian),
{
    let hi = (u / 256) as u8;
    let lo = (u % 256) as u8;
    if big_endian {
        out.push(hi);
        out.push(lo);
    } else {
        out.push(lo);
        out.push(hi);
    }
    assert(final(out)@ =~= old(out)@ + unit_bytes(u as int, big_endian));
}

/// Append the Latin-1 conversion of `input`.
fn extend_latin1(out: &mut Vec<u8>, input: &[u8])
    ensures
        final(out)@ == old(out)@ + latin1_spec(input@),
{
    if is_all_ascii(input) {
        append_bytes(out, input);
        return;
    }
    match decode_scalars(input) {
        None => {
            append_bytes(out, input);
        },
        Some(cs) => {
            let ghost start = out@;
            let mut k: usize = 0;
            while k < cs.len()
                invariant
                    0 <= k <= cs@.len(),
                    out@ == start + latin1_of(cs@.take(k as int)),
                decreases cs@.len() - k,
            {
                let c = cs[k];
                if c <= 255 {
                    out.push(c as u8);
                } else {
                    out.push(63u8);
                }
                k += 1;
                assert(out@ =~= start + latin1_of(cs@.take(k as int)));
            }
            assert(cs@.take(k as int) =~= cs@);
        },
    }
}

/// Append the UTF-16 conversion of `input`.
fn extend_utf16(out: &mut Vec<u8>, input: &[u8], big_endian: bool)
    ensures
        final(out)@ == old(out)@ + utf16_spec(input@, big_endian),
{
    match decode_scalars(input) {
        None => {
            append_bytes(out, input);
        },
        Some(cs) => {
            let ghost start = out@;
            let mut k: usize = 0;
            assert(cs@.take(0) =~= Seq::<u32>::empty());
            while k < cs.len()
                invariant
                    0 <= k <= cs@.len(),
                    forall|j: int| 0 <= j < cs@.len() ==> #[trigger] cs@[j] <= 0x10ffff,
                    out@ == start + utf16_of(cs@.take(k as int), big_endian),
                decreases cs@.len() - k,
            {
                let c = cs[k];
                if c < 0x10000 {
                    push_unit(out, c, big_endian);
                } else {
                    let v = c - 0x10000;
                    push_unit(out, 0xD800 + v / 1024, big_endian);
                    push_unit(out, 0xDC00 + v % 1024, big_endian);
                }
                assert(cs@.take(k + 1).drop_last() =~= cs@.take(k as int));
                k += 1;
                assert(out@ =~= start + utf16_of(cs@.take(k as int), big_endian));
            }
            assert(cs@.take(k as int) =~= cs@);
        },
    }
}

/// Append the UTF-32 conversion of `input`.
fn extend_utf32(out: &mut Vec<u8>, input: &[u8], big_endian: bool)
    ensures
        final(out)@ == old(out)@ + utf32_spec(input@, big_endian),
{
    match decode_scalars(input) {
        None => {
            append_bytes(out, input);
        },
        Some(cs) => {
            let ghost start = out@;
            let mut k: usize = 0;
            assert(cs@.take(0) =~= Seq::<u32>::empty());
            while k < cs.len()
                invariant
                    0 <= k <= cs@.len(),
                    out@ == start + utf32_of(cs@.take(k as int), big_endian),
                decreases cs@.len() - k,
            {
                let c = cs[k];
                let b0 = (c % 256) as u8;
                let b1 = ((c / 256) % 256) as u8;
                let b2 = ((c / 65536) % 256) as u8;
                let b3 = (c / 16777216) as u8;
                if big_endian {
                    out.push(b3);
                    out.push(b2);
                    out.push(b1);
                    out.push(b0);
                } else {
                    out.push(b0);
                    out.push(b1);
                    out.push(b2);
                    out.push(b3);
                }
                assert(cs@.take(k + 1).drop_last() =~= cs@.take(k as int));
                k += 1;
                assert(out@ =~= start + utf32_of(cs@.take(k as int), big_endian));
            }
            assert(cs@.take(k as int) =~= cs@);
        },
    }
}

/// Convert UTF-8 bytes to `target`.
pub fn encode_utf8_to_target(input: &[u8], target: EncodingTarget) -> (r: Vec<u8>)
    ensures
        r@ == encode_spec(input@, target),
{
    match target {
        EncodingTarget::Utf8 => copy_bytes(input),
        EncodingTarget::Latin1 => utf8_to_latin1(input),
        EncodingTarget::Utf16Le => utf8_to_utf16(input, false),
        EncodingTarget::Utf16Be => utf8_to_utf16(input, true),
        EncodingTarget::Utf32Le => utf8_to_utf32(input, false),
        EncodingTarget::Utf32Be => utf8_to_utf32(input, true),
    }
}

/// Convert UTF-8 to Latin-1; scalars above 255 become `?`.
pub fn utf8_to_latin1(input: &[u8]) -> (r: Vec<u8>)
    ensures
        r@ == latin1_spec(input@),
{
    let mut out: Vec<u8> = Vec::new();
    extend_latin1(&mut out, input);
    assert(out@ =~= latin1_spec(input@));
    out
}

/// Convert UTF-8 to UTF-16 in the given byte order.
pub fn utf8_to_utf16(input: &[u8], big_endian: bool) -> (r: Vec<u8>)
    ensures
        r@ == utf16_spec(input@, big_endian),
{
    let mut out: Vec<u8> = Vec::new();
    extend_utf16(&mut out, input, big_endian);
    assert(out@ =~= utf16_spec(input@, big_endian));
    out
}

/// Convert UTF-8 to UTF-32 in the given byte order.
pub fn utf8_to_utf32(input: &[u8], big_endian: bool) -> (r: Vec<u8>)
    ensures
        r@ == utf32_spec(input@, big_endian),
{
    let mut out: Vec<u8> = Vec::new();
    extend_utf32(&mut out, input, big_endian);
    assert(out@ =~= utf32_spec(input@, big_endian));
    out
}

/// Append the conversion of UTF-8 `input` to `target`.
pub fn encode_utf8_extend(out: &mut Vec<u8>, input: &[u8], target: EncodingTarget)
    ensures
        final(out)@ == old(out)@ + encode_spec(input@, target),
{
    match target {
        EncodingTarget::Utf8 => append_bytes(out, input),
        EncodingTarget::Latin1 => extend_latin1(out, input),
        EncodingTarget::Utf16Le => extend_utf16(out, input, false),
        EncodingTarget::Utf16Be => extend_utf16(out, input, true),
        EncodingTarget::Utf32Le => extend_utf32(out, input, false),
        EncodingTarget::Utf32Be => extend_utf32(out, input, true),
    }
}

/// The 32-bit code unit held by the four bytes of `bytes` from `4 * i`, in
/// the given byte order.
pub open spec fn utf32_unit(bytes: Seq<u8>, i: int, big_endian: bool) -> int {
    let b = bytes.subrange(4 * i, 4 * i + 4);
    if big_endian {
        b[0] * 16777216 + b[1] * 65536 + b[2] * 256 + b[3]
    } else {
        b[3] * 16777216 + b[2] * 65536 + b[1] * 256 + b[0]
    }
}

/// The four bytes of a scalar hold the scalar.
proof fn lemma_utf32_scalar_unit(c: u32, big_endian: bool)
    ensures
        utf32_scalar_bytes(c, big_endian).len() == 4,
        utf32_unit(utf32_scalar_bytes(c, big_endian), 0, big_endian) == c,
{
    assert((c / 16777216) * 16777216 + ((c / 65536) % 256) * 65536 + ((c / 256) % 256) * 256 + c % 256 == c)
        by (bit_vector);
    assert(c / 16777216 < 256) by (bit_vector);
    assert(utf32_scalar_bytes(c, big_endian).subrange(0, 4) =~= utf32_scalar_bytes(c, big_endian));
}

/// UTF-32 bytes of scalars are four per scalar, and the `i`th unit is the
/// `i`th scalar.
proof fn lemma_utf32_of_units(cs: Seq<u32>, big_endian: bool)
    ensures
        utf32_of(cs, big_endian).len() == 4 * cs.len(),
        forall|i: int| 0 <= i < cs.len() ==> #[trigger] utf32_unit(utf32_of(cs, big_endian), i, big_endian) == cs[i],
    decreases cs.len(),
{
    if cs.len() > 0 {
        let d = cs.drop_last();
        lemma_utf32_of_units(d, big_endian);
        lemma_utf32_scalar_unit(cs.last(), big_endian);
        let pre = utf32_of(d, big_endian);
        let last = utf32_scalar_bytes(cs.last(), big_endian);
        let all = utf32_of(cs, big_endian);
        assert(all == pre + last);
        assert forall|i: int| 0 <= i < cs.len() implies #[trigger] utf32_unit(all, i, big_endian) == cs[i] by {
            if i < d.len() {
                assert(all.subrange(4 * i, 4 * i + 4) =~= pre.subrange(4 * i, 4 * i + 4));
                assert(utf32_unit(pre, i, big_endian) == d[i]);
            } else {
                assert(all.subrange(4 * i, 4 * i + 4) =~= last.subrange(0, 4));
            }
        }
    }
}

/// Decoding the UTF-32 output of valid UTF-8 four bytes at a time, in the
/// same byte order, gives back the input's scalar values in order: one
/// unit per character.
pub proof fn law_utf32_decodes_to_scalars(input: Seq<u8>, big_endian: bool)
    requires
        valid_utf8(input),
    ensures
        utf32_spec(input, big_endian).len() == 4 * scalars_of(input).len(),
        forall|i: int|
            0 <= i < scalars_of(input).len() ==> #[trigger] utf32_unit(utf32_spec(input, big_endian), i, big_endian)
                == scalars_of(input)[i],
{
    lemma_utf32_of_units(scalars_of(input), big_endian);
}

/// A UTF-8 byte sequence that is all ASCII holds one scalar per byte, the
/// byte itself.
proof fn lemma_ascii_scalars(bytes: Seq<u8>)
    requires
        all_ascii(bytes),
    ensures
        scalars_of(bytes).len() == bytes.len(),
        forall|i: int| 0 <= i < bytes.len() ==> #[trigger] scalars_of(bytes)[i] == bytes[i] as u32,
    decreases bytes.len(),
{
    if bytes.len() > 0 {
        let b = bytes[0];
        assert(b < 0x80);
        assert(b & 0x7f == b) by (bit_vector)
            requires
                b < 0x80u8,
        ;
        assert(valid_first_scalar(bytes));
        assert(decode_first_scalar(bytes) == b as u32);
        let rest = pop_first_scalar(bytes);
        assert(rest =~= bytes.subrange(1, bytes.len() as int));
        assert(all_ascii(rest)) by {
            assert forall|i: int| 0 <= i < rest.len() implies rest[i] < 0x80 by {
                assert(rest[i] == bytes[i + 1]);
            }
        }
        lemma_ascii_scalars(rest);
        assert forall|i: int| 0 <= i < bytes.len() implies #[trigger] scalars_of(bytes)[i] == bytes[i] as u32 by {
            if i > 0 {
                assert(scalars_of(bytes)[i] == scalars_of(rest)[i - 1]);
                assert(rest[i - 1] == bytes[i]);
            }
        }
    }
}

/// Latin-1 conversion of valid UTF-8: one byte per character, the
/// character's scalar value when it is at most 255 and `?` for every
/// character above 255.
pub proof fn law_latin1_one_byte_per_char(input: Seq<u8>)
    requires
        valid_utf8(input),
    ensures
        latin1_spec(input).len() == scalars_of(input).len(),
        forall|i: int|
            0 <= i < scalars_of(input).len() ==> #[trigger] latin1_spec(input)[i] as int == if scalars_of(input)[i] <= 255 {
                scalars_of(input)[i] as int
            } else {
                63int
            },
{
    if all_ascii(input) {
        lemma_ascii_scalars(input);
    }
}

/// Every scalar value that UTF-8 decoding yields is a Unicode scalar: at
/// most 0x10FFFF and outside the surrogate range.
proof fn lemma_scalars_in_range(bytes: Seq<u8>)
    ensures
        forall|i: int| 0 <= i < scalars_of(bytes).len() ==> {
            let c = #[trigger] scalars_of(bytes)[i];
            &&& c <= 0x10FFFF
            &&& !(0xD800 <= c <= 0xDFFF)
        },
    decreases bytes.len(),
{
    if bytes.len() > 0 && valid_first_scalar(bytes) {
        let b1 = bytes[0];
        let c = decode_first_codepoint(bytes);
        if length_of_first_codepoint(bytes) == 1 {
            let x = (b1 & 0x7F) as u32;
            assert(x <= 0x7F) by (bit_vector)
                requires
                    x == (b1 & 0x7F) as u32,
            ;
        } else if length_of_first_codepoint(bytes) == 2 {
            let b2 = bytes[1];
            let x = (b1 & 0x1F) as u32;
            let y = (b2 & 0x3f) as u32;
            assert(x <= 0x1F && y <= 0x3F) by (bit_vector)
                requires
                    x == (b1 & 0x1F) as u32,
                    y == (b2 & 0x3f) as u32,
            ;
            assert((x << 6) | y <= 0x7FF) by (bit_vector)
                requires
                    x <= 0x1F,
                    y <= 0x3F,
            ;
        } else if length_of_first_codepoint(bytes) == 3 {
            let b2 = bytes[1];
            let b3 = bytes[2];
            let x = (b1 & 0x0F) as u32;
            let y = (b2 & 0x3f) as u32;
            let z = (b3 & 0x3f) as u32;
            assert(x <= 0x0F && y <= 0x3F && z <= 0x3F) by (bit_vector)
                requires
                    x == (b1 & 0x0F) as u32,
                    y == (b2 & 0x3f) as u32,
                    z == (b3 & 0x3f) as u32,
            ;
            assert((x << 12) | (y << 6) | z <= 0xFFFF) by (bit_vector)
                requires
                    x <= 0x0F,
                    y <= 0x3F,
                    z <= 0x3F,
            ;
        }
        let rest = pop_first_scalar(bytes);
        lemma_scalars_in_range(rest);
        assert forall|i: int| 0 <= i < scalars_of(bytes).len() implies {
            let c = #[trigger] scalars_of(bytes)[i];
            &&& c <= 0x10FFFF
            &&& !(0xD800 <= c <= 0xDFFF)
        } by {
            if i > 0 {
                assert(scalars_of(bytes)[i] == scalars_of(rest)[i - 1]);
            }
        }
    }
}

/// The 16-bit code unit held by the two bytes of `bytes` from `i`, in the
/// given byte order.
pub open spec fn utf16_unit_at(bytes: Seq<u8>, i: int, big_endian: bool) -> int {
    if big_endian {
        bytes[i] * 256 + bytes[i + 1]
    } else {
        bytes[i + 1] * 256 + bytes[i]
    }
}

/// UTF-16 decoding: two bytes per code unit in the given order, a high
/// surrogate followed by a low surrogate joined into one value.
pub open spec fn decode_utf16(bytes: Seq<u8>, big_endian: bool) -> Seq<int>
    decreases bytes.len(),
{
    if bytes.len() < 2 {
        Seq::empty()
    } else {
        let u = utf16_unit_at(bytes, 0, big_endian);
        if 0xD800 <= u < 0xDC00 && bytes.len() >= 4 && 0xDC00 <= utf16_unit_at(bytes, 2, big_endian) < 0xE000 {
            seq![0x10000 + (u - 0xD800) * 1024 + (utf16_unit_at(bytes, 2, big_endian) - 0xDC00)] + decode_utf16(
                bytes.subrange(4, bytes.len() as int),
                big_endian,
            )
        } else {
            seq![u] + decode_utf16(bytes.subrange(2, bytes.len() as int), big_endian)
        }
    }
}

/// The two bytes of a code unit read back give the unit.
proof fn lemma_unit_bytes(u: int, big_endian: bool)
    requires
        0 <= u < 65536,
    ensures
        unit_bytes(u, big_endian).len() == 2,
        utf16_unit_at(unit_bytes(u, big_endian), 0, big_endian) == u,
{
    assert(u / 256 < 256);
    assert(u == (u / 256) * 256 + u % 256);
}

/// UTF-16 bytes of scalars, first scalar split off the front.
proof fn lemma_utf16_of_front(cs: Seq<u32>, big_endian: bool)
    requires
        cs.len() > 0,
    ensures
        utf16_of(cs, big_endian) == utf16_scalar_bytes(cs[0], big_endian) + utf16_of(cs.skip(1), big_endian),
    decreases cs.len(),
{
    if cs.len() > 1 {
        let d = cs.drop_last();
        lemma_utf16_of_front(d, big_endian);
        assert(d.skip(1) =~= cs.skip(1).drop_last());
        assert(cs.skip(1).last() == cs.last());
        assert(utf16_of(cs.skip(1), big_endian) == utf16_of(cs.skip(1).drop_last(), big_endian) + utf16_scalar_bytes(
            cs.skip(1).last(),
            big_endian,
        ));
    } else {
        assert(cs.drop_last() =~= Seq::<u32>::empty());
        assert(cs.skip(1) =~= Seq::<u32>::empty());
    }
}

/// Decoding the UTF-16 bytes of Unicode scalars gives the scalars back.
proof fn lemma_decode_utf16_of(cs: Seq<u32>, big_endian: bool)
    requires
        forall|i: int| 0 <= i < cs.len() ==> (#[trigger] cs[i]) <= 0x10FFFF && !(0xD800 <= cs[i] <= 0xDFFF),
    ensures
        decode_utf16(utf16_of(cs, big_endian), big_endian) == cs.map_values(|c: u32| c as int),
    decreases cs.len(),
{
    if cs.len() == 0 {
        assert(cs.map_values(|c: u32| c as int) =~= Seq::<int>::empty());
    } else {
        let c = cs[0];
        let rest = cs.skip(1);
        assert forall|i: int| 0 <= i < rest.len() implies (#[trigger] rest[i]) <= 0x10FFFF && !(0xD800 <= rest[i] <= 0xDFFF) by {
            assert(rest[i] == cs[i + 1]);
        }
        lemma_decode_utf16_of(rest, big_endian);
        lemma_utf16_of_front(cs, big_endian);
        let head = utf16_scalar_bytes(c, big_endian);
        let tail = utf16_of(rest, big_endian);
        let all = head + tail;
        if c < 0x10000 {
            lemma_unit_bytes(c as int, big_endian);
            assert(all.subrange(0, 2) =~= head);
            assert(utf16_unit_at(all, 0, big_endian) == utf16_unit_at(head, 0, big_endian));
            assert(all.subrange(2, all.len() as int) =~= tail);
        } else {
            let v = c - 0x10000;
            let hi = 0xD800 + v / 1024;
            let lo = 0xDC00 + v % 1024;
            assert(v / 1024 < 1024);
            assert(v == (v / 1024) * 1024 + v % 1024);
            lemma_unit_bytes(hi, big_endian);
            lemma_unit_bytes(lo, big_endian);
            let h = unit_bytes(hi, big_endian);
            let l = unit_bytes(lo, big_endian);
            assert(utf16_unit_at(all, 0, big_endian) == utf16_unit_at(h, 0, big_endian)) by {
                assert(all[0] == h[0] && all[1] == h[1]);
            }
            assert(utf16_unit_at(all, 2, big_endian) == utf16_unit_at(l, 0, big_endian)) by {
                assert(all[2] == l[0] && all[3] == l[1]);
            }
            assert(all.subrange(4, all.len() as int) =~= tail);
        }
        assert(cs.map_values(|c: u32| c as int) =~= seq![c as int] + rest.map_values(|c: u32| c as int));
    }
}

/// Decoding the UTF-16 output of valid UTF-8 two bytes at a time, in the
/// same byte order, with surrogate pairs joined, gives back the input's
/// scalar values in order.
pub proof fn law_utf16_decodes_to_scalars(input: Seq<u8>, big_endian: bool)
    requires
        valid_utf8(input),
    ensures
        decode_utf16(utf16_spec(input, big_endian), big_endian) == scalars_of(input).map_values(|c: u32| c as int),
{
    lemma_scalars_in_range(input);
    lemma_decode_utf16_of(scalars_of(input), big_endian);
}

} // verus!
