//! Choosing a parser for a configuration, and turning its boundaries into
//! what the caller needs: strict error reporting, header keys, and for each
//! field either a range of the input to share or the bytes to copy.

use vstd::prelude::*;

use crate::base::field::{contains_byte, extract_field_owned_with_escape, extract_spec, unescape_field};
use crate::base::newlines::{Newlines, lemma_sort_nonempty, patterns_of, starts_with_at};
use crate::base::simd_index::{InputTooLarge, ScannedBoundaries, Violation};
use crate::encoder::{Escape, Separators, is_all_single_byte, seps_ok, single_byte_seps};
use crate::strategy::general::{
    NewlineMode, bounds_int, contains_escape, extract_field_owned_general, extract_general_spec, general_scan,
    general_scanned_of, lemma_unescape_general_plain, parallel_general_bounds, scan_boundaries_general,
    scan_parallel_boundaries_general, seps_nonempty, seps_seq, unescape_field_general,
};
use crate::strategy::parallel::{parse_csv_parallel_boundaries_multi_sep, parse_csv_parallel_boundaries_with_config};
use crate::strategy::zero_copy::{parse_csv_boundaries_multi_sep, parse_csv_boundaries_with_config, scanned_of};
use crate::base::scanner::finish_spec;
use crate::strategy::general_agreement::{byte_pats, lemma_general_scan_single_byte};
use crate::strategy::stream_agreement::{bytes_distinct, widen_row};
use crate::base::simd_scanner::batch_bounds;
use crate::strategy::zero_copy::{rows_view, widen_bounds};

verus! {

/// Every separator and the escape are one byte long.
pub open spec fn all_single(separators: &Separators, escape: &Escape) -> bool {
    &&& escape.bytes@.len() == 1
    &&& forall|k: int| 0 <= k < separators.patterns@.len() ==> (#[trigger] separators.patterns@[k])@.len() == 1
}

/// The first byte of every separator.
pub open spec fn first_bytes(separators: &Separators) -> Seq<u8> {
    separators.patterns@.map_values(|p: Vec<u8>| p@[0])
}

/// A configuration the parsers accept: separators and escape non-empty,
/// custom newline patterns non-empty.
pub open spec fn config_ok(separators: &Separators, escape: &Escape, newlines: &Newlines) -> bool {
    &&& seps_ok(separators)
    &&& escape.bytes@.len() > 0
    &&& (!newlines.is_default ==> seps_nonempty(patterns_of(newlines)))
}

/// The boundaries that the batch dispatch gives: custom newlines take the
/// general scan, all-single-byte configurations the structural scan, the
/// rest the general scan with default newlines.
pub open spec fn dispatched_scan(
    s: Seq<u8>,
    separators: &Separators,
    escape: &Escape,
    newlines: &Newlines,
    b: ScannedBoundaries,
) -> bool {
    if !newlines.is_default {
        general_scanned_of(s, seps_seq(separators.patterns@), escape.bytes@, NewlineMode::Custom(newlines), b)
    } else if all_single(separators, escape) {
        scanned_of(s, first_bytes(separators), escape.bytes@[0], b)
    } else {
        general_scanned_of(s, seps_seq(separators.patterns@), escape.bytes@, NewlineMode::Default, b)
    }
}

/// The boundaries of the general parallel parser in `mode`.
pub open spec fn parallel_general_scanned(
    s: Seq<u8>,
    seps: Seq<Seq<u8>>,
    esc: Seq<u8>,
    mode: NewlineMode,
    b: ScannedBoundaries,
) -> bool {
    &&& b.rows@.map_values(|row: Vec<(usize, usize)>| bounds_int(row@)) == parallel_general_bounds(s, seps, esc, mode)
    &&& b.violation == finish_spec(general_scan(s, seps, esc, mode, true).1, s.len() as usize)
}

/// The boundaries that the parallel dispatch gives.
pub open spec fn dispatched_parallel_scan(
    s: Seq<u8>,
    separators: &Separators,
    escape: &Escape,
    newlines: &Newlines,
    b: ScannedBoundaries,
) -> bool {
    if !newlines.is_default {
        parallel_general_scanned(s, seps_seq(separators.patterns@), escape.bytes@, NewlineMode::Custom(newlines), b)
    } else if all_single(separators, escape) {
        scanned_of(s, first_bytes(separators), escape.bytes@[0], b)
    } else {
        parallel_general_scanned(s, seps_seq(separators.patterns@), escape.bytes@, NewlineMode::Default, b)
    }
}

/// Facts the dispatchers need about an accepted configuration.
proof fn lemma_config(separators: &Separators, escape: &Escape)
    requires
        seps_ok(separators),
    ensures
        seps_nonempty(seps_seq(separators.patterns@)),
{
    assert forall|k: int| 0 <= k < seps_seq(separators.patterns@).len() implies (#[trigger] seps_seq(separators.patterns@)[k]).len() > 0 by {
        assert(seps_seq(separators.patterns@)[k] == separators.patterns@[k]@);
    }
}

/// The single-byte separators, checked against `first_bytes`.
fn first_separator_bytes(separators: &Separators) -> (r: Vec<u8>)
    requires
        seps_ok(separators),
    ensures
        r@ == first_bytes(separators),
{
    let r = single_byte_seps(separators);
    assert(r@ =~= first_bytes(separators));
    r
}

/// Parse boundaries with the parser that suits the configuration.
pub fn dispatch_boundary_parse(bytes: &[u8], separators: &Separators, escape: &Escape, newlines: &Newlines) -> (r: Result<
    ScannedBoundaries,
    InputTooLarge,
>)
    requires
        config_ok(separators, escape, newlines),
    ensures
        bytes@.len() > crate::base::simd_index::MAX_INPUT_SIZE <==> r is Err,
        r matches Ok(b) ==> dispatched_scan(bytes@, separators, escape, newlines, b),
{
    proof {
        lemma_config(separators, escape);
    }
    if bytes.len() > crate::base::simd_index::MAX_INPUT_SIZE {
        return Err(InputTooLarge);
    }
    if !newlines.is_default {
        return Ok(
            scan_boundaries_general(
                bytes,
                separators.patterns.as_slice(),
                escape.bytes.as_slice(),
                NewlineMode::Custom(newlines),
            ),
        );
    }
    if is_all_single_byte(separators, escape) {
        let esc = escape.bytes[0];
        let sep_bytes = first_separator_bytes(separators);
        if sep_bytes.len() == 1 {
            assert(sep_bytes@ =~= seq![sep_bytes@[0]]);
            parse_csv_boundaries_with_config(bytes, sep_bytes[0], esc)
        } else {
            parse_csv_boundaries_multi_sep(bytes, sep_bytes.as_slice(), esc)
        }
    } else {
        Ok(scan_boundaries_general(bytes, separators.patterns.as_slice(), escape.bytes.as_slice(), NewlineMode::Default))
    }
}

/// Parse boundaries in parallel with the parser that suits the
/// configuration.
pub fn dispatch_parallel_boundary_parse(bytes: &[u8], separators: &Separators, escape: &Escape, newlines: &Newlines) -> (r:
    Result<ScannedBoundaries, InputTooLarge>)
    requires
        config_ok(separators, escape, newlines),
    ensures
        bytes@.len() > crate::base::simd_index::MAX_INPUT_SIZE <==> r is Err,
        r matches Ok(b) ==> dispatched_parallel_scan(bytes@, separators, escape, newlines, b),
{
    proof {
        lemma_config(separators, escape);
    }
    if bytes.len() > crate::base::simd_index::MAX_INPUT_SIZE {
        return Err(InputTooLarge);
    }
    if !newlines.is_default {
        return Ok(
            scan_parallel_boundaries_general(
                bytes,
                separators.patterns.as_slice(),
                escape.bytes.as_slice(),
                NewlineMode::Custom(newlines),
            ),
        );
    }
    if is_all_single_byte(separators, escape) {
        let esc = escape.bytes[0];
        let sep_bytes = first_separator_bytes(separators);
        if sep_bytes.len() == 1 {
            assert(sep_bytes@ =~= seq![sep_bytes@[0]]);
            parse_csv_parallel_boundaries_with_config(bytes, sep_bytes[0], esc)
        } else {
            parse_csv_parallel_boundaries_multi_sep(bytes, sep_bytes.as_slice(), esc)
        }
    } else {
        Ok(
            scan_parallel_boundaries_general(
                bytes,
                separators.patterns.as_slice(),
                escape.bytes.as_slice(),
                NewlineMode::Default,
            ),
        )
    }
}

/// Why a boundary parse gives no rows.
#[derive(Copy, Clone, Debug, PartialEq, Eq)]
pub enum ScanError {
    /// The input is over the batch size limit.
    InputTooLarge,
    /// Strict parsing met a quoting violation.
    Malformed(Violation),
}

/// The rows of a boundary parse; in strict mode, the first quoting
/// violation is an error.
pub fn scanned_rows(scanned: Result<ScannedBoundaries, InputTooLarge>, strict: bool) -> (r: Result<
    Vec<Vec<(usize, usize)>>,
    ScanError,
>)
    ensures
        match scanned {
            Err(_) => r == Err::<Vec<Vec<(usize, usize)>>, ScanError>(ScanError::InputTooLarge),
            Ok(b) => if strict && b.violation is Some {
                r == Err::<Vec<Vec<(usize, usize)>>, ScanError>(ScanError::Malformed(b.violation->0))
            } else {
                r matches Ok(rows) && rows@ == b.rows@
            },
        },
{
    match scanned {
        Err(_) => Err(ScanError::InputTooLarge),
        Ok(b) => {
            if strict {
                if let Some(v) = b.violation {
                    return Err(ScanError::Malformed(v));
                }
            }
            Ok(b.rows)
        },
    }
}

/// Custom newlines from a list of patterns: `None` when the list is empty
/// or holds an empty pattern.
pub fn newlines_from_patterns(patterns: Vec<Vec<u8>>) -> (r: Option<Newlines>)
    ensures
        r is Some <==> (patterns@.len() > 0 && forall|k: int| 0 <= k < patterns@.len() ==> (#[trigger] patterns@[k])@.len() > 0),
        r matches Some(n) ==> {
            &&& !n.is_default
            &&& patterns_of(&n) == crate::base::newlines::sort_longest_first(patterns@.map_values(|p: Vec<u8>| p@))
            &&& seps_nonempty(patterns_of(&n))
        },
{
    if patterns.len() == 0 {
        return None;
    }
    let mut k: usize = 0;
    while k < patterns.len()
        invariant
            0 <= k <= patterns@.len(),
            forall|j: int| 0 <= j < k ==> (#[trigger] patterns@[j])@.len() > 0,
        decreases patterns@.len() - k,
    {
        if patterns[k].len() == 0 {
            return None;
        }
        k += 1;
    }
    let ghost pv = patterns@.map_values(|p: Vec<u8>| p@);
    proof {
        assert forall|j: int| 0 <= j < pv.len() implies (#[trigger] pv[j]).len() > 0 by {
            assert(pv[j] == patterns@[j]@);
        }
        lemma_sort_nonempty(pv);
    }
    let n = Newlines::custom(patterns);
    Some(n)
}

/// The value of a field of the header row: with a one-byte escape as the
/// single-byte parsers read it, else as the general ones do.
pub open spec fn key_value(input: Seq<u8>, b: (usize, usize), escape: Seq<u8>) -> Seq<u8> {
    if escape.len() == 1 {
        extract_spec(input, b.0 as int, b.1 as int, escape[0])
    } else {
        extract_general_spec(input, b.0 as int, b.1 as int, escape)
    }
}

/// The values of the fields of a header row, to serve as keys.
pub fn header_keys(input: &[u8], row: &[(usize, usize)], escape: &Escape) -> (r: Vec<Vec<u8>>)
    requires
        escape.bytes@.len() > 0,
        forall|j: int| 0 <= j < row@.len() ==> (#[trigger] row@[j]).0 <= row@[j].1 <= input@.len(),
    ensures
        r@.len() == row@.len(),
        forall|j: int| 0 <= j < row@.len() ==> (#[trigger] r@[j])@ == key_value(input@, row@[j], escape.bytes@),
{
    let mut keys: Vec<Vec<u8>> = Vec::new();
    let mut j: usize = 0;
    while j < row.len()
        invariant
            escape.bytes@.len() > 0,
            forall|i: int| 0 <= i < row@.len() ==> (#[trigger] row@[i]).0 <= row@[i].1 <= input@.len(),
            0 <= j <= row@.len(),
            keys@.len() == j,
            forall|i: int| 0 <= i < j ==> (#[trigger] keys@[i])@ == key_value(input@, row@[i], escape.bytes@),
        decreases row@.len() - j,
    {
        let (a, b) = row[j];
        let key = if escape.bytes.len() == 1 {
            extract_field_owned_with_escape(input, a, b, escape.bytes[0])
        } else {
            extract_field_owned_general(input, a, b, escape.bytes.as_slice())
        };
        keys.push(key);
        j += 1;
    }
    keys
}

/// Where a field's value comes from: a range of the input (start, length)
/// that can be shared, or bytes that had to be unescaped.
pub enum FieldSource {
    Range(usize, usize),
    Owned(Vec<u8>),
}

/// The bytes a field source stands for.
pub open spec fn source_bytes(input: Seq<u8>, f: FieldSource) -> Seq<u8> {
    match f {
        FieldSource::Range(a, n) => input.subrange(a as int, a + n),
        FieldSource::Owned(v) => v@,
    }
}

/// A range that lies inside the input.
pub open spec fn source_fits(input: Seq<u8>, f: FieldSource) -> bool {
    f matches FieldSource::Range(a, n) ==> a + n <= input.len()
}

/// The source of the value of `input[start..end]` with a one-byte escape:
/// the field itself, or the inside of a quoted field with no escape in
/// it, as a range; else the unescaped bytes.
pub fn field_source(input: &[u8], start: usize, end: usize, escape: u8) -> (r: FieldSource)
    requires
        start >= end || end <= input@.len(),
    ensures
        source_fits(input@, r),
        source_bytes(input@, r) == extract_spec(input@, start as int, end as int, escape),
{
    if start >= end {
        return FieldSource::Owned(Vec::new());
    }
    let field = &input[start..end];
    let n = field.len();
    if n >= 2 && field[0] == escape && field[n - 1] == escape {
        let inner = &field[1..n - 1];
        if contains_byte(inner, escape) {
            return FieldSource::Owned(unescape_field(inner, escape));
        } else {
            proof {
                crate::base::field::lemma_unescape_plain(inner@, escape);
                assert(input@.subrange(start + 1, start + 1 + (end - start - 2)) =~= inner@);
            }
            return FieldSource::Range(start + 1, end - start - 2);
        }
    }
    assert(input@.subrange(start as int, start + (end - start)) =~= field@);
    FieldSource::Range(start, end - start)
}

/// The source of the value of `input[start..end]` with a multi-byte escape.
pub fn field_source_general(input: &[u8], start: usize, end: usize, escape: &[u8]) -> (r: FieldSource)
    requires
        start >= end || end <= input@.len(),
        escape@.len() > 0,
    ensures
        source_fits(input@, r),
        source_bytes(input@, r) == extract_general_spec(input@, start as int, end as int, escape@),
{
    if start >= end {
        return FieldSource::Owned(Vec::new());
    }
    let field = &input[start..end];
    let n = field.len();
    let esc_len = escape.len();
    if esc_len <= n / 2 && starts_with_at(field, 0, escape) && starts_with_at(field, n - esc_len, escape) {
        let inner = &field[esc_len..n - esc_len];
        if contains_escape(inner, escape) {
            return FieldSource::Owned(unescape_field_general(inner, escape));
        } else {
            proof {
                lemma_unescape_general_plain(inner@, escape@);
                assert(input@.subrange(start + esc_len, start + esc_len + (end - start - 2 * esc_len)) =~= inner@);
            }
            return FieldSource::Range(start + esc_len, end - start - 2 * esc_len);
        }
    }
    assert(input@.subrange(start as int, start + (end - start)) =~= field@);
    FieldSource::Range(start, end - start)
}

/// Boundaries from the single-byte scan over the first bytes of one-byte
/// separators are those of the general scan over the separators
/// themselves: every configured separator ends a field.
proof fn lemma_single_byte_is_general(s: Seq<u8>, separators: &Separators, escape: &Escape, b: ScannedBoundaries)
    requires
        all_single(separators, escape),
        bytes_distinct(first_bytes(separators), escape.bytes@[0]),
        s.len() <= crate::base::simd_index::MAX_INPUT_SIZE,
        scanned_of(s, first_bytes(separators), escape.bytes@[0], b),
    ensures
        b.rows@.map_values(|row: Vec<(usize, usize)>| bounds_int(row@)) == general_scan(
            s,
            seps_seq(separators.patterns@),
            escape.bytes@,
            NewlineMode::Default,
            true,
        ).0,
        b.violation == finish_spec(
            general_scan(s, seps_seq(separators.patterns@), escape.bytes@, NewlineMode::Default, true).1,
            s.len() as usize,
        ),
{
    let fb = first_bytes(separators);
    let e = escape.bytes@[0];
    assert(seps_seq(separators.patterns@) =~= byte_pats(fb)) by {
        assert forall|k: int| 0 <= k < fb.len() implies #[trigger] seps_seq(separators.patterns@)[k] == byte_pats(fb)[k] by {
            assert(separators.patterns@[k]@.len() == 1);
            assert(separators.patterns@[k]@ =~= seq![separators.patterns@[k]@[0]]);
        }
    }
    assert(escape.bytes@ =~= seq![e]);
    lemma_general_scan_single_byte(s, fb, e);
    let bb = batch_bounds(s, fb, e);
    let gi = b.rows@.map_values(|row: Vec<(usize, usize)>| bounds_int(row@));
    let g = general_scan(s, byte_pats(fb), seq![e], NewlineMode::Default, true).0;
    let wb = widen_bounds(bb);
    assert(rows_view(b.rows@).len() == wb.len());
    assert forall|k: int| 0 <= k < gi.len() implies #[trigger] gi[k] == g[k] by {
        let row = b.rows@[k]@;
        assert(rows_view(b.rows@)[k] == wb[k]);
        assert(g[k] == widen_row(bb[k]));
        assert(bounds_int(row) =~= widen_row(bb[k]));
    }
    assert(gi =~= g);
}

/// The newline mode of a configuration.
pub open spec fn mode_of(newlines: &Newlines) -> NewlineMode {
    if newlines.is_default {
        NewlineMode::Default
    } else {
        NewlineMode::Custom(newlines)
    }
}

/// The batch dispatch splits fields at every configured separator, whichever
/// parser it picks: its boundaries and violation are those of the general
/// scan over all the separators in the configuration's newline mode. For a
/// configuration of single bytes with `\n` / `\r\n` rows this needs the
/// separator bytes, the escape and the row terminator bytes to be distinct.
pub proof fn law_dispatch_splits_on_every_separator(
    s: Seq<u8>,
    separators: &Separators,
    escape: &Escape,
    newlines: &Newlines,
    b: ScannedBoundaries,
)
    requires
        newlines.is_default && all_single(separators, escape) ==> bytes_distinct(
            first_bytes(separators),
            escape.bytes@[0],
        ),
        s.len() <= crate::base::simd_index::MAX_INPUT_SIZE,
        dispatched_scan(s, separators, escape, newlines, b),
    ensures
        b.rows@.map_values(|row: Vec<(usize, usize)>| bounds_int(row@)) == general_scan(
            s,
            seps_seq(separators.patterns@),
            escape.bytes@,
            mode_of(newlines),
            true,
        ).0,
        b.violation == finish_spec(
            general_scan(s, seps_seq(separators.patterns@), escape.bytes@, mode_of(newlines), true).1,
            s.len() as usize,
        ),
{
    if newlines.is_default && all_single(separators, escape) {
        lemma_single_byte_is_general(s, separators, escape, b);
    }
}

/// The parallel dispatch of such a configuration splits fields at every
/// configured separator too, so it gives the batch dispatch's boundaries and
/// violation.
pub proof fn law_parallel_dispatch_splits_on_every_separator(
    s: Seq<u8>,
    separators: &Separators,
    escape: &Escape,
    newlines: &Newlines,
    b: ScannedBoundaries,
    b2: ScannedBoundaries,
)
    requires
        newlines.is_default,
        all_single(separators, escape),
        bytes_distinct(first_bytes(separators), escape.bytes@[0]),
        s.len() <= crate::base::simd_index::MAX_INPUT_SIZE,
        dispatched_parallel_scan(s, separators, escape, newlines, b),
        dispatched_scan(s, separators, escape, newlines, b2),
    ensures
        b.rows@.map_values(|row: Vec<(usize, usize)>| bounds_int(row@)) == general_scan(
            s,
            seps_seq(separators.patterns@),
            escape.bytes@,
            NewlineMode::Default,
            true,
        ).0,
        b.violation == finish_spec(
            general_scan(s, seps_seq(separators.patterns@), escape.bytes@, NewlineMode::Default, true).1,
            s.len() as usize,
        ),
        b.rows@.map_values(|row: Vec<(usize, usize)>| bounds_int(row@)) == b2.rows@.map_values(
            |row: Vec<(usize, usize)>| bounds_int(row@),
        ),
        b.violation == b2.violation,
{
    lemma_single_byte_is_general(s, separators, escape, b);
    lemma_single_byte_is_general(s, separators, escape, b2);
}

} // verus!
