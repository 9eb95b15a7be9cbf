//! Row encoding: each row becomes one byte string of fields joined by the
//! separator and ended by the line separator. A field is quoted when it
//! holds a reserved pattern; a field that starts with a formula trigger is
//! prefixed with the trigger's replacement and always quoted; everything is
//! then converted to the target encoding.

use vstd::prelude::*;

use crate::base::field::append_bytes;
use crate::strategy::encode::{
    ReservedPatterns, field_needs_quoting, occurs_in, quote_spec, write_quoted_field,
    write_quoted_field_general,
};
use crate::strategy::encoding::{EncodingTarget, encode_spec, encode_utf8_extend};
use crate::strategy::parallel::par_map;

verus! {

/// Separator patterns; the first one is written between encoded fields.
pub struct Separators {
    pub patterns: Vec<Vec<u8>>,
}

/// The escape pattern.
pub struct Escape {
    pub bytes: Vec<u8>,
}

/// At least one separator, and no empty one.
pub open spec fn seps_ok(s: &Separators) -> bool {
    &&& s.patterns@.len() > 0
    &&& forall|k: int| 0 <= k < s.patterns@.len() ==> (#[trigger] s.patterns@[k])@.len() > 0
}

/// Separators from a list of patterns: `None` when the list is empty or
/// holds an empty pattern.
pub fn separators_from_list(patterns: Vec<Vec<u8>>) -> (r: Option<Separators>)
    ensures
        r is Some <==> (patterns@.len() > 0 && forall|k: int| 0 <= k < patterns@.len() ==> (#[trigger] patterns@[k])@.len() > 0),
        r matches Some(s) ==> s.patterns@ == patterns@,
{
    if patterns.len() == 0 {
        return None;
    }
    let mut k: usize = 0;
    while k < patterns.len()
        invariant
            0 <= k <= patterns@.len(),
            forall|j: int| 0 <= j < k ==> (#[trigger] patterns@[j])@.len() > 0,
        decreases patterns@.len() - k,
    {
        if patterns[k].len() == 0 {
            return None;
        }
        k += 1;
    }
    Some(Separators { patterns })
}

/// An escape pattern: `None` when it is empty.
pub fn escape_from_bytes(bytes: Vec<u8>) -> (r: Option<Escape>)
    ensures
        r is Some <==> bytes@.len() > 0,
        r matches Some(e) ==> e.bytes@ == bytes@,
{
    if bytes.len() == 0 {
        None
    } else {
        Some(Escape { bytes })
    }
}

/// The separators and the escape are all one byte long.
pub fn is_all_single_byte(separators: &Separators, escape: &Escape) -> (r: bool)
    ensures
        r == (escape.bytes@.len() == 1 && forall|k: int| 0 <= k < separators.patterns@.len() ==> (
        #[trigger] separators.patterns@[k])@.len() == 1),
{
    if escape.bytes.len() != 1 {
        return false;
    }
    let mut k: usize = 0;
    while k < separators.patterns.len()
        invariant
            0 <= k <= separators.patterns@.len(),
            forall|j: int| 0 <= j < k ==> (#[trigger] separators.patterns@[j])@.len() == 1,
        decreases separators.patterns@.len() - k,
    {
        if separators.patterns[k].len() != 1 {
            return false;
        }
        k += 1;
    }
    true
}

/// The first byte of every separator.
pub fn single_byte_seps(separators: &Separators) -> (r: Vec<u8>)
    requires
        forall|k: int| 0 <= k < separators.patterns@.len() ==> (#[trigger] separators.patterns@[k])@.len() > 0,
    ensures
        r@.len() == separators.patterns@.len(),
        forall|k: int| 0 <= k < r@.len() ==> #[trigger] r@[k] == separators.patterns@[k]@[0],
{
    let mut out: Vec<u8> = Vec::new();
    let mut k: usize = 0;
    while k < separators.patterns.len()
        invariant
            forall|j: int| 0 <= j < separators.patterns@.len() ==> (#[trigger] separators.patterns@[j])@.len() > 0,
            0 <= k <= separators.patterns@.len(),
            out@.len() == k,
            forall|j: int| 0 <= j < k ==> #[trigger] out@[j] == separators.patterns@[j]@[0],
        decreases separators.patterns@.len() - k,
    {
        out.push(separators.patterns[k][0]);
        k += 1;
    }
    out
}

/// Formula-injection rules: a field whose first byte is a trigger gets the
/// trigger's replacement prefixed.
pub struct FormulaConfig {
    pub rules: Vec<(u8, Vec<u8>)>,
}

/// The rules as (trigger, replacement) pairs of sequences.
pub open spec fn rules_view(f: &FormulaConfig) -> Seq<(u8, Seq<u8>)> {
    f.rules@.map_values(|r: (u8, Vec<u8>)| (r.0, r.1@))
}

/// Replacement of the first rule triggered by byte `b`.
pub open spec fn first_rule(rules: Seq<(u8, Seq<u8>)>, b: u8) -> Option<Seq<u8>>
    decreases rules.len(),
{
    if rules.len() == 0 {
        None
    } else if rules[0].0 == b {
        Some(rules[0].1)
    } else {
        first_rule(rules.skip(1), b)
    }
}

/// Replacement prefix for `field`: none for an empty field.
pub open spec fn formula_prefix(rules: Seq<(u8, Seq<u8>)>, field: Seq<u8>) -> Option<Seq<u8>> {
    if field.len() == 0 {
        None
    } else {
        first_rule(rules, field[0])
    }
}

impl FormulaConfig {
    /// No rules.
    pub fn none() -> (r: Self)
        ensures
            r.rules@.len() == 0,
    {
        FormulaConfig { rules: Vec::new() }
    }

    /// Whether there are no rules.
    pub fn is_empty(&self) -> (r: bool)
        ensures
            r == (self.rules@.len() == 0),
    {
        self.rules.len() == 0
    }

    /// The replacement prefix that `field` triggers, if any.
    pub fn check(&self, field: &[u8]) -> (r: Option<&[u8]>)
        ensures
            r matches Some(p) ==> formula_prefix(rules_view(self), field@) == Some(p@),
            r is None ==> formula_prefix(rules_view(self), field@) is None,
    {
        let ghost rv = rules_view(self);
        if field.len() == 0 {
            return None;
        }
        let first = field[0];
        let mut k: usize = 0;
        assert(rv.skip(0) =~= rv);
        while k < self.rules.len()
            invariant
                rv == rules_view(self),
                0 <= k <= rv.len(),
                field@.len() > 0,
                first == field@[0],
                first_rule(rv.skip(k as int), first) == first_rule(rv, first),
            decreases rv.len() - k,
        {
            let rule = &self.rules[k];
            assert(rv.skip(k as int)[0] == (rule.0, rule.1@));
            if rule.0 == first {
                let p = rule.1.as_slice();
                assert(p@ == rule.1@);
                return Some(p);
            }
            assert(rv.skip(k as int).skip(1) =~= rv.skip(k + 1));
            k += 1;
        }
        None
    }
}

/// What encoding work a configuration needs beyond quoting.
pub enum PostProcess {
    /// UTF-8 output, no formula rules.
    Plain,
    /// UTF-8 output with formula rules.
    FormulaOnly(FormulaConfig),
    /// Converted output, no formula rules.
    EncodingOnly(EncodingTarget),
    /// Converted output with formula rules.
    Full(FormulaConfig, EncodingTarget),
}

impl PostProcess {
    /// Classify a formula configuration and a target encoding.
    pub fn from(formula: FormulaConfig, encoding: EncodingTarget) -> (r: Self)
        ensures
            formula.rules@.len() == 0 && encoding == EncodingTarget::Utf8 ==> r is Plain,
            formula.rules@.len() != 0 && encoding == EncodingTarget::Utf8 ==> (r matches PostProcess::FormulaOnly(f) && f.rules@ == formula.rules@),
            formula.rules@.len() == 0 && encoding != EncodingTarget::Utf8 ==> r == PostProcess::EncodingOnly(encoding),
            formula.rules@.len() != 0 && encoding != EncodingTarget::Utf8 ==> (r matches PostProcess::Full(f, e) && f.rules@ == formula.rules@ && e == encoding),
    {
        let empty = formula.is_empty();
        match encoding {
            EncodingTarget::Utf8 => if empty {
                PostProcess::Plain
            } else {
                PostProcess::FormulaOnly(formula)
            },
            _ => if empty {
                PostProcess::EncodingOnly(encoding)
            } else {
                PostProcess::Full(formula, encoding)
            },
        }
    }
}

/// The line separator for the `:default` setting: a line feed.
pub fn default_line_separator() -> (r: Vec<u8>)
    ensures
        r@ == seq![10u8],
{
    let mut v: Vec<u8> = Vec::new();
    v.push(10u8);
    assert(v@ =~= seq![10u8]);
    v
}

/// The field holds a reserved byte or pattern.
pub open spec fn needs_quoting_spec(field: Seq<u8>, reserved: &ReservedPatterns) -> bool {
    (exists|i: int| 0 <= i < field.len() && reserved.singles().contains(#[trigger] field[i]))
        || (exists|k: int| 0 <= k < reserved.multis().len() && occurs_in(field, #[trigger] reserved.multis()[k]))
}

/// The encoded bytes of one field.
pub open spec fn field_bytes(
    field: Seq<u8>,
    esc: Seq<u8>,
    rules: Seq<(u8, Seq<u8>)>,
    reserved: &ReservedPatterns,
    target: EncodingTarget,
) -> Seq<u8> {
    match formula_prefix(rules, field) {
        Some(p) => encode_spec(quote_spec(p + field, esc), target),
        None => if needs_quoting_spec(field, reserved) {
            encode_spec(quote_spec(field, esc), target)
        } else {
            encode_spec(field, target)
        },
    }
}

/// Encoded fields of `row` joined by the encoded separator.
pub open spec fn joined_fields(
    row: Seq<Seq<u8>>,
    sep: Seq<u8>,
    esc: Seq<u8>,
    rules: Seq<(u8, Seq<u8>)>,
    reserved: &ReservedPatterns,
    target: EncodingTarget,
) -> Seq<u8>
    decreases row.len(),
{
    if row.len() == 0 {
        Seq::empty()
    } else if row.len() == 1 {
        field_bytes(row[0], esc, rules, reserved, target)
    } else {
        joined_fields(row.drop_last(), sep, esc, rules, reserved, target) + encode_spec(sep, target)
            + field_bytes(row.last(), esc, rules, reserved, target)
    }
}

/// The encoded bytes of one row, line separator included.
pub open spec fn row_bytes(
    row: Seq<Seq<u8>>,
    sep: Seq<u8>,
    esc: Seq<u8>,
    line_sep: Seq<u8>,
    rules: Seq<(u8, Seq<u8>)>,
    reserved: &ReservedPatterns,
    target: EncodingTarget,
) -> Seq<u8> {
    joined_fields(row, sep, esc, rules, reserved, target) + encode_spec(line_sep, target)
}

/// The reserved longer patterns are not empty.
pub open spec fn reserved_ok(reserved: &ReservedPatterns) -> bool {
    forall|k: int| 0 <= k < reserved.multis().len() ==> (#[trigger] reserved.multis()[k]).len() > 0
}

/// A row's fields as sequences.
pub open spec fn row_view(row: Seq<Vec<u8>>) -> Seq<Seq<u8>> {
    row.map_values(|f: Vec<u8>| f@)
}

/// Write the encoded bytes of one field.
fn write_field(
    out: &mut Vec<u8>,
    field: &[u8],
    escape: &Escape,
    formula: &FormulaConfig,
    target: EncodingTarget,
    reserved: &ReservedPatterns,
)
    requires
        escape.bytes@.len() > 0,
        reserved_ok(reserved),
    ensures
        final(out)@ == old(out)@ + field_bytes(field@, escape.bytes@, rules_view(formula), reserved, target),
{
    let needs_quoting = field_needs_quoting(field, reserved);
    let mut scratch: Vec<u8> = Vec::new();
    match formula.check(field) {
        Some(prefix) => {
            let mut content: Vec<u8> = Vec::new();
            append_bytes(&mut content, prefix);
            append_bytes(&mut content, field);
            write_escaped(&mut scratch, content.as_slice(), escape);
            assert(content@ =~= prefix@ + field@);
        },
        None => {
            if needs_quoting {
                write_escaped(&mut scratch, field, escape);
            } else {
                append_bytes(&mut scratch, field);
            }
        },
    }
    if target == EncodingTarget::Utf8 {
        append_bytes(out, scratch.as_slice());
    } else {
        encode_utf8_extend(out, scratch.as_slice(), target);
    }
    assert(final(out)@ =~= old(out)@ + field_bytes(field@, escape.bytes@, rules_view(formula), reserved, target));
}

/// Write `field` quoted: with the byte form of a one-byte escape, else the
/// pattern form.
fn write_escaped(out: &mut Vec<u8>, field: &[u8], escape: &Escape)
    requires
        escape.bytes@.len() > 0,
    ensures
        final(out)@ == old(out)@ + quote_spec(field@, escape.bytes@),
{
    if escape.bytes.len() == 1 {
        assert(escape.bytes@ =~= seq![escape.bytes@[0]]);
        write_quoted_field(out, field, escape.bytes[0]);
    } else {
        write_quoted_field_general(out, field, escape.bytes.as_slice());
    }
}

/// Encode one row.
pub fn encode_row(
    row: &[Vec<u8>],
    separators: &Separators,
    escape: &Escape,
    line_separator: &[u8],
    formula: &FormulaConfig,
    target: EncodingTarget,
    reserved: &ReservedPatterns,
) -> (r: Vec<u8>)
    requires
        seps_ok(separators),
        escape.bytes@.len() > 0,
        reserved_ok(reserved),
    ensures
        r@ == row_bytes(
            row_view(row@),
            separators.patterns@[0]@,
            escape.bytes@,
            line_separator@,
            rules_view(formula),
            reserved,
            target,
        ),
{
    let ghost rv = row_view(row@);
    let ghost sep = separators.patterns@[0]@;
    let ghost rules = rules_view(formula);
    let sep_pattern = separators.patterns[0].as_slice();
    let mut out: Vec<u8> = Vec::new();
    let mut k: usize = 0;
    while k < row.len()
        invariant
            seps_ok(separators),
            escape.bytes@.len() > 0,
            reserved_ok(reserved),
            sep_pattern@ == sep,
            sep == separators.patterns@[0]@,
            rules == rules_view(formula),
            rv == row_view(row@),
            0 <= k <= row@.len(),
            out@ == joined_fields(rv.take(k as int), sep, escape.bytes@, rules, reserved, target),
        decreases row@.len() - k,
    {
        if k > 0 {
            encode_utf8_extend(&mut out, sep_pattern, target);
        }
        let fld = row[k].as_slice();
        assert(fld@ == rv[k as int]);
        write_field(&mut out, fld, escape, formula, target, reserved);
        proof {
            let t1 = rv.take(k + 1);
            assert(t1.drop_last() =~= rv.take(k as int));
            assert(out@ =~= joined_fields(t1, sep, escape.bytes@, rules, reserved, target));
        }
        k += 1;
    }
    assert(rv.take(k as int) =~= rv);
    encode_utf8_extend(&mut out, line_separator, target);
    out
}

/// The rows of the input as sequences of fields.
pub open spec fn rows_view(rows: Seq<Vec<Vec<u8>>>) -> Seq<Seq<Seq<u8>>> {
    rows.map_values(|r: Vec<Vec<u8>>| row_view(r@))
}

/// Every row encoded: `out[i]` is row `i`'s bytes.
pub open spec fn encoded_rows(
    rows: Seq<Vec<Vec<u8>>>,
    out: Seq<Vec<u8>>,
    separators: &Separators,
    escape: &Escape,
    line_separator: Seq<u8>,
    rules: Seq<(u8, Seq<u8>)>,
    reserved: &ReservedPatterns,
    target: EncodingTarget,
) -> bool {
    &&& out.len() == rows.len()
    &&& forall|i: int| 0 <= i < rows.len() ==> (#[trigger] out[i])@ == row_bytes(
        row_view(rows[i]@),
        separators.patterns@[0]@,
        escape.bytes@,
        line_separator,
        rules,
        reserved,
        target,
    )
}

/// Encode every row with the given rules and target.
fn encode_all(
    rows: &[Vec<Vec<u8>>],
    separators: &Separators,
    escape: &Escape,
    line_separator: &[u8],
    formula: &FormulaConfig,
    target: EncodingTarget,
    reserved: &ReservedPatterns,
) -> (r: Vec<Vec<u8>>)
    requires
        seps_ok(separators),
        escape.bytes@.len() > 0,
        reserved_ok(reserved),
    ensures
        encoded_rows(rows@, r@, separators, escape, line_separator@, rules_view(formula), reserved, target),
{
    let mut out: Vec<Vec<u8>> = Vec::new();
    let mut i: usize = 0;
    while i < rows.len()
        invariant
            seps_ok(separators),
            escape.bytes@.len() > 0,
            reserved_ok(reserved),
            0 <= i <= rows@.len(),
            out@.len() == i,
            forall|j: int| 0 <= j < i ==> (#[trigger] out@[j])@ == row_bytes(
                row_view(rows@[j]@),
                separators.patterns@[0]@,
                escape.bytes@,
                line_separator@,
                rules_view(formula),
                reserved,
                target,
            ),
        decreases rows@.len() - i,
    {
        let row = encode_row(rows[i].as_slice(), separators, escape, line_separator, formula, target, reserved);
        out.push(row);
        i += 1;
    }
    out
}

/// Encode rows, one byte string per row, dispatching on what post-processing
/// the formula rules and target encoding need.
pub fn encode_string(
    rows: &[Vec<Vec<u8>>],
    separators: &Separators,
    escape: &Escape,
    line_separator: &[u8],
    formula: FormulaConfig,
    encoding: EncodingTarget,
    reserved: &ReservedPatterns,
) -> (r: Vec<Vec<u8>>)
    requires
        seps_ok(separators),
        escape.bytes@.len() > 0,
        reserved_ok(reserved),
    ensures
        encoded_rows(rows@, r@, separators, escape, line_separator@, rules_view(&formula), reserved, encoding),
{
    let ghost rules = rules_view(&formula);
    let post = PostProcess::from(formula, encoding);
    match post {
        PostProcess::Plain => {
            let r = encode_string_none(rows, separators, escape, line_separator, reserved);
            assert(rules =~= Seq::<(u8, Seq<u8>)>::empty());
            r
        },
        PostProcess::FormulaOnly(f) => {
            assert(rules_view(&f) =~= rules);
            encode_string_formula(rows, separators, escape, line_separator, &f, reserved)
        },
        PostProcess::EncodingOnly(target) => {
            let r = encode_string_encoding(rows, separators, escape, line_separator, target, reserved);
            assert(rules =~= Seq::<(u8, Seq<u8>)>::empty());
            r
        },
        PostProcess::Full(f, target) => {
            assert(rules_view(&f) =~= rules);
            encode_string_full(rows, separators, escape, line_separator, &f, target, reserved)
        },
    }
}

/// UTF-8 output, no formula rules.
pub fn encode_string_none(
    rows: &[Vec<Vec<u8>>],
    separators: &Separators,
    escape: &Escape,
    line_separator: &[u8],
    reserved: &ReservedPatterns,
) -> (r: Vec<Vec<u8>>)
    requires
        seps_ok(separators),
        escape.bytes@.len() > 0,
        reserved_ok(reserved),
    ensures
        encoded_rows(rows@, r@, separators, escape, line_separator@, Seq::empty(), reserved, EncodingTarget::Utf8),
{
    let none = FormulaConfig::none();
    assert(rules_view(&none) =~= Seq::<(u8, Seq<u8>)>::empty());
    encode_all(rows, separators, escape, line_separator, &none, EncodingTarget::Utf8, reserved)
}

/// UTF-8 output with formula rules.
pub fn encode_string_formula(
    rows: &[Vec<Vec<u8>>],
    separators: &Separators,
    escape: &Escape,
    line_separator: &[u8],
    formula: &FormulaConfig,
    reserved: &ReservedPatterns,
) -> (r: Vec<Vec<u8>>)
    requires
        seps_ok(separators),
        escape.bytes@.len() > 0,
        reserved_ok(reserved),
    ensures
        encoded_rows(rows@, r@, separators, escape, line_separator@, rules_view(formula), reserved, EncodingTarget::Utf8),
{
    encode_all(rows, separators, escape, line_separator, formula, EncodingTarget::Utf8, reserved)
}

/// Converted output, no formula rules.
pub fn encode_string_encoding(
    rows: &[Vec<Vec<u8>>],
    separators: &Separators,
    escape: &Escape,
    line_separator: &[u8],
    target: EncodingTarget,
    reserved: &ReservedPatterns,
) -> (r: Vec<Vec<u8>>)
    requires
        seps_ok(separators),
        escape.bytes@.len() > 0,
        reserved_ok(reserved),
    ensures
        encoded_rows(rows@, r@, separators, escape, line_separator@, Seq::empty(), reserved, target),
{
    let none = FormulaConfig::none();
    assert(rules_view(&none) =~= Seq::<(u8, Seq<u8>)>::empty());
    encode_all(rows, separators, escape, line_separator, &none, target, reserved)
}

/// Converted output with formula rules.
pub fn encode_string_full(
    rows: &[Vec<Vec<u8>>],
    separators: &Separators,
    escape: &Escape,
    line_separator: &[u8],
    formula: &FormulaConfig,
    target: EncodingTarget,
    reserved: &ReservedPatterns,
) -> (r: Vec<Vec<u8>>)
    requires
        seps_ok(separators),
        escape.bytes@.len() > 0,
        reserved_ok(reserved),
    ensures
        encoded_rows(rows@, r@, separators, escape, line_separator@, rules_view(formula), reserved, target),
{
    encode_all(rows, separators, escape, line_separator, formula, target, reserved)
}

/// Encode rows in parallel on rayon's pool, one byte string per row, for
/// single-byte separators and escape; `None` for any other configuration.
pub fn encode_string_parallel(
    rows: Vec<Vec<Vec<u8>>>,
    separators: &Separators,
    escape: &Escape,
    line_separator: &[u8],
    formula: &FormulaConfig,
    encoding: EncodingTarget,
    reserved: &ReservedPatterns,
) -> (r: Option<Vec<Vec<u8>>>)
    requires
        seps_ok(separators),
        escape.bytes@.len() > 0,
        reserved_ok(reserved),
    ensures
        r is Some <==> (escape.bytes@.len() == 1 && forall|k: int| 0 <= k < separators.patterns@.len() ==> (
        #[trigger] separators.patterns@[k])@.len() == 1),
        r matches Some(out) ==> encoded_rows(rows@, out@, separators, escape, line_separator@, rules_view(formula), reserved, encoding),
{
    if !is_all_single_byte(separators, escape) {
        return None;
    }
    let ghost rv = rows@;
    let f = |row: Vec<Vec<u8>>| -> (out: Vec<u8>)
        requires
            seps_ok(separators),
            escape.bytes@.len() > 0,
            reserved_ok(reserved),
        ensures
            out@ == row_bytes(
                row_view(row@),
                separators.patterns@[0]@,
                escape.bytes@,
                line_separator@,
                rules_view(formula),
                reserved,
                encoding,
            ),
        { encode_row(row.as_slice(), separators, escape, line_separator, formula, encoding, reserved) };
    let out = par_map(rows, f);
    proof {
        assert forall|i: int| 0 <= i < rv.len() implies (#[trigger] out@[i])@ == row_bytes(
            row_view(rv[i]@),
            separators.patterns@[0]@,
            escape.bytes@,
            line_separator@,
            rules_view(formula),
            reserved,
            encoding,
        ) by {
            assert(f.ensures((rv[i],), out@[i]));
        }
    }
    Some(out)
}

} // verus!
