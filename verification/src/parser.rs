//! The stylesheet parser: a cursor-based recursive-descent parser producing
//! rules (selector groups plus declarations) from source text.
//!
//! The grammar is stated once as spec functions over a sequence of
//! characters; the executable parser is proved to return exactly what the
//! spec-level parse returns, errors included.

use vstd::prelude::*;
use vstd::string::*;
use crate::css::{
    Color, Declaration, DeclarationV, Rule, RuleV, Selector, SelectorV, SimpleSelector,
    SimpleSelectorV, Stylesheet, StylesheetV, Unit, Value, ValueV, sel_views,
    sort_by_specificity, sort_selectors,
};

verus! {

/// Why a parse was aborted. Every error abandons the whole parse; no
/// partial stylesheet is produced.
#[derive(Clone, Copy, PartialEq, Eq, Structural, Debug)]
pub enum SyntaxError {
    /// A selector group ended with something other than `,` or `{`.
    SelectorTerminator,
    /// A declaration lacks the `:` between property name and value.
    MissingColon,
    /// A declaration lacks its closing `;`.
    MissingSemicolon,
    /// A rule body was never closed with `}`.
    UnterminatedRule,
    /// A color does not consist of `#` and six hex digits.
    InvalidHexColor,
    /// A length carries a unit keyword other than `px`.
    UnrecognizedUnit,
    /// A numeric literal has more than one `.` or does not fit the
    /// fixed-point range.
    InvalidNumber,
}

/// The outcome of one spec-level parsing step: a parsed item together with
/// the position just past it, or the error that aborts the parse.
pub ghost enum Parsed<T> {
    Got { v: T, next: int },
    Fail { err: SyntaxError },
}

// ---------------------------------------------------------------------
// Character classes
// ---------------------------------------------------------------------
/// Whitespace of the grammar: the characters with Unicode's White_Space
/// property — the ASCII whitespace controls and space, next line, no-break
/// space, ogham space mark, the en/em quads and their kin, the line and
/// paragraph separators, the narrow and medium mathematical spaces, and
/// the ideographic space.
pub open spec fn is_space_char(c: char) -> bool {
    let u = c as u32;
    (9 <= u <= 13) || u == 32 || u == 0x85 || u == 0xA0 || u == 0x1680 || (0x2000 <= u <= 0x200A)
        || u == 0x2028 || u == 0x2029 || u == 0x202F || u == 0x205F || u == 0x3000
}

/// A decimal digit.
pub open spec fn is_digit_char(c: char) -> bool {
    48 <= c as u32 <= 57
}

/// A character that may appear in an identifier: letters, digits, `-`, `_`.
pub open spec fn is_ident_char(c: char) -> bool {
    is_digit_char(c) || (97 <= c as u32 <= 122) || (65 <= c as u32 <= 90) || c == '-' || c == '_'
}

/// A character of a numeric literal: a digit or the decimal point.
pub open spec fn is_num_char(c: char) -> bool {
    is_digit_char(c) || c == '.'
}

/// A hexadecimal digit.
pub open spec fn is_hex_char(c: char) -> bool {
    is_digit_char(c) || (97 <= c as u32 <= 102) || (65 <= c as u32 <= 70)
}

/// The numeric value of a decimal digit.
pub open spec fn digit_of(c: char) -> int {
    c as u32 - 48
}

/// The numeric value of a hexadecimal digit.
pub open spec fn hex_val(c: char) -> int {
    if is_digit_char(c) {
        c as u32 - 48
    } else if 97 <= c as u32 <= 102 {
        c as u32 - 87
    } else {
        c as u32 - 55
    }
}

// ---------------------------------------------------------------------
// Scanners: where a run of same-class characters ends
// ---------------------------------------------------------------------
/// The first position at or after `i` holding no whitespace.
pub open spec fn ws_end(s: Seq<char>, i: int) -> int
    decreases s.len() - i,
{
    if i < s.len() && is_space_char(s[i]) {
        ws_end(s, i + 1)
    } else {
        i
    }
}

/// The first position at or after `i` holding no identifier character.
pub open spec fn ident_end(s: Seq<char>, i: int) -> int
    decreases s.len() - i,
{
    if i < s.len() && is_ident_char(s[i]) {
        ident_end(s, i + 1)
    } else {
        i
    }
}

/// The first position at or after `i` holding neither digit nor `.`.
pub open spec fn num_end(s: Seq<char>, i: int) -> int
    decreases s.len() - i,
{
    if i < s.len() && is_num_char(s[i]) {
        num_end(s, i + 1)
    } else {
        i
    }
}

/// The first `.` in `[i, end)`, or `end` if there is none.
pub open spec fn dot_at(s: Seq<char>, i: int, end: int) -> int
    decreases end - i,
{
    if i < end {
        if s[i] == '.' {
            i
        } else {
            dot_at(s, i + 1, end)
        }
    } else {
        end
    }
}

pub proof fn lemma_ws_end(s: Seq<char>, i: int)
    ensures
        i <= ws_end(s, i),
        i <= s.len() ==> ws_end(s, i) <= s.len(),
    decreases s.len() - i,
{
    if i < s.len() && is_space_char(s[i]) {
        lemma_ws_end(s, i + 1);
    }
}

pub proof fn lemma_ident_end(s: Seq<char>, i: int)
    ensures
        i <= ident_end(s, i),
        i <= s.len() ==> ident_end(s, i) <= s.len(),
    decreases s.len() - i,
{
    if i < s.len() && is_ident_char(s[i]) {
        lemma_ident_end(s, i + 1);
    }
}

pub proof fn lemma_num_end(s: Seq<char>, i: int)
    ensures
        i <= num_end(s, i),
        i <= s.len() ==> num_end(s, i) <= s.len(),
        forall|k: int| i <= k < num_end(s, i) ==> is_num_char(#[trigger] s[k]),
    decreases s.len() - i,
{
    if i < s.len() && is_num_char(s[i]) {
        lemma_num_end(s, i + 1);
    }
}

pub proof fn lemma_dot_at(s: Seq<char>, i: int, end: int)
    requires
        i <= end,
    ensures
        i <= dot_at(s, i, end) <= end,
        forall|k: int| i <= k < dot_at(s, i, end) ==> #[trigger] s[k] != '.',
        dot_at(s, i, end) < end ==> s[dot_at(s, i, end)] == '.',
    decreases end - i,
{
    if i < end && s[i] != '.' {
        lemma_dot_at(s, i + 1, end);
    }
}

// ---------------------------------------------------------------------
// Numeric literals: fixed-point value of digits before and after the dot
// ---------------------------------------------------------------------
/// The integer denoted by the digits in `[i, j)`.
pub open spec fn digits_val(s: Seq<char>, i: int, j: int) -> int
    decreases j - i,
{
    if j <= i {
        0
    } else {
        digits_val(s, i, j - 1) * 10 + digit_of(s[j - 1])
    }
}

/// Every character in `[i, j)` is a decimal digit.
pub open spec fn all_digits(s: Seq<char>, i: int, j: int) -> bool {
    forall|k: int| i <= k < j ==> is_digit_char(#[trigger] s[k])
}

/// The value in thousandths contributed by the fraction digits in
/// `[a, b)`; digits past the third carry no weight.
pub open spec fn frac_val(s: Seq<char>, a: int, b: int) -> int {
    if b - a >= 3 {
        digits_val(s, a, a + 3)
    } else if b - a == 2 {
        digits_val(s, a, b) * 10
    } else if b - a == 1 {
        digits_val(s, a, b) * 100
    } else {
        0
    }
}

pub proof fn lemma_digits_val_nonneg(s: Seq<char>, i: int, j: int)
    requires
        all_digits(s, i, j),
    ensures
        0 <= digits_val(s, i, j),
    decreases j - i,
{
    if j > i {
        lemma_digits_val_nonneg(s, i, j - 1);
    }
}

pub proof fn lemma_digits_val_small(s: Seq<char>, i: int, j: int)
    requires
        all_digits(s, i, j),
        j - i <= 3,
    ensures
        0 <= digits_val(s, i, j),
        j - i <= 0 ==> digits_val(s, i, j) == 0,
        j - i == 1 ==> digits_val(s, i, j) < 10,
        j - i == 2 ==> digits_val(s, i, j) < 100,
        j - i == 3 ==> digits_val(s, i, j) < 1000,
    decreases j - i,
{
    if j > i {
        lemma_digits_val_small(s, i, j - 1);
    }
}

/// The fraction part contributes fewer than a thousand thousandths.
pub proof fn lemma_frac_val_bounds(s: Seq<char>, a: int, b: int)
    requires
        all_digits(s, a, b),
        a <= b,
    ensures
        0 <= frac_val(s, a, b) < 1000,
{
    if b - a >= 3 {
        lemma_digits_val_small(s, a, a + 3);
    } else {
        lemma_digits_val_small(s, a, b);
    }
}

// ---------------------------------------------------------------------
// The grammar, one spec function per production
// ---------------------------------------------------------------------
/// A selector with nothing declared yet.
pub open spec fn empty_selector() -> SimpleSelectorV {
    SimpleSelectorV { tag_name: None, id: None, class: Seq::empty() }
}

/// One simple selector: any run of `#id`, `.class`, `*`, and tag-name
/// sub-tokens, in any order; ends at the first other character.
pub open spec fn parse_simple_selector_spec(s: Seq<char>, i: int, acc: SimpleSelectorV) -> (
    SimpleSelectorV,
    int,
)
    decreases s.len() - i,
    via parse_simple_selector_spec_dec
{
    if i >= s.len() {
        (acc, i)
    } else if s[i] == '#' {
        let j = ident_end(s, i + 1);
        parse_simple_selector_spec(
            s,
            j,
            SimpleSelectorV { id: Some(s.subrange(i + 1, j)), ..acc },
        )
    } else if s[i] == '.' {
        let j = ident_end(s, i + 1);
        parse_simple_selector_spec(
            s,
            j,
            SimpleSelectorV { class: acc.class.push(s.subrange(i + 1, j)), ..acc },
        )
    } else if s[i] == '*' {
        parse_simple_selector_spec(s, i + 1, acc)
    } else if is_ident_char(s[i]) {
        let j = ident_end(s, i);
        parse_simple_selector_spec(
            s,
            j,
            SimpleSelectorV { tag_name: Some(s.subrange(i, j)), ..acc },
        )
    } else {
        (acc, i)
    }
}

#[via_fn]
proof fn parse_simple_selector_spec_dec(s: Seq<char>, i: int, acc: SimpleSelectorV) {
    if i < s.len() {
        lemma_ident_end(s, i + 1);
        lemma_ident_end(s, i);
        if !(s[i] == '#' || s[i] == '.' || s[i] == '*') && is_ident_char(s[i]) {
            assert(ident_end(s, i) == ident_end(s, i + 1));
        }
    }
}

pub proof fn lemma_simple_selector_pos(s: Seq<char>, i: int, acc: SimpleSelectorV)
    ensures
        i <= parse_simple_selector_spec(s, i, acc).1,
        i <= s.len() ==> parse_simple_selector_spec(s, i, acc).1 <= s.len(),
    decreases s.len() - i,
{
    if i < s.len() {
        lemma_ident_end(s, i + 1);
        lemma_ident_end(s, i);
        if s[i] == '#' {
            lemma_simple_selector_pos(
                s,
                ident_end(s, i + 1),
                SimpleSelectorV { id: Some(s.subrange(i + 1, ident_end(s, i + 1))), ..acc },
            );
        } else if s[i] == '.' {
            lemma_simple_selector_pos(
                s,
                ident_end(s, i + 1),
                SimpleSelectorV {
                    class: acc.class.push(s.subrange(i + 1, ident_end(s, i + 1))),
                    ..acc
                },
            );
        } else if s[i] == '*' {
            lemma_simple_selector_pos(s, i + 1, acc);
        } else if is_ident_char(s[i]) {
            assert(ident_end(s, i) == ident_end(s, i + 1));
            lemma_simple_selector_pos(
                s,
                ident_end(s, i),
                SimpleSelectorV { tag_name: Some(s.subrange(i, ident_end(s, i))), ..acc },
            );
        }
    }
}

/// A comma-separated selector group, ending (unconsumed) at `{`; the
/// parsed group is sorted descending by specificity.
pub open spec fn parse_selectors_spec(s: Seq<char>, i: int, acc: Seq<SelectorV>) -> Parsed<
    Seq<SelectorV>,
>
    decreases s.len() - i,
    via parse_selectors_spec_dec
{
    let (sel, i1) = parse_simple_selector_spec(s, i, empty_selector());
    let acc1 = acc.push(SelectorV::Simple(sel));
    let i2 = ws_end(s, i1);
    if !(i2 < s.len()) {
        Parsed::Fail { err: SyntaxError::SelectorTerminator }
    } else if s[i2] == ',' {
        parse_selectors_spec(s, ws_end(s, i2 + 1), acc1)
    } else if s[i2] == '{' {
        Parsed::Got { v: sort_by_specificity(acc1), next: i2 }
    } else {
        Parsed::Fail { err: SyntaxError::SelectorTerminator }
    }
}

#[via_fn]
proof fn parse_selectors_spec_dec(s: Seq<char>, i: int, acc: Seq<SelectorV>) {
    lemma_simple_selector_pos(s, i, empty_selector());
    let i1 = parse_simple_selector_spec(s, i, empty_selector()).1;
    lemma_ws_end(s, i1);
    let i2 = ws_end(s, i1);
    if i2 < s.len() {
        lemma_ws_end(s, i2 + 1);
    }
}

/// A selector group succeeds only standing before `{`.
pub proof fn lemma_selectors_pos(s: Seq<char>, i: int, acc: Seq<SelectorV>)
    ensures
        parse_selectors_spec(s, i, acc) matches Parsed::Got { v, next } ==> i <= next < s.len()
            && s[next] == '{',
    decreases s.len() - i,
{
    lemma_simple_selector_pos(s, i, empty_selector());
    let i1 = parse_simple_selector_spec(s, i, empty_selector()).1;
    lemma_ws_end(s, i1);
    let i2 = ws_end(s, i1);
    if i2 < s.len() && s[i2] == ',' {
        lemma_ws_end(s, i2 + 1);
        lemma_selectors_pos(s, ws_end(s, i2 + 1), acc.push(SelectorV::Simple(
            parse_simple_selector_spec(s, i, empty_selector()).0,
        )));
    }
}

/// A declared value: a leading digit starts a length, `#` starts a color,
/// anything else is a bare keyword.
pub open spec fn parse_value_spec(s: Seq<char>, i: int) -> Parsed<ValueV> {
    if i < s.len() && is_digit_char(s[i]) {
        parse_length_spec(s, i)
    } else if i < s.len() && s[i] == '#' {
        parse_color_spec(s, i)
    } else {
        Parsed::Got { v: ValueV::Keyword(s.subrange(i, ident_end(s, i))), next: ident_end(s, i) }
    }
}

/// A length: digits with at most one `.`, then the unit keyword `px`
/// (case-insensitive). The numeral must fit the fixed-point range.
pub open spec fn parse_length_spec(s: Seq<char>, i: int) -> Parsed<ValueV> {
    let end = num_end(s, i);
    let dot = dot_at(s, i, end);
    let fstart = if dot < end {
        dot + 1
    } else {
        end
    };
    if !all_digits(s, fstart, end) {
        Parsed::Fail { err: SyntaxError::InvalidNumber }
    } else {
        let raw = digits_val(s, i, dot) * 1000 + frac_val(s, fstart, end);
        if raw > i64::MAX as int {
            Parsed::Fail { err: SyntaxError::InvalidNumber }
        } else {
            let uend = ident_end(s, end);
            if is_px_ident(s, end, uend) {
                Parsed::Got { v: ValueV::Length(raw as i64, Unit::Px), next: uend }
            } else {
                Parsed::Fail { err: SyntaxError::UnrecognizedUnit }
            }
        }
    }
}

/// The unit keyword in `[a, b)` is `px` in any letter case.
pub open spec fn is_px_ident(s: Seq<char>, a: int, b: int) -> bool {
    b - a == 2 && (s[a] == 'p' || s[a] == 'P') && (s[a + 1] == 'x' || s[a + 1] == 'X')
}

/// A color: `#` followed by exactly six hex digits, read as the red,
/// green and blue bytes; alpha is fixed at 255.
pub open spec fn parse_color_spec(s: Seq<char>, i: int) -> Parsed<ValueV> {
    if i + 7 <= s.len() && all_hex(s, i + 1, i + 7) {
        Parsed::Got {
            v: ValueV::ColorValue(
                Color {
                    r: hex_byte(s, i + 1),
                    g: hex_byte(s, i + 3),
                    b: hex_byte(s, i + 5),
                    a: 255,
                },
            ),
            next: i + 7,
        }
    } else {
        Parsed::Fail { err: SyntaxError::InvalidHexColor }
    }
}

/// Every character in `[a, b)` is a hex digit.
pub open spec fn all_hex(s: Seq<char>, a: int, b: int) -> bool {
    forall|k: int| a <= k < b ==> is_hex_char(#[trigger] s[k])
}

/// The byte denoted by the two hex digits at `k` and `k + 1`.
pub open spec fn hex_byte(s: Seq<char>, k: int) -> u8 {
    (hex_val(s[k]) * 16 + hex_val(s[k + 1])) as u8
}

pub proof fn lemma_value_pos(s: Seq<char>, i: int)
    requires
        i <= s.len(),
    ensures
        parse_value_spec(s, i) matches Parsed::Got { v, next } ==> i <= next <= s.len(),
{
    lemma_ident_end(s, i);
    if i < s.len() && is_digit_char(s[i]) {
        lemma_num_end(s, i);
        lemma_ident_end(s, num_end(s, i));
    }
}

/// One `name: value;` declaration.
pub open spec fn parse_declaration_spec(s: Seq<char>, i: int) -> Parsed<DeclarationV> {
    let j = ident_end(s, i);
    let k = ws_end(s, j);
    if !(k < s.len() && s[k] == ':') {
        Parsed::Fail { err: SyntaxError::MissingColon }
    } else {
        let m = ws_end(s, k + 1);
        match parse_value_spec(s, m) {
            Parsed::Fail { err } => Parsed::Fail { err },
            Parsed::Got { v, next } => {
                let p = ws_end(s, next);
                if !(p < s.len() && s[p] == ';') {
                    Parsed::Fail { err: SyntaxError::MissingSemicolon }
                } else {
                    Parsed::Got {
                        v: DeclarationV { name: s.subrange(i, j), value: v },
                        next: p + 1,
                    }
                }
            },
        }
    }
}

pub proof fn lemma_declaration_pos(s: Seq<char>, i: int)
    requires
        i <= s.len(),
    ensures
        parse_declaration_spec(s, i) matches Parsed::Got { v, next } ==> i < next <= s.len(),
{
    lemma_ident_end(s, i);
    let j = ident_end(s, i);
    lemma_ws_end(s, j);
    let k = ws_end(s, j);
    if k < s.len() && s[k] == ':' {
        lemma_ws_end(s, k + 1);
        let m = ws_end(s, k + 1);
        lemma_value_pos(s, m);
        if let Parsed::Got { v, next } = parse_value_spec(s, m) {
            lemma_ws_end(s, next);
        }
    }
}

/// The declarations of one rule body, up to and past the closing `}`.
/// `i` stands just past the opening `{`.
pub open spec fn parse_declarations_spec(s: Seq<char>, i: int, acc: Seq<DeclarationV>) -> Parsed<
    Seq<DeclarationV>,
>
    decreases s.len() - i,
    via parse_declarations_spec_dec
{
    let i1 = ws_end(s, i);
    if !(i1 < s.len()) {
        Parsed::Fail { err: SyntaxError::UnterminatedRule }
    } else if s[i1] == '}' {
        Parsed::Got { v: acc, next: i1 + 1 }
    } else {
        match parse_declaration_spec(s, i1) {
            Parsed::Fail { err } => Parsed::Fail { err },
            Parsed::Got { v, next } => parse_declarations_spec(s, next, acc.push(v)),
        }
    }
}

#[via_fn]
proof fn parse_declarations_spec_dec(s: Seq<char>, i: int, acc: Seq<DeclarationV>) {
    lemma_ws_end(s, i);
    let i1 = ws_end(s, i);
    if i1 < s.len() && s[i1] != '}' {
        lemma_declaration_pos(s, i1);
    }
}

pub proof fn lemma_declarations_pos(s: Seq<char>, i: int, acc: Seq<DeclarationV>)
    ensures
        parse_declarations_spec(s, i, acc) matches Parsed::Got { v, next } ==> i < next <= s.len(),
    decreases s.len() - i,
{
    lemma_ws_end(s, i);
    let i1 = ws_end(s, i);
    if i1 < s.len() && s[i1] != '}' {
        lemma_declaration_pos(s, i1);
        if let Parsed::Got { v, next } = parse_declaration_spec(s, i1) {
            lemma_declarations_pos(s, next, acc.push(v));
        }
    }
}

/// One rule: a selector group, then `{ declarations }`.
pub open spec fn parse_rule_spec(s: Seq<char>, i: int) -> Parsed<RuleV> {
    match parse_selectors_spec(s, i, Seq::empty()) {
        Parsed::Fail { err } => Parsed::Fail { err },
        Parsed::Got { v: sels, next } => match parse_declarations_spec(s, next + 1, Seq::empty()) {
            Parsed::Fail { err } => Parsed::Fail { err },
            Parsed::Got { v: decls, next: n2 } => Parsed::Got {
                v: RuleV { selectors: sels, declarations: decls },
                next: n2,
            },
        },
    }
}

pub proof fn lemma_rule_pos(s: Seq<char>, i: int)
    ensures
        parse_rule_spec(s, i) matches Parsed::Got { v, next } ==> i < next <= s.len(),
{
    lemma_selectors_pos(s, i, Seq::empty());
    if let Parsed::Got { v: sels, next } = parse_selectors_spec(s, i, Seq::empty()) {
        lemma_declarations_pos(s, next + 1, Seq::empty());
    }
}

/// A whole stylesheet: whitespace-separated rules until the end of input.
pub open spec fn parse_rules_spec(s: Seq<char>, i: int, acc: Seq<RuleV>) -> Parsed<Seq<RuleV>>
    decreases s.len() - i,
    via parse_rules_spec_dec
{
    let i1 = ws_end(s, i);
    if !(i1 < s.len()) {
        Parsed::Got { v: acc, next: i1 }
    } else {
        match parse_rule_spec(s, i1) {
            Parsed::Fail { err } => Parsed::Fail { err },
            Parsed::Got { v, next } => parse_rules_spec(s, next, acc.push(v)),
        }
    }
}

#[via_fn]
proof fn parse_rules_spec_dec(s: Seq<char>, i: int, acc: Seq<RuleV>) {
    lemma_ws_end(s, i);
    let i1 = ws_end(s, i);
    if i1 < s.len() {
        lemma_rule_pos(s, i1);
    }
}

/// What parsing a source text yields: the stylesheet, or the error that
/// aborted the parse.
pub open spec fn parse_spec(s: Seq<char>) -> Result<StylesheetV, SyntaxError> {
    match parse_rules_spec(s, 0, Seq::empty()) {
        Parsed::Got { v, next } => Ok(StylesheetV { rules: v }),
        Parsed::Fail { err } => Err(err),
    }
}

proof fn lemma_selectors_spec_sorted(s: Seq<char>, i: int, acc: Seq<SelectorV>)
    ensures
        parse_selectors_spec(s, i, acc) matches Parsed::Got { v, next } ==> crate::css::sorted_desc(
            v,
        ),
    decreases s.len() - i,
{
    let (sel, i1) = parse_simple_selector_spec(s, i, empty_selector());
    let acc1 = acc.push(SelectorV::Simple(sel));
    let i2 = ws_end(s, i1);
    if i2 < s.len() && s[i2] == ',' {
        lemma_simple_selector_pos(s, i, empty_selector());
        lemma_ws_end(s, i1);
        lemma_ws_end(s, i2 + 1);
        lemma_selectors_spec_sorted(s, ws_end(s, i2 + 1), acc1);
    } else if i2 < s.len() && s[i2] == '{' {
        crate::css::lemma_selector_sort_stable(acc1);
    }
}

proof fn lemma_rules_spec_sorted(s: Seq<char>, i: int, acc: Seq<RuleV>)
    requires
        forall|r: int|
            0 <= r < acc.len() ==> crate::css::sorted_desc((#[trigger] acc[r]).selectors),
    ensures
        parse_rules_spec(s, i, acc) matches Parsed::Got { v, next } ==> forall|r: int|
            0 <= r < v.len() ==> crate::css::sorted_desc((#[trigger] v[r]).selectors),
    decreases s.len() - i,
{
    lemma_ws_end(s, i);
    let i1 = ws_end(s, i);
    if i1 < s.len() {
        lemma_rule_pos(s, i1);
        if let Parsed::Got { v: rule, next } = parse_rule_spec(s, i1) {
            lemma_selectors_spec_sorted(s, i1, Seq::empty());
            assert(crate::css::sorted_desc(rule.selectors));
            assert forall|r: int| 0 <= r < acc.push(rule).len() implies crate::css::sorted_desc(
                (#[trigger] acc.push(rule)[r]).selectors,
            ) by {
                if r < acc.len() {
                    assert(crate::css::sorted_desc(acc[r].selectors));
                }
            }
            lemma_rules_spec_sorted(s, next, acc.push(rule));
        }
    }
}

/// The rule-set invariant: in every stylesheet that a parse produces,
/// each rule's selector group stands sorted, non-increasing in
/// specificity.
pub proof fn lemma_parsed_selectors_sorted(s: Seq<char>)
    ensures
        parse_spec(s) matches Ok(sheet) ==> forall|r: int|
            0 <= r < sheet.rules.len() ==> crate::css::sorted_desc(
                (#[trigger] sheet.rules[r]).selectors,
            ),
{
    lemma_rules_spec_sorted(s, 0, Seq::empty());
}

} // verus!

// ---------------------------------------------------------------------
// The executable parser
// ---------------------------------------------------------------------

verus! {

/// The mathematical images of a list of declarations, in order.
pub open spec fn decl_views(s: Seq<Declaration>) -> Seq<DeclarationV> {
    Seq::new(s.len(), |k: int| s[k]@)
}

/// The mathematical images of a list of rules, in order.
pub open spec fn rule_views(s: Seq<Rule>) -> Seq<RuleV> {
    Seq::new(s.len(), |k: int| s[k]@)
}

fn exec_is_space(c: char) -> (r: bool)
    ensures
        r == is_space_char(c),
{
    let u = c as u32;
    (9 <= u && u <= 13) || u == 32 || u == 0x85 || u == 0xA0 || u == 0x1680 || (0x2000 <= u && u
        <= 0x200A) || u == 0x2028 || u == 0x2029 || u == 0x202F || u == 0x205F || u == 0x3000
}

fn exec_is_digit(c: char) -> (r: bool)
    ensures
        r == is_digit_char(c),
{
    let u = c as u32;
    48 <= u && u <= 57
}

fn exec_is_ident(c: char) -> (r: bool)
    ensures
        r == is_ident_char(c),
{
    let u = c as u32;
    (48 <= u && u <= 57) || (97 <= u && u <= 122) || (65 <= u && u <= 90) || c == '-' || c == '_'
}

fn hex_digit_val(c: char) -> (r: u32)
    requires
        is_hex_char(c),
    ensures
        r as int == hex_val(c),
        r <= 15,
{
    let u = c as u32;
    if 48 <= u && u <= 57 {
        u - 48
    } else if 97 <= u && u <= 102 {
        u - 87
    } else {
        u - 55
    }
}

/// The parsing cursor: the source text and the position (in characters)
/// of the next character to read.
struct Parser {
    input: String,
    pos: usize,
}

impl Parser {
    spec fn src(self) -> Seq<char> {
        self.input@
    }

    spec fn wf(self) -> bool {
        self.pos <= self.input@.len()
    }

    fn len_chars(&self) -> (r: usize)
        ensures
            r == self.src().len(),
    {
        self.input.as_str().unicode_len()
    }

    fn char_at(&self, i: usize) -> (c: char)
        requires
            i < self.src().len(),
        ensures
            c == self.src()[i as int],
    {
        self.input.as_str().get_char(i)
    }

    fn skip_whitespace(&mut self)
        requires
            old(self).wf(),
        ensures
            final(self).input == old(self).input,
            final(self).wf(),
            final(self).pos as int == ws_end(old(self).src(), old(self).pos as int),
        decreases self.src().len() - self.pos,
    {
        proof {
            lemma_ws_end(self.src(), self.pos as int);
        }
        if self.pos < self.len_chars() {
            let c = self.char_at(self.pos);
            if exec_is_space(c) {
                self.pos = self.pos + 1;
                self.skip_whitespace();
            }
        }
    }

    fn scan_ident(&self, i: usize) -> (r: usize)
        requires
            self.wf(),
            i <= self.src().len(),
        ensures
            r as int == ident_end(self.src(), i as int),
            i <= r <= self.src().len(),
        decreases self.src().len() - i,
    {
        proof {
            lemma_ident_end(self.src(), i as int);
        }
        if i < self.len_chars() {
            let c = self.char_at(i);
            if exec_is_ident(c) {
                return self.scan_ident(i + 1);
            }
        }
        i
    }

    fn scan_num(&self, i: usize) -> (r: usize)
        requires
            self.wf(),
            i <= self.src().len(),
        ensures
            r as int == num_end(self.src(), i as int),
            i <= r <= self.src().len(),
        decreases self.src().len() - i,
    {
        proof {
            lemma_num_end(self.src(), i as int);
        }
        if i < self.len_chars() {
            let c = self.char_at(i);
            let u = c as u32;
            if (48 <= u && u <= 57) || c == '.' {
                return self.scan_num(i + 1);
            }
        }
        i
    }

    fn find_dot(&self, i: usize, end: usize) -> (r: usize)
        requires
            self.wf(),
            i <= end <= self.src().len(),
        ensures
            r as int == dot_at(self.src(), i as int, end as int),
            i <= r <= end,
        decreases end - i,
    {
        proof {
            lemma_dot_at(self.src(), i as int, end as int);
        }
        if i < end {
            let c = self.char_at(i);
            if c == '.' {
                i
            } else {
                self.find_dot(i + 1, end)
            }
        } else {
            end
        }
    }

    fn all_digits_exec(&self, i: usize, j: usize) -> (r: bool)
        requires
            self.wf(),
            i <= j <= self.src().len(),
        ensures
            r == all_digits(self.src(), i as int, j as int),
        decreases j - i,
    {
        if i < j {
            let c = self.char_at(i);
            if exec_is_digit(c) {
                let rest = self.all_digits_exec(i + 1, j);
                proof {
                    if rest {
                        assert forall|k: int| i <= k < j implies is_digit_char(
                            #[trigger] self.src()[k],
                        ) by {
                            if k > i {
                                assert(is_digit_char(self.src()[k]));
                            }
                        }
                    }
                }
                rest
            } else {
                false
            }
        } else {
            true
        }
    }

    fn all_hex_exec(&self, i: usize, j: usize) -> (r: bool)
        requires
            self.wf(),
            i <= j <= self.src().len(),
        ensures
            r == all_hex(self.src(), i as int, j as int),
        decreases j - i,
    {
        if i < j {
            let c = self.char_at(i);
            let u = c as u32;
            if (48 <= u && u <= 57) || (97 <= u && u <= 102) || (65 <= u && u <= 70) {
                let rest = self.all_hex_exec(i + 1, j);
                proof {
                    if rest {
                        assert forall|k: int| i <= k < j implies is_hex_char(
                            #[trigger] self.src()[k],
                        ) by {
                            if k > i {
                                assert(is_hex_char(self.src()[k]));
                            }
                        }
                    }
                }
                rest
            } else {
                false
            }
        } else {
            true
        }
    }

    /// The integer value of the digits in `[i, j)`, saturated one past
    /// `i64::MAX` so overflow is still detectable.
    fn int_val(&self, i: usize, j: usize) -> (r: u128)
        requires
            self.wf(),
            i <= j <= self.src().len(),
            all_digits(self.src(), i as int, j as int),
        ensures
            digits_val(self.src(), i as int, j as int) > i64::MAX as int ==> r
                == 0x8000_0000_0000_0000u128,
            digits_val(self.src(), i as int, j as int) <= i64::MAX as int ==> r == digits_val(
                self.src(),
                i as int,
                j as int,
            ),
        decreases j,
    {
        if j <= i {
            0
        } else {
            proof {
                lemma_digits_val_nonneg(self.src(), i as int, j - 1 as int);
            }
            let prev = self.int_val(i, j - 1);
            let c = self.char_at(j - 1);
            let d = (c as u32) - 48;
            let x = prev * 10 + (d as u128);
            if x > 0x7fff_ffff_ffff_ffffu128 {
                0x8000_0000_0000_0000u128
            } else {
                x
            }
        }
    }

    fn hex_pair(&self, k: usize) -> (r: u8)
        requires
            self.wf(),
            self.src().len() <= usize::MAX,
            k + 2 <= self.src().len(),
            is_hex_char(self.src()[k as int]),
            is_hex_char(self.src()[k + 1]),
        ensures
            r == hex_byte(self.src(), k as int),
    {
        let h1 = hex_digit_val(self.char_at(k));
        let h2 = hex_digit_val(self.char_at(k + 1));
        (h1 * 16 + h2) as u8
    }

    fn parse_identifier(&mut self) -> (r: String)
        requires
            old(self).wf(),
        ensures
            final(self).input == old(self).input,
            final(self).wf(),
            final(self).pos as int == ident_end(old(self).src(), old(self).pos as int),
            r@ == old(self).src().subrange(old(self).pos as int, final(self).pos as int),
    {
        let end = self.scan_ident(self.pos);
        let r = self.input.as_str().substring_char(self.pos, end).to_owned();
        self.pos = end;
        r
    }

    fn parse_simple_selector(&mut self, acc: SimpleSelector) -> (r: SimpleSelector)
        requires
            old(self).wf(),
        ensures
            final(self).input == old(self).input,
            final(self).wf(),
            (r@, final(self).pos as int) == parse_simple_selector_spec(
                old(self).src(),
                old(self).pos as int,
                acc@,
            ),
        decreases self.src().len() - self.pos,
    {
        let ghost s = self.src();
        let ghost p0 = self.pos as int;
        let ghost av = acc@;
        if self.pos >= self.len_chars() {
            return acc;
        }
        let c = self.char_at(self.pos);
        if c == '#' {
            self.pos = self.pos + 1;
            let id = self.parse_identifier();
            let mut acc2 = acc;
            acc2.id = Some(id);
            proof {
                lemma_ident_end(s, p0 + 1);
                assert(acc2@ =~= (SimpleSelectorV {
                    id: Some(s.subrange(p0 + 1, ident_end(s, p0 + 1))),
                    ..av
                }));
            }
            self.parse_simple_selector(acc2)
        } else if c == '.' {
            self.pos = self.pos + 1;
            let cls = self.parse_identifier();
            let mut acc2 = acc;
            acc2.class.push(cls);
            proof {
                lemma_ident_end(s, p0 + 1);
                let pushed = av.class.push(s.subrange(p0 + 1, ident_end(s, p0 + 1)));
                assert forall|k: int| 0 <= k < acc2@.class.len() implies acc2@.class[k]
                    == pushed[k] by {
                    if k < av.class.len() {
                        assert(acc2.class@[k] == acc.class@[k]);
                    }
                }
                assert(acc2@.class =~= pushed);
                assert(acc2@ =~= (SimpleSelectorV { class: pushed, ..av }));
            }
            self.parse_simple_selector(acc2)
        } else if c == '*' {
            self.pos = self.pos + 1;
            self.parse_simple_selector(acc)
        } else {
            let is_id = exec_is_ident(c);
            if is_id {
                proof {
                    lemma_ident_end(s, p0 + 1);
                    assert(ident_end(s, p0) == ident_end(s, p0 + 1));
                }
                let t = self.parse_identifier();
                let mut acc2 = acc;
                acc2.tag_name = Some(t);
                proof {
                    assert(acc2@ =~= (SimpleSelectorV {
                        tag_name: Some(s.subrange(p0, ident_end(s, p0))),
                        ..av
                    }));
                }
                self.parse_simple_selector(acc2)
            } else {
                acc
            }
        }
    }

    fn parse_selectors(&mut self, acc: Vec<Selector>) -> (r: Result<Vec<Selector>, SyntaxError>)
        requires
            old(self).wf(),
        ensures
            final(self).input == old(self).input,
            final(self).wf(),
            (match r {
                Ok(v) => parse_selectors_spec(old(self).src(), old(self).pos as int, sel_views(acc@))
                    == (Parsed::Got { v: sel_views(v@), next: final(self).pos as int }),
                Err(e) => parse_selectors_spec(old(self).src(), old(self).pos as int, sel_views(acc@))
                    == (Parsed::Fail::<Seq<SelectorV>> { err: e }),
            }),
        decreases self.src().len() - self.pos,
    {
        let ghost s = self.src();
        let ghost p0 = self.pos as int;
        let ghost av = sel_views(acc@);
        proof {
            lemma_simple_selector_pos(s, p0, empty_selector());
        }
        let empty = SimpleSelector { tag_name: None, id: None, class: Vec::new() };
        proof {
            assert(empty@ =~= empty_selector());
        }
        let sel = self.parse_simple_selector(empty);
        let mut acc = acc;
        acc.push(Selector::Simple(sel));
        proof {
            let ghost spec_sel = parse_simple_selector_spec(s, p0, empty_selector()).0;
            assert forall|k: int| 0 <= k < sel_views(acc@).len() implies sel_views(acc@)[k]
                == av.push(SelectorV::Simple(spec_sel))[k] by {}
            assert(sel_views(acc@) =~= av.push(SelectorV::Simple(spec_sel)));
        }
        self.skip_whitespace();
        proof {
            lemma_ws_end(s, parse_simple_selector_spec(s, p0, empty_selector()).1);
        }
        if self.pos >= self.len_chars() {
            return Err(SyntaxError::SelectorTerminator);
        }
        let c = self.char_at(self.pos);
        if c == ',' {
            self.pos = self.pos + 1;
            self.skip_whitespace();
            proof {
                lemma_ws_end(s, ws_end(s, parse_simple_selector_spec(s, p0, empty_selector()).1) + 1);
            }
            self.parse_selectors(acc)
        } else if c == '{' {
            Ok(sort_selectors(acc))
        } else {
            Err(SyntaxError::SelectorTerminator)
        }
    }

    fn parse_length(&mut self) -> (r: Result<Value, SyntaxError>)
        requires
            old(self).wf(),
        ensures
            final(self).input == old(self).input,
            final(self).wf(),
            (match r {
                Ok(v) => parse_length_spec(old(self).src(), old(self).pos as int) == (Parsed::Got {
                    v: v@,
                    next: final(self).pos as int,
                }),
                Err(e) => parse_length_spec(old(self).src(), old(self).pos as int)
                    == (Parsed::Fail::<ValueV> { err: e }),
            }),
    {
        let ghost s = self.src();
        let ghost p0 = self.pos as int;
        let start = self.pos;
        let end = self.scan_num(start);
        let dot = self.find_dot(start, end);
        proof {
            lemma_num_end(s, p0);
            lemma_dot_at(s, p0, end as int);
            assert forall|k: int| p0 <= k < dot as int implies is_digit_char(#[trigger] s[k]) by {
                assert(is_num_char(s[k]));
                assert(s[k] != '.');
            }
        }
        let fstart = if dot < end {
            dot + 1
        } else {
            end
        };
        if !self.all_digits_exec(fstart, end) {
            return Err(SyntaxError::InvalidNumber);
        }
        let ival = self.int_val(start, dot);
        let flim = if end - fstart >= 3 {
            fstart + 3
        } else {
            end
        };
        proof {
            assert(all_digits(s, fstart as int, flim as int));
        }
        let f0 = self.int_val(fstart, flim);
        proof {
            lemma_digits_val_small(s, fstart as int, flim as int);
        }
        let fval: u128 = if end - fstart >= 3 {
            f0
        } else if end - fstart == 2 {
            f0 * 10
        } else if end - fstart == 1 {
            f0 * 100
        } else {
            0
        };
        proof {
            assert(fval == frac_val(s, fstart as int, end as int));
            lemma_frac_val_bounds(s, fstart as int, end as int);
            lemma_digits_val_nonneg(s, p0, dot as int);
        }
        if ival > 0x7fff_ffff_ffff_ffffu128 {
            return Err(SyntaxError::InvalidNumber);
        }
        let total: u128 = ival * 1000 + fval;
        if total > 0x7fff_ffff_ffff_ffffu128 {
            return Err(SyntaxError::InvalidNumber);
        }
        let uend = self.scan_ident(end);
        if uend - end != 2 {
            return Err(SyntaxError::UnrecognizedUnit);
        }
        let c1 = self.char_at(end);
        let c2 = self.char_at(end + 1);
        if !((c1 == 'p' || c1 == 'P') && (c2 == 'x' || c2 == 'X')) {
            return Err(SyntaxError::UnrecognizedUnit);
        }
        self.pos = uend;
        Ok(Value::Length(total as i64, Unit::Px))
    }

    fn parse_color(&mut self) -> (r: Result<Value, SyntaxError>)
        requires
            old(self).wf(),
        ensures
            final(self).input == old(self).input,
            final(self).wf(),
            (match r {
                Ok(v) => parse_color_spec(old(self).src(), old(self).pos as int) == (Parsed::Got {
                    v: v@,
                    next: final(self).pos as int,
                }),
                Err(e) => parse_color_spec(old(self).src(), old(self).pos as int)
                    == (Parsed::Fail::<ValueV> { err: e }),
            }),
    {
        let len = self.len_chars();
        if len - self.pos < 7 {
            return Err(SyntaxError::InvalidHexColor);
        }
        if !self.all_hex_exec(self.pos + 1, self.pos + 7) {
            return Err(SyntaxError::InvalidHexColor);
        }
        let r = self.hex_pair(self.pos + 1);
        let g = self.hex_pair(self.pos + 3);
        let b = self.hex_pair(self.pos + 5);
        self.pos = self.pos + 7;
        Ok(Value::ColorValue(Color { r, g, b, a: 255 }))
    }

    fn parse_value(&mut self) -> (r: Result<Value, SyntaxError>)
        requires
            old(self).wf(),
        ensures
            final(self).input == old(self).input,
            final(self).wf(),
            (match r {
                Ok(v) => parse_value_spec(old(self).src(), old(self).pos as int) == (Parsed::Got {
                    v: v@,
                    next: final(self).pos as int,
                }),
                Err(e) => parse_value_spec(old(self).src(), old(self).pos as int)
                    == (Parsed::Fail::<ValueV> { err: e }),
            }),
    {
        if self.pos < self.len_chars() {
            let c = self.char_at(self.pos);
            if exec_is_digit(c) {
                return self.parse_length();
            }
            if c == '#' {
                return self.parse_color();
            }
        }
        let t = self.parse_identifier();
        Ok(Value::Keyword(t))
    }

    fn parse_declaration(&mut self) -> (r: Result<Declaration, SyntaxError>)
        requires
            old(self).wf(),
        ensures
            final(self).input == old(self).input,
            final(self).wf(),
            (match r {
                Ok(d) => parse_declaration_spec(old(self).src(), old(self).pos as int)
                    == (Parsed::Got { v: d@, next: final(self).pos as int }),
                Err(e) => parse_declaration_spec(old(self).src(), old(self).pos as int)
                    == (Parsed::Fail::<DeclarationV> { err: e }),
            }),
    {
        let ghost s = self.src();
        let ghost p0 = self.pos as int;
        let name = self.parse_identifier();
        self.skip_whitespace();
        proof {
            lemma_ident_end(s, p0);
            lemma_ws_end(s, ident_end(s, p0));
        }
        if self.pos >= self.len_chars() {
            return Err(SyntaxError::MissingColon);
        }
        let c = self.char_at(self.pos);
        if c != ':' {
            return Err(SyntaxError::MissingColon);
        }
        self.pos = self.pos + 1;
        self.skip_whitespace();
        let value = match self.parse_value() {
            Ok(v) => v,
            Err(e) => {
                return Err(e);
            },
        };
        self.skip_whitespace();
        proof {
            let k = ws_end(s, ident_end(s, p0));
            let m = ws_end(s, k + 1);
            lemma_ws_end(s, k + 1);
            if let Parsed::Got { v, next } = parse_value_spec(s, m) {
                lemma_ws_end(s, next);
            }
        }
        if self.pos >= self.len_chars() {
            return Err(SyntaxError::MissingSemicolon);
        }
        let c2 = self.char_at(self.pos);
        if c2 != ';' {
            return Err(SyntaxError::MissingSemicolon);
        }
        self.pos = self.pos + 1;
        Ok(Declaration { name, value })
    }

    fn parse_declarations(&mut self, acc: Vec<Declaration>) -> (r: Result<
        Vec<Declaration>,
        SyntaxError,
    >)
        requires
            old(self).wf(),
        ensures
            final(self).input == old(self).input,
            final(self).wf(),
            (match r {
                Ok(v) => parse_declarations_spec(
                    old(self).src(),
                    old(self).pos as int,
                    decl_views(acc@),
                ) == (Parsed::Got { v: decl_views(v@), next: final(self).pos as int }),
                Err(e) => parse_declarations_spec(
                    old(self).src(),
                    old(self).pos as int,
                    decl_views(acc@),
                ) == (Parsed::Fail::<Seq<DeclarationV>> { err: e }),
            }),
        decreases self.src().len() - self.pos,
    {
        let ghost s = self.src();
        let ghost p0 = self.pos as int;
        let ghost av = decl_views(acc@);
        self.skip_whitespace();
        proof {
            lemma_ws_end(s, p0);
        }
        if self.pos >= self.len_chars() {
            return Err(SyntaxError::UnterminatedRule);
        }
        let c = self.char_at(self.pos);
        if c == '}' {
            self.pos = self.pos + 1;
            return Ok(acc);
        }
        proof {
            lemma_declaration_pos(s, ws_end(s, p0));
        }
        match self.parse_declaration() {
            Err(e) => Err(e),
            Ok(d) => {
                let ghost dv = d@;
                let mut acc = acc;
                acc.push(d);
                proof {
                    assert forall|k: int| 0 <= k < decl_views(acc@).len() implies decl_views(acc@)[k]
                        == av.push(dv)[k] by {}
                    assert(decl_views(acc@) =~= av.push(dv));
                }
                self.parse_declarations(acc)
            },
        }
    }

    fn parse_rule(&mut self) -> (r: Result<Rule, SyntaxError>)
        requires
            old(self).wf(),
        ensures
            final(self).input == old(self).input,
            final(self).wf(),
            (match r {
                Ok(rule) => parse_rule_spec(old(self).src(), old(self).pos as int) == (Parsed::Got {
                    v: rule@,
                    next: final(self).pos as int,
                }),
                Err(e) => parse_rule_spec(old(self).src(), old(self).pos as int)
                    == (Parsed::Fail::<RuleV> { err: e }),
            }),
    {
        let ghost s = self.src();
        let ghost p0 = self.pos as int;
        proof {
            assert(sel_views(Seq::<Selector>::empty()) =~= Seq::<SelectorV>::empty());
            lemma_selectors_pos(s, p0, Seq::empty());
        }
        let sels = match self.parse_selectors(Vec::new()) {
            Ok(v) => v,
            Err(e) => {
                return Err(e);
            },
        };
        let n = self.len_chars();
        proof {
            assert(self.pos < n);
        }
        self.pos = self.pos + 1;
        proof {
            assert(decl_views(Seq::<Declaration>::empty()) =~= Seq::<DeclarationV>::empty());
        }
        let decls = match self.parse_declarations(Vec::new()) {
            Ok(v) => v,
            Err(e) => {
                return Err(e);
            },
        };
        let rule = Rule { selectors: sels, declarations: decls };
        proof {
            assert(rule@.selectors =~= sel_views(sels@));
            assert(rule@.declarations =~= decl_views(decls@));
        }
        Ok(rule)
    }

    fn parse_rules(&mut self, acc: Vec<Rule>) -> (r: Result<Vec<Rule>, SyntaxError>)
        requires
            old(self).wf(),
        ensures
            final(self).input == old(self).input,
            final(self).wf(),
            (match r {
                Ok(v) => parse_rules_spec(old(self).src(), old(self).pos as int, rule_views(acc@))
                    == (Parsed::Got { v: rule_views(v@), next: final(self).pos as int }),
                Err(e) => parse_rules_spec(old(self).src(), old(self).pos as int, rule_views(acc@))
                    == (Parsed::Fail::<Seq<RuleV>> { err: e }),
            }),
        decreases self.src().len() - self.pos,
    {
        let ghost s = self.src();
        let ghost p0 = self.pos as int;
        let ghost av = rule_views(acc@);
        self.skip_whitespace();
        proof {
            lemma_ws_end(s, p0);
        }
        if self.pos >= self.len_chars() {
            return Ok(acc);
        }
        proof {
            lemma_rule_pos(s, ws_end(s, p0));
        }
        match self.parse_rule() {
            Err(e) => Err(e),
            Ok(rule) => {
                let ghost rv = rule@;
                let mut acc = acc;
                acc.push(rule);
                proof {
                    assert forall|k: int| 0 <= k < rule_views(acc@).len() implies rule_views(acc@)[k]
                        == av.push(rv)[k] by {}
                    assert(rule_views(acc@) =~= av.push(rv));
                }
                self.parse_rules(acc)
            },
        }
    }
}

/// Parse a stylesheet source text into its rule set: exactly the result
/// of the spec-level parse of the same characters, whether a stylesheet
/// or the syntax error that aborts the parse.
pub fn parse(source: String) -> (r: Result<Stylesheet, SyntaxError>)
    ensures
        (match r {
            Ok(sheet) => parse_spec(source@) == Ok::<StylesheetV, SyntaxError>(sheet@),
            Err(e) => parse_spec(source@) == Err::<StylesheetV, SyntaxError>(e),
        }),
{
    let mut parser = Parser { pos: 0, input: source };
    proof {
        assert(rule_views(Seq::<Rule>::empty()) =~= Seq::<RuleV>::empty());
    }
    match parser.parse_rules(Vec::new()) {
        Ok(rules) => {
            let sheet = Stylesheet { rules };
            proof {
                assert(sheet@.rules =~= rule_views(sheet.rules@));
            }
            Ok(sheet)
        },
        Err(e) => Err(e),
    }
}

} // verus!
