//! Trusted interface to the validated Haystack scalar types of
//! `raystack_core`: `TagName`, `Ref`, `Symbol` and `Number`.
//!
//! The parser never reimplements their validation rules; it calls the
//! fallible constructors and propagates failure. The spec functions in
//! this module state, over plain character sequences, exactly which
//! inputs each constructor accepts, as the crate's source shows.

use raystack_core::{Number, Ref, Symbol, TagName};
use vstd::prelude::*;

verus! {

#[verifier::external_type_specification]
#[verifier::external_body]
pub struct ExTagName(TagName);

#[verifier::external_type_specification]
#[verifier::external_body]
pub struct ExRef(Ref);

#[verifier::external_type_specification]
#[verifier::external_body]
pub struct ExSymbol(Symbol);

#[verifier::external_type_specification]
#[verifier::external_body]
pub struct ExNumber(Number);

pub open spec fn is_ascii_lower(c: char) -> bool {
    'a' <= c && c <= 'z'
}

pub open spec fn is_ascii_upper(c: char) -> bool {
    'A' <= c && c <= 'Z'
}

pub open spec fn is_ascii_digit_char(c: char) -> bool {
    '0' <= c && c <= '9'
}

pub open spec fn is_ascii_alnum(c: char) -> bool {
    is_ascii_lower(c) || is_ascii_upper(c) || is_ascii_digit_char(c)
}

/// A valid tag name: non-empty, starts with a lowercase ASCII letter,
/// and continues with ASCII letters, digits or underscores.
pub open spec fn is_tag_name_text(s: Seq<char>) -> bool {
    &&& s.len() > 0
    &&& is_ascii_lower(s[0])
    &&& forall|i: int| 1 <= i < s.len() ==> is_ascii_alnum(#[trigger] s[i]) || s[i] == '_'
}

/// The characters accepted in the body of a ref literal.
pub open spec fn is_ref_body_char(c: char) -> bool {
    is_ascii_alnum(c) || c == '_' || c == ':' || c == '-' || c == '.' || c == '~'
}

/// A valid ASCII ref literal: `@` followed by at least one body character.
pub open spec fn is_ref_text(s: Seq<char>) -> bool {
    &&& s.len() >= 2
    &&& s[0] == '@'
    &&& forall|i: int| 1 <= i < s.len() ==> is_ref_body_char(#[trigger] s[i])
}

pub open spec fn has_ascii_lower(t: Seq<char>) -> bool {
    exists|i: int| 0 <= i < t.len() && is_ascii_lower(#[trigger] t[i])
}

pub open spec fn colon_count(t: Seq<char>) -> nat {
    t.filter(|c: char| c == ':').len()
}

/// A valid symbol literal: `^`, then at most two `:`-separated sections,
/// each containing at least one lowercase ASCII letter.
pub open spec fn is_symbol_text(s: Seq<char>) -> bool {
    &&& s.len() >= 1
    &&& s[0] == '^'
    &&& {
        let t = s.skip(1);
        if colon_count(t) == 0 {
            has_ascii_lower(t)
        } else if colon_count(t) == 1 {
            exists|p: int|
                0 <= p < t.len() && t[p] == ':' && has_ascii_lower(t.take(p)) && has_ascii_lower(
                    t.skip(p + 1),
                )
        } else {
            false
        }
    }
}

/// An unsigned numeral splits at `k`: digits up to `k`, then either the
/// end or a `.` followed by one or more digits.
pub open spec fn numeral_split_at(t: Seq<char>, k: int) -> bool {
    &&& 1 <= k <= t.len()
    &&& (forall|i: int| 0 <= i < k ==> is_ascii_digit_char(#[trigger] t[i]))
    &&& (k == t.len() || (t[k] == '.' && k + 2 <= t.len() && forall|i: int|
        k < i < t.len() ==> is_ascii_digit_char(#[trigger] t[i])))
}

/// An unsigned numeral: one or more digits, optionally followed by a `.`
/// and one or more digits.
pub open spec fn is_numeral_text(t: Seq<char>) -> bool {
    exists|k: int| numeral_split_at(t, k)
}

/// The shape of a base numeral: optional `-`, then an unsigned numeral.
pub open spec fn is_float_text(s: Seq<char>) -> bool {
    if s.len() > 0 && s[0] == '-' {
        is_numeral_text(s.skip(1))
    } else {
        is_numeral_text(s)
    }
}

/// The tag name that `TagName::new` builds from a valid string.
pub uninterp spec fn tag_name_of(s: Seq<char>) -> TagName;

/// Relies on `raystack_core::TagName::new`, which accepts exactly the
/// strings that `is_tag_name_text` describes.
#[verifier::external_body]
pub(crate) fn tag_name_new(s: String) -> (r: Option<TagName>)
    ensures
        r == if is_tag_name_text(s@) {
            Some(tag_name_of(s@))
        } else {
            None::<TagName>
        },
{
    TagName::new(s)
}

/// The ref that `Ref::new` builds from a valid string.
pub uninterp spec fn ref_of(s: Seq<char>) -> Ref;

/// Relies on `raystack_core::Ref::new`: on all-ASCII input it accepts
/// exactly `@` followed by one or more alphanumerics or `_ : - . ~`.
#[verifier::external_body]
pub(crate) fn ref_new(s: String) -> (r: Option<Ref>)
    requires
        forall|i: int| 0 <= i < s@.len() ==> (#[trigger] s@[i] as u32) < 128,
    ensures
        r == if is_ref_text(s@) {
            Some(ref_of(s@))
        } else {
            None::<Ref>
        },
{
    Ref::new(s).ok()
}

/// The symbol that `Symbol::new` builds from a valid string.
pub uninterp spec fn symbol_of(s: Seq<char>) -> Symbol;

/// Relies on `raystack_core::Symbol::new`, which accepts exactly the
/// strings that `is_symbol_text` describes: its section pattern is an
/// unanchored match, so a section matches exactly when it contains a
/// lowercase ASCII letter.
#[verifier::external_body]
pub(crate) fn symbol_new(s: String) -> (r: Option<Symbol>)
    ensures
        r == if is_symbol_text(s@) {
            Some(symbol_of(s@))
        } else {
            None::<Symbol>
        },
{
    Symbol::new(s).ok()
}

/// The number that `Number::new` builds from a parsed base and a unit.
pub uninterp spec fn basic_number_of(base: Seq<char>, unit: Option<Seq<char>>) -> Number;

/// Relies on `raystack_core::Number::new`; the base string is converted
/// to the numeric value it denotes, which is defined for every string of
/// `is_float_text` shape.
#[verifier::external_body]
pub(crate) fn number_basic(base: String, unit: Option<String>) -> (r: Number)
    requires
        is_float_text(base@),
    ensures
        r == basic_number_of(base@, unit.deep_view()),
{
    Number::new(base.as_str().parse().unwrap(), unit)
}

/// The number, if any, that `Number::new_scientific` builds from a parsed
/// base, an exponent and a unit; it is `None` exactly when the base
/// denotes a value outside the finite floating-point range.
pub uninterp spec fn scientific_number_of(
    base: Seq<char>,
    exponent: int,
    unit: Option<Seq<char>>,
) -> Option<Number>;

/// Relies on `raystack_core::Number::new_scientific`; the base string is
/// converted as in `number_basic`.
#[verifier::external_body]
pub(crate) fn number_scientific(base: String, exponent: i32, unit: Option<String>) -> (r: Option<
    Number,
>)
    requires
        is_float_text(base@),
    ensures
        r == scientific_number_of(base@, exponent as int, unit.deep_view()),
{
    Number::new_scientific(base.as_str().parse().unwrap(), exponent, unit)
}

/// Relies on the derived `PartialEq` of `raystack_core::TagName`, which
/// compares the single underlying string.
pub assume_specification[ <raystack_core::TagName as PartialEq>::eq ](
    a: &raystack_core::TagName,
    b: &raystack_core::TagName,
) -> (r: bool)
    ensures
        r == (a == b),
;

/// Relies on the derived `Clone` of `raystack_core::TagName`, which
/// copies the single underlying string.
pub assume_specification[ <raystack_core::TagName as Clone>::clone ](
    a: &raystack_core::TagName,
) -> (r: raystack_core::TagName)
    ensures
        r == *a,
;

/// Relies on the derived `Clone` of `raystack_core::Ref`, which copies
/// the single underlying string.
pub assume_specification[ <raystack_core::Ref as Clone>::clone ](
    a: &raystack_core::Ref,
) -> (r: raystack_core::Ref)
    ensures
        r == *a,
;

/// Relies on the derived `Clone` of `raystack_core::Symbol`, which
/// copies the single underlying string.
pub assume_specification[ <raystack_core::Symbol as Clone>::clone ](
    a: &raystack_core::Symbol,
) -> (r: raystack_core::Symbol)
    ensures
        r == *a,
;

/// Relies on the derived `Clone` of `raystack_core::Number`, which
/// copies the numeric fields and the unit string.
pub assume_specification[ <raystack_core::Number as Clone>::clone ](
    a: &raystack_core::Number,
) -> (r: raystack_core::Number)
    ensures
        r == *a,
;

} // verus!
