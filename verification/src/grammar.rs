//! The value grammar: the recursive-descent parser for dictionaries,
//! lists and leaf literals, together with the specification parser that
//! its contracts are proved against.

use crate::ast::{
    entries_insert, entries_model, items_model, lemma_key_index_pin, Date, Lit, LitModel, Month,
    Time, Val, ValModel, YearMonth,
};
use crate::num::{
    digits_end, digits_val, is_digit, is_unit_char_exec, lemma_digits_end, lemma_digits_val_bound,
    marker_at, num_from_token, num_token_end, pow10, spec_number_value, unit_end,
};
use crate::scalars::{
    is_ascii_digit_char, is_ascii_lower, is_ascii_upper, is_ref_body_char, is_ref_text,
    is_symbol_text, is_tag_name_text, ref_new, ref_of, symbol_new, symbol_of, tag_name_new,
    tag_name_of,
};
use crate::util::{copy_range, range_to_string};
use raystack_core::{Number, Ref, Symbol, TagName};
use vstd::prelude::*;

verus! {

// ---------------------------------------------------------------------
// character classes and scanners
// ---------------------------------------------------------------------

pub open spec fn is_ws(c: char) -> bool {
    c == ' ' || c == '\t' || c == '\n' || c == '\r'
}

pub open spec fn is_tag_char(c: char) -> bool {
    is_ascii_lower(c) || is_ascii_upper(c) || is_ascii_digit_char(c) || c == '_'
}

pub open spec fn is_sym_char(c: char) -> bool {
    is_ascii_lower(c) || is_ascii_upper(c) || is_ascii_digit_char(c) || c == '_' || c == '-'
        || c == ':'
}

pub open spec fn ws_end(s: Seq<char>, i: int) -> int
    decreases s.len() - i,
{
    if 0 <= i < s.len() && is_ws(s[i]) {
        ws_end(s, i + 1)
    } else {
        i
    }
}

pub open spec fn tag_end(s: Seq<char>, i: int) -> int
    decreases s.len() - i,
{
    if 0 <= i < s.len() && is_tag_char(s[i]) {
        tag_end(s, i + 1)
    } else {
        i
    }
}

pub open spec fn ref_end(s: Seq<char>, i: int) -> int
    decreases s.len() - i,
{
    if 0 <= i < s.len() && is_ref_body_char(s[i]) {
        ref_end(s, i + 1)
    } else {
        i
    }
}

pub open spec fn sym_end(s: Seq<char>, i: int) -> int
    decreases s.len() - i,
{
    if 0 <= i < s.len() && is_sym_char(s[i]) {
        sym_end(s, i + 1)
    } else {
        i
    }
}

pub proof fn lemma_tag_end(s: Seq<char>, i: int)
    requires
        0 <= i <= s.len(),
    ensures
        i <= tag_end(s, i) <= s.len(),
        forall|j: int| i <= j < tag_end(s, i) ==> is_tag_char(#[trigger] s[j]),
        tag_end(s, i) < s.len() ==> !is_tag_char(s[tag_end(s, i)]),
    decreases s.len() - i,
{
    if i < s.len() && is_tag_char(s[i]) {
        lemma_tag_end(s, i + 1);
    }
}

pub proof fn lemma_ref_end(s: Seq<char>, i: int)
    requires
        0 <= i <= s.len(),
    ensures
        i <= ref_end(s, i) <= s.len(),
        forall|j: int| i <= j < ref_end(s, i) ==> is_ref_body_char(#[trigger] s[j]),
        ref_end(s, i) < s.len() ==> !is_ref_body_char(s[ref_end(s, i)]),
    decreases s.len() - i,
{
    if i < s.len() && is_ref_body_char(s[i]) {
        lemma_ref_end(s, i + 1);
    }
}

pub proof fn lemma_sym_end(s: Seq<char>, i: int)
    requires
        0 <= i <= s.len(),
    ensures
        i <= sym_end(s, i) <= s.len(),
        forall|j: int| i <= j < sym_end(s, i) ==> is_sym_char(#[trigger] s[j]),
        sym_end(s, i) < s.len() ==> !is_sym_char(s[sym_end(s, i)]),
    decreases s.len() - i,
{
    if i < s.len() && is_sym_char(s[i]) {
        lemma_sym_end(s, i + 1);
    }
}

pub(crate) fn is_ws_exec(c: char) -> (b: bool)
    ensures
        b == is_ws(c),
{
    c == ' ' || c == '\t' || c == '\n' || c == '\r'
}

pub(crate) fn is_lower_exec(c: char) -> (b: bool)
    ensures
        b == is_ascii_lower(c),
{
    'a' <= c && c <= 'z'
}

pub(crate) fn is_tag_char_exec(c: char) -> (b: bool)
    ensures
        b == is_tag_char(c),
{
    ('a' <= c && c <= 'z') || ('A' <= c && c <= 'Z') || ('0' <= c && c <= '9') || c == '_'
}

pub(crate) fn is_ref_char_exec(c: char) -> (b: bool)
    ensures
        b == is_ref_body_char(c),
{
    ('a' <= c && c <= 'z') || ('A' <= c && c <= 'Z') || ('0' <= c && c <= '9') || c == '_'
        || c == ':' || c == '-' || c == '.' || c == '~'
}

pub(crate) fn is_sym_char_exec(c: char) -> (b: bool)
    ensures
        b == is_sym_char(c),
{
    ('a' <= c && c <= 'z') || ('A' <= c && c <= 'Z') || ('0' <= c && c <= '9') || c == '_'
        || c == '-' || c == ':'
}

pub(crate) fn skip_ws(s: &Vec<char>, i: usize) -> (j: usize)
    requires
        i <= s@.len(),
    ensures
        j == ws_end(s@, i as int),
        i <= j <= s@.len(),
{
    let mut j = i;
    while j < s.len() && is_ws_exec(s[j])
        invariant
            i <= j <= s@.len(),
            ws_end(s@, i as int) == ws_end(s@, j as int),
        decreases s@.len() - j,
    {
        j = j + 1;
    }
    j
}

pub(crate) fn scan_tag(s: &Vec<char>, i: usize) -> (j: usize)
    requires
        i <= s@.len(),
    ensures
        j == tag_end(s@, i as int),
        i <= j <= s@.len(),
{
    let mut j = i;
    while j < s.len() && is_tag_char_exec(s[j])
        invariant
            i <= j <= s@.len(),
            tag_end(s@, i as int) == tag_end(s@, j as int),
        decreases s@.len() - j,
    {
        j = j + 1;
    }
    j
}

pub(crate) fn scan_ref(s: &Vec<char>, i: usize) -> (j: usize)
    requires
        i <= s@.len(),
    ensures
        j == ref_end(s@, i as int),
        i <= j <= s@.len(),
{
    let mut j = i;
    while j < s.len() && is_ref_char_exec(s[j])
        invariant
            i <= j <= s@.len(),
            ref_end(s@, i as int) == ref_end(s@, j as int),
        decreases s@.len() - j,
    {
        j = j + 1;
    }
    j
}

pub(crate) fn scan_sym(s: &Vec<char>, i: usize) -> (j: usize)
    requires
        i <= s@.len(),
    ensures
        j == sym_end(s@, i as int),
        i <= j <= s@.len(),
{
    let mut j = i;
    while j < s.len() && is_sym_char_exec(s[j])
        invariant
            i <= j <= s@.len(),
            sym_end(s@, i as int) == sym_end(s@, j as int),
        decreases s@.len() - j,
    {
        j = j + 1;
    }
    j
}

// ---------------------------------------------------------------------
// string and uri literals
// ---------------------------------------------------------------------

/// The body of a quoted string starting inside the quotes at `i`:
/// the decoded text and the position after the closing quote, or `None`
/// on an invalid escape or a missing terminator. The recognized escapes
/// are `\n`, `\t`, `\\` and `\"`.
pub open spec fn sp_str_body(s: Seq<char>, i: int) -> Option<(Seq<char>, int)>
    decreases s.len() - i,
{
    if i < 0 || i >= s.len() {
        None
    } else if s[i] == '"' {
        Some((Seq::empty(), i + 1))
    } else if s[i] == '\\' {
        if i + 1 < s.len() && (s[i + 1] == 'n' || s[i + 1] == 't' || s[i + 1] == '\\' || s[i + 1]
            == '"') {
            let c = if s[i + 1] == 'n' {
                '\n'
            } else if s[i + 1] == 't' {
                '\t'
            } else {
                s[i + 1]
            };
            match sp_str_body(s, i + 2) {
                Some((r, e)) => Some((seq![c] + r, e)),
                None => None,
            }
        } else {
            None
        }
    } else {
        match sp_str_body(s, i + 1) {
            Some((r, e)) => Some((seq![s[i]] + r, e)),
            None => None,
        }
    }
}

/// The body of a backtick URI starting inside the delimiters at `i`:
/// the verbatim text and the position after the closing backtick.
pub open spec fn sp_uri_body(s: Seq<char>, i: int) -> Option<(Seq<char>, int)>
    decreases s.len() - i,
{
    if i < 0 || i >= s.len() {
        None
    } else if s[i] == '`' {
        Some((Seq::empty(), i + 1))
    } else {
        match sp_uri_body(s, i + 1) {
            Some((r, e)) => Some((seq![s[i]] + r, e)),
            None => None,
        }
    }
}

pub proof fn lemma_str_body_end(s: Seq<char>, i: int)
    requires
        0 <= i,
    ensures
        sp_str_body(s, i) matches Some((r, e)) ==> i < e <= s.len(),
    decreases s.len() - i,
{
    if 0 <= i < s.len() {
        lemma_str_body_end(s, i + 1);
        if i + 2 <= s.len() {
            lemma_str_body_end(s, i + 2);
        }
    }
}

pub proof fn lemma_uri_body_end(s: Seq<char>, i: int)
    requires
        0 <= i,
    ensures
        sp_uri_body(s, i) matches Some((r, e)) ==> i < e <= s.len(),
    decreases s.len() - i,
{
    if 0 <= i < s.len() {
        lemma_uri_body_end(s, i + 1);
    }
}

/// Parse a quoted string body; `i` is the position inside the quotes.
pub(crate) fn p_str_body(s: &Vec<char>, i: usize) -> (r: Option<(String, usize)>)
    requires
        i <= s@.len(),
    ensures
        match r {
            Some((txt, e)) => sp_str_body(s@, i as int) == Some((txt@, e as int)) && i < e
                <= s@.len(),
            None => sp_str_body(s@, i as int) is None,
        },
{
    proof {
        lemma_str_body_end(s@, i as int);
    }
    let mut acc = String::new();
    let mut cur = i;
    loop
        invariant
            i <= cur <= s@.len(),
            sp_str_body(s@, i as int) == match sp_str_body(s@, cur as int) {
                Some((r2, e2)) => Some((acc@ + r2, e2)),
                None => None::<(Seq<char>, int)>,
            },
        decreases s@.len() - cur,
    {
        if cur >= s.len() {
            return None;
        }
        let c = s[cur];
        if c == '"' {
            proof {
                assert(acc@ + Seq::<char>::empty() =~= acc@);
            }
            return Some((acc, cur + 1));
        } else if c == '\\' {
            if cur + 1 < s.len() && (s[cur + 1] == 'n' || s[cur + 1] == 't' || s[cur + 1] == '\\'
                || s[cur + 1] == '"') {
                let d = if s[cur + 1] == 'n' {
                    '\n'
                } else if s[cur + 1] == 't' {
                    '\t'
                } else {
                    s[cur + 1]
                };
                proof {
                    if let Some((r2, e2)) = sp_str_body(s@, cur as int + 2) {
                        assert((acc@.push(d)) + r2 =~= acc@ + (seq![d] + r2));
                    }
                }
                acc.push(d);
                cur = cur + 2;
            } else {
                return None;
            }
        } else {
            proof {
                if let Some((r2, e2)) = sp_str_body(s@, cur as int + 1) {
                    assert((acc@.push(c)) + r2 =~= acc@ + (seq![c] + r2));
                }
            }
            acc.push(c);
            cur = cur + 1;
        }
    }
}

/// Parse a URI body; `i` is the position inside the backticks.
pub(crate) fn p_uri_body(s: &Vec<char>, i: usize) -> (r: Option<(String, usize)>)
    requires
        i <= s@.len(),
    ensures
        match r {
            Some((txt, e)) => sp_uri_body(s@, i as int) == Some((txt@, e as int)) && i < e
                <= s@.len(),
            None => sp_uri_body(s@, i as int) is None,
        },
{
    proof {
        lemma_uri_body_end(s@, i as int);
    }
    let mut acc = String::new();
    let mut cur = i;
    loop
        invariant
            i <= cur <= s@.len(),
            sp_uri_body(s@, i as int) == match sp_uri_body(s@, cur as int) {
                Some((r2, e2)) => Some((acc@ + r2, e2)),
                None => None::<(Seq<char>, int)>,
            },
        decreases s@.len() - cur,
    {
        if cur >= s.len() {
            return None;
        }
        let c = s[cur];
        if c == '`' {
            proof {
                assert(acc@ + Seq::<char>::empty() =~= acc@);
            }
            return Some((acc, cur + 1));
        } else {
            proof {
                if let Some((r2, e2)) = sp_uri_body(s@, cur as int + 1) {
                    assert((acc@.push(c)) + r2 =~= acc@ + (seq![c] + r2));
                }
            }
            acc.push(c);
            cur = cur + 1;
        }
    }
}

// ---------------------------------------------------------------------
// tag names, refs, symbols
// ---------------------------------------------------------------------

/// A tag name at `i`: a lowercase letter starting a run of tag
/// characters.
pub open spec fn sp_tag_name(s: Seq<char>, i: int) -> Option<(TagName, int)> {
    if 0 <= i < s.len() && is_ascii_lower(s[i]) {
        let e = tag_end(s, i);
        Some((tag_name_of(s.subrange(i, e)), e))
    } else {
        None
    }
}

/// Parse a tag name at `i`.
pub(crate) fn p_tag_name(s: &Vec<char>, i: usize) -> (r: Option<(TagName, usize)>)
    requires
        i <= s@.len(),
    ensures
        match r {
            Some((t, e)) => sp_tag_name(s@, i as int) == Some((t, e as int)) && i < e <= s@.len(),
            None => sp_tag_name(s@, i as int) is None,
        },
{
    if i < s.len() && is_lower_exec(s[i]) {
        let e = scan_tag(s, i);
        proof {
            lemma_tag_end(s@, i as int);
            assert(e > i);
            assert(is_tag_name_text(s@.subrange(i as int, e as int))) by {
                let t = s@.subrange(i as int, e as int);
                assert(t[0] == s@[i as int]);
                assert(forall|j: int|
                    1 <= j < t.len() ==> is_tag_char(#[trigger] t[j]) && t[j] == s@[i + j]);
            }
        }
        let txt = range_to_string(s, i, e);
        match tag_name_new(txt) {
            Some(t) => Some((t, e)),
            None => None,  // unreachable: the scanned text is a valid tag name
        }
    } else {
        None
    }
}

/// A ref literal at `i`: `@` followed by at least one body character.
pub open spec fn sp_ref(s: Seq<char>, i: int) -> Option<(Ref, int)> {
    if 0 <= i < s.len() && s[i] == '@' {
        let e = ref_end(s, i + 1);
        if e > i + 1 {
            Some((ref_of(s.subrange(i, e)), e))
        } else {
            None
        }
    } else {
        None
    }
}

/// Parse a ref literal at `i`; the caller has seen the `@`.
pub(crate) fn p_ref(s: &Vec<char>, i: usize) -> (r: Option<(Ref, usize)>)
    requires
        i < s@.len(),
        s@[i as int] == '@',
    ensures
        match r {
            Some((t, e)) => sp_ref(s@, i as int) == Some((t, e as int)) && i < e <= s@.len(),
            None => sp_ref(s@, i as int) is None,
        },
{
    let _n = s.len();
    let e = scan_ref(s, i + 1);
    proof {
        lemma_ref_end(s@, i as int + 1);
    }
    if e == i + 1 {
        return None;
    }
    proof {
        let t = s@.subrange(i as int, e as int);
        assert(t[0] == '@');
        assert(forall|j: int|
            1 <= j < t.len() ==> is_ref_body_char(#[trigger] t[j]) && t[j] == s@[i + j]);
        assert(is_ref_text(t));
        assert(forall|j: int| 0 <= j < t.len() ==> (#[trigger] t[j] as u32) < 128);
    }
    let txt = range_to_string(s, i, e);
    match ref_new(txt) {
        Some(t) => Some((t, e)),
        None => None,  // unreachable: the scanned text is a valid ref
    }
}

/// A symbol literal at `i`: `^` followed by a run of symbol characters
/// forming a valid symbol.
pub open spec fn sp_symbol(s: Seq<char>, i: int) -> Option<(Symbol, int)> {
    if 0 <= i < s.len() && s[i] == '^' {
        let e = sym_end(s, i + 1);
        if is_symbol_text(s.subrange(i, e)) {
            Some((symbol_of(s.subrange(i, e)), e))
        } else {
            None
        }
    } else {
        None
    }
}

/// Parse a symbol literal at `i`; the caller has seen the `^`.
pub(crate) fn p_symbol(s: &Vec<char>, i: usize) -> (r: Option<(Symbol, usize)>)
    requires
        i < s@.len(),
        s@[i as int] == '^',
    ensures
        match r {
            Some((t, e)) => sp_symbol(s@, i as int) == Some((t, e as int)) && i < e <= s@.len(),
            None => sp_symbol(s@, i as int) is None,
        },
{
    let _n = s.len();
    let e = scan_sym(s, i + 1);
    proof {
        lemma_sym_end(s@, i as int + 1);
    }
    let txt = range_to_string(s, i, e);
    match symbol_new(txt) {
        Some(t) => Some((t, e)),
        None => None,
    }
}

// ---------------------------------------------------------------------
// dates, times, year-months and numbers
// ---------------------------------------------------------------------

/// Read the digit run `s[a..b]` as an unsigned value; at most nine
/// digits, so the value fits comfortably.
pub(crate) fn read_u32(s: &Vec<char>, a: usize, b: usize) -> (v: u32)
    requires
        a <= b <= s@.len(),
        b - a <= 9,
        forall|x: int| a <= x < b ==> is_ascii_digit_char(#[trigger] s@[x]),
    ensures
        v as int == digits_val(s@, a as int, b as int),
        v < 1000000000,
{
    proof {
        lemma_pow10_smalls();
    }
    let mut v: u32 = 0;
    let mut i = a;
    while i < b
        invariant
            a <= i <= b <= s@.len(),
            b - a <= 9,
            forall|x: int| a <= x < b ==> is_ascii_digit_char(#[trigger] s@[x]),
            v as int == digits_val(s@, a as int, i as int),
            v < 1000000000,
        decreases b - i,
    {
        proof {
            lemma_pow10_smalls();
            lemma_digits_val_bound(s@, a as int, i as int);
            lemma_digits_val_bound(s@, a as int, i as int + 1);
        }
        let d = s[i] as u32 - 48;
        v = v * 10 + d;
        i = i + 1;
    }
    proof {
        lemma_digits_val_bound(s@, a as int, b as int);
        lemma_pow10_smalls();
    }
    v
}

/// The values of the first few powers of ten.
pub proof fn lemma_pow10_smalls()
    ensures
        pow10(0) == 1,
        pow10(1) == 10,
        pow10(2) == 100,
        pow10(3) == 1000,
        pow10(4) == 10000,
        pow10(5) == 100000,
        pow10(6) == 1000000,
        pow10(7) == 10000000,
        pow10(8) == 100000000,
        pow10(9) == 1000000000,
{
    assert(pow10(0) == 1);
    assert(pow10(1) == 10);
    assert(pow10(2) == 100);
    assert(pow10(3) == 1000);
    assert(pow10(4) == 10000);
    assert(pow10(5) == 100000);
    assert(pow10(6) == 1000000);
    assert(pow10(7) == 10000000);
    assert(pow10(8) == 100000000);
    assert(pow10(9) == 1000000000);
}

/// Fractional-second digits `s[a..b]` as a nanosecond count: the digits
/// are the most-significant digits of the count, so `.7` means
/// 700000000 and `.789` means 789000000; digits beyond the ninth are
/// ignored.
pub open spec fn frac_nanos(s: Seq<char>, a: int, b: int) -> int {
    let k = if b - a > 9 {
        a + 9
    } else {
        b
    };
    digits_val(s, a, k) * pow10((9 - (k - a)) as nat)
}

/// Read fractional-second digits as nanoseconds.
pub(crate) fn read_nanos(s: &Vec<char>, a: usize, b: usize) -> (v: u32)
    requires
        a < b <= s@.len(),
        forall|x: int| a <= x < b ==> is_ascii_digit_char(#[trigger] s@[x]),
    ensures
        v as int == frac_nanos(s@, a as int, b as int),
        v < 1000000000,
{
    let k = if b - a > 9 {
        a + 9
    } else {
        b
    };
    let d = read_u32(s, a, k);
    proof {
        lemma_pow10_smalls();
        lemma_digits_val_bound(s@, a as int, k as int);
    }
    let len = k - a;
    let pad: u32 = if len == 1 {
        100000000
    } else if len == 2 {
        10000000
    } else if len == 3 {
        1000000
    } else if len == 4 {
        100000
    } else if len == 5 {
        10000
    } else if len == 6 {
        1000
    } else if len == 7 {
        100
    } else if len == 8 {
        10
    } else {
        1
    };
    d * pad
}

/// A time literal at `i`: `HH:MM:SS` with an optional fraction, fields
/// in range.
pub open spec fn sp_time(s: Seq<char>, i: int) -> Option<(LitModel, int)> {
    if 0 <= i && digits_end(s, i) == i + 2 && i + 8 <= s.len() && s[i + 2] == ':' && digits_end(
        s,
        i + 3,
    ) == i + 5 && s[i + 5] == ':' && digits_end(s, i + 6) == i + 8 {
        let hh = digits_val(s, i, i + 2);
        let mm = digits_val(s, i + 3, i + 5);
        let ss = digits_val(s, i + 6, i + 8);
        let has_frac = i + 9 < s.len() && s[i + 8] == '.' && is_ascii_digit_char(s[i + 9]);
        let fe = if has_frac {
            digits_end(s, i + 9)
        } else {
            i + 8
        };
        let nano = if has_frac {
            frac_nanos(s, i + 9, fe)
        } else {
            0
        };
        if hh < 24 && mm < 60 && ss < 60 {
            Some(
                (
                    LitModel::Time(
                        Time {
                            hour: hh as u32,
                            minute: mm as u32,
                            second: ss as u32,
                            nanosecond: nano as u32,
                        },
                    ),
                    fe,
                ),
            )
        } else {
            None
        }
    } else {
        None
    }
}

/// A date (`YYYY-MM-DD`) or year-month (`YYYY-MM`) literal at `i`,
/// fields in range.
pub open spec fn sp_date_or_ym(s: Seq<char>, i: int) -> Option<(LitModel, int)> {
    if 0 <= i && digits_end(s, i) == i + 4 && i + 7 <= s.len() && s[i + 4] == '-' && digits_end(
        s,
        i + 5,
    ) == i + 7 {
        let yv = digits_val(s, i, i + 4);
        let mv = digits_val(s, i + 5, i + 7);
        if i + 10 <= s.len() && s[i + 7] == '-' && digits_end(s, i + 8) == i + 10 {
            let dv = digits_val(s, i + 8, i + 10);
            if 1 <= mv <= 12 && 1 <= dv <= 31 {
                Some(
                    (
                        LitModel::Date(Date { year: yv as u32, month: mv as u32, day: dv as u32 }),
                        i + 10,
                    ),
                )
            } else {
                None
            }
        } else {
            match Month::spec_from_int(mv as u32) {
                Some(m) => Some((LitModel::YearMonth(YearMonth { year: yv as u32, month: m }), i + 7)),
                None => None,
            }
        }
    } else {
        None
    }
}

/// A numeric literal at `i`: the token runs to `num_token_end` and is
/// split by the numeric sub-parser.
pub open spec fn sp_number(s: Seq<char>, i: int) -> Option<(LitModel, int)> {
    let e = num_token_end(s, i);
    match spec_number_value(s.subrange(i, e)) {
        Some(n) => Some((LitModel::Num(n), e)),
        None => None,
    }
}

/// A scalar literal at `i` (the caller has seen a digit, or `-` then a
/// digit): a time, a date, a year-month or a number, told apart by the
/// separator after the leading digit run.
pub open spec fn sp_scalar(s: Seq<char>, i: int) -> Option<(LitModel, int)> {
    let d1 = digits_end(s, i);
    if 0 <= i < s.len() && s[i] == '-' {
        sp_number(s, i)
    } else if d1 < s.len() && s[d1] == ':' {
        sp_time(s, i)
    } else if d1 < s.len() && s[d1] == '-' && d1 + 1 < s.len() && is_ascii_digit_char(
        s[d1 + 1],
    ) {
        sp_date_or_ym(s, i)
    } else {
        sp_number(s, i)
    }
}

/// Scan a numeric token's end position.
pub(crate) fn scan_num_token(s: &Vec<char>, i: usize) -> (e: usize)
    requires
        i <= s@.len(),
    ensures
        e as int == num_token_end(s@, i as int),
        i <= e <= s@.len(),
{
    let n = s.len();
    let j0 = if i < n && s[i] == '-' {
        i + 1
    } else {
        i
    };
    let d1 = crate::num::scan_digits(s, j0);
    let f = if d1 < n && s[d1] == '.' && d1 + 1 < n && is_digit(s[d1 + 1]) {
        crate::num::scan_digits(s, d1 + 1)
    } else {
        d1
    };
    let x = if f < n && s[f] == 'E' && f + 1 < n && (is_digit(s[f + 1]) || (s[f + 1] == '-' && f + 2
        < n && is_digit(s[f + 2]))) {
        proof {
            assert(marker_at(s@, f as int));
        }
        crate::num::scan_digits(
            s,
            if s[f + 1] == '-' {
                f + 2
            } else {
                f + 1
            },
        )
    } else {
        proof {
            assert(!marker_at(s@, f as int));
        }
        f
    };
    let mut e = x;
    while e < n && is_unit_char_exec(s[e])
        invariant
            x <= e <= n == s@.len(),
            unit_end(s@, x as int) == unit_end(s@, e as int),
        decreases n - e,
    {
        e = e + 1;
    }
    e
}

/// Parse a scalar literal at `i`.
pub(crate) fn p_scalar(s: &Vec<char>, i: usize) -> (r: Option<(Lit, usize)>)
    requires
        i < s@.len(),
    ensures
        match r {
            Some((l, e)) => sp_scalar(s@, i as int) == Some((l.model(), e as int)) && i < e
                <= s@.len(),
            None => sp_scalar(s@, i as int) is None,
        },
{
    let n = s.len();
    let d1 = crate::num::scan_digits(s, i);
    proof {
        lemma_digits_end(s@, i as int);
    }
    if s[i] == '-' {
        p_number_lit(s, i)
    } else if d1 < n && s[d1] == ':' {
        p_time_lit(s, i)
    } else if d1 < n && s[d1] == '-' && d1 + 1 < n && is_digit(s[d1 + 1]) {
        p_date_or_ym_lit(s, i)
    } else {
        p_number_lit(s, i)
    }
}

/// Parse a numeric literal at `i`.
pub(crate) fn p_number_lit(s: &Vec<char>, i: usize) -> (r: Option<(Lit, usize)>)
    requires
        i < s@.len(),
    ensures
        match r {
            Some((l, e)) => sp_number(s@, i as int) == Some((l.model(), e as int)) && i < e
                <= s@.len(),
            None => sp_number(s@, i as int) is None,
        },
{
    let e = scan_num_token(s, i);
    let tok = copy_range(s, i, e);
    match num_from_token(&tok) {
        Some(nv) => {
            proof {
                if e == i {
                    // an empty token is never a number
                    assert(tok@ =~= Seq::<char>::empty());
                    assert(spec_number_value(tok@) is None);
                }
            }
            Some((Lit::Num(nv), e))
        },
        None => None,
    }
}

/// Parse a time literal at `i`.
pub(crate) fn p_time_lit(s: &Vec<char>, i: usize) -> (r: Option<(Lit, usize)>)
    requires
        i < s@.len(),
    ensures
        match r {
            Some((l, e)) => sp_time(s@, i as int) == Some((l.model(), e as int)) && i < e
                <= s@.len(),
            None => sp_time(s@, i as int) is None,
        },
{
    let n = s.len();
    let d1 = crate::num::scan_digits(s, i);
    proof {
        lemma_digits_end(s@, i as int);
    }
    if !(d1 - i == 2 && n - i >= 8 && s[i + 2] == ':') {
        return None;
    }
    let d2 = crate::num::scan_digits(s, i + 3);
    proof {
        lemma_digits_end(s@, i as int + 3);
    }
    if !(d2 == i + 5 && s[i + 5] == ':') {
        return None;
    }
    let d3 = crate::num::scan_digits(s, i + 6);
    proof {
        lemma_digits_end(s@, i as int + 6);
    }
    if d3 != i + 8 {
        return None;
    }
    let hh = read_u32(s, i, i + 2);
    let mm = read_u32(s, i + 3, i + 5);
    let ss = read_u32(s, i + 6, i + 8);
    let has_frac = n - i > 9 && s[i + 8] == '.' && is_digit(s[i + 9]);
    let fe = if has_frac {
        crate::num::scan_digits(s, i + 9)
    } else {
        i + 8
    };
    let nano: u32 = if has_frac {
        proof {
            lemma_digits_end(s@, i as int + 9);
        }
        read_nanos(s, i + 9, fe)
    } else {
        0
    };
    if hh < 24 && mm < 60 && ss < 60 {
        Some((Lit::Time(Time { hour: hh, minute: mm, second: ss, nanosecond: nano }), fe))
    } else {
        None
    }
}

/// Parse a date or year-month literal at `i`.
pub(crate) fn p_date_or_ym_lit(s: &Vec<char>, i: usize) -> (r: Option<(Lit, usize)>)
    requires
        i < s@.len(),
    ensures
        match r {
            Some((l, e)) => sp_date_or_ym(s@, i as int) == Some((l.model(), e as int)) && i < e
                <= s@.len(),
            None => sp_date_or_ym(s@, i as int) is None,
        },
{
    let n = s.len();
    let d1 = crate::num::scan_digits(s, i);
    proof {
        lemma_digits_end(s@, i as int);
    }
    if !(d1 - i == 4 && n - i >= 7 && s[i + 4] == '-') {
        return None;
    }
    let d2 = crate::num::scan_digits(s, i + 5);
    proof {
        lemma_digits_end(s@, i as int + 5);
    }
    if d2 != i + 7 {
        return None;
    }
    let yv = read_u32(s, i, i + 4);
    let mv = read_u32(s, i + 5, i + 7);
    let day_shape = if n - i >= 10 && s[i + 7] == '-' {
        let d3 = crate::num::scan_digits(s, i + 8);
        proof {
            lemma_digits_end(s@, i as int + 8);
        }
        d3 == i + 10
    } else {
        false
    };
    if day_shape {
        let dv = read_u32(s, i + 8, i + 10);
        if 1 <= mv && mv <= 12 && 1 <= dv && dv <= 31 {
            Some((Lit::Date(Date { year: yv, month: mv, day: dv }), i + 10))
        } else {
            None
        }
    } else {
        match Month::from_int(mv) {
            Some(m) => Some((Lit::YearMonth(YearMonth { year: yv, month: m }), i + 7)),
            None => None,
        }
    }
}



// ---------------------------------------------------------------------
// the recursive value grammar
// ---------------------------------------------------------------------

/// A parse outcome at the specification level: a result with its end
/// position, a failure, or fuel exhaustion.
pub enum PRes<T> {
    Parsed(T, int),
    Fail,
    Short,
}

/// The fuel threshold from which the specification parser's answer at
/// position `i` no longer changes.
pub open spec fn th(s: Seq<char>, i: int, c: int) -> int {
    4 * (s.len() - i) + c
}

pub open spec fn kw_true_at(s: Seq<char>, i: int) -> bool {
    &&& 0 <= i && i + 4 <= s.len()
    &&& s[i] == 't' && s[i + 1] == 'r' && s[i + 2] == 'u' && s[i + 3] == 'e'
}

pub open spec fn kw_false_at(s: Seq<char>, i: int) -> bool {
    &&& 0 <= i && i + 5 <= s.len()
    &&& s[i] == 'f' && s[i + 1] == 'a' && s[i + 2] == 'l' && s[i + 3] == 's' && s[i + 4] == 'e'
}

pub open spec fn kw_null_at(s: Seq<char>, i: int) -> bool {
    &&& 0 <= i && i + 4 <= s.len()
    &&& s[i] == 'n' && s[i + 1] == 'u' && s[i + 2] == 'l' && s[i + 3] == 'l'
}

pub open spec fn kw_remove_marker_at(s: Seq<char>, i: int) -> bool {
    &&& 0 <= i && i + 12 <= s.len()
    &&& s[i] == 'r' && s[i + 1] == 'e' && s[i + 2] == 'm' && s[i + 3] == 'o' && s[i + 4] == 'v'
    &&& s[i + 5] == 'e' && s[i + 6] == 'M' && s[i + 7] == 'a' && s[i + 8] == 'r' && s[i + 9] == 'k'
    &&& s[i + 10] == 'e' && s[i + 11] == 'r'
}

/// Dictionary entries folded in input order: a later binding of a key
/// replaces the earlier one.
pub open spec fn fold_entries(es: Seq<(TagName, ValModel)>) -> Seq<(TagName, ValModel)>
    decreases es.len(),
{
    if es.len() == 0 {
        Seq::empty()
    } else {
        entries_insert(fold_entries(es.drop_last()), es.last().0, es.last().1)
    }
}

/// A value at `i` (a non-whitespace position): a dictionary, a list or
/// a literal, told apart by the first character.
pub open spec fn sp_val(s: Seq<char>, i: int, f: nat) -> PRes<ValModel>
    decreases f,
{
    if f == 0 {
        PRes::Short
    } else if !(0 <= i < s.len()) {
        PRes::Fail
    } else {
        let c = s[i];
        if c == '{' {
            sp_dict(s, i, (f - 1) as nat)
        } else if c == '[' {
            sp_list(s, i, (f - 1) as nat)
        } else if c == '"' {
            match sp_str_body(s, i + 1) {
                Some((t, e)) => PRes::Parsed(ValModel::Lit(LitModel::Str(t)), e),
                None => PRes::Fail,
            }
        } else if c == '`' {
            match sp_uri_body(s, i + 1) {
                Some((t, e)) => PRes::Parsed(ValModel::Lit(LitModel::Uri(t)), e),
                None => PRes::Fail,
            }
        } else if c == '@' {
            match sp_ref(s, i) {
                Some((t, e)) => PRes::Parsed(ValModel::Lit(LitModel::Ref(t)), e),
                None => PRes::Fail,
            }
        } else if c == '^' {
            match sp_symbol(s, i) {
                Some((t, e)) => PRes::Parsed(ValModel::Lit(LitModel::Symbol(t)), e),
                None => PRes::Fail,
            }
        } else if c == 't' {
            if kw_true_at(s, i) {
                PRes::Parsed(ValModel::Lit(LitModel::Bool(true)), i + 4)
            } else {
                PRes::Fail
            }
        } else if c == 'f' {
            if kw_false_at(s, i) {
                PRes::Parsed(ValModel::Lit(LitModel::Bool(false)), i + 5)
            } else {
                PRes::Fail
            }
        } else if c == 'n' {
            if kw_null_at(s, i) {
                PRes::Parsed(ValModel::Lit(LitModel::Null), i + 4)
            } else {
                PRes::Fail
            }
        } else if is_ascii_digit_char(c) || (c == '-' && i + 1 < s.len() && is_ascii_digit_char(
            s[i + 1],
        )) {
            match sp_scalar(s, i) {
                Some((l, e)) => PRes::Parsed(ValModel::Lit(l), e),
                None => PRes::Fail,
            }
        } else {
            PRes::Fail
        }
    }
}

/// A dictionary at `i` (`s[i]` is `{`).
pub open spec fn sp_dict(s: Seq<char>, i: int, f: nat) -> PRes<ValModel>
    decreases f,
{
    if f == 0 {
        PRes::Short
    } else {
        let a = ws_end(s, i + 1);
        if a < s.len() && s[a] == '}' {
            PRes::Parsed(ValModel::Dict(Seq::empty()), a + 1)
        } else {
            match sp_members(s, a, (f - 1) as nat) {
                PRes::Parsed(es, e) => if e < s.len() && s[e] == '}' {
                    PRes::Parsed(ValModel::Dict(fold_entries(es)), e + 1)
                } else {
                    PRes::Fail
                },
                PRes::Fail => PRes::Fail,
                PRes::Short => PRes::Short,
            }
        }
    }
}

/// A list at `i` (`s[i]` is `[`).
pub open spec fn sp_list(s: Seq<char>, i: int, f: nat) -> PRes<ValModel>
    decreases f,
{
    if f == 0 {
        PRes::Short
    } else {
        let a = ws_end(s, i + 1);
        if a < s.len() && s[a] == ']' {
            PRes::Parsed(ValModel::List(Seq::empty()), a + 1)
        } else {
            match sp_items(s, a, (f - 1) as nat) {
                PRes::Parsed(vs, e) => if e < s.len() && s[e] == ']' {
                    PRes::Parsed(ValModel::List(vs), e + 1)
                } else {
                    PRes::Fail
                },
                PRes::Fail => PRes::Fail,
                PRes::Short => PRes::Short,
            }
        }
    }
}

/// One or more dictionary members starting at `i`, in written order,
/// ending just before the closing brace.
pub open spec fn sp_members(s: Seq<char>, i: int, f: nat) -> PRes<Seq<(TagName, ValModel)>>
    decreases f,
{
    if f == 0 {
        PRes::Short
    } else {
        match sp_tag_name(s, i) {
            None => PRes::Fail,
            Some((t, e)) => {
                let a = ws_end(s, e);
                let mv = if a < s.len() && s[a] == ':' {
                    sp_member_val(s, ws_end(s, a + 1), (f - 1) as nat)
                } else {
                    PRes::Parsed(ValModel::Lit(LitModel::DictMarker), e)
                };
                match mv {
                    PRes::Short => PRes::Short,
                    PRes::Fail => PRes::Fail,
                    PRes::Parsed(v, e2) => {
                        let a2 = ws_end(s, e2);
                        if a2 < s.len() && s[a2] == ',' {
                            match sp_members(s, ws_end(s, a2 + 1), (f - 1) as nat) {
                                PRes::Parsed(es, e3) => PRes::Parsed(seq![(t, v)] + es, e3),
                                PRes::Fail => PRes::Fail,
                                PRes::Short => PRes::Short,
                            }
                        } else {
                            PRes::Parsed(seq![(t, v)], a2)
                        }
                    },
                }
            },
        }
    }
}

/// A dictionary member's value: the special `removeMarker()` form, or
/// any value.
pub open spec fn sp_member_val(s: Seq<char>, i: int, f: nat) -> PRes<ValModel>
    decreases f,
{
    if f == 0 {
        PRes::Short
    } else if kw_remove_marker_at(s, i) && {
        let a = ws_end(s, i + 12);
        a < s.len() && s[a] == '('
    } {
        let a = ws_end(s, i + 12);
        let b = ws_end(s, a + 1);
        if b < s.len() && s[b] == ')' {
            PRes::Parsed(ValModel::Lit(LitModel::DictRemoveMarker), b + 1)
        } else {
            PRes::Fail
        }
    } else {
        sp_val(s, i, (f - 1) as nat)
    }
}

/// One or more list items starting at `i`, ending just before the
/// closing bracket.
pub open spec fn sp_items(s: Seq<char>, i: int, f: nat) -> PRes<Seq<ValModel>>
    decreases f,
{
    if f == 0 {
        PRes::Short
    } else {
        match sp_val(s, i, (f - 1) as nat) {
            PRes::Short => PRes::Short,
            PRes::Fail => PRes::Fail,
            PRes::Parsed(v, e) => {
                let a = ws_end(s, e);
                if a < s.len() && s[a] == ',' {
                    match sp_items(s, ws_end(s, a + 1), (f - 1) as nat) {
                        PRes::Parsed(vs, e2) => PRes::Parsed(seq![v] + vs, e2),
                        PRes::Fail => PRes::Fail,
                        PRes::Short => PRes::Short,
                    }
                } else {
                    PRes::Parsed(seq![v], a)
                }
            },
        }
    }
}

/// A parse failure, with the offending position.
#[derive(Clone, Copy, Debug, PartialEq, Eq, Structural)]
pub struct ParseError {
    pub pos: usize,
    pub kind: ErrorKind,
}

/// The kind of a parse failure.
#[derive(Clone, Copy, Debug, PartialEq, Eq, Structural)]
pub enum ErrorKind {
    UnexpectedEnd,
    UnexpectedChar,
    InvalidLiteral,
    TrailingInput,
}

pub open spec fn val_res(r: Result<(Val, usize), ParseError>) -> PRes<ValModel> {
    match r {
        Result::Ok((v, e)) => PRes::Parsed(v.model(), e as int),
        Result::Err(_) => PRes::Fail,
    }
}

pub open spec fn members_res(r: Result<(Vec<(TagName, Val)>, usize), ParseError>) -> PRes<
    Seq<(TagName, ValModel)>,
> {
    match r {
        Result::Ok((kvs, e)) => PRes::Parsed(entries_model(kvs@), e as int),
        Result::Err(_) => PRes::Fail,
    }
}

pub open spec fn items_res(r: Result<(Vec<Val>, usize), ParseError>) -> PRes<Seq<ValModel>> {
    match r {
        Result::Ok((vs, e)) => PRes::Parsed(items_model(vs@), e as int),
        Result::Err(_) => PRes::Fail,
    }
}

/// Replace the first binding of `key`, or append a new one.
pub(crate) fn insert_entry(d: &mut Vec<(TagName, Val)>, key: TagName, value: Val)
    ensures
        entries_model(final(d)@) == entries_insert(entries_model(old(d)@), key, value.model()),
{
    let ghost es0 = entries_model(old(d)@);
    proof {
        assert(es0.len() == old(d)@.len());
    }
    let mut j: usize = 0;
    while j < d.len()
        invariant
            j <= d@.len(),
            d@ == old(d)@,
            es0 == entries_model(old(d)@),
            es0.len() == d@.len(),
            forall|x: int| 0 <= x < j ==> (#[trigger] es0[x]).0 != key,
        decreases d@.len() - j,
    {
        let hit = d[j].0.eq(&key);
        proof {
            assert(es0[j as int].0 == d@[j as int].0);
        }
        if hit {
            proof {
                lemma_key_index_pin(es0, key, j as int);
            }
            d[j] = (key, value);
            proof {
                assert(entries_model(d@) =~= es0.update(j as int, (key, value.model())));
            }
            return;
        }
        j = j + 1;
    }
    proof {
        lemma_key_index_pin(es0, key, es0.len() as int);
    }
    d.push((key, value));
    proof {
        assert(entries_model(d@) =~= es0.push((key, value.model())));
    }
}

/// Parse a value at the non-whitespace position `i`.
pub(crate) fn p_val(s: &Vec<char>, i: usize) -> (r: Result<(Val, usize), ParseError>)
    requires
        i <= s@.len(),
    ensures
        forall|f: nat| f >= th(s@, i as int, 3) ==> #[trigger] sp_val(s@, i as int, f) == val_res(
            r,
        ),
        r matches Ok((v, e)) ==> i < e <= s@.len(),
    decreases s@.len() - i, 1int,
{
    let n = s.len();
    if i >= n {
        return Err(ParseError { pos: i, kind: ErrorKind::UnexpectedEnd });
    }
    let c = s[i];
    if c == '{' {
        let r = p_dict(s, i);
        proof {
            assert forall|f: nat| f >= th(s@, i as int, 3) implies #[trigger] sp_val(
                s@,
                i as int,
                f,
            ) == val_res(r) by {
                assert(sp_dict(s@, i as int, (f - 1) as nat) == val_res(r));
            }
        }
        r
    } else if c == '[' {
        let r = p_list(s, i);
        proof {
            assert forall|f: nat| f >= th(s@, i as int, 3) implies #[trigger] sp_val(
                s@,
                i as int,
                f,
            ) == val_res(r) by {
                assert(sp_list(s@, i as int, (f - 1) as nat) == val_res(r));
            }
        }
        r
    } else if c == '"' {
        match p_str_body(s, i + 1) {
            Some((txt, e)) => Ok((Val::Lit(Lit::Str(txt)), e)),
            None => Err(ParseError { pos: i, kind: ErrorKind::InvalidLiteral }),
        }
    } else if c == '`' {
        match p_uri_body(s, i + 1) {
            Some((txt, e)) => Ok((Val::Lit(Lit::Uri(txt)), e)),
            None => Err(ParseError { pos: i, kind: ErrorKind::InvalidLiteral }),
        }
    } else if c == '@' {
        match p_ref(s, i) {
            Some((t, e)) => Ok((Val::Lit(Lit::Ref(t)), e)),
            None => Err(ParseError { pos: i, kind: ErrorKind::InvalidLiteral }),
        }
    } else if c == '^' {
        match p_symbol(s, i) {
            Some((t, e)) => Ok((Val::Lit(Lit::Symbol(t)), e)),
            None => Err(ParseError { pos: i, kind: ErrorKind::InvalidLiteral }),
        }
    } else if c == 't' {
        if n - i >= 4 && s[i + 1] == 'r' && s[i + 2] == 'u' && s[i + 3] == 'e' {
            Ok((Val::Lit(Lit::Bool(true)), i + 4))
        } else {
            Err(ParseError { pos: i, kind: ErrorKind::UnexpectedChar })
        }
    } else if c == 'f' {
        if n - i >= 5 && s[i + 1] == 'a' && s[i + 2] == 'l' && s[i + 3] == 's' && s[i + 4] == 'e' {
            Ok((Val::Lit(Lit::Bool(false)), i + 5))
        } else {
            Err(ParseError { pos: i, kind: ErrorKind::UnexpectedChar })
        }
    } else if c == 'n' {
        if n - i >= 4 && s[i + 1] == 'u' && s[i + 2] == 'l' && s[i + 3] == 'l' {
            Ok((Val::Lit(Lit::Null), i + 4))
        } else {
            Err(ParseError { pos: i, kind: ErrorKind::UnexpectedChar })
        }
    } else {
        let digit_start = is_digit(c) || (c == '-' && i + 1 < n && is_digit(s[i + 1]));
        if digit_start {
            match p_scalar(s, i) {
                Some((l, e)) => Ok((Val::Lit(l), e)),
                None => Err(ParseError { pos: i, kind: ErrorKind::InvalidLiteral }),
            }
        } else {
            Err(ParseError { pos: i, kind: ErrorKind::UnexpectedChar })
        }
    }
}

/// Parse a dictionary at `i` (`s[i]` is `{`).
pub(crate) fn p_dict(s: &Vec<char>, i: usize) -> (r: Result<(Val, usize), ParseError>)
    requires
        i < s@.len(),
        s@[i as int] == '{',
    ensures
        forall|f: nat| f >= th(s@, i as int, 2) ==> #[trigger] sp_dict(s@, i as int, f)
            == val_res(r),
        r matches Ok((v, e)) ==> i < e <= s@.len(),
    decreases s@.len() - i, 0int,
{
    let n = s.len();
    let a = skip_ws(s, i + 1);
    if a < n && s[a] == '}' {
        let d: Vec<(TagName, Val)> = Vec::new();
        let res: Result<(Val, usize), ParseError> = Ok((Val::Dict(d), a + 1));
        proof {
            assert forall|f: nat| f >= th(s@, i as int, 2) implies #[trigger] sp_dict(
                s@,
                i as int,
                f,
            ) == val_res(res) by {
                assert(entries_model(Seq::<(TagName, Val)>::empty()) =~= Seq::<
                    (TagName, ValModel),
                >::empty());
            }
        }
        return res;
    }
    match p_members(s, a) {
        Ok((mut pairs, e)) => {
            if e < n && s[e] == '}' {
                let ghost es = entries_model(pairs@);
                let mut d: Vec<(TagName, Val)> = Vec::new();
                proof {
                    assert(entries_model(d@) =~= fold_entries(es.take(0)));
                    assert(entries_model(pairs@) =~= es.skip(0));
                }
                let ghost total = es.len();
                while pairs.len() > 0
                    invariant
                        total == es.len(),
                        pairs@.len() <= total,
                        entries_model(pairs@) =~= es.skip(total - pairs@.len()),
                        entries_model(d@) == fold_entries(es.take(total - pairs@.len())),
                    decreases pairs@.len(),
                {
                    let ghost k = total - pairs@.len();
                    let ghost pb = pairs@;
                    let p = pairs.remove(0);
                    proof {
                        assert(p == pb[0]);
                        assert(entries_model(pb)[0] == (pb[0].0, pb[0].1.model()));
                        assert(entries_model(pb)[0] == es.skip(k)[0]);
                        assert(es.skip(k)[0] == es[k]);
                        assert((p.0, p.1.model()) == es[k]);
                        assert(pairs@ =~= pb.skip(1));
                        assert forall|x: int| 0 <= x < pairs@.len() implies entries_model(
                            pairs@,
                        )[x] == es.skip(k + 1)[x] by {
                            assert(entries_model(pairs@)[x] == (pairs@[x].0, pairs@[x].1.model()));
                            assert(pairs@[x] == pb[x + 1]);
                            assert(entries_model(pb)[x + 1] == (pb[x + 1].0, pb[x + 1].1.model()));
                            assert(entries_model(pb)[x + 1] == es.skip(k)[x + 1]);
                        }
                        assert(entries_model(pairs@) =~= es.skip(k + 1));
                    }
                    insert_entry(&mut d, p.0, p.1);
                    proof {
                        assert(es.take(k + 1).drop_last() =~= es.take(k));
                        assert(es.take(k + 1).last() == es[k]);
                        assert(entries_model(d@) == fold_entries(es.take(k + 1)));
                    }
                }
                proof {
                    assert(es.take(total as int) =~= es);
                }
                let res: Result<(Val, usize), ParseError> = Ok((Val::Dict(d), e + 1));
                proof {
                    assert forall|f: nat| f >= th(s@, i as int, 2) implies #[trigger] sp_dict(
                        s@,
                        i as int,
                        f,
                    ) == val_res(res) by {
                        assert(sp_members(s@, a as int, (f - 1) as nat) == PRes::Parsed(
                            es,
                            e as int,
                        ));
                        assert(entries_model(d@) == fold_entries(es));
                    }
                }
                res
            } else {
                let res: Result<(Val, usize), ParseError> = Err(
                    ParseError { pos: e, kind: ErrorKind::UnexpectedChar },
                );
                proof {
                    assert forall|f: nat| f >= th(s@, i as int, 2) implies #[trigger] sp_dict(
                        s@,
                        i as int,
                        f,
                    ) == val_res(res) by {
                        assert(sp_members(s@, a as int, (f - 1) as nat) matches PRes::Parsed(
                            x,
                            y,
                        ) && y == e as int);
                    }
                }
                res
            }
        },
        Err(er) => {
            let res: Result<(Val, usize), ParseError> = Err(er);
            proof {
                assert forall|f: nat| f >= th(s@, i as int, 2) implies #[trigger] sp_dict(
                    s@,
                    i as int,
                    f,
                ) == val_res(res) by {
                    assert(sp_members(s@, a as int, (f - 1) as nat) == PRes::<
                        Seq<(TagName, ValModel)>,
                    >::Fail);
                }
            }
            res
        },
    }
}

/// Parse a list at `i` (`s[i]` is `[`).
pub(crate) fn p_list(s: &Vec<char>, i: usize) -> (r: Result<(Val, usize), ParseError>)
    requires
        i < s@.len(),
        s@[i as int] == '[',
    ensures
        forall|f: nat| f >= th(s@, i as int, 2) ==> #[trigger] sp_list(s@, i as int, f)
            == val_res(r),
        r matches Ok((v, e)) ==> i < e <= s@.len(),
    decreases s@.len() - i, 0int,
{
    let n = s.len();
    let a = skip_ws(s, i + 1);
    if a < n && s[a] == ']' {
        let items: Vec<Val> = Vec::new();
        let res: Result<(Val, usize), ParseError> = Ok((Val::List(items), a + 1));
        proof {
            assert forall|f: nat| f >= th(s@, i as int, 2) implies #[trigger] sp_list(
                s@,
                i as int,
                f,
            ) == val_res(res) by {
                assert(items_model(Seq::<Val>::empty()) =~= Seq::<ValModel>::empty());
            }
        }
        return res;
    }
    match p_items(s, a) {
        Ok((items, e)) => {
            if e < n && s[e] == ']' {
                let res: Result<(Val, usize), ParseError> = Ok((Val::List(items), e + 1));
                proof {
                    assert forall|f: nat| f >= th(s@, i as int, 2) implies #[trigger] sp_list(
                        s@,
                        i as int,
                        f,
                    ) == val_res(res) by {
                        assert(sp_items(s@, a as int, (f - 1) as nat) matches PRes::Parsed(x, y)
                            && y == e as int);
                    }
                }
                res
            } else {
                let res: Result<(Val, usize), ParseError> = Err(
                    ParseError { pos: e, kind: ErrorKind::UnexpectedChar },
                );
                proof {
                    assert forall|f: nat| f >= th(s@, i as int, 2) implies #[trigger] sp_list(
                        s@,
                        i as int,
                        f,
                    ) == val_res(res) by {
                        assert(sp_items(s@, a as int, (f - 1) as nat) matches PRes::Parsed(x, y)
                            && y == e as int);
                    }
                }
                res
            }
        },
        Err(er) => {
            let res: Result<(Val, usize), ParseError> = Err(er);
            proof {
                assert forall|f: nat| f >= th(s@, i as int, 2) implies #[trigger] sp_list(
                    s@,
                    i as int,
                    f,
                ) == val_res(res) by {
                    assert(sp_items(s@, a as int, (f - 1) as nat) == PRes::<Seq<ValModel>>::Fail);
                }
            }
            res
        },
    }
}

/// Parse one or more dictionary members starting at `i`.
pub(crate) fn p_members(s: &Vec<char>, i: usize) -> (r: Result<
    (Vec<(TagName, Val)>, usize),
    ParseError,
>)
    requires
        i <= s@.len(),
    ensures
        forall|f: nat| f >= th(s@, i as int, 4) ==> #[trigger] sp_members(s@, i as int, f)
            == members_res(r),
        r matches Ok((kvs, e)) ==> i < e <= s@.len(),
    decreases s@.len() - i, 3int,
{
    let n = s.len();
    match p_tag_name(s, i) {
        None => Err(ParseError { pos: i, kind: ErrorKind::UnexpectedChar }),
        Some((t, e)) => {
            let a = skip_ws(s, e);
            let colon = a < n && s[a] == ':';
            let ghost b_spec: int = ws_end(s@, a as int + 1);
            let vr: Result<(Val, usize), ParseError> = if colon {
                let b = skip_ws(s, a + 1);
                p_member_val(s, b)
            } else {
                Ok((Val::Lit(Lit::DictMarker), e))
            };
            match vr {
                Err(er) => {
                    let res: Result<(Vec<(TagName, Val)>, usize), ParseError> = Err(er);
                    proof {
                        assert forall|f: nat| f >= th(s@, i as int, 4) implies
                            #[trigger] sp_members(s@, i as int, f) == members_res(res) by {
                            assert(sp_member_val(s@, b_spec, (f - 1) as nat)
                                == PRes::<ValModel>::Fail);
                        }
                    }
                    res
                },
                Ok((v, e2)) => {
                    let a2 = skip_ws(s, e2);
                    if a2 < n && s[a2] == ',' {
                        let c2 = skip_ws(s, a2 + 1);
                        match p_members(s, c2) {
                            Ok((mut rest, e3)) => {
                                let ghost rm = entries_model(rest@);
                                let ghost vm = v.model();
                                proof {
                                    assert forall|x: int|
                                        0 <= x < rest@.insert(0, (t, v)).len() implies
                                        entries_model(rest@.insert(0, (t, v)))[x] == (seq![
                                        (t, vm),
                                    ] + rm)[x] by {
                                        if x == 0 {
                                            assert(rest@.insert(0, (t, v))[0] == (t, v));
                                        } else {
                                            assert(rest@.insert(0, (t, v))[x] == rest@[x - 1]);
                                            assert(rm[x - 1] == (rest@[x - 1].0, rest@[x
                                                - 1].1.model()));
                                        }
                                    }
                                    assert(entries_model(rest@.insert(0, (t, v))) =~= seq![
                                        (t, vm),
                                    ] + rm);
                                }
                                rest.insert(0, (t, v));
                                let res: Result<(Vec<(TagName, Val)>, usize), ParseError> = Ok(
                                    (rest, e3),
                                );
                                proof {
                                    assert forall|f: nat| f >= th(s@, i as int, 4) implies
                                        #[trigger] sp_members(s@, i as int, f) == members_res(
                                        res,
                                    ) by {
                                        if colon {
                                            assert(sp_member_val(s@, b_spec, (f - 1) as nat)
                                                == PRes::Parsed(vm, e2 as int));
                                        }
                                        assert(sp_members(s@, c2 as int, (f - 1) as nat)
                                            == PRes::Parsed(rm, e3 as int));
                                    }
                                }
                                res
                            },
                            Err(er) => {
                                let res: Result<(Vec<(TagName, Val)>, usize), ParseError> = Err(
                                    er,
                                );
                                proof {
                                    assert forall|f: nat| f >= th(s@, i as int, 4) implies
                                        #[trigger] sp_members(s@, i as int, f) == members_res(
                                        res,
                                    ) by {
                                        if colon {
                                            assert(sp_member_val(s@, b_spec, (f - 1) as nat)
                                                == PRes::Parsed(v.model(), e2 as int));
                                        }
                                        assert(sp_members(s@, c2 as int, (f - 1) as nat)
                                            == PRes::<Seq<(TagName, ValModel)>>::Fail);
                                    }
                                }
                                res
                            },
                        }
                    } else {
                        let mut one: Vec<(TagName, Val)> = Vec::new();
                        one.push((t, v));
                        let ghost vm = v.model();
                        let res: Result<(Vec<(TagName, Val)>, usize), ParseError> = Ok((one, a2));
                        proof {
                            assert(entries_model(one@) =~= seq![(t, vm)]);
                            assert forall|f: nat| f >= th(s@, i as int, 4) implies
                                #[trigger] sp_members(s@, i as int, f) == members_res(res) by {
                                if colon {
                                    assert(sp_member_val(s@, b_spec, (f - 1) as nat)
                                        == PRes::Parsed(vm, e2 as int));
                                }
                            }
                        }
                        res
                    }
                },
            }
        },
    }
}

/// Parse a dictionary member's value at `i`.
pub(crate) fn p_member_val(s: &Vec<char>, i: usize) -> (r: Result<(Val, usize), ParseError>)
    requires
        i <= s@.len(),
    ensures
        forall|f: nat| f >= th(s@, i as int, 4) ==> #[trigger] sp_member_val(s@, i as int, f)
            == val_res(r),
        r matches Ok((v, e)) ==> i < e <= s@.len(),
    decreases s@.len() - i, 2int,
{
    let n = s.len();
    let kw = n - i >= 12 && s[i] == 'r' && s[i + 1] == 'e' && s[i + 2] == 'm' && s[i + 3] == 'o'
        && s[i + 4] == 'v' && s[i + 5] == 'e' && s[i + 6] == 'M' && s[i + 7] == 'a' && s[i + 8]
        == 'r' && s[i + 9] == 'k' && s[i + 10] == 'e' && s[i + 11] == 'r';
    if kw {
        let a = skip_ws(s, i + 12);
        if a < n && s[a] == '(' {
            let b = skip_ws(s, a + 1);
            if b < n && s[b] == ')' {
                return Ok((Val::Lit(Lit::DictRemoveMarker), b + 1));
            } else {
                return Err(ParseError { pos: b, kind: ErrorKind::UnexpectedChar });
            }
        }
    }
    let r = p_val(s, i);
    proof {
        assert forall|f: nat| f >= th(s@, i as int, 4) implies #[trigger] sp_member_val(
            s@,
            i as int,
            f,
        ) == val_res(r) by {
            assert(sp_val(s@, i as int, (f - 1) as nat) == val_res(r));
        }
    }
    r
}

/// Parse one or more list items starting at `i`.
pub(crate) fn p_items(s: &Vec<char>, i: usize) -> (r: Result<(Vec<Val>, usize), ParseError>)
    requires
        i <= s@.len(),
    ensures
        forall|f: nat| f >= th(s@, i as int, 4) ==> #[trigger] sp_items(s@, i as int, f)
            == items_res(r),
        r matches Ok((vs, e)) ==> i < e <= s@.len(),
    decreases s@.len() - i, 2int,
{
    let n = s.len();
    match p_val(s, i) {
        Err(er) => {
            let res: Result<(Vec<Val>, usize), ParseError> = Err(er);
            proof {
                assert forall|f: nat| f >= th(s@, i as int, 4) implies #[trigger] sp_items(
                    s@,
                    i as int,
                    f,
                ) == items_res(res) by {
                    assert(sp_val(s@, i as int, (f - 1) as nat) == PRes::<ValModel>::Fail);
                }
            }
            res
        },
        Ok((v, e)) => {
            let a = skip_ws(s, e);
            if a < n && s[a] == ',' {
                let c2 = skip_ws(s, a + 1);
                match p_items(s, c2) {
                    Ok((mut rest, e2)) => {
                        let ghost rm = items_model(rest@);
                        let ghost vm = v.model();
                        proof {
                            assert forall|x: int| 0 <= x < rest@.insert(0, v).len() implies
                                items_model(rest@.insert(0, v))[x] == (seq![vm] + rm)[x] by {
                                if x == 0 {
                                    assert(rest@.insert(0, v)[0] == v);
                                } else {
                                    assert(rest@.insert(0, v)[x] == rest@[x - 1]);
                                    assert(rm[x - 1] == rest@[x - 1].model());
                                }
                            }
                            assert(items_model(rest@.insert(0, v)) =~= seq![vm] + rm);
                        }
                        rest.insert(0, v);
                        let res: Result<(Vec<Val>, usize), ParseError> = Ok((rest, e2));
                        proof {
                            assert forall|f: nat| f >= th(s@, i as int, 4) implies
                                #[trigger] sp_items(s@, i as int, f) == items_res(res) by {
                                assert(sp_val(s@, i as int, (f - 1) as nat) == PRes::Parsed(
                                    vm,
                                    e as int,
                                ));
                                assert(sp_items(s@, c2 as int, (f - 1) as nat) == PRes::Parsed(
                                    rm,
                                    e2 as int,
                                ));
                            }
                        }
                        res
                    },
                    Err(er) => {
                        let res: Result<(Vec<Val>, usize), ParseError> = Err(er);
                        proof {
                            assert forall|f: nat| f >= th(s@, i as int, 4) implies
                                #[trigger] sp_items(s@, i as int, f) == items_res(res) by {
                                assert(sp_val(s@, i as int, (f - 1) as nat) == PRes::Parsed(
                                    v.model(),
                                    e as int,
                                ));
                                assert(sp_items(s@, c2 as int, (f - 1) as nat) == PRes::<
                                    Seq<ValModel>,
                                >::Fail);
                            }
                        }
                        res
                    },
                }
            } else {
                let ghost vm = v.model();
                let mut one: Vec<Val> = Vec::new();
                one.push(v);
                let res: Result<(Vec<Val>, usize), ParseError> = Ok((one, a));
                proof {
                    assert(items_model(one@) =~= seq![vm]);
                    assert forall|f: nat| f >= th(s@, i as int, 4) implies #[trigger] sp_items(
                        s@,
                        i as int,
                        f,
                    ) == items_res(res) by {
                        assert(sp_val(s@, i as int, (f - 1) as nat) == PRes::Parsed(vm, e as int));
                    }
                }
                res
            }
        },
    }
}

/// What the whole input denotes: the value between optional leading and
/// trailing whitespace, or nothing if the text is not a single valid
/// value.
pub open spec fn spec_parse(s: Seq<char>) -> Option<ValModel> {
    let i = ws_end(s, 0);
    match sp_val(s, i, th(s, i, 3) as nat) {
        PRes::Parsed(v, e) => if ws_end(s, e) == s.len() {
            Some(v)
        } else {
            None
        },
        _ => None,
    }
}

/// Parse the Axon-literal rendering of an abstract syntax tree into a
/// value tree. The whole input must be consumed; any lexical,
/// structural or validation failure yields an error and no partial
/// tree. The parser recurses on nested dictionaries and lists, so its
/// stack depth follows the nesting depth of the input.
pub fn parse(axon: &str) -> (r: Result<Val, ParseError>)
    ensures
        r matches Ok(v) ==> spec_parse(axon@) == Some(v.model()),
        r is Err <==> spec_parse(axon@) is None,
{
    let s = crate::util::str_to_chars(axon);
    let i = skip_ws(&s, 0);
    match p_val(&s, i) {
        Ok((v, e)) => {
            let a = skip_ws(&s, e);
            if a == s.len() {
                Ok(v)
            } else {
                Err(ParseError { pos: a, kind: ErrorKind::TrailingInput })
            }
        },
        Err(er) => Err(er),
    }
}


// ---------------------------------------------------------------------
// single-literal entry points
// ---------------------------------------------------------------------

/// What a whole input denotes as a quoted string literal.
pub open spec fn spec_parse_str(s: Seq<char>) -> Option<Seq<char>> {
    if s.len() > 0 && s[0] == '"' {
        match sp_str_body(s, 1) {
            Some((t, e)) => if e == s.len() {
                Some(t)
            } else {
                None
            },
            None => None,
        }
    } else {
        None
    }
}

/// Parse a whole input as a quoted string literal.
pub fn parse_str(s: &str) -> (r: Result<String, ParseError>)
    ensures
        r matches Ok(t) ==> spec_parse_str(s@) == Some(t@),
        r is Err <==> spec_parse_str(s@) is None,
{
    let cs = crate::util::str_to_chars(s);
    if cs.len() == 0 || cs[0] != '"' {
        return Err(ParseError { pos: 0, kind: ErrorKind::UnexpectedChar });
    }
    match p_str_body(&cs, 1) {
        Some((t, e)) => {
            if e == cs.len() {
                Ok(t)
            } else {
                Err(ParseError { pos: e, kind: ErrorKind::TrailingInput })
            }
        },
        None => Err(ParseError { pos: 0, kind: ErrorKind::InvalidLiteral }),
    }
}

/// What a whole input denotes as a backtick URI literal.
pub open spec fn spec_parse_uri(s: Seq<char>) -> Option<Seq<char>> {
    if s.len() > 0 && s[0] == '`' {
        match sp_uri_body(s, 1) {
            Some((t, e)) => if e == s.len() {
                Some(t)
            } else {
                None
            },
            None => None,
        }
    } else {
        None
    }
}

/// Parse a whole input as a backtick URI literal.
pub fn parse_uri(s: &str) -> (r: Result<String, ParseError>)
    ensures
        r matches Ok(t) ==> spec_parse_uri(s@) == Some(t@),
        r is Err <==> spec_parse_uri(s@) is None,
{
    let cs = crate::util::str_to_chars(s);
    if cs.len() == 0 || cs[0] != '`' {
        return Err(ParseError { pos: 0, kind: ErrorKind::UnexpectedChar });
    }
    match p_uri_body(&cs, 1) {
        Some((t, e)) => {
            if e == cs.len() {
                Ok(t)
            } else {
                Err(ParseError { pos: e, kind: ErrorKind::TrailingInput })
            }
        },
        None => Err(ParseError { pos: 0, kind: ErrorKind::InvalidLiteral }),
    }
}

/// What a whole input denotes as a tag name.
pub open spec fn spec_parse_tag_name(s: Seq<char>) -> Option<TagName> {
    match sp_tag_name(s, 0) {
        Some((t, e)) => if e == s.len() {
            Some(t)
        } else {
            None
        },
        None => None,
    }
}

/// Parse a whole input as a tag name.
pub fn parse_tag_name(s: &str) -> (r: Result<TagName, ParseError>)
    ensures
        r matches Ok(t) ==> spec_parse_tag_name(s@) == Some(t),
        r is Err <==> spec_parse_tag_name(s@) is None,
{
    let cs = crate::util::str_to_chars(s);
    match p_tag_name(&cs, 0) {
        Some((t, e)) => {
            if e == cs.len() {
                Ok(t)
            } else {
                Err(ParseError { pos: e, kind: ErrorKind::TrailingInput })
            }
        },
        None => Err(ParseError { pos: 0, kind: ErrorKind::UnexpectedChar }),
    }
}

/// What a whole input denotes as a ref literal.
pub open spec fn spec_parse_ref(s: Seq<char>) -> Option<Ref> {
    match sp_ref(s, 0) {
        Some((t, e)) => if e == s.len() {
            Some(t)
        } else {
            None
        },
        None => None,
    }
}

/// Parse a whole input as a ref literal.
pub fn parse_ref(s: &str) -> (r: Result<Ref, ParseError>)
    ensures
        r matches Ok(t) ==> spec_parse_ref(s@) == Some(t),
        r is Err <==> spec_parse_ref(s@) is None,
{
    let cs = crate::util::str_to_chars(s);
    if cs.len() == 0 || cs[0] != '@' {
        return Err(ParseError { pos: 0, kind: ErrorKind::UnexpectedChar });
    }
    match p_ref(&cs, 0) {
        Some((t, e)) => {
            if e == cs.len() {
                Ok(t)
            } else {
                Err(ParseError { pos: e, kind: ErrorKind::TrailingInput })
            }
        },
        None => Err(ParseError { pos: 0, kind: ErrorKind::InvalidLiteral }),
    }
}

/// What a whole input denotes as a symbol literal.
pub open spec fn spec_parse_symbol(s: Seq<char>) -> Option<Symbol> {
    match sp_symbol(s, 0) {
        Some((t, e)) => if e == s.len() {
            Some(t)
        } else {
            None
        },
        None => None,
    }
}

/// Parse a whole input as a symbol literal.
pub fn parse_symbol(s: &str) -> (r: Result<Symbol, ParseError>)
    ensures
        r matches Ok(t) ==> spec_parse_symbol(s@) == Some(t),
        r is Err <==> spec_parse_symbol(s@) is None,
{
    let cs = crate::util::str_to_chars(s);
    if cs.len() == 0 || cs[0] != '^' {
        return Err(ParseError { pos: 0, kind: ErrorKind::UnexpectedChar });
    }
    match p_symbol(&cs, 0) {
        Some((t, e)) => {
            if e == cs.len() {
                Ok(t)
            } else {
                Err(ParseError { pos: e, kind: ErrorKind::TrailingInput })
            }
        },
        None => Err(ParseError { pos: 0, kind: ErrorKind::InvalidLiteral }),
    }
}

/// What a whole input denotes as a time literal.
pub open spec fn spec_parse_time(s: Seq<char>) -> Option<Time> {
    match sp_time(s, 0) {
        Some((l, e)) => match l {
            LitModel::Time(t) => if e == s.len() {
                Some(t)
            } else {
                None
            },
            _ => None,
        },
        None => None,
    }
}

/// Parse a whole input as a time literal (`HH:MM:SS` with an optional
/// fractional second).
pub fn parse_time(s: &str) -> (r: Result<Time, ParseError>)
    ensures
        r matches Ok(t) ==> spec_parse_time(s@) == Some(t),
        r is Err <==> spec_parse_time(s@) is None,
{
    let cs = crate::util::str_to_chars(s);
    if cs.len() == 0 {
        return Err(ParseError { pos: 0, kind: ErrorKind::UnexpectedEnd });
    }
    match p_time_lit(&cs, 0) {
        Some((l, e)) => match l {
            Lit::Time(t) => {
                if e == cs.len() {
                    Ok(t)
                } else {
                    Err(ParseError { pos: e, kind: ErrorKind::TrailingInput })
                }
            },
            _ => Err(ParseError { pos: 0, kind: ErrorKind::InvalidLiteral }),
        },
        None => Err(ParseError { pos: 0, kind: ErrorKind::InvalidLiteral }),
    }
}

/// What a whole input denotes as a date literal.
pub open spec fn spec_parse_date(s: Seq<char>) -> Option<Date> {
    match sp_date_or_ym(s, 0) {
        Some((l, e)) => match l {
            LitModel::Date(d) => if e == s.len() {
                Some(d)
            } else {
                None
            },
            _ => None,
        },
        None => None,
    }
}

/// Parse a whole input as a date literal (`YYYY-MM-DD`).
pub fn parse_date(s: &str) -> (r: Result<Date, ParseError>)
    ensures
        r matches Ok(d) ==> spec_parse_date(s@) == Some(d) && d.valid(),
        r is Err <==> spec_parse_date(s@) is None,
{
    let cs = crate::util::str_to_chars(s);
    if cs.len() == 0 {
        return Err(ParseError { pos: 0, kind: ErrorKind::UnexpectedEnd });
    }
    match p_date_or_ym_lit(&cs, 0) {
        Some((l, e)) => match l {
            Lit::Date(d) => {
                if e == cs.len() {
                    Ok(d)
                } else {
                    Err(ParseError { pos: e, kind: ErrorKind::TrailingInput })
                }
            },
            _ => Err(ParseError { pos: 0, kind: ErrorKind::InvalidLiteral }),
        },
        None => Err(ParseError { pos: 0, kind: ErrorKind::InvalidLiteral }),
    }
}

/// What a whole input denotes as a year-month literal.
pub open spec fn spec_parse_year_month(s: Seq<char>) -> Option<YearMonth> {
    match sp_date_or_ym(s, 0) {
        Some((l, e)) => match l {
            LitModel::YearMonth(ym) => if e == s.len() {
                Some(ym)
            } else {
                None
            },
            _ => None,
        },
        None => None,
    }
}

/// Parse a whole input as a year-month literal (`YYYY-MM`).
pub fn parse_year_month(s: &str) -> (r: Result<YearMonth, ParseError>)
    ensures
        r matches Ok(ym) ==> spec_parse_year_month(s@) == Some(ym),
        r is Err <==> spec_parse_year_month(s@) is None,
{
    let cs = crate::util::str_to_chars(s);
    if cs.len() == 0 {
        return Err(ParseError { pos: 0, kind: ErrorKind::UnexpectedEnd });
    }
    match p_date_or_ym_lit(&cs, 0) {
        Some((l, e)) => match l {
            Lit::YearMonth(ym) => {
                if e == cs.len() {
                    Ok(ym)
                } else {
                    Err(ParseError { pos: e, kind: ErrorKind::TrailingInput })
                }
            },
            _ => Err(ParseError { pos: 0, kind: ErrorKind::InvalidLiteral }),
        },
        None => Err(ParseError { pos: 0, kind: ErrorKind::InvalidLiteral }),
    }
}

/// What a whole input denotes as a numeric literal.
pub open spec fn spec_parse_num(s: Seq<char>) -> Option<Number> {
    match sp_number(s, 0) {
        Some((l, e)) => match l {
            LitModel::Num(n) => if e == s.len() {
                Some(n)
            } else {
                None
            },
            _ => None,
        },
        None => None,
    }
}

/// Parse a whole input as a numeric literal with an optional exponent
/// and unit.
pub fn parse_num(s: &str) -> (r: Result<Number, ParseError>)
    ensures
        r matches Ok(n) ==> spec_parse_num(s@) == Some(n),
        r is Err <==> spec_parse_num(s@) is None,
{
    let cs = crate::util::str_to_chars(s);
    if cs.len() == 0 {
        return Err(ParseError { pos: 0, kind: ErrorKind::UnexpectedEnd });
    }
    match p_number_lit(&cs, 0) {
        Some((l, e)) => match l {
            Lit::Num(n) => {
                if e == cs.len() {
                    Ok(n)
                } else {
                    Err(ParseError { pos: e, kind: ErrorKind::TrailingInput })
                }
            },
            _ => Err(ParseError { pos: 0, kind: ErrorKind::InvalidLiteral }),
        },
        None => Err(ParseError { pos: 0, kind: ErrorKind::InvalidLiteral }),
    }
}

} // verus!

