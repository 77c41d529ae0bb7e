//! The numeric-literal sub-parser: splits a numeric token into a base
//! numeral, an optional signed decimal exponent and an optional unit
//! suffix, and builds the `Number` value through the trusted
//! constructors.
//!
//! A token's exponent is found by searching for the first `E` that is
//! immediately followed by an optional `-` and at least one digit; the
//! exponent is the whole digit run there, the base is everything to the
//! left of the `E`, and the unit is everything after the digits, taken
//! verbatim. Without such a marker, the base is the longest leading
//! `-?digits(.digits)?` prefix and the unit is the remainder. An empty
//! unit is normalized to "absent".

use crate::scalars::{
    basic_number_of, is_ascii_digit_char, is_ascii_lower, is_ascii_upper, is_float_text,
    is_numeral_text, number_basic, number_scientific, numeral_split_at, scientific_number_of,
};
use crate::util::{copy_range, range_to_string, str_to_chars};
use raystack_core::Number;
use vstd::prelude::*;

verus! {

/// Characters that may appear in a unit suffix: ASCII letters, `%`,
/// `_`, `/`, `$`, and every character beyond ASCII.
pub open spec fn is_unit_char(c: char) -> bool {
    ||| is_ascii_lower(c)
    ||| is_ascii_upper(c)
    ||| c == '%'
    ||| c == '_'
    ||| c == '/'
    ||| c == '$'
    ||| (c as u32) > 127
}

/// The end of the run of decimal digits starting at `i`.
pub open spec fn digits_end(s: Seq<char>, i: int) -> int
    decreases s.len() - i,
{
    if 0 <= i < s.len() && is_ascii_digit_char(s[i]) {
        digits_end(s, i + 1)
    } else {
        i
    }
}

/// The numeric value of the digit run `s[i..j]`.
pub open spec fn digits_val(s: Seq<char>, i: int, j: int) -> int
    decreases j - i,
{
    if i < j {
        digits_val(s, i, j - 1) * 10 + (s[j - 1] as u32 - 48)
    } else {
        0
    }
}

/// A scientific-notation marker at `k`: the character `E` immediately
/// followed by an optional `-` and at least one digit.
pub open spec fn marker_at(s: Seq<char>, k: int) -> bool {
    &&& 0 <= k < s.len()
    &&& s[k] == 'E'
    &&& k + 1 < s.len()
    &&& (is_ascii_digit_char(s[k + 1]) || (s[k + 1] == '-' && k + 2 < s.len()
        && is_ascii_digit_char(s[k + 2])))
}

/// The first position at or after `i` holding a scientific-notation
/// marker, or `s.len()` if there is none.
pub open spec fn find_marker(s: Seq<char>, i: int) -> int
    decreases s.len() - i,
{
    if i < s.len() {
        if marker_at(s, i) {
            i
        } else {
            find_marker(s, i + 1)
        }
    } else {
        s.len() as int
    }
}

/// The split of a numeric token: base numeral, optional exponent,
/// optional unit text.
pub struct NumParts {
    pub base: Seq<char>,
    pub exponent: Option<int>,
    pub unit: Option<Seq<char>>,
}

/// The split of a numeric token, or `None` if the token has no valid
/// numeric prefix (or, with a marker present, no valid base).
pub open spec fn spec_num_parts(s: Seq<char>) -> Option<NumParts> {
    let k = find_marker(s, 0);
    if k < s.len() {
        if is_float_text(s.take(k)) {
            let neg = s[k + 1] == '-';
            let ds = if neg {
                k + 2
            } else {
                k + 1
            };
            let de = digits_end(s, ds);
            let m = digits_val(s, ds, de);
            Some(
                NumParts {
                    base: s.take(k),
                    exponent: Some(
                        if neg {
                            -m
                        } else {
                            m
                        },
                    ),
                    unit: if de == s.len() {
                        None
                    } else {
                        Some(s.skip(de))
                    },
                },
            )
        } else {
            None
        }
    } else {
        let j0: int = if s.len() > 0 && s[0] == '-' {
            1
        } else {
            0
        };
        let d1 = digits_end(s, j0);
        if d1 == j0 {
            None
        } else {
            let be = if d1 < s.len() && s[d1] == '.' && d1 + 1 < s.len() && is_ascii_digit_char(
                s[d1 + 1],
            ) {
                digits_end(s, d1 + 1)
            } else {
                d1
            };
            Some(
                NumParts {
                    base: s.take(be),
                    exponent: None,
                    unit: if be == s.len() {
                        None
                    } else {
                        Some(s.skip(be))
                    },
                },
            )
        }
    }
}

/// Whether an exponent fits the 32-bit signed range the number
/// constructor takes.
pub open spec fn exp_in_range(e: int) -> bool {
    -2147483648 <= e <= 2147483647
}

/// The number a numeric token denotes, or `None` if the token is
/// malformed, its exponent is out of range, or its base is beyond the
/// finite floating-point range.
pub open spec fn spec_number_value(s: Seq<char>) -> Option<Number> {
    match spec_num_parts(s) {
        None => None,
        Some(p) => match p.exponent {
            None => Some(basic_number_of(p.base, p.unit)),
            Some(e) => if exp_in_range(e) {
                scientific_number_of(p.base, e, p.unit)
            } else {
                None
            },
        },
    }
}

pub proof fn lemma_digits_end(s: Seq<char>, i: int)
    requires
        0 <= i <= s.len(),
    ensures
        i <= digits_end(s, i) <= s.len(),
        forall|j: int| i <= j < digits_end(s, i) ==> is_ascii_digit_char(#[trigger] s[j]),
        digits_end(s, i) < s.len() ==> !is_ascii_digit_char(s[digits_end(s, i)]),
    decreases s.len() - i,
{
    if i < s.len() && is_ascii_digit_char(s[i]) {
        lemma_digits_end(s, i + 1);
    }
}

pub proof fn lemma_digits_end_pin(s: Seq<char>, i: int, m: int)
    requires
        0 <= i <= m <= s.len(),
        forall|j: int| i <= j < m ==> is_ascii_digit_char(#[trigger] s[j]),
        m == s.len() || !is_ascii_digit_char(s[m]),
    ensures
        digits_end(s, i) == m,
    decreases m - i,
{
    if i < m {
        lemma_digits_end_pin(s, i + 1, m);
    }
}

pub proof fn lemma_digits_val_nonneg(s: Seq<char>, i: int, j: int)
    requires
        forall|x: int| i <= x < j ==> is_ascii_digit_char(#[trigger] s[x]),
    ensures
        digits_val(s, i, j) >= 0,
    decreases j - i,
{
    if i < j {
        lemma_digits_val_nonneg(s, i, j - 1);
    }
}

/// Ten to the power `n`.
pub open spec fn pow10(n: nat) -> int
    decreases n,
{
    if n == 0 {
        1
    } else {
        10 * pow10((n - 1) as nat)
    }
}

pub proof fn lemma_digits_val_bound(s: Seq<char>, i: int, j: int)
    requires
        i <= j,
        forall|x: int| i <= x < j ==> is_ascii_digit_char(#[trigger] s[x]),
    ensures
        0 <= digits_val(s, i, j) < pow10((j - i) as nat),
    decreases j - i,
{
    if i < j {
        lemma_digits_val_bound(s, i, j - 1);
    }
}

pub proof fn lemma_find_marker(s: Seq<char>, i: int)
    requires
        0 <= i <= s.len(),
    ensures
        i <= find_marker(s, i) <= s.len(),
        find_marker(s, i) < s.len() ==> marker_at(s, find_marker(s, i)),
        forall|j: int| i <= j < find_marker(s, i) ==> !marker_at(s, j),
    decreases s.len() - i,
{
    if i < s.len() && !marker_at(s, i) {
        lemma_find_marker(s, i + 1);
    }
}

pub proof fn lemma_find_marker_pin(s: Seq<char>, i: int, m: int)
    requires
        0 <= i <= m <= s.len(),
        forall|j: int| i <= j < m ==> !marker_at(s, j),
    ensures
        find_marker(s, i) == find_marker(s, m),
    decreases m - i,
{
    if i < m {
        lemma_find_marker_pin(s, i + 1, m);
    }
}

/// The scan-based reading of a base numeral agrees with its
/// declarative shape.
pub proof fn lemma_float_scan(u: Seq<char>)
    ensures
        ({
            let j0: int = if u.len() > 0 && u[0] == '-' {
                1
            } else {
                0
            };
            let d1 = digits_end(u, j0);
            let be = if d1 < u.len() && u[d1] == '.' && d1 + 1 < u.len() && is_ascii_digit_char(
                u[d1 + 1],
            ) {
                digits_end(u, d1 + 1)
            } else {
                d1
            };
            is_float_text(u) <==> (d1 > j0 && be == u.len())
        }),
{
    let j0: int = if u.len() > 0 && u[0] == '-' {
        1
    } else {
        0
    };
    let t = if j0 == 1 {
        u.skip(1)
    } else {
        u
    };
    assert(t =~= u.skip(j0));
    let d1 = digits_end(u, j0);
    lemma_digits_end(u, j0);
    let be = if d1 < u.len() && u[d1] == '.' && d1 + 1 < u.len() && is_ascii_digit_char(
        u[d1 + 1],
    ) {
        digits_end(u, d1 + 1)
    } else {
        d1
    };
    if d1 > j0 && be == u.len() {
        // the scan succeeds: exhibit the split of the unsigned numeral
        let k = d1 - j0;
        if be != d1 {
            lemma_digits_end(u, d1 + 1);
        }
        assert(numeral_split_at(t, k));
        assert(is_numeral_text(t));
        assert(is_float_text(u));
    }
    if is_float_text(u) {
        // the declarative split pins down both digit scans
        let k = choose|k: int| numeral_split_at(t, k);
        assert forall|x: int| j0 <= x < j0 + k implies is_ascii_digit_char(#[trigger] u[x]) by {
            assert(u[x] == t[x - j0]);
        }
        lemma_digits_end_pin(u, j0, j0 + k);
        if k == t.len() {
            assert(be == u.len());
        } else {
            assert(u[d1] == t[k]);
            assert(u[d1] == '.');
            assert forall|x: int| d1 + 1 <= x < u.len() implies is_ascii_digit_char(
                #[trigger] u[x],
            ) by {
                assert(u[x] == t[x - j0]);
            }
            assert(is_ascii_digit_char(u[d1 + 1]));
            lemma_digits_end_pin(u, d1 + 1, u.len() as int);
            assert(be == u.len());
        }
        assert(d1 > j0);
    }
}

/// Executable test for a decimal digit.
pub(crate) fn is_digit(c: char) -> (b: bool)
    ensures
        b == is_ascii_digit_char(c),
{
    '0' <= c && c <= '9'
}

/// Executable test for a unit-suffix character.
pub(crate) fn is_unit_char_exec(c: char) -> (b: bool)
    ensures
        b == is_unit_char(c),
{
    ('a' <= c && c <= 'z') || ('A' <= c && c <= 'Z') || c == '%' || c == '_' || c == '/' || c == '$'
        || (c as u32) > 127
}

/// Scan the digit run starting at `i`.
pub(crate) fn scan_digits(s: &Vec<char>, i: usize) -> (j: usize)
    requires
        i <= s@.len(),
    ensures
        j == digits_end(s@, i as int),
        i <= j <= s@.len(),
{
    let mut j = i;
    while j < s.len() && is_digit(s[j])
        invariant
            i <= j <= s@.len(),
            digits_end(s@, i as int) == digits_end(s@, j as int),
        decreases s@.len() - j,
    {
        j = j + 1;
    }
    j
}

/// Scan for the first scientific-notation marker.
pub(crate) fn scan_marker(s: &Vec<char>) -> (k: usize)
    ensures
        k == find_marker(s@, 0),
        k <= s@.len(),
        k < s@.len() ==> marker_at(s@, k as int),
{
    let n = s.len();
    let mut k: usize = 0;
    while k < n
        invariant
            0 <= k <= n == s@.len(),
            find_marker(s@, 0) == find_marker(s@, k as int),
        decreases n - k,
    {
        if s[k] == 'E' && k + 1 < n && (is_digit(s[k + 1]) || (s[k + 1] == '-' && k + 2 < n
            && is_digit(s[k + 2]))) {
            proof {
                assert(marker_at(s@, k as int));
            }
            return k;
        }
        proof {
            assert(!marker_at(s@, k as int));
        }
        k = k + 1;
    }
    proof {
        lemma_find_marker(s@, k as int);
    }
    k
}

/// Read the exponent digits `s[ds..de]` as a signed 32-bit value, or
/// `None` if the value is out of range.
pub(crate) fn scan_exp_value(s: &Vec<char>, ds: usize, de: usize, neg: bool) -> (r: Option<i32>)
    requires
        ds <= de <= s@.len(),
        forall|x: int| ds <= x < de ==> is_ascii_digit_char(#[trigger] s@[x]),
    ensures
        ({
            let m = digits_val(s@, ds as int, de as int);
            let e: int = if neg {
                -m
            } else {
                m
            };
            &&& r is Some <==> exp_in_range(e)
            &&& (r matches Some(v) ==> v as int == e)
        }),
{
    let mut acc: i64 = 0;
    let mut i = ds;
    while i < de
        invariant
            ds <= i <= de <= s@.len(),
            forall|x: int| ds <= x < de ==> is_ascii_digit_char(#[trigger] s@[x]),
            digits_val(s@, ds as int, i as int) <= 2147483648 ==> acc == digits_val(
                s@,
                ds as int,
                i as int,
            ),
            digits_val(s@, ds as int, i as int) > 2147483648 ==> acc == 2147483649,
            0 <= acc <= 2147483649,
        decreases de - i,
    {
        proof {
            lemma_digits_val_nonneg(s@, ds as int, i as int);
        }
        let d = (s[i] as u32 - 48) as i64;
        if acc > 2147483648 {
            // value already beyond range; it can only grow
        } else {
            acc = acc * 10 + d;
            if acc > 2147483648 {
                acc = 2147483649;
            }
        }
        i = i + 1;
    }
    proof {
        lemma_digits_val_nonneg(s@, ds as int, de as int);
    }
    if neg {
        if acc <= 2147483648 {
            Some((-acc) as i32)
        } else {
            None
        }
    } else {
        if acc <= 2147483647 {
            Some(acc as i32)
        } else {
            None
        }
    }
}

/// Executable test for the base-numeral shape.
pub(crate) fn float_check(u: &Vec<char>) -> (b: bool)
    ensures
        b == is_float_text(u@),
{
    proof {
        lemma_float_scan(u@);
    }
    let n = u.len();
    let j0: usize = if n > 0 && u[0] == '-' {
        1
    } else {
        0
    };
    let d1 = scan_digits(u, j0);
    if d1 == j0 {
        return false;
    }
    let be = if d1 < n && u[d1] == '.' && d1 + 1 < n && is_digit(u[d1 + 1]) {
        scan_digits(u, d1 + 1)
    } else {
        d1
    };
    be == n
}

/// Parse a whole numeric token into a `Number`.
pub(crate) fn num_from_token(t: &Vec<char>) -> (r: Option<Number>)
    ensures
        r == spec_number_value(t@),
{
    let n = t.len();
    let k = scan_marker(t);
    if k < n {
        let base = copy_range(t, 0, k);
        if !float_check(&base) {
            proof {
                assert(base@ =~= t@.take(k as int));
            }
            return None;
        }
        proof {
            assert(base@ =~= t@.take(k as int));
        }
        let neg = t[k + 1] == '-';
        let ds = if neg {
            k + 2
        } else {
            k + 1
        };
        let de = scan_digits(t, ds);
        proof {
            lemma_digits_end(t@, ds as int);
        }
        let e = match scan_exp_value(t, ds, de, neg) {
            Some(e) => e,
            None => {
                return None;
            },
        };
        let base_s = range_to_string(t, 0, k);
        proof {
            assert(base_s@ =~= t@.take(k as int));
        }
        let unit = if de < n {
            Some(range_to_string(t, de, n))
        } else {
            None
        };
        proof {
            if de < n {
                assert(unit.deep_view() matches Some(us) && us =~= t@.skip(de as int));
            }
        }
        number_scientific(base_s, e, unit)
    } else {
        let j0: usize = if n > 0 && t[0] == '-' {
            1
        } else {
            0
        };
        let d1 = scan_digits(t, j0);
        if d1 == j0 {
            return None;
        }
        let be = if d1 < n && t[d1] == '.' && d1 + 1 < n && is_digit(t[d1 + 1]) {
            scan_digits(t, d1 + 1)
        } else {
            d1
        };
        let base_s = range_to_string(t, 0, be);
        proof {
            lemma_float_scan(t@);
            assert(base_s@ =~= t@.take(be as int));
            assert(base_s@ =~= t@.subrange(0, be as int));
            lemma_float_text_prefix(t@, j0 as int, d1 as int, be as int);
        }
        let unit = if be < n {
            Some(range_to_string(t, be, n))
        } else {
            None
        };
        proof {
            if be < n {
                assert(unit.deep_view() matches Some(us) && us =~= t@.skip(be as int));
            }
        }
        Some(number_basic(base_s, unit))
    }
}

/// A base prefix found by scanning is a well-shaped numeral.
pub proof fn lemma_float_text_prefix(s: Seq<char>, j0: int, d1: int, be: int)
    requires
        j0 == if s.len() > 0 && s[0] == '-' {
            1int
        } else {
            0int
        },
        d1 == digits_end(s, j0),
        d1 > j0,
        be == if d1 < s.len() && s[d1] == '.' && d1 + 1 < s.len() && is_ascii_digit_char(
            s[d1 + 1],
        ) {
            digits_end(s, d1 + 1)
        } else {
            d1
        },
    ensures
        is_float_text(s.take(be)),
{
    lemma_digits_end(s, j0);
    let u = s.take(be);
    let t = if j0 == 1 {
        u.skip(1)
    } else {
        u
    };
    let k = d1 - j0;
    if be != d1 {
        lemma_digits_end(s, d1 + 1);
        assert(be <= s.len());
    }
    assert(numeral_split_at(t, k));
    assert(is_numeral_text(t));
}

/// The end of the run of unit-suffix characters starting at `i`.
pub open spec fn unit_end(s: Seq<char>, i: int) -> int
    decreases s.len() - i,
{
    if 0 <= i < s.len() && is_unit_char(s[i]) {
        unit_end(s, i + 1)
    } else {
        i
    }
}

pub proof fn lemma_unit_end(s: Seq<char>, i: int)
    requires
        0 <= i <= s.len(),
    ensures
        i <= unit_end(s, i) <= s.len(),
        forall|j: int| i <= j < unit_end(s, i) ==> is_unit_char(#[trigger] s[j]),
        unit_end(s, i) < s.len() ==> !is_unit_char(s[unit_end(s, i)]),
    decreases s.len() - i,
{
    if i < s.len() && is_unit_char(s[i]) {
        lemma_unit_end(s, i + 1);
    }
}

/// Where a numeric token starting at `i` ends: an optional sign, digits,
/// an optional fraction, an optional exponent marker with its digits,
/// then a run of unit characters.
pub open spec fn num_token_end(s: Seq<char>, i: int) -> int {
    let j0 = if 0 <= i < s.len() && s[i] == '-' {
        i + 1
    } else {
        i
    };
    let d1 = digits_end(s, j0);
    let f = if d1 < s.len() && s[d1] == '.' && d1 + 1 < s.len() && is_ascii_digit_char(
        s[d1 + 1],
    ) {
        digits_end(s, d1 + 1)
    } else {
        d1
    };
    let x = if marker_at(s, f) {
        digits_end(
            s,
            if s[f + 1] == '-' {
                f + 2
            } else {
                f + 1
            },
        )
    } else {
        f
    };
    unit_end(s, x)
}

/// A complete token of the numeric lexical grammar: it has a digit after
/// its optional sign and nothing follows its unit suffix.
pub open spec fn is_num_token(t: Seq<char>) -> bool {
    let j0: int = if t.len() > 0 && t[0] == '-' {
        1
    } else {
        0
    };
    digits_end(t, j0) > j0 && num_token_end(t, 0) == t.len()
}

/// The numeric sub-parser is total on the tokens of the numeric lexical
/// grammar: every such token is split into base, exponent and unit
/// (and, being a function, the split is the same on every application).
/// A token without an exponent always yields a number as well; with an
/// exponent, the number construction can still reject a value beyond
/// the constructor's range.
pub proof fn lemma_num_token_total(t: Seq<char>)
    requires
        is_num_token(t),
    ensures
        spec_num_parts(t) matches Some(p) && (p.exponent is None ==> spec_number_value(t)
            is Some),
{
    let j0: int = if t.len() > 0 && t[0] == '-' {
        1
    } else {
        0
    };
    let d1 = digits_end(t, j0);
    lemma_digits_end(t, j0);
    let f = if d1 < t.len() && t[d1] == '.' && d1 + 1 < t.len() && is_ascii_digit_char(
        t[d1 + 1],
    ) {
        digits_end(t, d1 + 1)
    } else {
        d1
    };
    if f != d1 {
        lemma_digits_end(t, d1 + 1);
    }
    // no marker can sit before `f`: every character there is a sign, a
    // digit or the decimal point, never `E`
    assert forall|j: int| 0 <= j < f implies !marker_at(t, j) by {
        if j < j0 {
            assert(t[j] == '-');
        } else if j < d1 {
            assert(is_ascii_digit_char(t[j]));
        } else if j == d1 {
            assert(t[j] == '.');
        } else {
            assert(is_ascii_digit_char(t[j]));
        }
    }
    if marker_at(t, f) {
        let ds = if t[f + 1] == '-' {
            f + 2
        } else {
            f + 1
        };
        let x = digits_end(t, ds);
        lemma_digits_end(t, ds);
        lemma_unit_end(t, x);
        lemma_find_marker_pin(t, 0, f);
        assert(find_marker(t, 0) == f);
        lemma_float_text_prefix(t, j0, d1, f);
        assert(t.take(f) == t.take(find_marker(t, 0)));
    } else {
        let x = f;
        lemma_unit_end(t, x);
        assert(unit_end(t, x) == t.len());
        // the unit suffix holds no digit and no `-`, so no marker either
        assert forall|j: int| f <= j < t.len() implies !marker_at(t, j) by {
            if j > f {
                assert(is_unit_char(t[j]));
            }
            if j + 1 < t.len() {
                assert(is_unit_char(t[j + 1]));
                if j + 2 < t.len() {
                    assert(is_unit_char(t[j + 2]));
                }
            }
        }
        lemma_find_marker_pin(t, 0, t.len() as int);
        assert(find_marker(t, 0) == t.len());
    }
}

/// Unit normalization: a numeral followed by nothing yields no unit;
/// a numeral followed by any non-empty unit text yields exactly that
/// text as the unit, taken verbatim.
pub proof fn lemma_unit_normalization(u: Seq<char>, w: Seq<char>)
    requires
        is_float_text(u),
        forall|j: int| 0 <= j < w.len() ==> is_unit_char(#[trigger] w[j]),
    ensures
        spec_num_parts(u + w) matches Some(p) && p.base == u && p.exponent is None && p.unit == (
        if w.len() == 0 {
            None::<Seq<char>>
        } else {
            Some(w)
        }),
{
    let t = u + w;
    lemma_float_scan(u);
    let j0: int = if u.len() > 0 && u[0] == '-' {
        1
    } else {
        0
    };
    let d1 = digits_end(u, j0);
    lemma_digits_end(u, j0);
    let be = if d1 < u.len() && u[d1] == '.' && d1 + 1 < u.len() && is_ascii_digit_char(
        u[d1 + 1],
    ) {
        digits_end(u, d1 + 1)
    } else {
        d1
    };
    if be != d1 {
        lemma_digits_end(u, d1 + 1);
    }
    assert(d1 > j0 && be == u.len());
    assert(u.len() > 0);
    assert(t.len() == u.len() + w.len());
    assert forall|x: int| 0 <= x < u.len() implies t[x] == u[x] by {}
    // the leading digit run of the whole token is the numeral's
    assert forall|x: int| j0 <= x < d1 implies is_ascii_digit_char(#[trigger] t[x]) by {}
    if d1 < t.len() {
        if d1 < u.len() {
            assert(t[d1] == u[d1]);
            assert(!is_ascii_digit_char(t[d1]));
        } else {
            assert(t[d1] == w[0]);
            assert(is_unit_char(t[d1]));
            assert(!is_ascii_digit_char(t[d1]));
        }
    }
    lemma_digits_end_pin(t, j0, d1);
    let bet = if d1 < t.len() && t[d1] == '.' && d1 + 1 < t.len() && is_ascii_digit_char(
        t[d1 + 1],
    ) {
        digits_end(t, d1 + 1)
    } else {
        d1
    };
    if be == d1 {
        // no fraction: either the numeral ends the token, or a unit
        // character follows, and neither is a decimal point
        if d1 < t.len() {
            if d1 == u.len() {
                assert(t[d1] == w[0] && is_unit_char(t[d1]));
                assert(t[d1] != '.');
            } else {
                assert(t[d1] == u[d1]);
            }
        }
        if d1 < t.len() && t[d1] == '.' && d1 + 1 < t.len() && is_ascii_digit_char(t[d1 + 1]) {
            assert(false);
        }
        assert(bet == d1);
    } else {
        // a fraction: its digits run exactly to the numeral's end
        assert(t[d1] == u[d1] && u[d1] == '.');
        assert(is_ascii_digit_char(t[d1 + 1]));
        assert forall|x: int| d1 + 1 <= x < be implies is_ascii_digit_char(#[trigger] t[x]) by {
            assert(t[x] == u[x]);
        }
        if be < t.len() {
            assert(t[be] == w[0] && is_unit_char(t[be]));
            assert(!is_ascii_digit_char(t[be]));
        }
        lemma_digits_end_pin(t, d1 + 1, be);
        assert(bet == be);
    }
    // no scientific-notation marker anywhere: the numeral has no `E`,
    // and in the unit no digit can follow one
    assert forall|k: int| 0 <= k < t.len() implies !marker_at(t, k) by {
        if k < u.len() {
            if k < j0 {
                assert(t[k] == '-');
            } else if k < d1 {
                assert(is_ascii_digit_char(t[k]));
            } else if k == d1 {
                assert(t[k] == '.');
            } else {
                assert(is_ascii_digit_char(t[k]));
            }
        } else {
            if k + 1 < t.len() {
                assert(is_unit_char(t[k + 1]));
                if k + 2 < t.len() {
                    assert(is_unit_char(t[k + 2]));
                }
            }
        }
    }
    lemma_find_marker_pin(t, 0, t.len() as int);
    assert(find_marker(t, 0) == t.len());
    assert(t.take(bet) =~= u);
    assert(t.skip(bet) =~= w);
}

/// Normalize a unit string: an empty unit means "absent".
pub fn normalize_unit(unit: Option<String>) -> (r: Option<String>)
    ensures
        r == match unit {
            Option::None => None::<String>,
            Option::Some(u) => if u@.len() == 0 {
                None::<String>
            } else {
                Some(u)
            },
        },
{
    match unit {
        None => None,
        Some(u) => {
            if u.as_str().is_empty() {
                None
            } else {
                Some(u)
            }
        },
    }
}

/// Parse a numeric token given as a string slice.
pub fn str_to_number(s: &str) -> (r: Option<Number>)
    ensures
        r == spec_number_value(s@),
{
    let t = str_to_chars(s);
    num_from_token(&t)
}

} // verus!
