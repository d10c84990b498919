//! The numeric-literal scanner: recognises the longest floating-point literal
//! prefix of the input (optional sign, digits, optional `.` and fractional
//! digits, optional `e`/`E` exponent suffix) and the spec functions that say
//! exactly which prefix that is.

use vstd::prelude::*;

verus! {

/// The character codes the grammar reads: `+ - . * / ^ e E` and the digits.
pub const CH_PLUS: u8 = 43;

pub const CH_MINUS: u8 = 45;

pub const CH_DOT: u8 = 46;

pub const CH_LOWER_E: u8 = 101;

pub const CH_UPPER_E: u8 = 69;

pub const CH_ZERO: u8 = 48;

pub const CH_NINE: u8 = 57;

pub const CH_STAR: u8 = 42;

pub const CH_SLASH: u8 = 47;

pub const CH_CARET: u8 = 94;

/// A decimal digit `0`..=`9`.
pub open spec fn is_digit(c: u8) -> bool {
    CH_ZERO <= c && c <= CH_NINE
}

/// A sign character, `+` or `-`.
pub open spec fn is_sign(c: u8) -> bool {
    c == CH_PLUS || c == CH_MINUS
}

/// An exponent marker, `e` or `E`.
pub open spec fn is_exp_marker(c: u8) -> bool {
    c == CH_LOWER_E || c == CH_UPPER_E
}

/// The first position at or after `pos` that does not hold a digit.
pub open spec fn digits_end(s: Seq<u8>, pos: int) -> int
    decreases s.len() - pos,
{
    if pos < s.len() && is_digit(s[pos]) {
        digits_end(s, pos + 1)
    } else {
        pos
    }
}

/// Where the mantissa that starts at `pos` ends: either digits with an
/// optional `.` and further optional digits, or `.` followed by at least one
/// digit. `None` when no mantissa starts at `pos`.
pub open spec fn mantissa_end(s: Seq<u8>, pos: int) -> Option<int> {
    if pos < s.len() && is_digit(s[pos]) {
        let d = digits_end(s, pos);
        if d < s.len() && s[d] == CH_DOT {
            Some(digits_end(s, d + 1))
        } else {
            Some(d)
        }
    } else if pos < s.len() && s[pos] == CH_DOT && pos + 1 < s.len() && is_digit(s[pos + 1]) {
        Some(digits_end(s, pos + 1))
    } else {
        None
    }
}

/// Where the optional exponent suffix ends, given that the mantissa ends at
/// `m`: past `e`/`E`, an optional sign and at least one digit, or `m` itself
/// when no complete exponent suffix follows.
pub open spec fn exp_tail_end(s: Seq<u8>, m: int) -> int {
    if m < s.len() && is_exp_marker(s[m]) {
        let q = if m + 1 < s.len() && is_sign(s[m + 1]) {
            m + 2
        } else {
            m + 1
        };
        if q < s.len() && is_digit(s[q]) {
            digits_end(s, q)
        } else {
            m
        }
    } else {
        m
    }
}

/// Where the longest numeric literal that starts at `pos` ends, or `None`
/// when no literal starts there.
pub open spec fn lit_end(s: Seq<u8>, pos: int) -> Option<int> {
    let body = if pos < s.len() && is_sign(s[pos]) {
        pos + 1
    } else {
        pos
    };
    match mantissa_end(s, body) {
        Some(m) => Some(exp_tail_end(s, m)),
        None => None,
    }
}

/// `t` is exactly one numeric literal, no more and no less.
pub open spec fn is_literal(t: Seq<u8>) -> bool {
    lit_end(t, 0) == Some(t.len() as int)
}

/// Bounds of a digit run: it starts at `pos`, holds only digits, and stops at
/// the end of the input or at the first non-digit.
pub proof fn lemma_digits_end_bounds(s: Seq<u8>, pos: int)
    requires
        0 <= pos <= s.len(),
    ensures
        pos <= digits_end(s, pos) <= s.len(),
        forall|k: int| pos <= k < digits_end(s, pos) ==> is_digit(s[k]),
        digits_end(s, pos) < s.len() ==> !is_digit(s[digits_end(s, pos)]),
    decreases s.len() - pos,
{
    if pos < s.len() && is_digit(s[pos]) {
        lemma_digits_end_bounds(s, pos + 1);
    }
}

/// The converse: a position that a digit run reaches and cannot pass is where
/// `digits_end` lands.
pub proof fn lemma_digits_end_is(s: Seq<u8>, pos: int, e: int)
    requires
        0 <= pos <= e <= s.len(),
        forall|k: int| pos <= k < e ==> is_digit(s[k]),
        e == s.len() || !is_digit(s[e]),
    ensures
        digits_end(s, pos) == e,
    decreases e - pos,
{
    if pos < e {
        assert(is_digit(s[pos]));
        lemma_digits_end_is(s, pos + 1, e);
    }
}

/// A digit run carries over into a subrange that contains it whole.
proof fn lemma_digits_end_to_sub(s: Seq<u8>, pos: int, e: int, a: int)
    requires
        0 <= pos <= a <= e <= s.len(),
        digits_end(s, a) <= e,
    ensures
        digits_end(s.subrange(pos, e), a - pos) == digits_end(s, a) - pos,
{
    let t = s.subrange(pos, e);
    let d = digits_end(s, a);
    lemma_digits_end_bounds(s, a);
    assert forall|k: int| a - pos <= k < d - pos implies is_digit(t[k]) by {
        assert(t[k] == s[k + pos]);
    }
    if d < e {
        assert(t[d - pos] == s[d]);
    }
    lemma_digits_end_is(t, a - pos, d - pos);
}

/// A digit run of a subrange carries over into the surrounding sequence, as
/// long as the character after the subrange, if the run reaches it, is not a
/// digit.
proof fn lemma_digits_end_from_sub(s: Seq<u8>, pos: int, e: int, a: int)
    requires
        0 <= pos <= a <= e <= s.len(),
        digits_end(s.subrange(pos, e), a - pos) == e - pos ==> e == s.len() || !is_digit(s[e]),
    ensures
        digits_end(s, a) == digits_end(s.subrange(pos, e), a - pos) + pos,
{
    let t = s.subrange(pos, e);
    let dt = digits_end(t, a - pos);
    lemma_digits_end_bounds(t, a - pos);
    assert forall|k: int| a <= k < dt + pos implies is_digit(s[k]) by {
        assert(t[k - pos] == s[k]);
    }
    if dt < e - pos {
        assert(t[dt] == s[dt + pos]);
    }
    lemma_digits_end_is(s, a, dt + pos);
}

/// A literal that `lit_end` finds inside a larger sequence is, taken by
/// itself, exactly one literal.
pub proof fn lemma_lit_extract(s: Seq<u8>, pos: int, e: int)
    requires
        0 <= pos <= e <= s.len(),
        lit_end(s, pos) == Some(e),
    ensures
        is_literal(s.subrange(pos, e)),
{
    let t = s.subrange(pos, e);
    let body = if pos < s.len() && is_sign(s[pos]) {
        pos + 1
    } else {
        pos
    };
    let m = mantissa_end(s, body)->Some_0;
    assert(exp_tail_end(s, m) == e);
    // bounds of the pieces
    if body < s.len() && is_digit(s[body]) {
        lemma_digits_end_bounds(s, body + 1);
        let d = digits_end(s, body);
        if d < s.len() && s[d] == CH_DOT {
            lemma_digits_end_bounds(s, d + 1);
        }
    } else {
        lemma_digits_end_bounds(s, body + 1);
    }
    assert(body < m);
    if m < s.len() && is_exp_marker(s[m]) {
        let q = if m + 1 < s.len() && is_sign(s[m + 1]) {
            m + 2
        } else {
            m + 1
        };
        if q < s.len() && is_digit(s[q]) {
            lemma_digits_end_bounds(s, q);
        }
    }
    assert(m <= e);
    // the sign decision is the same in `t`
    if pos < s.len() && is_sign(s[pos]) {
        assert(t[0] == s[pos]);
    }
    // the mantissa is the same in `t`
    if body < s.len() && is_digit(s[body]) {
        let d = digits_end(s, body);
        assert(t[body - pos] == s[body]);
        lemma_digits_end_to_sub(s, pos, e, body);
        if d < s.len() && s[d] == CH_DOT {
            assert(t[d - pos] == s[d]);
            lemma_digits_end_to_sub(s, pos, e, d + 1);
        } else {
            if d < e {
                assert(t[d - pos] == s[d]);
            }
        }
        assert(mantissa_end(t, body - pos) == Some(m - pos));
    } else {
        assert(t[body - pos] == s[body]);
        assert(t[body - pos + 1] == s[body + 1]);
        lemma_digits_end_to_sub(s, pos, e, body + 1);
        assert(mantissa_end(t, body - pos) == Some(m - pos));
    }
    // the exponent suffix is the same in `t`
    if e > m {
        assert(m < s.len() && is_exp_marker(s[m]));
        assert(t[m - pos] == s[m]);
        let q = if m + 1 < s.len() && is_sign(s[m + 1]) {
            m + 2
        } else {
            m + 1
        };
        assert(q < s.len() && is_digit(s[q]));
        assert(e == digits_end(s, q));
        lemma_digits_end_bounds(s, q);
        assert(q < e);
        assert(t[m + 1 - pos] == s[m + 1]);
        assert(t[q - pos] == s[q]);
        lemma_digits_end_to_sub(s, pos, e, q);
        assert(exp_tail_end(t, m - pos) == e - pos);
    } else {
        assert(exp_tail_end(t, m - pos) == m - pos);
    }
    assert(lit_end(t, 0) == Some(t.len() as int));
}

/// A subrange that is exactly one literal is what `lit_end` finds in the
/// surrounding sequence, as long as the character after the subrange, if
/// any, can extend no literal: not a digit, not a dot, not an exponent
/// marker.
pub proof fn lemma_lit_in_context(s: Seq<u8>, pos: int, e: int)
    requires
        0 <= pos <= e <= s.len(),
        is_literal(s.subrange(pos, e)),
        e == s.len() || (!is_digit(s[e]) && s[e] != CH_DOT && !is_exp_marker(s[e])),
    ensures
        lit_end(s, pos) == Some(e),
{
    let t = s.subrange(pos, e);
    lemma_literal_nonempty(t);
    let tbody = if is_sign(t[0]) {
        1int
    } else {
        0int
    };
    assert(mantissa_end(t, tbody) is Some);
    let tm = mantissa_end(t, tbody)->Some_0;
    assert(exp_tail_end(t, tm) == t.len());
    assert(t[0] == s[pos]);
    let body = pos + tbody;
    // the mantissa carries over
    if tbody < t.len() && is_digit(t[tbody]) {
        let dt = digits_end(t, tbody);
        lemma_digits_end_bounds(t, tbody);
        assert(s[body] == t[tbody]);
        lemma_digits_end_from_sub(s, pos, e, body);
        let d = dt + pos;
        if dt < t.len() && t[dt] == CH_DOT {
            assert(s[d] == t[dt]);
            lemma_digits_end_bounds(t, dt + 1);
            lemma_digits_end_from_sub(s, pos, e, d + 1);
        } else {
            if d < e {
                assert(s[d] == t[dt]);
            }
        }
        assert(mantissa_end(s, body) == Some(tm + pos));
    } else {
        assert(tbody < t.len() && t[tbody] == CH_DOT && tbody + 1 < t.len() && is_digit(
            t[tbody + 1],
        ));
        assert(s[body] == t[tbody]);
        assert(s[body + 1] == t[tbody + 1]);
        lemma_digits_end_bounds(t, tbody + 1);
        lemma_digits_end_from_sub(s, pos, e, body + 1);
        assert(mantissa_end(s, body) == Some(tm + pos));
    }
    let m = tm + pos;
    // the exponent suffix carries over
    if tm < t.len() {
        assert(is_exp_marker(t[tm]));
        let qt = if tm + 1 < t.len() && is_sign(t[tm + 1]) {
            tm + 2
        } else {
            tm + 1
        };
        assert(qt < t.len() && is_digit(t[qt]));
        assert(digits_end(t, qt) == t.len());
        assert(s[m] == t[tm]);
        assert(tm + 1 < t.len());
        assert(s[m + 1] == t[tm + 1]);
        assert(s[qt + pos] == t[qt]);
        lemma_digits_end_from_sub(s, pos, e, qt + pos);
        assert(exp_tail_end(s, m) == e);
    } else {
        assert(exp_tail_end(s, m) == m);
    }
    assert(lit_end(s, pos) == Some(e));
}

/// A literal consumes at least one character.
pub proof fn lemma_lit_end_gt(s: Seq<u8>, pos: int, e: int)
    requires
        0 <= pos <= s.len(),
        lit_end(s, pos) == Some(e),
    ensures
        pos < e <= s.len(),
{
    let body = if pos < s.len() && is_sign(s[pos]) {
        pos + 1
    } else {
        pos
    };
    let m = mantissa_end(s, body)->Some_0;
    if body < s.len() && is_digit(s[body]) {
        lemma_digits_end_bounds(s, body + 1);
        let d = digits_end(s, body);
        if d < s.len() && s[d] == CH_DOT {
            lemma_digits_end_bounds(s, d + 1);
        }
    } else {
        lemma_digits_end_bounds(s, body + 1);
    }
    assert(body < m <= s.len());
    if m < s.len() && is_exp_marker(s[m]) {
        let q = if m + 1 < s.len() && is_sign(s[m + 1]) {
            m + 2
        } else {
            m + 1
        };
        if q < s.len() && is_digit(s[q]) {
            lemma_digits_end_bounds(s, q);
        }
    }
}

/// A literal is never empty.
pub proof fn lemma_literal_nonempty(t: Seq<u8>)
    requires
        is_literal(t),
    ensures
        t.len() >= 1,
{
    if t.len() == 0 {
        assert(mantissa_end(t, 0) is None);
    }
}

/// Scans the digit run that starts at `pos`.
pub fn digits_from(s: &Vec<u8>, pos: usize) -> (r: usize)
    requires
        pos <= s.len(),
    ensures
        pos <= r <= s.len(),
        r as int == digits_end(s@, pos as int),
{
    let mut i: usize = pos;
    while i < s.len() && CH_ZERO <= s[i] && s[i] <= CH_NINE
        invariant
            pos <= i <= s.len(),
            digits_end(s@, pos as int) == digits_end(s@, i as int),
        decreases s.len() - i,
    {
        i = i + 1;
    }
    i
}

/// Scans the numeric literal that starts at `pos` and returns the position
/// just past it, or `None` when no literal starts there.
pub fn scan_number(s: &Vec<u8>, pos: usize) -> (r: Option<usize>)
    requires
        pos <= s.len(),
    ensures
        (match r {
            Some(e) => pos <= e <= s.len() && lit_end(s@, pos as int) == Some(e as int),
            None => lit_end(s@, pos as int) is None,
        }),
{
    let body: usize = if pos < s.len() && (s[pos] == CH_PLUS || s[pos] == CH_MINUS) {
        pos + 1
    } else {
        pos
    };
    let m: usize;
    if body < s.len() && CH_ZERO <= s[body] && s[body] <= CH_NINE {
        let d = digits_from(s, body);
        if d < s.len() && s[d] == CH_DOT {
            m = digits_from(s, d + 1);
        } else {
            m = d;
        }
    } else if body < s.len() && s[body] == CH_DOT && body + 1 < s.len() && CH_ZERO <= s[body + 1]
        && s[body + 1] <= CH_NINE {
        m = digits_from(s, body + 1);
    } else {
        return None;
    }
    if m < s.len() && (s[m] == CH_LOWER_E || s[m] == CH_UPPER_E) {
        let q: usize = if m + 1 < s.len() && (s[m + 1] == CH_PLUS || s[m + 1] == CH_MINUS) {
            m + 2
        } else {
            m + 1
        };
        if q < s.len() && CH_ZERO <= s[q] && s[q] <= CH_NINE {
            let e = digits_from(s, q);
            return Some(e);
        }
    }
    Some(m)
}

} // verus!
