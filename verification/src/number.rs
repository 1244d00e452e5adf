use vstd::prelude::*;
use crate::text::{find_from, find_char, lemma_find_from_bounds};

verus! {

// A field is kept as a sample exactly when it is a standard float literal:
// an optional sign, then `inf`, `infinity` or `nan` in any letter case, or a
// decimal number with an optional fraction and an optional exponent. These
// are the locale-independent rules of `f64` parsing.

pub open spec fn is_digit(c: char) -> bool {
    0x30 <= c as u32 && c as u32 <= 0x39
}

pub open spec fn all_digits(s: Seq<char>) -> bool {
    forall|i: int| 0 <= i < s.len() ==> is_digit(s[i])
}

/// One letter, in either case: `lo` must be the lowercase form.
pub open spec fn ci(c: char, lo: char) -> bool {
    c == lo || c as u32 == lo as u32 - 0x20
}

pub open spec fn is_inf(t: Seq<char>) -> bool {
    t.len() == 3 && ci(t[0], 'i') && ci(t[1], 'n') && ci(t[2], 'f')
}

pub open spec fn is_infinity(t: Seq<char>) -> bool {
    t.len() == 8 && ci(t[0], 'i') && ci(t[1], 'n') && ci(t[2], 'f') && ci(t[3], 'i') && ci(
        t[4],
        'n',
    ) && ci(t[5], 'i') && ci(t[6], 't') && ci(t[7], 'y')
}

pub open spec fn is_nan(t: Seq<char>) -> bool {
    t.len() == 3 && ci(t[0], 'n') && ci(t[1], 'a') && ci(t[2], 'n')
}

/// Digits with at most one decimal point and at least one digit.
pub open spec fn is_mantissa(m: Seq<char>) -> bool {
    let d = find_from(m, '.', 0);
    if d >= m.len() {
        m.len() > 0 && all_digits(m)
    } else {
        all_digits(m.subrange(0, d)) && all_digits(m.subrange(d + 1, m.len() as int)) && m.len()
            > 1
    }
}

/// An exponent marker `e` or `E`, an optional sign, then at least one digit.
pub open spec fn is_exponent(r: Seq<char>) -> bool {
    r.len() >= 2 && (r[0] == 'e' || r[0] == 'E') && {
        let t = if r[1] == '+' || r[1] == '-' {
            r.subrange(2, r.len() as int)
        } else {
            r.subrange(1, r.len() as int)
        };
        t.len() > 0 && all_digits(t)
    }
}

/// Index of the first exponent marker in `s` at or after `i`, or `s.len()`.
pub open spec fn find_exp(s: Seq<char>, i: int) -> int
    decreases s.len() - i,
{
    if i < 0 || i >= s.len() {
        s.len() as int
    } else if s[i] == 'e' || s[i] == 'E' {
        i
    } else {
        find_exp(s, i + 1)
    }
}

/// A mantissa, optionally followed by an exponent part.
pub open spec fn is_decimal_number(t: Seq<char>) -> bool {
    let k = find_exp(t, 0);
    if k >= t.len() {
        is_mantissa(t)
    } else {
        is_mantissa(t.subrange(0, k)) && is_exponent(t.subrange(k, t.len() as int))
    }
}

/// The whole float-literal grammar, sign included.
pub open spec fn is_float_literal(s: Seq<char>) -> bool {
    let t = if s.len() > 0 && (s[0] == '+' || s[0] == '-') {
        s.drop_first()
    } else {
        s
    };
    is_inf(t) || is_infinity(t) || is_nan(t) || is_decimal_number(t)
}

fn check_all_digits(s: &str, from: usize, to: usize) -> (r: bool)
    requires
        from <= to <= s@.len(),
    ensures
        r == all_digits(s@.subrange(from as int, to as int)),
{
    let ghost sub = s@.subrange(from as int, to as int);
    let mut i = from;
    while i < to
        invariant
            from <= i <= to <= s@.len(),
            sub == s@.subrange(from as int, to as int),
            forall|k: int| from <= k < i ==> is_digit(s@[k]),
        decreases to - i,
    {
        let c = s.get_char(i);
        if !(0x30 <= c as u32 && c as u32 <= 0x39) {
            proof {
                assert(sub[i - from] == s@[i as int]);
            }
            return false;
        }
        i = i + 1;
    }
    proof {
        assert forall|k: int| 0 <= k < sub.len() implies is_digit(sub[k]) by {
            assert(sub[k] == s@[from + k]);
        }
    }
    true
}

fn check_ci(c: char, lo: char) -> (r: bool)
    requires
        0x20 <= lo as u32,
    ensures
        r == ci(c, lo),
{
    c == lo || c as u32 == lo as u32 - 0x20
}

fn check_inf(t: &str) -> (r: bool)
    ensures
        r == is_inf(t@),
{
    t.unicode_len() == 3 && check_ci(t.get_char(0), 'i') && check_ci(t.get_char(1), 'n')
        && check_ci(t.get_char(2), 'f')
}

fn check_infinity(t: &str) -> (r: bool)
    ensures
        r == is_infinity(t@),
{
    t.unicode_len() == 8 && check_ci(t.get_char(0), 'i') && check_ci(t.get_char(1), 'n')
        && check_ci(t.get_char(2), 'f') && check_ci(t.get_char(3), 'i') && check_ci(
        t.get_char(4),
        'n',
    ) && check_ci(t.get_char(5), 'i') && check_ci(t.get_char(6), 't') && check_ci(
        t.get_char(7),
        'y',
    )
}

fn check_nan(t: &str) -> (r: bool)
    ensures
        r == is_nan(t@),
{
    t.unicode_len() == 3 && check_ci(t.get_char(0), 'n') && check_ci(t.get_char(1), 'a')
        && check_ci(t.get_char(2), 'n')
}

fn check_mantissa(m: &str) -> (r: bool)
    ensures
        r == is_mantissa(m@),
{
    let n = m.unicode_len();
    let d = find_char(m, '.', 0);
    proof {
        assert(m@.subrange(0, n as int) =~= m@);
    }
    if d == n {
        n > 0 && check_all_digits(m, 0, n)
    } else {
        check_all_digits(m, 0, d) && check_all_digits(m, d + 1, n) && n > 1
    }
}

fn check_exponent(r: &str) -> (b: bool)
    ensures
        b == is_exponent(r@),
{
    let n = r.unicode_len();
    if n < 2 {
        return false;
    }
    let c0 = r.get_char(0);
    if !(c0 == 'e' || c0 == 'E') {
        return false;
    }
    let c1 = r.get_char(1);
    let from: usize = if c1 == '+' || c1 == '-' {
        2
    } else {
        1
    };
    n - from > 0 && check_all_digits(r, from, n)
}

fn find_exp_char(s: &str, from: usize) -> (j: usize)
    requires
        from <= s@.len(),
    ensures
        j == find_exp(s@, from as int),
        from <= j <= s@.len(),
{
    let n = s.unicode_len();
    let mut i = from;
    while i < n
        invariant
            from <= i <= n,
            n == s@.len(),
            find_exp(s@, from as int) == find_exp(s@, i as int),
        decreases n - i,
    {
        let c = s.get_char(i);
        if c == 'e' || c == 'E' {
            return i;
        }
        i = i + 1;
    }
    i
}

fn check_decimal_number(t: &str) -> (r: bool)
    ensures
        r == is_decimal_number(t@),
{
    let n = t.unicode_len();
    let k = find_exp_char(t, 0);
    if k == n {
        proof {
            assert(t@.subrange(0, n as int) =~= t@);
        }
        check_mantissa(t)
    } else {
        check_mantissa(t.substring_char(0, k)) && check_exponent(t.substring_char(k, n))
    }
}

/// Whether the text is a float literal, and so is kept as a sample.
pub fn check_float_literal(s: &str) -> (r: bool)
    ensures
        r == is_float_literal(s@),
{
    let n = s.unicode_len();
    let mut start: usize = 0;
    if n > 0 {
        let c = s.get_char(0);
        if c == '+' || c == '-' {
            start = 1;
        }
    }
    let t = s.substring_char(start, n);
    proof {
        if start == 1 {
            assert(t@ =~= s@.drop_first());
        } else {
            assert(t@ =~= s@);
        }
    }
    check_inf(t) || check_infinity(t) || check_nan(t) || check_decimal_number(t)
}

} // verus!
