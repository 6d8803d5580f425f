//! Which texts `f64::from_str` accepts, and which of them denote NaN.
//!
//! std documents the accepted texts, after ASCII lowercasing, as
//! ```text
//! Float  ::= Sign? ( 'inf' | 'infinity' | 'nan' | Number )
//! Number ::= ( Digit+ | Digit+ '.' Digit* | Digit* '.' Digit+ ) Exp?
//! Exp    ::= 'e' Sign? Digit+
//! Sign   ::= [+-]
//! Digit  ::= [0-9]
//! ```
//! with no surrounding whitespace. The readers keep numbers as text and only
//! need to know whether a text is a number, and whether it is NaN.
use vstd::prelude::*;
use crate::text::{lower_code, eq_ci, copy_range, eq_ci_chars, chars_of};

verus! {

/// An ASCII digit.
pub open spec fn is_digit(c: char) -> bool {
    48 <= (c as u32) <= 57
}

/// A sign character.
pub open spec fn is_sign(c: char) -> bool {
    c == '+' || c == '-'
}

/// Every character is a digit.
pub open spec fn all_digits(s: Seq<char>) -> bool {
    forall|i: int| 0 <= i < s.len() ==> is_digit(#[trigger] s[i])
}

/// `Digit+ | Digit+ '.' Digit* | Digit* '.' Digit+`.
pub open spec fn is_mantissa(m: Seq<char>) -> bool {
    ||| m.len() > 0 && all_digits(m)
    ||| exists|d: int|
        0 <= d < m.len() && #[trigger] m[d] == '.' && all_digits(m.take(d)) && all_digits(
            m.skip(d + 1),
        ) && m.len() >= 2
}

/// What follows the `e` of an exponent: `Sign? Digit+`.
pub open spec fn is_exponent_digits(e: Seq<char>) -> bool {
    let r = if e.len() > 0 && is_sign(e[0]) {
        e.skip(1)
    } else {
        e
    };
    r.len() > 0 && all_digits(r)
}

/// `Number`: a mantissa, optionally followed by `e` (either case) and an
/// exponent.
pub open spec fn is_number(n: Seq<char>) -> bool {
    ||| is_mantissa(n)
    ||| exists|k: int|
        0 <= k < n.len() && lower_code(#[trigger] n[k]) == 101 && is_mantissa(n.take(k))
            && is_exponent_digits(n.skip(k + 1))
}

/// The text after an optional leading sign.
pub open spec fn unsigned_part(s: Seq<char>) -> Seq<char> {
    if s.len() > 0 && is_sign(s[0]) {
        s.skip(1)
    } else {
        s
    }
}

/// A text that `f64::from_str` accepts.
pub open spec fn is_float_text(s: Seq<char>) -> bool {
    let b = unsigned_part(s);
    ||| eq_ci(b, "inf"@)
    ||| eq_ci(b, "infinity"@)
    ||| eq_ci(b, "nan"@)
    ||| is_number(b)
}

/// A text that `f64::from_str` reads as NaN.
pub open spec fn is_nan_text(s: Seq<char>) -> bool {
    eq_ci(unsigned_part(s), "nan"@)
}

/// A run of digits, and a run of digits with a decimal point and more
/// digits after it, are texts that `f64::from_str` accepts, also after a
/// minus sign; none of them reads as NaN.
pub proof fn lemma_decimals_are_floats(a: Seq<char>, b: Seq<char>)
    requires
        a.len() > 0,
        all_digits(a),
        all_digits(b),
    ensures
        is_float_text(a),
        is_float_text(a + seq!['.'] + b),
        is_float_text(seq!['-'] + a),
        !is_nan_text(a),
{
    reveal_strlit("nan");
    assert(is_digit(a[0]));
    assert(unsigned_part(a) == a);
    let m = a + seq!['.'] + b;
    assert(m[0] == a[0]);
    assert(unsigned_part(m) == m);
    let d = a.len() as int;
    assert(m[d] == '.');
    assert(m.take(d) =~= a);
    assert(m.skip(d + 1) =~= b);
    assert(is_mantissa(m));
    let n = seq!['-'] + a;
    assert(unsigned_part(n) =~= a);
    if eq_ci(a, "nan"@) {
        assert(lower_code(a[0]) == lower_code('n'));
    }
}

/// No text that `f64::from_str` accepts is empty or `N/A`.
pub proof fn lemma_float_not_na(t: Seq<char>)
    ensures
        is_float_text(t) ==> t.len() > 0 && !eq_ci(t, "N/A"@),
{
    reveal_strlit("N/A");
    reveal_strlit("inf");
    reveal_strlit("infinity");
    reveal_strlit("nan");
    if t.len() == 0 {
        assert(unsigned_part(t) == t);
    }
    if eq_ci(t, "N/A"@) {
        assert(lower_code(t[0]) == lower_code('N'));
        assert(lower_code(t[1]) == lower_code('/'));
        assert(lower_code(t[2]) == lower_code('A'));
        assert(unsigned_part(t) == t);
        assert(!is_digit(t[0]));
        if exists|d: int| 0 <= d < t.len() && #[trigger] t[d] == '.' {
            let d = choose|d: int| 0 <= d < t.len() && #[trigger] t[d] == '.';
            assert(lower_code(t[d]) == lower_code("N/A"@[d]));
        }
        if exists|k: int| 0 <= k < t.len() && lower_code(#[trigger] t[k]) == 101 {
            let k = choose|k: int| 0 <= k < t.len() && lower_code(#[trigger] t[k]) == 101;
            assert(lower_code(t[k]) == lower_code("N/A"@[k]));
        }
    }
}

/// Whether every character is a digit.
fn all_digits_chars(s: &[char]) -> (b: bool)
    ensures
        b == all_digits(s@),
{
    for i in 0..s.len()
        invariant
            forall|k: int| 0 <= k < i ==> is_digit(#[trigger] s@[k]),
    {
        let u = s[i] as u32;
        if !(48 <= u && u <= 57) {
            return false;
        }
    }
    true
}

/// The first index holding a character whose ASCII lowercase code is
/// `code`, or the length when there is none.
fn first_code(s: &[char], code: u32) -> (k: usize)
    ensures
        k <= s@.len(),
        k < s@.len() ==> lower_code(s@[k as int]) == code,
        forall|j: int| 0 <= j < k ==> lower_code(#[trigger] s@[j]) != code,
{
    let mut k: usize = 0;
    while k < s.len()
        invariant
            k <= s@.len(),
            forall|j: int| 0 <= j < k ==> lower_code(#[trigger] s@[j]) != code,
        decreases s.len() - k,
    {
        let c = s[k] as u32;
        let l = if 65 <= c && c <= 90 {
            c + 32
        } else {
            c
        };
        if l == code {
            return k;
        }
        k += 1;
    }
    k
}

/// The first index holding `c`, or the length when there is none.
fn first_char(s: &[char], c: char) -> (k: usize)
    ensures
        k <= s@.len(),
        k < s@.len() ==> s@[k as int] == c,
        forall|j: int| 0 <= j < k ==> #[trigger] s@[j] != c,
{
    let mut k: usize = 0;
    while k < s.len()
        invariant
            k <= s@.len(),
            forall|j: int| 0 <= j < k ==> #[trigger] s@[j] != c,
        decreases s.len() - k,
    {
        if s[k] == c {
            return k;
        }
        k += 1;
    }
    k
}

/// Whether the characters form a mantissa.
fn mantissa_chars(m: &[char]) -> (b: bool)
    ensures
        b == is_mantissa(m@),
{
    let d = first_char(m, '.');
    if d == m.len() {
        let r = m.len() > 0 && all_digits_chars(m);
        proof {
            if !r && is_mantissa(m@) {
                let d2 = choose|d2: int|
                    0 <= d2 < m@.len() && #[trigger] m@[d2] == '.' && all_digits(m@.take(d2))
                        && all_digits(m@.skip(d2 + 1)) && m@.len() >= 2;
                assert(m@[d2] != '.');
            }
        }
        r
    } else {
        let head = copy_range(m, 0, d);
        let tail = copy_range(m, d + 1, m.len());
        assert(head@ =~= m@.take(d as int));
        assert(tail@ =~= m@.skip(d + 1));
        let r = all_digits_chars(&head) && all_digits_chars(&tail) && m.len() >= 2;
        proof {
            assert(m@[d as int] == '.');
            if !(m@.len() > 0 && all_digits(m@)) {
            } else {
                assert(!is_digit(m@[d as int]));
            }
            if !r && is_mantissa(m@) {
                let d2 = choose|d2: int|
                    0 <= d2 < m@.len() && #[trigger] m@[d2] == '.' && all_digits(m@.take(d2))
                        && all_digits(m@.skip(d2 + 1)) && m@.len() >= 2;
                if d2 < d {
                    assert(m@[d2] != '.');
                } else if d2 > d {
                    assert(m@.take(d2)[d as int] == '.');
                }
            }
        }
        r
    }
}

/// Whether the characters form the part of an exponent after its `e`.
fn exponent_digits_chars(e: &[char]) -> (b: bool)
    ensures
        b == is_exponent_digits(e@),
{
    if e.len() > 0 && (e[0] == '+' || e[0] == '-') {
        let r = copy_range(e, 1, e.len());
        assert(r@ =~= e@.skip(1));
        r.len() > 0 && all_digits_chars(&r)
    } else {
        e.len() > 0 && all_digits_chars(e)
    }
}

/// Whether the characters form a `Number`.
fn number_chars(n: &[char]) -> (b: bool)
    ensures
        b == is_number(n@),
{
    let k = first_code(n, 101);
    if k == n.len() {
        let r = mantissa_chars(n);
        proof {
            if !r && is_number(n@) {
                let k2 = choose|k2: int|
                    0 <= k2 < n@.len() && lower_code(#[trigger] n@[k2]) == 101 && is_mantissa(
                        n@.take(k2),
                    ) && is_exponent_digits(n@.skip(k2 + 1));
                assert(lower_code(n@[k2]) != 101);
            }
        }
        r
    } else {
        let head = copy_range(n, 0, k);
        let tail = copy_range(n, k + 1, n.len());
        assert(head@ =~= n@.take(k as int));
        assert(tail@ =~= n@.skip(k + 1));
        let r = mantissa_chars(&head) && exponent_digits_chars(&tail);
        proof {
            // a mantissa holds only digits and dots, so it holds no `e`
            assert(!is_mantissa(n@)) by {
                assert(lower_code(n@[k as int]) == 101);
                if n@.len() > 0 && all_digits(n@) {
                    assert(is_digit(n@[k as int]));
                }
                if exists|d: int|
                    0 <= d < n@.len() && #[trigger] n@[d] == '.' && all_digits(n@.take(d))
                        && all_digits(n@.skip(d + 1)) && n@.len() >= 2 {
                    let d = choose|d: int|
                        0 <= d < n@.len() && #[trigger] n@[d] == '.' && all_digits(n@.take(d))
                            && all_digits(n@.skip(d + 1)) && n@.len() >= 2;
                    if k < d {
                        assert(is_digit(n@.take(d)[k as int]));
                    } else if k > d {
                        assert(is_digit(n@.skip(d + 1)[k - d - 1]));
                    }
                }
            }
            if r {
                assert(lower_code(n@[k as int]) == 101);
            }
            if !r && is_number(n@) {
                let k2 = choose|k2: int|
                    0 <= k2 < n@.len() && lower_code(#[trigger] n@[k2]) == 101 && is_mantissa(
                        n@.take(k2),
                    ) && is_exponent_digits(n@.skip(k2 + 1));
                if k2 < k {
                    assert(lower_code(n@[k2]) != 101);
                } else if k2 > k {
                    // the mantissa before k2 would hold the `e` at k
                    let m = n@.take(k2);
                    assert(lower_code(m[k as int]) == 101);
                    if m.len() > 0 && all_digits(m) {
                        assert(is_digit(m[k as int]));
                    }
                    if exists|d: int|
                        0 <= d < m.len() && #[trigger] m[d] == '.' && all_digits(m.take(d))
                            && all_digits(m.skip(d + 1)) && m.len() >= 2 {
                        let d = choose|d: int|
                            0 <= d < m.len() && #[trigger] m[d] == '.' && all_digits(m.take(d))
                                && all_digits(m.skip(d + 1)) && m.len() >= 2;
                        if k < d {
                            assert(is_digit(m.take(d)[k as int]));
                        } else if k > d {
                            assert(is_digit(m.skip(d + 1)[k - d - 1]));
                        }
                    }
                }
            }
        }
        r
    }
}

/// The characters after an optional leading sign.
fn unsigned_chars(s: &[char]) -> (r: Vec<char>)
    ensures
        r@ == unsigned_part(s@),
{
    if s.len() > 0 && (s[0] == '+' || s[0] == '-') {
        let r = copy_range(s, 1, s.len());
        assert(r@ =~= s@.skip(1));
        r
    } else {
        let r = copy_range(s, 0, s.len());
        assert(r@ =~= s@);
        r
    }
}

/// Whether `f64::from_str` accepts the text.
pub fn is_float_chars(s: &[char]) -> (b: bool)
    ensures
        b == is_float_text(s@),
{
    proof {
        reveal_strlit("inf");
        reveal_strlit("infinity");
        reveal_strlit("nan");
    }
    let b = unsigned_chars(s);
    eq_ci_chars(&b, &chars_of("inf")) || eq_ci_chars(&b, &chars_of("infinity")) || eq_ci_chars(
        &b,
        &chars_of("nan"),
    ) || number_chars(&b)
}

/// Whether `f64::from_str` reads the text as NaN.
pub fn is_nan_chars(s: &[char]) -> (b: bool)
    ensures
        b == is_nan_text(s@),
{
    let b = unsigned_chars(s);
    eq_ci_chars(&b, &chars_of("nan"))
}

/// Whether `f64::from_str` accepts the text.
pub fn is_float_str(s: &str) -> (b: bool)
    ensures
        b == is_float_text(s@),
{
    is_float_chars(&chars_of(s))
}

} // verus!
