//! Currency-related types: an exact signed decimal amount with checked
//! arithmetic, parsing and formatting.
//!
//! An amount is a sign, a coefficient below `2^96`, and a scale (the number
//! of fractional digits, at most 28), denoting `sign * coeff / 10^scale`.
//! Equality and order are by numeric value; formatting keeps the scale the
//! value was written with.

use vstd::prelude::*;
use vstd::arithmetic::div_mod::{
    lemma_div_multiples_vanish, lemma_fundamental_div_mod, lemma_mod_division_less_than_divisor,
    lemma_mod_multiples_basic, lemma_mod_multiples_vanish, lemma_small_mod,
};
use vstd::arithmetic::mul::{
    lemma_mul_inequality, lemma_mul_strict_inequality, lemma_mul_strictly_positive,
};
use vstd::string::{StrSliceExecFns, StringExecFns};

verus! {

/// An error occurred when performing arithmetic operations on
/// currency amounts.
#[derive(Debug, Clone, Eq, PartialEq)]
pub enum CurrencyError {
    /// The result of the calculation would overflow/underflow.
    OutOfBounds,
}

/// Error occurring when parsing a string to a currency amount.
#[derive(Clone, Debug, Eq, PartialEq)]
pub enum CurrencyAmountParseError {
    /// The specified string is not a valid currency amount.
    InvalidNumericValue,
}

/// Exclusive upper bound on an amount's coefficient: `2^96`.
pub const COEFF_LIMIT: u128 = 79228162514264337593543950336;

/// Largest number of fractional digits an amount can carry.
pub const SCALE_LIMIT: u32 = 28;

/// `10^e`.
pub open spec fn pow10(e: nat) -> int
    decreases e,
{
    if e == 0 {
        1
    } else {
        10 * pow10((e - 1) as nat)
    }
}

/// Absolute value.
pub open spec fn abs_of(v: int) -> int {
    if v < 0 {
        -v
    } else {
        v
    }
}

pub proof fn lemma_pow10_pos(e: nat)
    ensures
        pow10(e) >= 1,
    decreases e,
{
    if e > 0 {
        lemma_pow10_pos((e - 1) as nat);
    }
}

pub proof fn lemma_pow10_adds(a: nat, b: nat)
    ensures
        pow10(a + b) == pow10(a) * pow10(b),
    decreases a,
{
    if a == 0 {
    } else {
        lemma_pow10_adds((a - 1) as nat, b);
        assert(pow10(a + b) == 10 * pow10((a + b - 1) as nat));
        assert(10 * (pow10((a - 1) as nat) * pow10(b)) == (10 * pow10((a - 1) as nat)) * pow10(b))
            by (nonlinear_arith);
    }
}

pub proof fn lemma_pow10_increases(a: nat, b: nat)
    requires
        a <= b,
    ensures
        pow10(a) <= pow10(b),
{
    lemma_pow10_adds(a, (b - a) as nat);
    lemma_pow10_pos(a);
    lemma_pow10_pos((b - a) as nat);
    assert(pow10(a) * 1 <= pow10(a) * pow10((b - a) as nat)) by (nonlinear_arith)
        requires
            pow10(a) >= 1,
            pow10((b - a) as nat) >= 1,
    ;
}

pub proof fn lemma_pow10_28()
    ensures
        pow10(28) == 10000000000000000000000000000int,
{
    reveal_with_fuel(pow10, 29);
}

/// Whether the value `v` (in units of `10^-28`) is representable exactly
/// with scale `t`: it must be a multiple of the grain `10^(28-t)`, and its
/// coefficient at that scale must stay below `2^96`.
pub open spec fn fits(v: int, t: nat) -> bool {
    let p = pow10((SCALE_LIMIT - t) as nat);
    abs_of(v) % p == 0 && abs_of(v) < COEFF_LIMIT * p
}

/// The scale an exact arithmetic result is represented at: the largest
/// scale not exceeding `s` at which the value fits; `None` when no scale
/// from `s` down to zero can represent the value.
pub open spec fn pick_scale(v: int, s: nat) -> Option<nat>
    decreases s,
{
    if fits(v, s) {
        Some(s)
    } else if s == 0 {
        None
    } else {
        pick_scale(v, (s - 1) as nat)
    }
}

/// The amount denoting value `v` at scale `t`.
spec fn amount_at(v: int, t: nat) -> CurrencyAmount {
    CurrencyAmount {
        negative: v < 0,
        coeff: (abs_of(v) / pow10((SCALE_LIMIT - t) as nat)) as u128,
        scale: t as u32,
    }
}

proof fn lemma_exact_fits(v: int, m: int, t: nat)
    requires
        t <= SCALE_LIMIT,
        0 <= m < COEFF_LIMIT,
        abs_of(v) == m * pow10((SCALE_LIMIT - t) as nat),
    ensures
        fits(v, t),
{
    let p = pow10((SCALE_LIMIT - t) as nat);
    lemma_pow10_pos((SCALE_LIMIT - t) as nat);
    lemma_mod_multiples_basic(m, p);
    lemma_mul_strict_inequality(m, COEFF_LIMIT as int, p);
}

proof fn lemma_unfit_bound(v: int, m: int, t: nat, u: nat)
    requires
        t <= u <= SCALE_LIMIT,
        m >= COEFF_LIMIT,
        abs_of(v) == m * pow10((SCALE_LIMIT - t) as nat),
    ensures
        !fits(v, u),
{
    let pt = pow10((SCALE_LIMIT - t) as nat);
    let pu = pow10((SCALE_LIMIT - u) as nat);
    lemma_pow10_increases((SCALE_LIMIT - u) as nat, (SCALE_LIMIT - t) as nat);
    lemma_pow10_pos((SCALE_LIMIT - u) as nat);
    // COEFF_LIMIT * pu <= COEFF_LIMIT * pt <= m * pt == abs_of(v)
    lemma_mul_inequality(pu, pt, COEFF_LIMIT as int);
    lemma_mul_inequality(COEFF_LIMIT as int, m, pt);
    assert(COEFF_LIMIT * pu == pu * (COEFF_LIMIT as int)) by (nonlinear_arith);
    assert(COEFF_LIMIT * pt == pt * (COEFF_LIMIT as int)) by (nonlinear_arith);
}

proof fn lemma_unfit_div(v: int, m: int, t: nat, u: nat)
    requires
        u < t <= SCALE_LIMIT,
        m >= 0,
        m % 10 != 0,
        abs_of(v) == m * pow10((SCALE_LIMIT - t) as nat),
    ensures
        !fits(v, u),
{
    let pt = pow10((SCALE_LIMIT - t) as nat);
    let pd = pow10((t - u) as nat);
    let pu = pow10((SCALE_LIMIT - u) as nat);
    lemma_pow10_adds((SCALE_LIMIT - t) as nat, (t - u) as nat);
    assert(pu == pt * pd);
    lemma_pow10_pos((SCALE_LIMIT - t) as nat);
    lemma_pow10_pos((t - u) as nat);
    lemma_pow10_pos((SCALE_LIMIT - u) as nat);
    if abs_of(v) % pu == 0 {
        lemma_fundamental_div_mod(abs_of(v), pu);
        let q = abs_of(v) / pu;
        assert(m * pt == q * (pt * pd));
        assert(m == q * pd) by (nonlinear_arith)
            requires
                m * pt == q * (pt * pd),
                pt >= 1,
        ;
        let pd1 = pow10((t - u - 1) as nat);
        assert(pd == 10 * pd1);
        assert(m == (q * pd1) * 10) by (nonlinear_arith)
            requires
                m == q * (10 * pd1),
        ;
        lemma_mod_multiples_basic(q * pd1, 10);
        assert(false);
    }
}

proof fn lemma_pick_scale_sound(v: int, s: nat)
    ensures
        pick_scale(v, s) matches Some(t) ==> t <= s && fits(v, t),
    decreases s,
{
    if !fits(v, s) && s > 0 {
        lemma_pick_scale_sound(v, (s - 1) as nat);
    }
}

proof fn lemma_pick_scale_finds(v: int, t: nat, s: nat)
    requires
        t <= s,
        fits(v, t),
        forall|u: nat| t < u <= s ==> !fits(v, u),
    ensures
        pick_scale(v, s) == Some(t),
    decreases s,
{
    if s != t {
        assert(!fits(v, s));
        lemma_pick_scale_finds(v, t, (s - 1) as nat);
    }
}

proof fn lemma_pick_scale_none(v: int, s: nat)
    requires
        forall|u: nat| u <= s ==> !fits(v, u),
    ensures
        pick_scale(v, s) is None,
    decreases s,
{
    if s > 0 {
        lemma_pick_scale_none(v, (s - 1) as nat);
    }
}

proof fn lemma_pick_scale_some(v: int, t0: nat, s: nat)
    requires
        t0 <= s,
        fits(v, t0),
    ensures
        pick_scale(v, s) is Some,
    decreases s,
{
    if !fits(v, s) {
        lemma_pick_scale_some(v, t0, (s - 1) as nat);
    }
}

proof fn lemma_amount_at_props(v: int, t: nat)
    requires
        t <= SCALE_LIMIT,
        fits(v, t),
    ensures
        amount_at(v, t).wf(),
        amount_at(v, t).units() == v,
        amount_at(v, t).spec_scale() == t,
        amount_at(v, t).spec_is_negative() == (v < 0),
{
    let p = pow10((SCALE_LIMIT - t) as nat);
    lemma_pow10_pos((SCALE_LIMIT - t) as nat);
    lemma_fundamental_div_mod(abs_of(v), p);
    let q = abs_of(v) / p;
    assert(abs_of(v) == p * q);
    assert(p * q == q * p) by (nonlinear_arith);
    assert(abs_of(v) == q * p);
    assert(q < COEFF_LIMIT) by (nonlinear_arith)
        requires
            q * p == abs_of(v),
            abs_of(v) < COEFF_LIMIT * p,
            p >= 1,
            abs_of(v) >= 0,
    ;
    assert(q >= 0) by (nonlinear_arith)
        requires
            q * p == abs_of(v),
            abs_of(v) >= 0,
            p >= 1,
    ;
    let c = amount_at(v, t);
    assert(c.coeff == q);
    assert(c.units() == if v < 0 { -(q * p) } else { q * p });
    if q == 0 {
        assert(q * p == 0) by (nonlinear_arith)
            requires
                q == 0,
        ;
        assert(abs_of(v) == 0);
    }
}

proof fn lemma_rescale(c: int, a: nat, b: nat)
    ensures
        (c * pow10(a)) * pow10(b) == c * pow10(a + b),
{
    lemma_pow10_adds(a, b);
    assert((c * pow10(a)) * pow10(b) == c * (pow10(a) * pow10(b))) by (nonlinear_arith);
}

/// Combining two magnitudes `m1`, `m2` (each scaled by `10^e`) with signs
/// `n1`, `n2` yields an absolute value and sign determined by sign-agreement
/// and by which magnitude is larger.
proof fn lemma_combine(v: int, n1: bool, m1: int, n2: bool, m2: int, e: nat)
    requires
        m1 >= 0,
        m2 >= 0,
        v == (if n1 {
            -m1
        } else {
            m1
        }) * pow10(e) + (if n2 {
            -m2
        } else {
            m2
        }) * pow10(e),
    ensures
        n1 == n2 ==> abs_of(v) == (m1 + m2) * pow10(e),
        n1 != n2 && m1 >= m2 ==> abs_of(v) == (m1 - m2) * pow10(e),
        n1 != n2 && m2 >= m1 ==> abs_of(v) == (m2 - m1) * pow10(e),
        n1 == n2 && m1 + m2 > 0 ==> ((v < 0) <==> n1),
        n1 != n2 && m1 > m2 ==> ((v < 0) <==> n1),
        n1 != n2 && m2 > m1 ==> ((v < 0) <==> n2),
{
    lemma_pow10_pos(e);
    let p = pow10(e);
    let x1: int = if n1 {
        -m1
    } else {
        m1
    };
    let x2: int = if n2 {
        -m2
    } else {
        m2
    };
    assert(x1 * p + x2 * p == (x1 + x2) * p) by (nonlinear_arith);
    assert(v == (x1 + x2) * p);
    if n1 == n2 {
        let w: int = if n1 {
            -(m1 + m2)
        } else {
            m1 + m2
        };
        assert(x1 + x2 == w);
        lemma_signed_scaled(w, p);
    } else {
        if m1 >= m2 {
            let w: int = if n1 {
                -(m1 - m2)
            } else {
                m1 - m2
            };
            assert(x1 + x2 == w);
            lemma_signed_scaled(w, p);
        }
        if m2 >= m1 {
            let w: int = if n2 {
                -(m2 - m1)
            } else {
                m2 - m1
            };
            assert(x1 + x2 == w);
            lemma_signed_scaled(w, p);
        }
    }
}

proof fn lemma_signed_scaled(w: int, p: int)
    requires
        p >= 1,
    ensures
        w >= 0 ==> abs_of(w * p) == w * p,
        w <= 0 ==> abs_of(w * p) == (-w) * p,
        w > 0 ==> w * p > 0,
        w < 0 ==> w * p < 0,
        w == 0 ==> w * p == 0,
{
    if w > 0 {
        lemma_mul_strictly_positive(w, p);
    }
    if w < 0 {
        lemma_mul_strictly_positive(-w, p);
    }
    assert((-w) * p == -(w * p)) by (nonlinear_arith);
    assert(0 * p == 0) by (nonlinear_arith);
}

/// A nonnegative combination `mb * 10^k + mo` or `mb * 10^k - mo` with
/// `k >= 1` keeps the last digit of `mo`, so it is not a multiple of ten
/// when `mo` is not.
proof fn lemma_mod10_keeps(mb: int, k: nat, mo: int)
    requires
        k >= 1,
        mb >= 0,
        mo >= 0,
        mo % 10 != 0,
    ensures
        (mb * pow10(k) + mo) % 10 != 0,
        (mb * pow10(k) - mo) % 10 != 0,
{
    let y = mb * pow10((k - 1) as nat);
    assert(pow10(k) == 10 * pow10((k - 1) as nat));
    assert(mb * pow10(k) == 10 * y) by (nonlinear_arith)
        requires
            pow10(k) == 10 * pow10((k - 1) as nat),
            y == mb * pow10((k - 1) as nat),
    ;
    lemma_mod_multiples_vanish(y, mo, 10);
    lemma_mod_multiples_vanish(y, -mo, 10);
    if (-mo) % 10 == 0 {
        lemma_fundamental_div_mod(-mo, 10);
        let q = (-mo) / 10;
        assert(mo == 10 * (-q));
        lemma_mod_multiples_vanish(-q, 0, 10);
        lemma_small_mod(0, 10);
        assert(false);
    }
}

/// A value whose exact mantissa at scale `sc` is at least `2^96` and not a
/// multiple of ten (unless `sc` is zero) is representable at no scale at all.
proof fn lemma_out_of_range(v: int, mant: int, sc: nat, s: nat)
    requires
        sc <= SCALE_LIMIT,
        s <= SCALE_LIMIT,
        abs_of(v) == mant * pow10((SCALE_LIMIT - sc) as nat),
        mant >= COEFF_LIMIT,
        sc > 0 ==> mant % 10 != 0,
    ensures
        pick_scale(v, s) is None,
{
    assert forall|u: nat| u <= s implies !fits(v, u) by {
        if u >= sc {
            lemma_unfit_bound(v, mant, sc, u);
        } else {
            lemma_unfit_div(v, mant, sc, u);
        }
    }
    lemma_pick_scale_none(v, s);
}

fn pow10_u128(e: u32) -> (r: u128)
    requires
        e <= SCALE_LIMIT,
    ensures
        r as int == pow10(e as nat),
        r >= 1,
{
    let mut r: u128 = 1;
    let mut i: u32 = 0;
    while i < e
        invariant
            i <= e <= SCALE_LIMIT,
            r as int == pow10(i as nat),
            r >= 1,
        decreases e - i,
    {
        proof {
            lemma_pow10_increases((i + 1) as nat, SCALE_LIMIT as nat);
            lemma_pow10_28();
        }
        r = r * 10;
        i = i + 1;
    }
    r
}

/// Removes trailing zero digits from a coefficient, lowering the scale
/// accordingly; the denoted magnitude is unchanged.
fn strip_zeros(c0: u128, s0: u32) -> (r: (u128, u32))
    requires
        s0 <= SCALE_LIMIT,
    ensures
        r.1 <= s0,
        r.0 <= c0,
        r.0 as int * pow10((s0 - r.1) as nat) == c0 as int,
        r.1 > 0 ==> r.0 % 10 != 0,
    decreases s0,
{
    let mut c = c0;
    let mut s = s0;
    while s > 0 && c % 10 == 0
        invariant
            s <= s0 <= SCALE_LIMIT,
            c <= c0,
            c as int * pow10((s0 - s) as nat) == c0 as int,
        decreases s,
    {
        proof {
            lemma_fundamental_div_mod(c as int, 10);
            assert(c as int == 10 * ((c as int) / 10));
            assert(pow10((s0 - s + 1) as nat) == 10 * pow10((s0 - s) as nat));
            assert(((c as int) / 10) * (10 * pow10((s0 - s) as nat)) == (10 * ((c as int) / 10))
                * pow10((s0 - s) as nat)) by (nonlinear_arith);
        }
        c = c / 10;
        s = s - 1;
    }
    (c, s)
}

proof fn lemma_mul_order(x: int, y: int, p: int)
    requires
        p >= 1,
    ensures
        (x * p < y * p) == (x < y),
        (x * p == y * p) == (x == y),
{
    if x < y {
        lemma_mul_strict_inequality(x, y, p);
    }
    if y < x {
        lemma_mul_strict_inequality(y, x, p);
    }
}

/// Compares two magnitudes `c1 / 10^s1` and `c2 / 10^s2`.
fn cmp_mag(c1: u128, s1: u32, c2: u128, s2: u32) -> (r: core::cmp::Ordering)
    requires
        c1 < COEFF_LIMIT,
        c2 < COEFF_LIMIT,
        s1 <= SCALE_LIMIT,
        s2 <= SCALE_LIMIT,
    ensures
        ({
            let m1 = c1 as int * pow10((SCALE_LIMIT - s1) as nat);
            let m2 = c2 as int * pow10((SCALE_LIMIT - s2) as nat);
            &&& (r is Less) == (m1 < m2)
            &&& (r is Equal) == (m1 == m2)
            &&& (r is Greater) == (m1 > m2)
        }),
{
    let ghost m1 = c1 as int * pow10((SCALE_LIMIT - s1) as nat);
    let ghost m2 = c2 as int * pow10((SCALE_LIMIT - s2) as nat);
    if s1 == s2 {
        proof {
            lemma_pow10_pos((SCALE_LIMIT - s1) as nat);
            lemma_mul_order(c1 as int, c2 as int, pow10((SCALE_LIMIT - s1) as nat));
        }
        if c1 < c2 {
            core::cmp::Ordering::Less
        } else if c1 == c2 {
            core::cmp::Ordering::Equal
        } else {
            core::cmp::Ordering::Greater
        }
    } else if s1 < s2 {
        let f = pow10_u128(s2 - s1);
        proof {
            lemma_rescale(c1 as int, (s2 - s1) as nat, (SCALE_LIMIT - s2) as nat);
            lemma_pow10_pos((SCALE_LIMIT - s2) as nat);
        }
        if c1 > u128::MAX / f {
            proof {
                let pi = pow10((s2 - s1) as nat);
                let q = u128::MAX as int / pi;
                lemma_fundamental_div_mod(u128::MAX as int, pi);
                lemma_mod_division_less_than_divisor(u128::MAX as int, pi);
                lemma_mul_inequality(q + 1, c1 as int, pi);
                assert((q + 1) * pi == q * pi + pi) by (nonlinear_arith);
                assert(pi * q == q * pi) by (nonlinear_arith);
                assert(c1 as int * pi > u128::MAX as int);
                lemma_mul_order(c1 as int * pi, c2 as int, pow10((SCALE_LIMIT - s2) as nat));
            }
            core::cmp::Ordering::Greater
        } else {
            proof {
                lemma_fundamental_div_mod(u128::MAX as int, f as int);
                lemma_mul_inequality(c1 as int, (u128::MAX / f) as int, f as int);
            }
            let a = c1 * f;
            proof {
                lemma_mul_order(a as int, c2 as int, pow10((SCALE_LIMIT - s2) as nat));
            }
            if a < c2 {
                core::cmp::Ordering::Less
            } else if a == c2 {
                core::cmp::Ordering::Equal
            } else {
                core::cmp::Ordering::Greater
            }
        }
    } else {
        let f = pow10_u128(s1 - s2);
        proof {
            lemma_rescale(c2 as int, (s1 - s2) as nat, (SCALE_LIMIT - s1) as nat);
            lemma_pow10_pos((SCALE_LIMIT - s1) as nat);
        }
        if c2 > u128::MAX / f {
            proof {
                let pi = pow10((s1 - s2) as nat);
                let q = u128::MAX as int / pi;
                lemma_fundamental_div_mod(u128::MAX as int, pi);
                lemma_mod_division_less_than_divisor(u128::MAX as int, pi);
                lemma_mul_inequality(q + 1, c2 as int, pi);
                assert((q + 1) * pi == q * pi + pi) by (nonlinear_arith);
                assert(pi * q == q * pi) by (nonlinear_arith);
                assert(c2 as int * pi > u128::MAX as int);
                lemma_mul_order(c1 as int, c2 as int * pi, pow10((SCALE_LIMIT - s1) as nat));
            }
            core::cmp::Ordering::Less
        } else {
            proof {
                lemma_fundamental_div_mod(u128::MAX as int, f as int);
                lemma_mul_inequality(c2 as int, (u128::MAX / f) as int, f as int);
            }
            let a = c2 * f;
            proof {
                lemma_mul_order(c1 as int, a as int, pow10((SCALE_LIMIT - s1) as nat));
            }
            if c1 < a {
                core::cmp::Ordering::Less
            } else if c1 == a {
                core::cmp::Ordering::Equal
            } else {
                core::cmp::Ordering::Greater
            }
        }
    }
}

/// The character for one decimal digit.
pub open spec fn digit_char(d: int) -> char {
    if d == 0 {
        '0'
    } else if d == 1 {
        '1'
    } else if d == 2 {
        '2'
    } else if d == 3 {
        '3'
    } else if d == 4 {
        '4'
    } else if d == 5 {
        '5'
    } else if d == 6 {
        '6'
    } else if d == 7 {
        '7'
    } else if d == 8 {
        '8'
    } else {
        '9'
    }
}

pub open spec fn is_digit_char(c: char) -> bool {
    '0' <= c && c <= '9'
}

/// The numeric value of one digit character.
pub open spec fn digit_value(c: char) -> int {
    c as int - '0' as int
}

pub open spec fn all_digits(s: Seq<char>) -> bool {
    forall|i: int| 0 <= i < s.len() ==> is_digit_char(#[trigger] s[i])
}

/// The decimal digit string of `n`, padded with leading zeros to at least
/// `w` characters (and never fewer than one).
pub open spec fn spec_digits(n: nat, w: nat) -> Seq<char>
    decreases n, w,
{
    if n < 10 && w <= 1 {
        seq![digit_char(n as int)]
    } else {
        spec_digits(n / 10, if w <= 1 {
            1
        } else {
            (w - 1) as nat
        }) + seq![digit_char((n % 10) as int)]
    }
}

/// The numeric value denoted by a digit string.
pub open spec fn digits_value(s: Seq<char>) -> int
    decreases s.len(),
{
    if s.len() == 0 {
        0
    } else {
        digits_value(s.drop_last()) * 10 + digit_value(s.last())
    }
}

proof fn lemma_digit_char_value(d: int)
    requires
        0 <= d <= 9,
    ensures
        digit_value(digit_char(d)) == d,
        is_digit_char(digit_char(d)),
{
}

proof fn lemma_digits_value_append(x: Seq<char>, y: Seq<char>)
    ensures
        digits_value(x + y) == digits_value(x) * pow10(y.len()) + digits_value(y),
    decreases y.len(),
{
    if y.len() == 0 {
        assert(x + y =~= x);
    } else {
        let y0 = y.drop_last();
        assert((x + y).drop_last() =~= x + y0);
        lemma_digits_value_append(x, y0);
        assert((x + y).last() == y.last());
        assert(pow10(y.len()) == 10 * pow10(y0.len()));
        assert(digits_value(x + y) == digits_value(x + y0) * 10 + digit_value(y.last()));
        assert(digits_value(y) == digits_value(y0) * 10 + digit_value(y.last()));
        assert((digits_value(x) * pow10(y0.len()) + digits_value(y0)) * 10 + digit_value(y.last())
            == digits_value(x) * (10 * pow10(y0.len())) + (digits_value(y0) * 10 + digit_value(
            y.last(),
        ))) by (nonlinear_arith);
    }
}

pub(crate) proof fn lemma_digits_value_nonneg(s: Seq<char>)
    requires
        all_digits(s),
    ensures
        digits_value(s) >= 0,
    decreases s.len(),
{
    if s.len() > 0 {
        assert(all_digits(s.drop_last()));
        lemma_digits_value_nonneg(s.drop_last());
        assert(is_digit_char(s[s.len() - 1]));
    }
}

proof fn lemma_digits_value_bound(s: Seq<char>)
    requires
        all_digits(s),
    ensures
        digits_value(s) < pow10(s.len()),
    decreases s.len(),
{
    if s.len() > 0 {
        assert(all_digits(s.drop_last()));
        lemma_digits_value_bound(s.drop_last());
        assert(is_digit_char(s[s.len() - 1]));
        assert(pow10(s.len()) == 10 * pow10((s.len() - 1) as nat));
        assert(digits_value(s.drop_last()) * 10 + 10 <= pow10((s.len() - 1) as nat) * 10)
            by (nonlinear_arith)
            requires
                digits_value(s.drop_last()) < pow10((s.len() - 1) as nat),
        ;
    }
}

proof fn lemma_spec_digits_shape(n: nat, w: nat)
    ensures
        all_digits(spec_digits(n, w)),
        spec_digits(n, w).len() >= w,
        spec_digits(n, w).len() >= 1,
        n < pow10(if w <= 1 {
            1
        } else {
            w
        }) ==> spec_digits(n, w).len() == if w <= 1 {
            1
        } else {
            w
        },
        digits_value(spec_digits(n, w)) == n,
    decreases n, w,
{
    let s = spec_digits(n, w);
    if n < 10 && w <= 1 {
        lemma_digit_char_value(n as int);
        assert(s.drop_last() =~= Seq::<char>::empty());
        assert(s.last() == digit_char(n as int));
        assert(digits_value(Seq::<char>::empty()) == 0);
        assert(digits_value(s) == 0 * 10 + digit_value(digit_char(n as int)));
        assert(digits_value(s) == n);
    } else {
        let w1: nat = if w <= 1 {
            1
        } else {
            (w - 1) as nat
        };
        lemma_spec_digits_shape(n / 10, w1);
        let s0 = spec_digits(n / 10, w1);
        assert(s == s0 + seq![digit_char((n % 10) as int)]);
        lemma_digit_char_value((n % 10) as int);
        assert forall|i: int| 0 <= i < s.len() implies is_digit_char(#[trigger] s[i]) by {
            if i < s0.len() {
                assert(s[i] == s0[i]);
            }
        }
        assert(s.drop_last() =~= s0);
        assert(s.last() == digit_char((n % 10) as int));
        assert(digits_value(s) == digits_value(s0) * 10 + (n % 10));
        assert(digits_value(s0) == n / 10);
        assert(n / 10 * 10 + n % 10 == n) by {
            lemma_fundamental_div_mod(n as int, 10);
        }
        assert(digits_value(s) == n);
        // length when n fits in w digits
        if w > 1 && n < pow10(w) {
            assert(pow10(w) == 10 * pow10((w - 1) as nat));
            assert(n / 10 < pow10((w - 1) as nat)) by (nonlinear_arith)
                requires
                    n < 10 * pow10((w - 1) as nat),
                    n >= 0,
            ;
            if w - 1 <= 1 {
                lemma_pow10_pos((w - 1) as nat);
                assert(pow10(0) == 1);
                assert(pow10(1) == 10);
                lemma_pow10_increases(1, (w - 1) as nat);
            }
        }
        if w <= 1 && n < pow10(1) {
            assert(pow10(0) == 1);
            assert(pow10(1) == 10);
            assert(false);
        }
    }
}

/// The text after an optional leading sign character.
pub open spec fn body_of(t: Seq<char>) -> Seq<char> {
    if t.len() > 0 && (t[0] == '-' || t[0] == '+') {
        t.skip(1)
    } else {
        t
    }
}

/// Whether the text starts with a minus sign.
pub open spec fn sign_of(t: Seq<char>) -> bool {
    t.len() > 0 && t[0] == '-'
}

/// Index of the first decimal point in `b`, or `b.len()` when none occurs.
pub open spec fn point_pos(b: Seq<char>) -> int
    decreases b.len(),
{
    if b.len() == 0 {
        0
    } else if b[0] == '.' {
        0
    } else {
        1 + point_pos(b.skip(1))
    }
}

/// The digits before the decimal point.
pub open spec fn int_digits(b: Seq<char>) -> Seq<char> {
    b.take(point_pos(b))
}

/// The digits after the decimal point; empty when there is no point.
pub open spec fn frac_digits(b: Seq<char>) -> Seq<char> {
    if point_pos(b) == b.len() {
        Seq::<char>::empty()
    } else {
        b.skip(point_pos(b) + 1)
    }
}

/// A well-formed unsigned decimal body: digits, at most one point, and at
/// least one digit overall.
pub open spec fn valid_body(b: Seq<char>) -> bool {
    &&& all_digits(int_digits(b))
    &&& all_digits(frac_digits(b))
    &&& int_digits(b).len() + frac_digits(b).len() >= 1
}

/// What parsing a decimal text yields: `Some` exactly for an optionally
/// signed digit string with at most one point, whose digits denote a
/// coefficient below `2^96` and whose fractional part has at most 28
/// digits. The scale is the number of digits written after the point, and
/// a negative zero collapses to zero.
pub closed spec fn spec_parse(t: Seq<char>) -> Option<CurrencyAmount> {
    let b = body_of(t);
    let m = digits_value(int_digits(b) + frac_digits(b));
    let sc = frac_digits(b).len();
    if valid_body(b) && m < COEFF_LIMIT && sc <= SCALE_LIMIT {
        Some(
            CurrencyAmount {
                negative: sign_of(t) && m != 0,
                coeff: m as u128,
                scale: sc as u32,
            },
        )
    } else {
        None
    }
}

proof fn lemma_point_pos_char(b: Seq<char>)
    ensures
        0 <= point_pos(b) <= b.len(),
        point_pos(b) < b.len() ==> b[point_pos(b)] == '.',
        forall|i: int| 0 <= i < point_pos(b) ==> b[i] != '.',
    decreases b.len(),
{
    if b.len() > 0 && b[0] != '.' {
        lemma_point_pos_char(b.skip(1));
        let pp = point_pos(b.skip(1));
        assert forall|i: int| 0 <= i < 1 + pp implies b[i] != '.' by {
            if i > 0 {
                assert(b.skip(1)[i - 1] != '.');
            }
        }
    }
}

proof fn lemma_digits_no_point(b: Seq<char>, j: int)
    requires
        0 <= j <= b.len(),
        all_digits(b.take(j)),
    ensures
        forall|i: int| 0 <= i < j ==> b[i] != '.',
{
    assert forall|i: int| 0 <= i < j implies b[i] != '.' by {
        assert(is_digit_char(b.take(j)[i]));
    }
}

proof fn lemma_point_pos_is(b: Seq<char>, j: int)
    requires
        0 <= j <= b.len(),
        j < b.len() ==> b[j] == '.',
        j == b.len() ==> forall|i: int| 0 <= i < b.len() ==> b[i] != '.',
        forall|i: int| 0 <= i < j ==> b[i] != '.',
    ensures
        point_pos(b) == j,
{
    lemma_point_pos_char(b);
    let pp = point_pos(b);
    if pp < j {
        assert(b[pp] != '.');
        assert(false);
    }
    if pp > j {
        assert(j < b.len());
        assert(b[j] != '.');
        assert(false);
    }
}

pub(crate) proof fn lemma_prefix_value_bound(full: Seq<char>, k: int)
    requires
        all_digits(full),
        0 <= k <= full.len(),
    ensures
        digits_value(full) >= digits_value(full.take(k)),
        digits_value(full) >= 0,
{
    let rest = full.skip(k);
    assert(full =~= full.take(k) + rest);
    lemma_digits_value_append(full.take(k), rest);
    assert(all_digits(full.take(k)));
    assert(all_digits(rest));
    lemma_digits_value_nonneg(full.take(k));
    lemma_digits_value_nonneg(rest);
    lemma_pow10_pos(rest.len());
    lemma_mul_inequality(1, pow10(rest.len()), digits_value(full.take(k)));
    assert(digits_value(full.take(k)) * 1 == digits_value(full.take(k))) by (nonlinear_arith);
    assert(pow10(rest.len()) * digits_value(full.take(k)) == digits_value(full.take(k)) * pow10(
        rest.len(),
    )) by (nonlinear_arith);
}

/// A digit prefix already worth at least the coefficient limit dooms the
/// whole text: if the body parses at all, its value is out of range.
proof fn lemma_parse_too_big(b: Seq<char>, seen: bool, pp: int, j: int, v: int)
    requires
        0 <= j < b.len(),
        v >= COEFF_LIMIT,
        seen ==> 0 <= pp < j && b[pp] == '.' && all_digits(b.take(pp)) && all_digits(
            b.subrange(pp + 1, j + 1),
        ) && digits_value(b.take(pp) + b.subrange(pp + 1, j + 1)) == v,
        !seen ==> all_digits(b.take(j + 1)) && digits_value(b.take(j + 1)) == v,
    ensures
        valid_body(b) ==> digits_value(int_digits(b) + frac_digits(b)) >= COEFF_LIMIT,
{
    if valid_body(b) {
        let full = int_digits(b) + frac_digits(b);
        let prefix1: Seq<char> = if seen {
            b.take(pp) + b.subrange(pp + 1, j + 1)
        } else {
            b.take(j + 1)
        };
        lemma_point_pos_char(b);
        if seen {
            lemma_digits_no_point(b, pp);
            lemma_point_pos_is(b, pp);
            assert(frac_digits(b).take(j - pp) =~= b.subrange(pp + 1, j + 1));
            assert(full.take(j) =~= prefix1);
        } else {
            assert(point_pos(b) > j) by {
                if point_pos(b) <= j {
                    if point_pos(b) < j {
                        assert(is_digit_char(b.take(j + 1)[point_pos(b)]));
                    }
                    assert(b[point_pos(b)] != '.');
                    assert(false);
                }
            }
            assert(full.take(j + 1) =~= prefix1);
        }
        assert(all_digits(full)) by {
            assert(forall|q: int|
                0 <= q < int_digits(b).len() ==> full[q] == #[trigger] int_digits(b)[q]);
            assert(forall|q: int|
                int_digits(b).len() <= q < full.len() ==> full[q] == #[trigger] frac_digits(b)[q
                    - int_digits(b).len()]);
        }
        if seen {
            lemma_prefix_value_bound(full, j);
        } else {
            lemma_prefix_value_bound(full, j + 1);
        }
    }
}

proof fn lemma_full_digits(b: Seq<char>)
    requires
        all_digits(int_digits(b)),
        all_digits(frac_digits(b)),
    ensures
        all_digits(int_digits(b) + frac_digits(b)),
{
    let full = int_digits(b) + frac_digits(b);
    assert(forall|q: int|
        0 <= q < int_digits(b).len() ==> full[q] == #[trigger] int_digits(b)[q]);
    assert(forall|q: int|
        int_digits(b).len() <= q < full.len() ==> full[q] == #[trigger] frac_digits(b)[q
            - int_digits(b).len()]);
}

fn push_digit(out: &mut String, d: u128)
    requires
        d < 10,
    ensures
        final(out)@ == old(out)@ + seq![digit_char(d as int)],
{
    proof {
        reveal_strlit("0");
        reveal_strlit("1");
        reveal_strlit("2");
        reveal_strlit("3");
        reveal_strlit("4");
        reveal_strlit("5");
        reveal_strlit("6");
        reveal_strlit("7");
        reveal_strlit("8");
        reveal_strlit("9");
    }
    if d == 0 {
        out.append("0");
    } else if d == 1 {
        out.append("1");
    } else if d == 2 {
        out.append("2");
    } else if d == 3 {
        out.append("3");
    } else if d == 4 {
        out.append("4");
    } else if d == 5 {
        out.append("5");
    } else if d == 6 {
        out.append("6");
    } else if d == 7 {
        out.append("7");
    } else if d == 8 {
        out.append("8");
    } else {
        out.append("9");
    }
    proof {
        assert(final(out)@ =~= old(out)@ + seq![digit_char(d as int)]);
    }
}

pub(crate) fn push_digits(out: &mut String, n: u128, w: u32)
    requires
        w >= 1,
    ensures
        final(out)@ == old(out)@ + spec_digits(n as nat, w as nat),
    decreases n, w,
{
    if n >= 10 || w > 1 {
        push_digits(out, n / 10, if w > 1 {
            w - 1
        } else {
            1
        });
    }
    push_digit(out, n % 10);
    proof {
        if n < 10 && w <= 1 {
            assert(n % 10 == n);
            assert(final(out)@ =~= old(out)@ + spec_digits(n as nat, w as nat));
        } else {
            assert(final(out)@ =~= old(out)@ + spec_digits(n as nat, w as nat));
        }
    }
}

/// An amount of money, represented as an exact decimal number.
///
/// For `x` decimal places of precision, this can handle positive and negative
/// values with magnitude `(2^96)/(10^x)`. For four decimal places, this is
/// approximately `2^82`.
///
/// All arithmetic operations are checked and return a result type.
#[derive(Debug, Clone, Copy)]
pub struct CurrencyAmount {
    negative: bool,
    coeff: u128,
    scale: u32,
}

impl CurrencyAmount {
    /// Well-formedness: the coefficient is below `2^96`, the scale at most 28,
    /// and zero is never negative.
    pub closed spec fn wf(self) -> bool {
        &&& self.coeff < COEFF_LIMIT
        &&& self.scale <= SCALE_LIMIT
        &&& self.coeff == 0 ==> !self.negative
    }

    /// The numeric value of the amount, in units of `10^-28` (the finest
    /// representable grain), as a mathematical integer.
    pub closed spec fn units(self) -> int {
        let mag = self.coeff * pow10((SCALE_LIMIT - self.scale) as nat);
        if self.negative {
            -mag
        } else {
            mag
        }
    }

    /// The number of fractional digits this amount carries.
    pub closed spec fn spec_scale(self) -> u32 {
        self.scale
    }

    /// Whether the stored sign is negative.
    pub closed spec fn spec_is_negative(self) -> bool {
        self.negative
    }

    pub proof fn lemma_negative_means_below_zero(self)
        requires
            self.wf(),
        ensures
            self.spec_is_negative() <==> self.units() < 0,
    {
        lemma_pow10_pos((SCALE_LIMIT - self.scale) as nat);
        let p = pow10((SCALE_LIMIT - self.scale) as nat);
        if self.coeff > 0 {
            assert(self.coeff * p > 0) by (nonlinear_arith)
                requires
                    self.coeff > 0,
                    p >= 1,
            ;
        }
    }

    /// Constant value of `0.0`.
    pub fn zero() -> (r: Self)
        ensures
            r == Self::spec_zero(),
            r.wf(),
            r.units() == 0,
            r.spec_scale() == 0,
            !r.spec_is_negative(),
    {
        CurrencyAmount { negative: false, coeff: 0, scale: 0 }
    }

    /// The zero amount.
    pub closed spec fn spec_zero() -> Self {
        CurrencyAmount { negative: false, coeff: 0, scale: 0 }
    }

    /// Returns true if this value is less than zero.
    pub fn is_negative(&self) -> (r: bool)
        requires
            self.wf(),
        ensures
            r == self.spec_is_negative(),
            r == (self.units() < 0),
    {
        proof {
            self.lemma_negative_means_below_zero();
        }
        self.negative
    }

    /// The arithmetic negation of an amount: same coefficient and scale,
    /// opposite sign. Exact; always succeeds.
    pub closed spec fn spec_neg(self) -> Self {
        if self.coeff == 0 {
            self
        } else {
            CurrencyAmount { negative: !self.negative, ..self }
        }
    }

    /// The larger of the two amounts' scales: the scale an exact sum is
    /// preferably represented at.
    pub open spec fn larger_scale(a: Self, b: Self) -> u32 {
        if a.spec_scale() >= b.spec_scale() {
            a.spec_scale()
        } else {
            b.spec_scale()
        }
    }

    /// The exact sum of two amounts: `Some` exactly when the sum's value is
    /// representable at some scale not above the larger operand scale, with
    /// the result carried at the largest such scale whose coefficient stays
    /// below `2^96`; `None` when the sum is out of range.
    pub closed spec fn spec_add(self, rhs: Self) -> Option<Self> {
        let v = self.units() + rhs.units();
        match pick_scale(v, Self::larger_scale(self, rhs) as nat) {
            Some(t) => Some(amount_at(v, t)),
            None => None,
        }
    }

    /// The exact difference of two amounts: the sum of `self` and the
    /// negation of `rhs`.
    pub closed spec fn spec_sub(self, rhs: Self) -> Option<Self> {
        self.spec_add(rhs.spec_neg())
    }

    /// What `spec_add` guarantees of a successful result: it is well formed,
    /// denotes exactly the sum of the operands' values, and carries a scale
    /// no larger than the larger operand scale.
    pub proof fn lemma_spec_add_props(self, rhs: Self)
        requires
            self.wf(),
            rhs.wf(),
        ensures
            self.spec_add(rhs) matches Some(c) ==> c.wf() && c.units() == self.units()
                + rhs.units() && c.spec_scale() <= Self::larger_scale(self, rhs),
    {
        let v = self.units() + rhs.units();
        let s = Self::larger_scale(self, rhs) as nat;
        lemma_pick_scale_sound(v, s);
        if self.spec_add(rhs) is Some {
            let t = pick_scale(v, s)->Some_0;
            lemma_amount_at_props(v, t);
        }
    }

    /// Law: addition of amounts is commutative; two amounts added in either
    /// order give the same result, success or failure alike.
    pub proof fn lemma_add_commutes(a: Self, b: Self)
        ensures
            a.spec_add(b) == b.spec_add(a),
    {
    }

    /// Law: when the exact sum of two well-formed amounts is representable
    /// at any scale up to the larger of their scales, addition succeeds.
    pub proof fn lemma_add_in_range_succeeds(a: Self, b: Self, t: nat)
        requires
            a.wf(),
            b.wf(),
            t <= Self::larger_scale(a, b),
            fits(a.units() + b.units(), t),
        ensures
            a.spec_add(b) is Some,
    {
        lemma_pick_scale_some(a.units() + b.units(), t, Self::larger_scale(a, b) as nat);
    }

    /// What negation does to the model: it flips the numeric value and
    /// keeps the scale.
    pub proof fn lemma_spec_neg_props(b: Self)
        requires
            b.wf(),
        ensures
            b.spec_neg().wf(),
            b.spec_neg().units() == -b.units(),
            b.spec_neg().spec_scale() == b.spec_scale(),
    {
        let mag = b.coeff as int * pow10((SCALE_LIMIT - b.scale) as nat);
        lemma_pow10_pos((SCALE_LIMIT - b.scale) as nat);
        if b.coeff == 0 {
            assert(mag == 0) by (nonlinear_arith)
                requires
                    b.coeff == 0,
                    mag == b.coeff as int * pow10((SCALE_LIMIT - b.scale) as nat),
            ;
        }
    }

    /// The zero amount is well formed, denotes zero, and carries scale
    /// zero.
    pub proof fn lemma_spec_zero_props()
        ensures
            Self::spec_zero().wf(),
            Self::spec_zero().units() == 0,
            Self::spec_zero().spec_scale() == 0,
            !Self::spec_zero().spec_is_negative(),
    {
        let g = pow10((SCALE_LIMIT - 0) as nat);
        assert(0 * g == 0) by (nonlinear_arith);
    }

    /// A well-formed amount is representable at its own carried scale; in
    /// particular adding it to zero, or depositing it into an empty
    /// account, always succeeds.
    pub proof fn lemma_fits_own_scale(a: Self)
        requires
            a.wf(),
        ensures
            fits(a.units(), a.spec_scale() as nat),
    {
        let ga = pow10((SCALE_LIMIT - a.scale) as nat);
        lemma_pow10_pos((SCALE_LIMIT - a.scale) as nat);
        assert(abs_of(a.units()) == a.coeff as int * ga) by (nonlinear_arith)
            requires
                a.units() == (if a.negative {
                    -(a.coeff as int * ga)
                } else {
                    a.coeff as int * ga
                }),
                ga >= 1,
                a.coeff as int >= 0,
        ;
        lemma_exact_fits(a.units(), a.coeff as int, a.scale as nat);
    }

    /// What `spec_sub` guarantees of a successful result: it is well
    /// formed, denotes exactly the difference of the operands' values, and
    /// carries a scale no larger than the larger operand scale.
    pub proof fn lemma_spec_sub_props(self, rhs: Self)
        requires
            self.wf(),
            rhs.wf(),
        ensures
            self.spec_sub(rhs) matches Some(c) ==> c.wf() && c.units() == self.units()
                - rhs.units() && c.spec_scale() <= Self::larger_scale(self, rhs),
    {
        Self::lemma_spec_neg_props(rhs);
        self.lemma_spec_add_props(rhs.spec_neg());
    }

    /// Law: adding an amount and then subtracting the same amount returns
    /// to the original numeric value, and never leaves the representable
    /// range.
    pub proof fn lemma_add_then_sub(a: Self, b: Self)
        requires
            a.wf(),
            b.wf(),
            a.spec_add(b) is Some,
        ensures
            ({
                let c = a.spec_add(b)->Some_0;
                &&& c.spec_sub(b) is Some
                &&& c.spec_sub(b)->Some_0.units() == a.units()
                &&& c.spec_add(b.spec_neg()) == c.spec_sub(b)
            }),
    {
        let v1 = a.units() + b.units();
        let s1 = Self::larger_scale(a, b) as nat;
        lemma_pick_scale_sound(v1, s1);
        let tc = pick_scale(v1, s1)->Some_0;
        lemma_amount_at_props(v1, tc);
        let c = a.spec_add(b)->Some_0;
        Self::lemma_spec_add_props(a, b);
        let bn = b.spec_neg();
        Self::lemma_spec_neg_props(b);
        let v2 = c.units() + bn.units();
        assert(v2 == a.units());
        let s2 = Self::larger_scale(c, bn) as nat;
        // v2 is a multiple of the grain of s2: both c and b are
        let g = pow10((SCALE_LIMIT - s2) as nat);
        lemma_pow10_pos((SCALE_LIMIT - s2) as nat);
        let mc = if c.negative {
            -(c.coeff as int)
        } else {
            c.coeff as int
        };
        let mb = if bn.negative {
            -(bn.coeff as int)
        } else {
            bn.coeff as int
        };
        lemma_pow10_adds((SCALE_LIMIT - s2) as nat, (s2 - c.scale) as nat);
        lemma_pow10_adds((SCALE_LIMIT - s2) as nat, (s2 - bn.scale) as nat);
        let ec = pow10((s2 - c.scale) as nat);
        let eb = pow10((s2 - bn.scale) as nat);
        let gc = pow10((SCALE_LIMIT - c.scale) as nat);
        let gb = pow10((SCALE_LIMIT - bn.scale) as nat);
        assert(c.units() == mc * gc) by (nonlinear_arith)
            requires
                c.units() == (if c.negative {
                    -(c.coeff as int * gc)
                } else {
                    c.coeff as int * gc
                }),
                mc == (if c.negative {
                    -(c.coeff as int)
                } else {
                    c.coeff as int
                }),
        ;
        assert(bn.units() == mb * gb) by (nonlinear_arith)
            requires
                bn.units() == (if bn.negative {
                    -(bn.coeff as int * gb)
                } else {
                    bn.coeff as int * gb
                }),
                mb == (if bn.negative {
                    -(bn.coeff as int)
                } else {
                    bn.coeff as int
                }),
        ;
        assert(c.units() == mc * (g * ec)) by (nonlinear_arith)
            requires
                c.units() == mc * gc,
                gc == g * ec,
        ;
        assert(bn.units() == mb * (g * eb)) by (nonlinear_arith)
            requires
                bn.units() == mb * gb,
                gb == g * eb,
        ;
        let m2 = mc * ec + mb * eb;
        assert(v2 == m2 * g) by (nonlinear_arith)
            requires
                v2 == mc * (g * ec) + mb * (g * eb),
                m2 == mc * ec + mb * eb,
        ;
        assert(abs_of(v2) == abs_of(m2) * g) by (nonlinear_arith)
            requires
                v2 == m2 * g,
                g >= 1,
        ;
        lemma_mod_multiples_basic(abs_of(m2), g);
        // pick the scale the difference certainly fits at
        if a.scale <= s2 {
            let ga = pow10((SCALE_LIMIT - a.scale) as nat);
            lemma_pow10_pos((SCALE_LIMIT - a.scale) as nat);
            assert(abs_of(a.units()) == a.coeff as int * ga) by (nonlinear_arith)
                requires
                    a.units() == (if a.negative {
                        -(a.coeff as int * ga)
                    } else {
                        a.coeff as int * ga
                    }),
                    ga >= 1,
                    a.coeff as int >= 0,
            ;
            lemma_exact_fits(v2, a.coeff as int, a.scale as nat);
            lemma_pick_scale_some(v2, a.scale as nat, s2);
        } else {
            // the grain of s2 is coarser than a's own: the coefficient is
            // smaller still
            lemma_pow10_adds((SCALE_LIMIT - a.scale) as nat, (a.scale - s2) as nat);
            let ga = pow10((SCALE_LIMIT - a.scale) as nat);
            lemma_pow10_pos((SCALE_LIMIT - a.scale) as nat);
            lemma_pow10_pos((a.scale - s2) as nat);
            assert(abs_of(a.units()) == a.coeff as int * ga) by (nonlinear_arith)
                requires
                    a.units() == (if a.negative {
                        -(a.coeff as int * ga)
                    } else {
                        a.coeff as int * ga
                    }),
                    ga >= 1,
                    a.coeff as int >= 0,
            ;
            assert(abs_of(v2) < COEFF_LIMIT * g) by (nonlinear_arith)
                requires
                    abs_of(v2) == a.coeff as int * ga,
                    a.coeff < COEFF_LIMIT,
                    g == ga * pow10((a.scale - s2) as nat),
                    ga >= 1,
                    pow10((a.scale - s2) as nat) >= 1,
            ;
            assert(fits(v2, s2));
            lemma_pick_scale_some(v2, s2, s2);
        }
        lemma_pick_scale_sound(v2, s2);
        let t2 = pick_scale(v2, s2)->Some_0;
        lemma_amount_at_props(v2, t2);
    }

    /// Exact negation; never fails.
    pub fn neg(self) -> (r: Self)
        requires
            self.wf(),
        ensures
            r == self.spec_neg(),
            r.wf(),
            r.units() == -self.units(),
            r.spec_scale() == self.spec_scale(),
    {
        if self.coeff == 0 {
            self
        } else {
            CurrencyAmount { negative: !self.negative, ..self }
        }
    }

    /// The canonical decimal text of the amount: a sign character only when
    /// strictly negative, the integer digits, and, when the scale is not
    /// zero, a point followed by exactly `scale` fractional digits.
    pub closed spec fn spec_text(self) -> Seq<char> {
        let sign: Seq<char> = if self.negative {
            seq!['-']
        } else {
            Seq::<char>::empty()
        };
        if self.scale == 0 {
            sign + spec_digits(self.coeff as nat, 1)
        } else {
            let p = pow10(self.scale as nat);
            sign + spec_digits((self.coeff as int / p) as nat, 1) + seq!['.'] + spec_digits(
                (self.coeff as int % p) as nat,
                self.scale as nat,
            )
        }
    }

    /// Parses a decimal text into an amount. Accepts an optionally signed
    /// digit string with an optional single point; anything else, a
    /// coefficient of more digits than the representable range, or more
    /// than 28 fractional digits, is `InvalidNumericValue`.
    #[verifier::rlimit(100)]
    #[verifier::spinoff_prover]
    pub fn from_str(value: &str) -> (r: Result<Self, CurrencyAmountParseError>)
        ensures
            spec_parse(value@) matches Some(c) ==> r == Ok::<Self, CurrencyAmountParseError>(c),
            spec_parse(value@) is None ==> r == Err::<Self, CurrencyAmountParseError>(
                CurrencyAmountParseError::InvalidNumericValue,
            ),
            r matches Ok(c) ==> c.wf(),
    {
        let ghost t = value@;
        let n = value.unicode_len();
        let mut i: usize = 0;
        let mut neg = false;
        if n > 0 {
            let c0 = value.get_char(0);
            if c0 == '-' || c0 == '+' {
                neg = c0 == '-';
                i = 1;
            }
        }
        let start = i;
        let ghost b = body_of(t);
        proof {
            assert(b =~= t.skip(start as int));
        }
        let mut coeff: u128 = 0;
        let mut scale: u32 = 0;
        let mut seen_point = false;
        let ghost mut pp: int = 0;
        while i < n
            invariant
                t == value@,
                start <= i <= n,
                n == t.len(),
                start <= 1,
                b == t.skip(start as int),
                b == body_of(t),
                neg == sign_of(t),
                coeff < COEFF_LIMIT,
                scale <= SCALE_LIMIT,
                !seen_point ==> all_digits(b.take(i - start)),
                !seen_point ==> coeff == digits_value(b.take(i - start)),
                !seen_point ==> scale == 0,
                seen_point ==> 0 <= pp < i - start,
                seen_point ==> b[pp] == '.',
                seen_point ==> all_digits(b.take(pp)),
                seen_point ==> all_digits(b.subrange(pp + 1, i - start)),
                seen_point ==> coeff == digits_value(b.take(pp) + b.subrange(pp + 1, i - start)),
                seen_point ==> scale == i - start - pp - 1,
            decreases n - i,
        {
            let ghost j: int = i - start;
            let c = value.get_char(i);
            assert(b[j] == c);
            if c == '.' {
                if seen_point {
                    proof {
                        lemma_digits_no_point(b, pp);
                        lemma_point_pos_is(b, pp);
                        let frac = frac_digits(b);
                        assert(frac[j - pp - 1] == b[j]);
                        assert(!is_digit_char('.'));
                        assert(!valid_body(b));
                    }
                    return Err(CurrencyAmountParseError::InvalidNumericValue);
                }
                seen_point = true;
                proof {
                    pp = j;
                    assert(b.subrange(pp + 1, j + 1) =~= Seq::<char>::empty());
                    assert(b.take(pp) + b.subrange(pp + 1, j + 1) =~= b.take(pp));
                }
            } else if c >= '0' && c <= '9' {
                let d: u128 = ((c as u32) - ('0' as u32)) as u128;
                assert(d == digit_value(c) && d < 10);
                let ghost prefix: Seq<char> = if seen_point {
                    b.take(pp) + b.subrange(pp + 1, j)
                } else {
                    b.take(j)
                };
                let ghost prefix1: Seq<char> = if seen_point {
                    b.take(pp) + b.subrange(pp + 1, j + 1)
                } else {
                    b.take(j + 1)
                };
                proof {
                    assert(prefix1 =~= prefix + seq![c]);
                    assert(prefix1.drop_last() =~= prefix);
                    assert(digits_value(prefix1) == coeff * 10 + d);
                    assert(all_digits(prefix1)) by {
                        assert(forall|q: int|
                            0 <= q < prefix.len() ==> prefix1[q] == #[trigger] prefix[q]);
                        assert(prefix1[prefix.len() as int] == c);
                        assert(is_digit_char(c));
                    }
                }
                if coeff > (COEFF_LIMIT - 1 - d) / 10 {
                    proof {
                        lemma_fundamental_div_mod((COEFF_LIMIT - 1 - d) as int, 10);
                        assert(digits_value(prefix1) >= COEFF_LIMIT);
                        lemma_parse_too_big(b, seen_point, pp, j, digits_value(prefix1));
                        assert(spec_parse(t) is None);
                    }
                    return Err(CurrencyAmountParseError::InvalidNumericValue);
                }
                if seen_point {
                    if scale == SCALE_LIMIT {
                        proof {
                            lemma_digits_no_point(b, pp);
                        lemma_point_pos_is(b, pp);
                            assert(frac_digits(b).len() > SCALE_LIMIT);
                        }
                        return Err(CurrencyAmountParseError::InvalidNumericValue);
                    }
                    scale = scale + 1;
                }
                coeff = coeff * 10 + d;
            } else {
                proof {
                    lemma_point_pos_char(b);
                    if seen_point {
                        lemma_digits_no_point(b, pp);
                        lemma_point_pos_is(b, pp);
                        assert(frac_digits(b)[j - pp - 1] == b[j]);
                        assert(!valid_body(b));
                    } else {
                        assert(point_pos(b) > j) by {
                            if point_pos(b) <= j {
                                if point_pos(b) < j {
                                    assert(is_digit_char(b.take(j)[point_pos(b)]));
                                }
                                assert(b[point_pos(b)] != '.');
                                assert(false);
                            }
                        }
                        assert(int_digits(b)[j] == b[j]);
                        assert(!valid_body(b));
                    }
                }
                return Err(CurrencyAmountParseError::InvalidNumericValue);
            }
            i = i + 1;
        }
        let digit_count = if seen_point {
            (i - start) - 1
        } else {
            i - start
        };
        proof {
            if seen_point {
                lemma_digits_no_point(b, pp);
                lemma_point_pos_is(b, pp);
                assert(int_digits(b) =~= b.take(pp));
                assert(frac_digits(b) =~= b.subrange(pp + 1, b.len() as int));
            } else {
                assert(all_digits(b)) by {
                    assert(b.take(b.len() as int) =~= b);
                }
                lemma_digits_no_point(b, b.len() as int);
                lemma_point_pos_is(b, b.len() as int);
                assert(int_digits(b) =~= b);
                assert(int_digits(b) + frac_digits(b) =~= b.take(i - start));
            }
        }
        if digit_count == 0 {
            proof {
                assert(int_digits(b).len() + frac_digits(b).len() == 0);
            }
            return Err(CurrencyAmountParseError::InvalidNumericValue);
        }
        let negative = neg && coeff != 0;
        proof {
            assert(valid_body(b));
            assert(digits_value(int_digits(b) + frac_digits(b)) == coeff);
            assert(frac_digits(b).len() == scale);
        }
        Ok(CurrencyAmount { negative, coeff, scale })
    }

    /// Formats the amount as its canonical decimal text; the scale the
    /// value carries is kept, trailing zeros included.
    pub fn to_text(&self) -> (s: String)
        requires
            self.wf(),
        ensures
            s@ == self.spec_text(),
    {
        let mut out = String::new();
        if self.negative {
            proof {
                reveal_strlit("-");
            }
            out.append("-");
            assert(out@ =~= seq!['-']);
        }
        if self.scale == 0 {
            push_digits(&mut out, self.coeff, 1);
        } else {
            let p = pow10_u128(self.scale);
            push_digits(&mut out, self.coeff / p, 1);
            proof {
                reveal_strlit(".");
            }
            out.append(".");
            push_digits(&mut out, self.coeff % p, self.scale);
        }
        proof {
            assert(out@ =~= self.spec_text());
        }
        out
    }

    /// Total order by numeric value (not by textual representation).
    pub fn compare(&self, other: &Self) -> (r: core::cmp::Ordering)
        requires
            self.wf(),
            other.wf(),
        ensures
            (r is Less) == (self.units() < other.units()),
            (r is Equal) == (self.units() == other.units()),
            (r is Greater) == (self.units() > other.units()),
    {
        proof {
            self.lemma_negative_means_below_zero();
            other.lemma_negative_means_below_zero();
        }
        if self.negative != other.negative {
            if self.negative {
                core::cmp::Ordering::Less
            } else {
                core::cmp::Ordering::Greater
            }
        } else {
            let m = cmp_mag(self.coeff, self.scale, other.coeff, other.scale);
            proof {
                lemma_pow10_pos((SCALE_LIMIT - self.scale) as nat);
                lemma_pow10_pos((SCALE_LIMIT - other.scale) as nat);
                lemma_signed_scaled(self.coeff as int, pow10((SCALE_LIMIT - self.scale) as nat));
                lemma_signed_scaled(other.coeff as int, pow10((SCALE_LIMIT - other.scale) as nat));
            }
            if self.negative {
                match m {
                    core::cmp::Ordering::Less => core::cmp::Ordering::Greater,
                    core::cmp::Ordering::Equal => core::cmp::Ordering::Equal,
                    core::cmp::Ordering::Greater => core::cmp::Ordering::Less,
                }
            } else {
                m
            }
        }
    }

    /// What parsing yields, over the open grammar helpers: it succeeds
    /// exactly for a valid optionally signed digit body whose digits stay
    /// below the coefficient limit and whose fraction is at most 28 digits;
    /// the result's scale is the number of fractional digits and its value
    /// is the digit string's value, signed, at that scale.
    pub proof fn lemma_spec_parse_characterization(t: Seq<char>)
        ensures
            spec_parse(t) is Some <==> ({
                let b = body_of(t);
                valid_body(b) && digits_value(int_digits(b) + frac_digits(b)) < COEFF_LIMIT
                    && frac_digits(b).len() <= SCALE_LIMIT
            }),
            spec_parse(t) matches Some(c) ==> ({
                let b = body_of(t);
                let m = digits_value(int_digits(b) + frac_digits(b));
                &&& c.wf()
                &&& c.spec_scale() == frac_digits(b).len()
                &&& c.spec_is_negative() == (sign_of(t) && m != 0)
                &&& c.units() == (if sign_of(t) {
                    -m
                } else {
                    m
                }) * pow10((SCALE_LIMIT - frac_digits(b).len()) as nat)
            }),
    {
        let b = body_of(t);
        if spec_parse(t) is Some {
            let m = digits_value(int_digits(b) + frac_digits(b));
            lemma_full_digits(b);
            lemma_digits_value_nonneg(int_digits(b) + frac_digits(b));
            let c = spec_parse(t)->Some_0;
            let p = pow10((SCALE_LIMIT - frac_digits(b).len()) as nat);
            lemma_pow10_pos((SCALE_LIMIT - frac_digits(b).len()) as nat);
            assert(c.units() == (if sign_of(t) {
                -m
            } else {
                m
            }) * p) by (nonlinear_arith)
                requires
                    c.units() == (if c.negative {
                        -(c.coeff as int * p)
                    } else {
                        c.coeff as int * p
                    }),
                    c.coeff == m,
                    m >= 0,
                    c.negative == (sign_of(t) && m != 0),
                    p >= 1,
            ;
        }
    }

    /// What formatting yields, over the open text helpers: the canonical
    /// text is the optional sign, then the digit string of the coefficient
    /// (the value scaled up to its carried scale), with a point splitting
    /// off exactly `scale` fractional digits when the scale is not zero.
    pub proof fn lemma_spec_text_characterization(a: Self)
        requires
            a.wf(),
        ensures
            a.spec_text() == ({
                let sign: Seq<char> = if a.spec_is_negative() {
                    seq!['-']
                } else {
                    Seq::<char>::empty()
                };
                let mag = abs_of(a.units()) / pow10((SCALE_LIMIT - a.spec_scale()) as nat);
                let p = pow10(a.spec_scale() as nat);
                if a.spec_scale() == 0 {
                    sign + spec_digits(mag as nat, 1)
                } else {
                    sign + spec_digits((mag / p) as nat, 1) + seq!['.'] + spec_digits(
                        (mag % p) as nat,
                        a.spec_scale() as nat,
                    )
                }
            }),
    {
        let g = pow10((SCALE_LIMIT - a.scale) as nat);
        lemma_pow10_pos((SCALE_LIMIT - a.scale) as nat);
        assert(abs_of(a.units()) == a.coeff as int * g) by (nonlinear_arith)
            requires
                a.units() == (if a.negative {
                    -(a.coeff as int * g)
                } else {
                    a.coeff as int * g
                }),
                g >= 1,
                a.coeff as int >= 0,
        ;
        lemma_div_multiples_vanish(a.coeff as int, g);
        assert(g * (a.coeff as int) == a.coeff as int * g) by (nonlinear_arith);
        assert(abs_of(a.units()) / g == a.coeff as int);
    }

    /// Law: the shape of the canonical text. It starts with a minus sign
    /// exactly when the amount is strictly negative and never holds a plus
    /// sign; at scale zero everything after the optional sign is a digit;
    /// at a positive scale a single point is followed by exactly `scale`
    /// digit characters, with at least one digit before it.
    pub proof fn lemma_text_shape(a: Self)
        requires
            a.wf(),
        ensures
            a.spec_text().len() >= 1,
            (a.units() < 0) <==> a.spec_text()[0] == '-',
            forall|i: int| 0 <= i < a.spec_text().len() ==> (#[trigger] a.spec_text()[i]) != '+',
            a.spec_scale() == 0 ==> forall|i: int|
                (if a.units() < 0 {
                    1int
                } else {
                    0
                }) <= i < a.spec_text().len() ==> is_digit_char(#[trigger] a.spec_text()[i]),
            a.spec_scale() > 0 ==> ({
                let t = a.spec_text();
                let p = t.len() - a.spec_scale() - 1;
                &&& (if a.units() < 0 {
                    1int
                } else {
                    0
                }) < p
                &&& t[p] == '.'
                &&& forall|i: int|
                    (if a.units() < 0 {
                        1int
                    } else {
                        0
                    }) <= i < t.len() && i != p ==> is_digit_char(#[trigger] t[i])
            }),
    {
        a.lemma_negative_means_below_zero();
        let t = a.spec_text();
        let sign: Seq<char> = if a.negative {
            seq!['-']
        } else {
            Seq::<char>::empty()
        };
        let sl: int = sign.len() as int;
        if a.scale == 0 {
            let d = spec_digits(a.coeff as nat, 1);
            lemma_spec_digits_shape(a.coeff as nat, 1);
            assert(t =~= sign + d);
            assert forall|i: int| sl <= i < t.len() implies is_digit_char(#[trigger] t[i]) by {
                assert(t[i] == d[i - sl]);
            }
            assert forall|i: int| 0 <= i < t.len() implies (#[trigger] t[i]) != '+' by {
                if i >= sl {
                    assert(is_digit_char(t[i]));
                }
            }
        } else {
            let pw = pow10(a.scale as nat);
            lemma_pow10_pos(a.scale as nat);
            let q = (a.coeff as int / pw) as nat;
            let rm = (a.coeff as int % pw) as nat;
            lemma_fundamental_div_mod(a.coeff as int, pw);
            lemma_mod_division_less_than_divisor(a.coeff as int, pw);
            assert(a.coeff as int / pw >= 0) by (nonlinear_arith)
                requires
                    pw >= 1,
                    a.coeff as int >= 0,
            ;
            let d1 = spec_digits(q, 1);
            let d2 = spec_digits(rm, a.scale as nat);
            lemma_spec_digits_shape(q, 1);
            lemma_spec_digits_shape(rm, a.scale as nat);
            assert(d2.len() == a.scale) by {
                if a.scale > 1 {
                } else {
                    assert(pow10(0) == 1);
                    assert(pow10(1) == 10);
                }
            }
            assert(t =~= sign + d1 + seq!['.'] + d2);
            let p = sl + d1.len() as int;
            assert(p == t.len() - a.spec_scale() - 1);
            assert(t[p] == '.');
            assert forall|i: int| sl <= i < t.len() && i != p implies is_digit_char(
                #[trigger] t[i],
            ) by {
                if i < p {
                    assert(t[i] == d1[i - sl]);
                } else {
                    assert(t[i] == d2[i - p - 1]);
                }
            }
            assert forall|i: int| 0 <= i < t.len() implies (#[trigger] t[i]) != '+' by {
                if i >= sl && i != p {
                    assert(is_digit_char(t[i]));
                }
            }
        }
    }

    /// Law: parsing the canonical text of a well-formed amount returns the
    /// amount itself, sign, coefficient and scale included; in particular
    /// formatting preserves the scale.
    pub proof fn lemma_text_round_trip(a: Self)
        requires
            a.wf(),
        ensures
            spec_parse(a.spec_text()) == Some(a),
    {
        let t = a.spec_text();
        let sign: Seq<char> = if a.negative {
            seq!['-']
        } else {
            Seq::<char>::empty()
        };
        if a.scale == 0 {
            let d = spec_digits(a.coeff as nat, 1);
            lemma_spec_digits_shape(a.coeff as nat, 1);
            assert(t =~= sign + d);
            let b = body_of(t);
            if a.negative {
                assert(t[0] == '-');
                assert(b =~= d);
            } else {
                assert(t[0] == d[0]);
                assert(is_digit_char(d[0]));
                assert(b =~= d);
            }
            lemma_digits_no_point(b, b.len() as int);
            assert(b.take(b.len() as int) =~= b);
            lemma_point_pos_is(b, b.len() as int);
            assert(int_digits(b) =~= d);
            assert(int_digits(b) + frac_digits(b) =~= d);
            assert(valid_body(b));
            assert(digits_value(int_digits(b) + frac_digits(b)) == a.coeff);
            assert(sign_of(t) == a.negative);
            assert(spec_parse(t) == Some(a));
        } else {
            let p = pow10(a.scale as nat);
            lemma_pow10_pos(a.scale as nat);
            let q = (a.coeff as int / p) as nat;
            let rm = (a.coeff as int % p) as nat;
            lemma_fundamental_div_mod(a.coeff as int, p);
            lemma_mod_division_less_than_divisor(a.coeff as int, p);
            assert(a.coeff as int / p >= 0) by (nonlinear_arith)
                requires
                    p >= 1,
                    a.coeff as int >= 0,
            ;
            let d1 = spec_digits(q, 1);
            let d2 = spec_digits(rm, a.scale as nat);
            lemma_spec_digits_shape(q, 1);
            lemma_spec_digits_shape(rm, a.scale as nat);
            assert(d2.len() == a.scale) by {
                if a.scale > 1 {
                } else {
                    assert(pow10(0) == 1);
                    assert(pow10(1) == 10);
                }
            }
            assert(t =~= sign + d1 + seq!['.'] + d2);
            let b = body_of(t);
            if a.negative {
                assert(t[0] == '-');
                assert(b =~= d1 + seq!['.'] + d2);
            } else {
                assert(t[0] == d1[0]);
                assert(is_digit_char(d1[0]));
                assert(b =~= d1 + seq!['.'] + d2);
            }
            let k = d1.len() as int;
            assert(b[k] == '.');
            assert(b.take(k) =~= d1);
            lemma_digits_no_point(b, k);
            lemma_point_pos_is(b, k);
            assert(int_digits(b) =~= d1);
            assert(frac_digits(b) =~= d2);
            lemma_digits_value_append(d1, d2);
            assert(digits_value(d1 + d2) == q * pow10(d2.len()) + rm);
            assert(q * p == p * q) by (nonlinear_arith);
            assert(digits_value(d1 + d2) == a.coeff);
            assert(int_digits(b) + frac_digits(b) =~= d1 + d2);
            assert(valid_body(b));
            assert(sign_of(t) == a.negative);
            assert(spec_parse(t) == Some(a));
        }
    }

    /// Checked addition: the exact sum of the two amounts, or `OutOfBounds`
    /// when the sum cannot be represented.
    pub fn checked_add(self, rhs: Self) -> (r: Result<Self, CurrencyError>)
        requires
            self.wf(),
            rhs.wf(),
        ensures
            self.spec_add(rhs) matches Some(c) ==> r == Ok::<Self, CurrencyError>(c),
            self.spec_add(rhs) is None ==> r == Err::<Self, CurrencyError>(
                CurrencyError::OutOfBounds,
            ),
            r matches Ok(c) ==> c.wf() && c.units() == self.units() + rhs.units()
                && c.spec_scale() <= Self::larger_scale(self, rhs),
    {
        proof {
            self.lemma_spec_add_props(rhs);
        }
        let ghost v: int = self.units() + rhs.units();
        let s_target: u32 = if self.scale >= rhs.scale {
            self.scale
        } else {
            rhs.scale
        };
        assert(s_target == Self::larger_scale(self, rhs));
        let ghost smax: nat = s_target as nat;
        let (c1, s1) = strip_zeros(self.coeff, self.scale);
        let (c2, s2) = strip_zeros(rhs.coeff, rhs.scale);
        proof {
            lemma_rescale(c1 as int, (self.scale - s1) as nat, (SCALE_LIMIT - self.scale) as nat);
            lemma_rescale(c2 as int, (rhs.scale - s2) as nat, (SCALE_LIMIT - rhs.scale) as nat);
        }
        let ghost mag1: int = self.coeff as int * pow10((SCALE_LIMIT - self.scale) as nat);
        let ghost mag2: int = rhs.coeff as int * pow10((SCALE_LIMIT - rhs.scale) as nat);
        assert(c1 as int * pow10((SCALE_LIMIT - s1) as nat) == mag1);
        assert(c2 as int * pow10((SCALE_LIMIT - s2) as nat) == mag2);
        let mut a1 = c1;
        let mut a2 = c2;
        let mut sc = s1;
        let ghost mut g_k: nat = 0;
        let ghost mut g_b: int = 0;
        let ghost mut g_o: int = 0;
        if s1 < s2 {
            sc = s2;
            let p = pow10_u128(s2 - s1);
            proof {
                g_k = (s2 - s1) as nat;
                g_b = c1 as int;
                g_o = c2 as int;
            }
            if a1 > u128::MAX / p {
                proof {
                    let pi = pow10(g_k);
                    let q = u128::MAX as int / pi;
                    lemma_fundamental_div_mod(u128::MAX as int, pi);
                    lemma_mod_division_less_than_divisor(u128::MAX as int, pi);
                    lemma_mul_inequality(q + 1, c1 as int, pi);
                    assert((q + 1) * pi == q * pi + pi) by (nonlinear_arith);
                    assert(pi * q == q * pi) by (nonlinear_arith);
                    assert((q + 1) * pi > u128::MAX as int);
                    assert(c1 as int * pi > u128::MAX as int);
                    lemma_rescale(c1 as int, g_k, (SCALE_LIMIT - s2) as nat);
                    let big = c1 as int * pi;
                    let e = (SCALE_LIMIT - s2) as nat;
                    assert(big * pow10(e) == mag1);
                    assert((-big) * pow10(e) == -(big * pow10(e))) by (nonlinear_arith);
                    assert((-(c2 as int)) * pow10(e) == -(c2 as int * pow10(e)))
                        by (nonlinear_arith);
                    lemma_combine(v, self.negative, big, rhs.negative, c2 as int, e);
                    lemma_mod10_keeps(c1 as int, g_k, c2 as int);
                    if self.negative == rhs.negative {
                        lemma_out_of_range(v, big + c2 as int, s2 as nat, smax);
                    } else {
                        lemma_out_of_range(v, big - c2 as int, s2 as nat, smax);
                    }
                }
                return Err(CurrencyError::OutOfBounds);
            }
            proof {
                lemma_fundamental_div_mod(u128::MAX as int, p as int);
                lemma_mul_inequality(a1 as int, (u128::MAX / p) as int, p as int);
            }
            a1 = a1 * p;
            proof {
                lemma_rescale(c1 as int, g_k, (SCALE_LIMIT - s2) as nat);
            }
        } else if s2 < s1 {
            sc = s1;
            let p = pow10_u128(s1 - s2);
            proof {
                g_k = (s1 - s2) as nat;
                g_b = c2 as int;
                g_o = c1 as int;
            }
            if a2 > u128::MAX / p {
                proof {
                    let pi = pow10(g_k);
                    let q = u128::MAX as int / pi;
                    lemma_fundamental_div_mod(u128::MAX as int, pi);
                    lemma_mod_division_less_than_divisor(u128::MAX as int, pi);
                    lemma_mul_inequality(q + 1, c2 as int, pi);
                    assert((q + 1) * pi == q * pi + pi) by (nonlinear_arith);
                    assert(pi * q == q * pi) by (nonlinear_arith);
                    assert((q + 1) * pi > u128::MAX as int);
                    assert(c2 as int * pi > u128::MAX as int);
                    lemma_rescale(c2 as int, g_k, (SCALE_LIMIT - s1) as nat);
                    let big = c2 as int * pi;
                    let e = (SCALE_LIMIT - s1) as nat;
                    assert(big * pow10(e) == mag2);
                    assert((-big) * pow10(e) == -(big * pow10(e))) by (nonlinear_arith);
                    assert((-(c1 as int)) * pow10(e) == -(c1 as int * pow10(e)))
                        by (nonlinear_arith);
                    lemma_combine(v, self.negative, c1 as int, rhs.negative, big, e);
                    lemma_mod10_keeps(c2 as int, g_k, c1 as int);
                    if self.negative == rhs.negative {
                        lemma_out_of_range(v, big + c1 as int, s1 as nat, smax);
                    } else {
                        lemma_out_of_range(v, big - c1 as int, s1 as nat, smax);
                    }
                }
                return Err(CurrencyError::OutOfBounds);
            }
            proof {
                lemma_fundamental_div_mod(u128::MAX as int, p as int);
                lemma_mul_inequality(a2 as int, (u128::MAX / p) as int, p as int);
            }
            a2 = a2 * p;
            proof {
                lemma_rescale(c2 as int, g_k, (SCALE_LIMIT - s1) as nat);
            }
        }
        // Aligned: both coefficients now denote their magnitudes at scale `sc`.
        let ghost e: nat = (SCALE_LIMIT - sc) as nat;
        assert(a1 as int * pow10(e) == mag1);
        assert(a2 as int * pow10(e) == mag2);
        assert(sc <= s_target);
        assert(g_k >= 1 ==> a1 as int + a2 as int == g_b * pow10(g_k) + g_o && g_o % 10 != 0 && g_b
            >= 0 && g_o >= 0 && sc >= 1);
        assert(g_k == 0 ==> a1 < COEFF_LIMIT && a2 < COEFF_LIMIT);
        proof {
            assert((-(a1 as int)) * pow10(e) == -(a1 as int * pow10(e))) by (nonlinear_arith);
            assert((-(a2 as int)) * pow10(e) == -(a2 as int * pow10(e))) by (nonlinear_arith);
            lemma_combine(v, self.negative, a1 as int, rhs.negative, a2 as int, e);
        }
        let mut m: u128;
        let mut neg: bool;
        if self.negative == rhs.negative {
            if a1 > u128::MAX - a2 {
                proof {
                    assert(g_k >= 1);
                    lemma_mod10_keeps(g_b, g_k, g_o);
                    lemma_out_of_range(v, a1 as int + a2 as int, sc as nat, smax);
                }
                return Err(CurrencyError::OutOfBounds);
            }
            m = a1 + a2;
            neg = self.negative;
        } else if a1 >= a2 {
            m = a1 - a2;
            neg = self.negative;
        } else {
            m = a2 - a1;
            neg = rhs.negative;
        }
        if m == 0 {
            neg = false;
        }
        proof {
            assert(0 * pow10(e) == 0) by (nonlinear_arith);
        }
        assert(abs_of(v) == m as int * pow10(e));
        assert(m > 0 ==> (neg <==> v < 0));
        assert(m == 0 ==> v == 0 && !neg);
        let mut t = sc;
        if m >= COEFF_LIMIT {
            proof {
                assert forall|u: nat| t < u <= smax implies !fits(v, u) by {
                    lemma_unfit_bound(v, m as int, t as nat, u);
                }
            }
            while m >= COEFF_LIMIT && t > 0 && m % 10 == 0
                invariant
                    t <= smax,
                    smax <= SCALE_LIMIT,
                    m >= 1,
                    abs_of(v) == m as int * pow10((SCALE_LIMIT - t) as nat),
                    neg <==> v < 0,
                    forall|u: nat| t < u <= smax ==> !fits(v, u),
                decreases t,
            {
                proof {
                    lemma_unfit_bound(v, m as int, t as nat, t as nat);
                    lemma_fundamental_div_mod(m as int, 10);
                    assert(pow10((SCALE_LIMIT - t + 1) as nat) == 10 * pow10(
                        (SCALE_LIMIT - t) as nat,
                    ));
                    assert(((m as int) / 10) * (10 * pow10((SCALE_LIMIT - t) as nat)) == (10 * ((
                    m as int) / 10)) * pow10((SCALE_LIMIT - t) as nat)) by (nonlinear_arith);
                }
                m = m / 10;
                t = t - 1;
            }
            if m >= COEFF_LIMIT {
                proof {
                    lemma_out_of_range(v, m as int, t as nat, smax);
                }
                return Err(CurrencyError::OutOfBounds);
            }
            proof {
                let pt = pow10((SCALE_LIMIT - t) as nat);
                lemma_pow10_pos((SCALE_LIMIT - t) as nat);
                lemma_exact_fits(v, m as int, t as nat);
                lemma_pick_scale_finds(v, t as nat, smax);
                lemma_amount_at_props(v, t as nat);
                lemma_div_multiples_vanish(m as int, pt);
                assert(pt * (m as int) == m as int * pt) by (nonlinear_arith);
                assert(amount_at(v, t as nat) == (CurrencyAmount {
                    negative: neg,
                    coeff: m,
                    scale: t,
                }));
            }
            return Ok(CurrencyAmount { negative: neg, coeff: m, scale: t });
        }
        while t < s_target && m <= (COEFF_LIMIT - 1) / 10
            invariant
                t <= s_target,
                s_target <= SCALE_LIMIT,
                m < COEFF_LIMIT,
                abs_of(v) == m as int * pow10((SCALE_LIMIT - t) as nat),
                m == 0 ==> !neg && v == 0,
                m > 0 ==> (neg <==> v < 0),
            decreases s_target - t,
        {
            proof {
                assert(pow10((SCALE_LIMIT - t) as nat) == 10 * pow10((SCALE_LIMIT - t - 1) as nat));
                assert((m as int * 10) * pow10((SCALE_LIMIT - t - 1) as nat) == m as int * (10
                    * pow10((SCALE_LIMIT - t - 1) as nat))) by (nonlinear_arith);
            }
            m = m * 10;
            t = t + 1;
        }
        proof {
            lemma_exact_fits(v, m as int, t as nat);
            if t < s_target {
                assert(pow10((SCALE_LIMIT - t) as nat) == 10 * pow10((SCALE_LIMIT - t - 1) as nat));
                assert((m as int * 10) * pow10((SCALE_LIMIT - t - 1) as nat) == m as int * (10
                    * pow10((SCALE_LIMIT - t - 1) as nat))) by (nonlinear_arith);
                assert(abs_of(v) == (m as int * 10) * pow10((SCALE_LIMIT - t - 1) as nat));
                assert forall|u: nat| t < u <= smax implies !fits(v, u) by {
                    lemma_unfit_bound(v, m as int * 10, (t + 1) as nat, u);
                }
            }
            lemma_pick_scale_finds(v, t as nat, smax);
            lemma_amount_at_props(v, t as nat);
            let pt = pow10((SCALE_LIMIT - t) as nat);
            lemma_pow10_pos((SCALE_LIMIT - t) as nat);
            lemma_div_multiples_vanish(m as int, pt);
            assert(pt * (m as int) == m as int * pt) by (nonlinear_arith);
            assert(amount_at(v, t as nat) == (CurrencyAmount {
                negative: neg,
                coeff: m,
                scale: t,
            }));
        }
        Ok(CurrencyAmount { negative: neg, coeff: m, scale: t })
    }

    /// Checked subtraction: the exact difference of the two amounts, or
    /// `OutOfBounds` when it cannot be represented.
    pub fn checked_sub(self, rhs: Self) -> (r: Result<Self, CurrencyError>)
        requires
            self.wf(),
            rhs.wf(),
        ensures
            self.spec_sub(rhs) matches Some(c) ==> r == Ok::<Self, CurrencyError>(c),
            self.spec_sub(rhs) is None ==> r == Err::<Self, CurrencyError>(
                CurrencyError::OutOfBounds,
            ),
            r matches Ok(c) ==> c.wf() && c.units() == self.units() - rhs.units(),
    {
        let n = rhs.neg();
        self.checked_add(n)
    }
}

impl PartialEq for CurrencyAmount {
    /// Equality is by numeric value, not by textual representation: amounts
    /// with different scales are equal when they denote the same number.
    fn eq(&self, other: &Self) -> (r: bool) {
        if self.coeff < COEFF_LIMIT && self.scale <= SCALE_LIMIT && (self.coeff != 0
            || !self.negative) && other.coeff < COEFF_LIMIT && other.scale <= SCALE_LIMIT && (
        other.coeff != 0 || !other.negative) {
            matches!(self.compare(other), core::cmp::Ordering::Equal)
        } else {
            self.negative == other.negative && self.coeff == other.coeff && self.scale
                == other.scale
        }
    }
}

impl vstd::std_specs::cmp::PartialEqSpecImpl for CurrencyAmount {
    open spec fn obeys_eq_spec() -> bool {
        true
    }

    open spec fn eq_spec(&self, other: &Self) -> bool {
        if self.wf() && other.wf() {
            self.units() == other.units()
        } else {
            *self == *other
        }
    }
}

} // verus!
