//! Exact decimal numbers: a 128-bit integer mantissa with a decimal scale
//! of at most 28 fractional digits, denoting the value mantissa / 10^scale.
//! Every value is kept in canonical form (no trailing fractional zeros and
//! zero has scale 0), so each value has exactly one representation.
//!
//! All reasoning is done over the integer `v()`: the value scaled by
//! 10^28, which is exact for every well-formed decimal.

use vstd::prelude::*;
use vstd::arithmetic::power::{
    pow, lemma_pow_adds, lemma_pow_positive, lemma_pow_increases, lemma_pow0, lemma_pow1,
};
use vstd::arithmetic::mul::{
    lemma_mul_is_associative, lemma_mul_is_distributive_add,
    lemma_mul_is_distributive_add_other_way, lemma_mul_is_distributive_sub_other_way,
    lemma_mul_inequality, lemma_mul_strict_inequality,
};
use vstd::arithmetic::div_mod::{
    lemma_fundamental_div_mod, lemma_div_pos_is_pos, lemma_div_nonincreasing,
    lemma_remainder_lower, lemma_remainder_upper, lemma_div_is_ordered,
    lemma_div_denominator, lemma_div_multiples_vanish,
    lemma_mod_division_less_than_divisor, lemma_fundamental_div_mod_converse,
};

verus! {

/// Largest number of fractional digits a value may carry.
pub const MAX_SCALE: u32 = 28;

/// 10^e as a mathematical integer.
pub open spec fn pow10(e: nat) -> int {
    pow(10, e)
}

/// Truncating division (toward zero) for a positive divisor.
pub open spec fn tdiv(a: int, b: int) -> int {
    if a >= 0 {
        a / b
    } else {
        -((-a) / b)
    }
}

/// Bounds symmetric in sign: `i128::MIN` itself is excluded so that
/// negation of any admitted mantissa stays in range.
pub open spec fn fits_i128(x: int) -> bool {
    -(i128::MAX as int) <= x <= i128::MAX as int
}

/// An exact decimal: the value mantissa / 10^scale.
#[derive(Clone, Copy, Debug, PartialEq, Eq, Structural)]
pub struct Decimal {
    pub mantissa: i128,
    pub scale: u32,
}

impl Decimal {
    /// Well-formed: bounded scale, mantissa magnitude at most `i128::MAX`,
    /// and canonical representation (zero has scale 0; a nonzero mantissa
    /// with fractional digits does not end in 0).
    pub open spec fn wf(self) -> bool {
        &&& self.scale <= MAX_SCALE
        &&& fits_i128(self.mantissa as int)
        &&& (self.mantissa == 0 ==> self.scale == 0)
        &&& (self.scale > 0 ==> self.mantissa as int % 10 != 0)
    }

    /// The value of this decimal, scaled by 10^MAX_SCALE so that it is an
    /// integer: v(d) = mantissa * 10^(MAX_SCALE - scale).
    pub open spec fn v(self) -> int {
        self.mantissa * pow10((MAX_SCALE - self.scale) as nat)
    }

    /// The value of this decimal rescaled to `t` fractional digits
    /// (exact whenever `scale <= t`).
    pub open spec fn at_scale(self, t: nat) -> int {
        self.mantissa * pow10((t - self.scale) as nat)
    }

    /// The zero value.
    pub fn zero() -> (r: Decimal)
        ensures
            r.wf(),
            r.v() == 0,
            r == (Decimal { mantissa: 0, scale: 0 }),
    {
        Decimal { mantissa: 0, scale: 0 }
    }

    /// A decimal with the value mantissa / 10^scale, if representable.
    pub fn new(mantissa: i128, scale: u32) -> (r: Option<Decimal>)
        ensures
            r is Some <==> (scale <= MAX_SCALE && fits_i128(mantissa as int)),
            r matches Some(c) ==> c.wf() && c.v() == mantissa * pow10(
                (MAX_SCALE - scale) as nat,
            ),
    {
        if scale <= MAX_SCALE && mantissa != i128::MIN {
            Some(normalize(mantissa, scale))
        } else {
            None
        }
    }

    /// The additive inverse.
    pub open spec fn spec_neg(self) -> Decimal {
        Decimal { mantissa: -self.mantissa as i128, scale: self.scale }
    }

    /// Negate the value.
    pub fn neg(self) -> (r: Decimal)
        requires
            self.wf(),
        ensures
            r == self.spec_neg(),
            r.wf(),
            r.v() == -self.v(),
    {
        proof {
            lemma_neg_wf(self);
        }
        Decimal { mantissa: -self.mantissa, scale: self.scale }
    }

    /// Whether the value is zero.
    pub fn is_zero(&self) -> (r: bool)
        requires
            self.wf(),
        ensures
            r == (self.v() == 0),
    {
        proof {
            lemma_v_sign(*self);
        }
        self.mantissa == 0
    }

    /// Whether the value is strictly positive.
    pub fn is_positive(&self) -> (r: bool)
        requires
            self.wf(),
        ensures
            r == (self.v() > 0),
    {
        proof {
            lemma_v_sign(*self);
        }
        self.mantissa > 0
    }

    /// Whether the value is strictly negative.
    pub fn is_negative(&self) -> (r: bool)
        requires
            self.wf(),
        ensures
            r == (self.v() < 0),
    {
        proof {
            lemma_v_sign(*self);
        }
        self.mantissa < 0
    }

    /// Exact comparison: whether `self <= other` as values.
    pub fn le(&self, other: &Decimal) -> (r: bool)
        requires
            self.wf(),
            other.wf(),
        ensures
            r == (self.v() <= other.v()),
    {
        let (qa, fa) = split(self);
        let (qb, fb) = split(other);
        proof {
            lemma_pow_positive(10, MAX_SCALE as nat);
            lemma_lex_compare(qa as int, fa as int, qb as int, fb as int, pow10(MAX_SCALE as nat));
        }
        qa < qb || (qa == qb && fa <= fb)
    }

    /// Exact comparison: whether `self < other` as values.
    pub fn lt(&self, other: &Decimal) -> (r: bool)
        requires
            self.wf(),
            other.wf(),
        ensures
            r == (self.v() < other.v()),
    {
        !other.le(self)
    }

    /// Exact comparison: whether the two values are equal.
    pub fn eq_value(&self, other: &Decimal) -> (r: bool)
        requires
            self.wf(),
            other.wf(),
        ensures
            r == (self.v() == other.v()),
    {
        self.le(other) && other.le(self)
    }
}

/// The sign of the value is the sign of the mantissa.
pub proof fn lemma_v_sign(d: Decimal)
    ensures
        d.v() > 0 <==> d.mantissa > 0,
        d.v() < 0 <==> d.mantissa < 0,
        d.v() == 0 <==> d.mantissa == 0,
{
    let p = pow10((MAX_SCALE - d.scale) as nat);
    lemma_pow_positive(10, (MAX_SCALE - d.scale) as nat);
    lemma_mul_sign(d.mantissa as int, p);
}

/// Sign of a product by a positive factor.
proof fn lemma_mul_sign(a: int, p: int)
    requires
        p >= 1,
    ensures
        a * p > 0 <==> a > 0,
        a * p < 0 <==> a < 0,
        a * p == 0 <==> a == 0,
{
    if a > 0 {
        assert(a * p >= 1) by (nonlinear_arith)
            requires a >= 1 && p >= 1;
    } else if a < 0 {
        assert(a * p <= -1) by (nonlinear_arith)
            requires a <= -1 && p >= 1;
    } else {
        assert(0 * p == 0) by (nonlinear_arith);
    }
}

/// 10^28 as a number.
pub proof fn lemma_pow10_28()
    ensures
        pow10(28) == 10000000000000000000000000000,
{
    assert(pow(10, 28) == 10000000000000000000000000000) by {
        reveal_with_fuel(pow, 29);
    }
}

/// 10^e as an `i128`, for exponents up to the scale bound.
pub fn pow10_i128(e: u32) -> (r: i128)
    requires
        e <= MAX_SCALE,
    ensures
        r == pow10(e as nat),
        1 <= r <= pow10(MAX_SCALE as nat),
{
    let mut r: i128 = 1;
    let mut i: u32 = 0;
    proof {
        reveal(pow);
    }
    while i < e
        invariant
            i <= e <= MAX_SCALE,
            r == pow10(i as nat),
        decreases e - i,
    {
        proof {
            lemma_pow_increases(10, i as nat, 27);
            lemma_pow10_28();
            assert(pow(10, 28) == 10 * pow(10, 27)) by {
                reveal(pow);
            }
            lemma_pow_positive(10, i as nat);
            lemma_pow_positive(10, 27);
        }
        r = r * 10;
        i = i + 1;
        assert(r == pow10(i as nat)) by {
            reveal(pow);
        }
    }
    proof {
        lemma_pow_positive(10, e as nat);
        lemma_pow_increases(10, e as nat, MAX_SCALE as nat);
    }
    r
}

/// The canonical (mantissa, scale) pair for the value m / 10^s: trailing
/// fractional zeros stripped.
pub open spec fn spec_normalize(m: int, s: nat) -> (int, nat)
    decreases s,
{
    if s > 0 && m % 10 == 0 {
        spec_normalize(m / 10, (s - 1) as nat)
    } else {
        (m, s)
    }
}

/// Strip trailing fractional zeros, producing the canonical representation
/// of the value m0 / 10^s0.
pub fn normalize(m0: i128, s0: u32) -> (r: Decimal)
    requires
        s0 <= MAX_SCALE,
        fits_i128(m0 as int),
    ensures
        r.wf(),
        r.v() == m0 * pow10((MAX_SCALE - s0) as nat),
        (r.mantissa as int, r.scale as nat) == spec_normalize(m0 as int, s0 as nat),
{
    let mut m = m0;
    let mut s = s0;
    loop
        invariant
            s <= MAX_SCALE,
            fits_i128(m as int),
            m * pow10((MAX_SCALE - s) as nat) == m0 * pow10((MAX_SCALE - s0) as nat),
            spec_normalize(m as int, s as nat) == spec_normalize(m0 as int, s0 as nat),
        ensures
            s == 0 || m as int % 10 != 0,
            s <= MAX_SCALE,
            fits_i128(m as int),
            m * pow10((MAX_SCALE - s) as nat) == m0 * pow10((MAX_SCALE - s0) as nat),
            spec_normalize(m as int, s as nat) == spec_normalize(m0 as int, s0 as nat),
        decreases s,
    {
        if s == 0 {
            break;
        }
        let r10 = m.checked_rem_euclid(10).unwrap();
        if r10 != 0 {
            break;
        }
        let q = m.checked_div_euclid(10).unwrap();
        proof {
            lemma_fundamental_div_mod(m as int, 10);
            assert(m == 10 * q);
            // q * 10^(29 - s) == (10 * q) * 10^(28 - s)
            assert(pow10((MAX_SCALE - (s - 1)) as nat) == 10 * pow10((MAX_SCALE - s) as nat)) by {
                reveal(pow);
            }
            assert(q * (10 * pow10((MAX_SCALE - s) as nat)) == (10 * q) * pow10((MAX_SCALE - s) as nat))
                by (nonlinear_arith);
            // the new mantissa still fits: 10 * q == m within bounds
            assert(fits_i128(q as int)) by (nonlinear_arith)
                requires m == 10 * q && fits_i128(m as int);
        }
        m = q;
        s = s - 1;
    }
    if m == 0 && s != 0 {
        // unreachable: a zero mantissa is divisible by 10, so the loop
        // above only stops on s == 0
        proof {
            assert(false);
        }
    }
    Decimal { mantissa: m, scale: s }
}

/// A nonnegative integer n < 10^28, decomposed at a power 10^s, rescaled
/// by the complementary power: n * 10^rest = q * 10^28 + f * 10^rest.
proof fn lemma_decompose(n: int, s: nat, rest: nat, q: int, f: int)
    requires
        n == pow10(s) * q + f,
        0 <= f < pow10(s),
        s + rest == MAX_SCALE,
    ensures
        n * pow10(rest) == q * pow10(MAX_SCALE as nat) + f * pow10(rest),
        0 <= f * pow10(rest) < pow10(MAX_SCALE as nat),
{
    lemma_pow_positive(10, s);
    lemma_pow_positive(10, rest);
    lemma_pow_adds(10, s, rest);
    assert((pow10(s) * q + f) * pow10(rest) == q * (pow10(s) * pow10(rest)) + f * pow10(rest))
        by (nonlinear_arith);
    lemma_mul_strict_inequality(f, pow10(s), pow10(rest));
    assert(f * pow10(rest) >= 0) by (nonlinear_arith)
        requires f >= 0 && pow10(rest) >= 1;
}

/// Decompose a well-formed decimal as v = q * 10^28 + f with 0 <= f < 10^28.
fn split(d: &Decimal) -> (r: (i128, i128))
    requires
        d.wf(),
    ensures
        d.v() == r.0 * pow10(MAX_SCALE as nat) + r.1,
        0 <= r.1 < pow10(MAX_SCALE as nat),
        fits_i128(r.0 as int),
{
    let ghost rest = (MAX_SCALE - d.scale) as nat;
    let p = pow10_i128(d.scale);
    let neg = d.mantissa < 0;
    let n: i128 = if neg { -d.mantissa } else { d.mantissa };
    proof {
        lemma_div_pos_is_pos(n as int, p as int);
        lemma_div_nonincreasing(n as int, p as int);
        lemma_remainder_lower(n as int, p as int);
        lemma_remainder_upper(n as int, p as int);
    }
    let qn = n.checked_div_euclid(p).unwrap();
    let fn_ = n.checked_rem_euclid(p).unwrap();
    let pr = pow10_i128(MAX_SCALE - d.scale);
    proof {
        lemma_fundamental_div_mod(n as int, p as int);
        lemma_decompose(n as int, d.scale as nat, rest, qn as int, fn_ as int);
        lemma_pow10_28();
    }
    let fpos = fn_ * pr;
    if !neg {
        (qn, fpos)
    } else {
        proof {
            assert(d.v() == (-(n as int)) * pow10(rest));
            assert((-(n as int)) * pow10(rest) == -(n * pow10(rest))) by (nonlinear_arith);
            assert((-qn) * pow10(MAX_SCALE as nat) == -(qn * pow10(MAX_SCALE as nat)))
                by (nonlinear_arith);
        }
        if fpos == 0 {
            (-qn, 0)
        } else {
            let p28 = pow10_i128(MAX_SCALE);
            proof {
                assert((-qn - 1) * pow10(MAX_SCALE as nat)
                    == -(qn * pow10(MAX_SCALE as nat)) - pow10(MAX_SCALE as nat))
                    by (nonlinear_arith);
                // fn_ > 0 forces a fractional power >= 10, so qn has slack
                assert(pow10(d.scale as nat) >= 10) by {
                    reveal(pow);
                    lemma_pow_positive(10, (d.scale - 1) as nat);
                }
                assert(qn < i128::MAX) by (nonlinear_arith)
                    requires
                        n == pow10(d.scale as nat) * qn + fn_
                            && qn >= 0
                            && fn_ >= 0
                            && pow10(d.scale as nat) >= 10
                            && n <= i128::MAX;
            }
            (-qn - 1, p28 - fpos)
        }
    }
}

/// The larger of the two scales: the scale at which both values can be
/// written exactly.
pub open spec fn common_scale(a: Decimal, b: Decimal) -> nat {
    if a.scale >= b.scale {
        a.scale as nat
    } else {
        b.scale as nat
    }
}

/// Whether the exact sum of the two values can be computed within
/// 128-bit intermediate results at the common scale.
pub open spec fn add_fits(a: Decimal, b: Decimal) -> bool {
    let t = common_scale(a, b);
    &&& fits_i128(a.at_scale(t))
    &&& fits_i128(b.at_scale(t))
    &&& fits_i128(a.at_scale(t) + b.at_scale(t))
}

/// Whether the product of the two mantissas fits in 128 bits.
pub open spec fn mul_fits(a: Decimal, b: Decimal) -> bool {
    fits_i128(a.mantissa * b.mantissa)
}

/// The canonical decimal with the value m / 10^s.
pub open spec fn canon(m: int, s: nat) -> Decimal {
    let (cm, cs) = spec_normalize(m, s);
    Decimal { mantissa: cm as i128, scale: cs as u32 }
}

/// What `checked_add` returns: the canonical exact sum, or `None` on
/// overflow.
pub open spec fn spec_add(a: Decimal, b: Decimal) -> Option<Decimal> {
    if add_fits(a, b) {
        let t = common_scale(a, b);
        Some(canon(a.at_scale(t) + b.at_scale(t), t))
    } else {
        None
    }
}

/// What `checked_sub` returns.
pub open spec fn spec_sub(a: Decimal, b: Decimal) -> Option<Decimal> {
    spec_add(a, b.spec_neg())
}

/// What `checked_mul` returns: the canonical product, truncated toward
/// zero at MAX_SCALE fractional digits, or `None` on overflow.
pub open spec fn spec_mul(a: Decimal, b: Decimal) -> Option<Decimal> {
    if mul_fits(a, b) {
        let p = a.mantissa * b.mantissa;
        let s = a.scale + b.scale;
        if s <= MAX_SCALE {
            Some(canon(p, (s as nat)))
        } else {
            Some(canon(tdiv(p, pow10((s - MAX_SCALE) as nat)), MAX_SCALE as nat))
        }
    } else {
        None
    }
}

/// What `checked_div` returns for a nonnegative dividend and positive
/// divisor: the canonical quotient truncated at MAX_SCALE fractional
/// digits, or `None` when it cannot be computed in 128 bits.
pub open spec fn spec_div(a: Decimal, b: Decimal) -> Option<Decimal> {
    let q = (a.v() * pow10(MAX_SCALE as nat)) / b.v();
    if b.mantissa <= i128::MAX / 10 && q <= i128::MAX as int {
        Some(canon(q, MAX_SCALE as nat))
    } else {
        None
    }
}

impl Decimal {
    /// Exact addition; `None` when an intermediate result would overflow.
    pub fn checked_add(self, other: Decimal) -> (r: Option<Decimal>)
        requires
            self.wf(),
            other.wf(),
        ensures
            r == spec_add(self, other),
            r is Some <==> add_fits(self, other),
            r matches Some(c) ==> c.wf() && c.v() == self.v() + other.v(),
    {
        let t: u32 = if self.scale >= other.scale {
            self.scale
        } else {
            other.scale
        };
        let fa = pow10_i128(t - self.scale);
        let fb = pow10_i128(t - other.scale);
        let xa_o = self.mantissa.checked_mul(fa);
        let xb_o = other.mantissa.checked_mul(fb);
        match (xa_o, xb_o) {
            (Some(xa), Some(xb)) => {
                if xa == i128::MIN || xb == i128::MIN {
                    return None;
                }
                match xa.checked_add(xb) {
                    Some(sum) => {
                        if sum == i128::MIN {
                            None
                        } else {
                            proof {
                                lemma_at_scale_to_v(self, t as nat);
                                lemma_at_scale_to_v(other, t as nat);
                                lemma_mul_is_distributive_add_other_way(
                                    pow10((MAX_SCALE - t) as nat),
                                    xa as int,
                                    xb as int,
                                );
                            }
                            Some(normalize(sum, t))
                        }
                    },
                    None => None,
                }
            },
            _ => None,
        }
    }

    /// Exact subtraction; `None` when an intermediate result would overflow.
    pub fn checked_sub(self, other: Decimal) -> (r: Option<Decimal>)
        requires
            self.wf(),
            other.wf(),
        ensures
            r == spec_sub(self, other),
            r is Some <==> add_fits(self, other.spec_neg()),
            r matches Some(c) ==> c.wf() && c.v() == self.v() - other.v(),
    {
        self.checked_add(other.neg())
    }

    /// Multiplication, exact up to the scale bound: when the exact product
    /// needs more than MAX_SCALE fractional digits, it is truncated toward
    /// zero at MAX_SCALE digits. `None` when the product of the mantissas
    /// overflows 128 bits.
    pub fn checked_mul(self, other: Decimal) -> (r: Option<Decimal>)
        requires
            self.wf(),
            other.wf(),
        ensures
            r == spec_mul(self, other),
            r is Some <==> mul_fits(self, other),
            r matches Some(c) ==> c.wf() && c.v() == tdiv(
                self.v() * other.v(),
                pow10(MAX_SCALE as nat),
            ),
    {
        let p = match self.mantissa.checked_mul(other.mantissa) {
            Some(p) => p,
            None => {
                return None;
            },
        };
        if p == i128::MIN {
            return None;
        }
        let s: u32 = self.scale + other.scale;
        proof {
            lemma_vv_as_mantissa_product(self, other, p as int);
        }
        let ghost rest2 = ((MAX_SCALE - self.scale) + (MAX_SCALE - other.scale)) as nat;
        if s <= MAX_SCALE {
            proof {
                lemma_pow_adds(10, MAX_SCALE as nat, (MAX_SCALE - s) as nat);
                lemma_pow_positive(10, MAX_SCALE as nat);
                lemma_pow_positive(10, (MAX_SCALE - s) as nat);
                // v(a) * v(b) == (p * 10^(28 - s)) * 10^28
                assert(p * (pow10(MAX_SCALE as nat) * pow10((MAX_SCALE - s) as nat)) == (p * pow10(
                    (MAX_SCALE - s) as nat,
                )) * pow10(MAX_SCALE as nat)) by (nonlinear_arith);
                assert(self.v() * other.v() == (p * pow10((MAX_SCALE - s) as nat)) * pow10(
                    MAX_SCALE as nat,
                ));
                lemma_tdiv_exact(self.v() * other.v(), pow10(MAX_SCALE as nat));
            }
            Some(normalize(p, s))
        } else {
            let d: u32 = s - MAX_SCALE;
            let pw = pow10_i128(d);
            let neg = p < 0;
            let np: i128 = if neg { -p } else { p };
            proof {
                lemma_div_pos_is_pos(np as int, pw as int);
                lemma_div_nonincreasing(np as int, pw as int);
            }
            let q = np.checked_div_euclid(pw).unwrap();
            let qs: i128 = if neg { -q } else { q };
            proof {
                assert(qs == tdiv(p as int, pow10(d as nat)));
                lemma_pow_positive(10, rest2);
                lemma_pow_positive(10, d as nat);
                // 10^d * 10^rest2 == 10^28 since d + rest2 == 28
                lemma_pow_adds(10, d as nat, rest2);
                lemma_tdiv_cancel(p as int, pow10(rest2), pow10(d as nat));
                lemma_pow0(10);
                assert(qs * pow10((MAX_SCALE - MAX_SCALE) as nat) == qs);
            }
            Some(normalize(qs, MAX_SCALE))
        }
    }

    /// Division of a nonnegative value by a positive value, the quotient
    /// truncated at MAX_SCALE fractional digits. `None` when the divisor's
    /// mantissa or the quotient is too large for 128 bits.
    pub fn checked_div(self, other: Decimal) -> (r: Option<Decimal>)
        requires
            self.wf(),
            other.wf(),
            self.v() >= 0,
            other.v() > 0,
        ensures
            r == spec_div(self, other),
            r is Some <==> (other.mantissa <= i128::MAX / 10 && (self.v() * pow10(
                MAX_SCALE as nat,
            )) / other.v() <= i128::MAX as int),
            r matches Some(c) ==> c.wf() && c.v() == (self.v() * pow10(MAX_SCALE as nat))
                / other.v(),
    {
        proof {
            lemma_v_sign(self);
            lemma_v_sign(other);
        }
        let ma = self.mantissa;
        let mb = other.mantissa;
        let ghost target = (self.v() * pow10(MAX_SCALE as nat)) / other.v();
        let ghost kk = (MAX_SCALE - self.scale + other.scale) as nat;
        proof {
            lemma_div_quotients_agree(self, other);
        }
        if mb > i128::MAX / 10 {
            return None;
        }
        let k: u32 = MAX_SCALE - self.scale + other.scale;
        proof {
            lemma_div_pos_is_pos(ma as int, mb as int);
            lemma_div_nonincreasing(ma as int, mb as int);
            lemma_mod_division_less_than_divisor(ma as int, mb as int);
            lemma_pow0(10);
        }
        let mut q = ma.checked_div_euclid(mb).unwrap();
        let mut rr = ma.checked_rem_euclid(mb).unwrap();
        let mut i: u32 = 0;
        proof {
            lemma_fundamental_div_mod(ma as int, mb as int);
        }
        while i < k
            invariant
                i <= k,
                k == kk,
                0 < mb <= i128::MAX / 10,
                ma >= 0,
                q >= 0,
                0 <= rr < mb,
                ma * pow10(i as nat) == q * mb + rr,
                target == (ma * pow10(kk)) / (mb as int),
                mb == other.mantissa,
                target == (self.v() * pow10(MAX_SCALE as nat)) / other.v(),
            decreases k - i,
        {
            let rr10 = rr * 10;
            proof {
                lemma_div_pos_is_pos(rr10 as int, mb as int);
                lemma_mod_division_less_than_divisor(rr10 as int, mb as int);
                lemma_div_nonincreasing(rr10 as int, mb as int);
            }
            let dgt = rr10.checked_div_euclid(mb).unwrap();
            let rr2 = rr10.checked_rem_euclid(mb).unwrap();
            proof {
                lemma_fundamental_div_mod(rr10 as int, mb as int);
                // ma * 10^(i+1) == (10q + dgt) * mb + rr2
                lemma_step_quotient(
                    ma as int,
                    mb as int,
                    q as int,
                    rr as int,
                    dgt as int,
                    rr2 as int,
                    i as nat,
                );
            }
            let q10 = match q.checked_mul(10) {
                Some(v) => v,
                None => {
                    proof {
                        lemma_fundamental_div_mod_converse(
                            ma * pow10((i + 1) as nat),
                            mb as int,
                            10 * q + dgt,
                            rr2 as int,
                        );
                        assert(10 * q + dgt == (ma * pow10((i + 1) as nat)) / (mb as int));
                        lemma_quotient_monotone(ma as int, mb as int, (i + 1) as nat, kk);
                        assert((ma * pow10((i + 1) as nat)) / (mb as int) <= target);
                        assert(q * 10 > i128::MAX);
                        assert(target > i128::MAX as int);
                    }
                    return None;
                },
            };
            let qn = match q10.checked_add(dgt) {
                Some(v) => v,
                None => {
                    proof {
                        lemma_fundamental_div_mod_converse(
                            ma * pow10((i + 1) as nat),
                            mb as int,
                            10 * q + dgt,
                            rr2 as int,
                        );
                        lemma_quotient_monotone(ma as int, mb as int, (i + 1) as nat, kk);
                    }
                    return None;
                },
            };
            q = qn;
            rr = rr2;
            i = i + 1;
        }
        proof {
            assert(i == k);
            lemma_fundamental_div_mod_converse(ma * pow10(kk), mb as int, q as int, rr as int);
            assert(q == target);
            lemma_pow0(10);
        }
        let c = normalize(q, MAX_SCALE);
        proof {
            assert((MAX_SCALE - MAX_SCALE) as nat == 0nat);
            assert(c.v() == q * pow10(0));
            assert(pow10(0) == 1);
            assert(q * 1 == q) by (nonlinear_arith);
            assert(c.v() == q);
        }
        Some(c)
    }
}

/// The canonical form preserves the value, stays in range, and is
/// canonical.
pub proof fn lemma_spec_normalize(m: int, s: nat)
    requires
        s <= MAX_SCALE,
        fits_i128(m),
    ensures
        ({
            let (cm, cs) = spec_normalize(m, s);
            &&& cs <= s
            &&& fits_i128(cm)
            &&& (cm == 0 ==> cs == 0)
            &&& (cs > 0 ==> cm % 10 != 0)
            &&& cm * pow10((MAX_SCALE - cs) as nat) == m * pow10((MAX_SCALE - s) as nat)
            &&& canon(m, s).wf()
            &&& canon(m, s).v() == m * pow10((MAX_SCALE - s) as nat)
        }),
    decreases s,
{
    if s > 0 && m % 10 == 0 {
        let q = m / 10;
        lemma_fundamental_div_mod(m, 10);
        assert(m == 10 * q);
        assert(fits_i128(q)) by (nonlinear_arith)
            requires m == 10 * q && fits_i128(m);
        lemma_spec_normalize(q, (s - 1) as nat);
        assert(pow10((MAX_SCALE - (s - 1)) as nat) == 10 * pow10((MAX_SCALE - s) as nat)) by {
            reveal(pow);
        }
        assert(q * (10 * pow10((MAX_SCALE - s) as nat)) == (10 * q) * pow10((MAX_SCALE - s) as nat))
            by (nonlinear_arith);
    } else {
        if m == 0 && s > 0 {
            assert(m % 10 == 0);
        }
    }
}

/// The value of a well-formed `spec_add` result: the exact sum.
pub proof fn lemma_spec_add_v(a: Decimal, b: Decimal)
    requires
        a.wf(),
        b.wf(),
        spec_add(a, b) is Some,
    ensures
        spec_add(a, b) matches Some(c) && c.wf() && c.v() == a.v() + b.v(),
{
    let t = common_scale(a, b);
    let x = a.at_scale(t);
    let y = b.at_scale(t);
    lemma_spec_normalize(x + y, t);
    lemma_at_scale_to_v(a, t);
    lemma_at_scale_to_v(b, t);
    lemma_mul_is_distributive_add_other_way(pow10((MAX_SCALE - t) as nat), x, y);
}

/// The value of a well-formed `spec_sub` result: the exact difference.
pub proof fn lemma_spec_sub_v(a: Decimal, b: Decimal)
    requires
        a.wf(),
        b.wf(),
        spec_sub(a, b) is Some,
    ensures
        spec_sub(a, b) matches Some(c) && c.wf() && c.v() == a.v() - b.v(),
{
    lemma_neg_wf(b);
    lemma_spec_add_v(a, b.spec_neg());
}

/// The value of a well-formed `spec_mul` result: the product truncated
/// at MAX_SCALE fractional digits.
pub proof fn lemma_spec_mul_v(a: Decimal, b: Decimal)
    requires
        a.wf(),
        b.wf(),
        spec_mul(a, b) is Some,
    ensures
        spec_mul(a, b) matches Some(c) && c.wf() && c.v() == tdiv(
            a.v() * b.v(),
            pow10(MAX_SCALE as nat),
        ),
        (a.scale + b.scale <= MAX_SCALE) ==> spec_mul(a, b)->Some_0.v() * pow10(MAX_SCALE as nat)
            == a.v() * b.v(),
{
    let p = a.mantissa * b.mantissa;
    let s = a.scale + b.scale;
    let rest2 = ((MAX_SCALE - a.scale) + (MAX_SCALE - b.scale)) as nat;
    lemma_vv_as_mantissa_product(a, b, p);
    if s <= MAX_SCALE {
        lemma_spec_normalize(p, s as nat);
        lemma_pow_adds(10, MAX_SCALE as nat, (MAX_SCALE - s) as nat);
        lemma_pow_positive(10, MAX_SCALE as nat);
        lemma_pow_positive(10, (MAX_SCALE - s) as nat);
        assert(p * (pow10(MAX_SCALE as nat) * pow10((MAX_SCALE - s) as nat)) == (p * pow10(
            (MAX_SCALE - s) as nat,
        )) * pow10(MAX_SCALE as nat)) by (nonlinear_arith);
        assert(a.v() * b.v() == (p * pow10((MAX_SCALE - s) as nat)) * pow10(MAX_SCALE as nat));
        lemma_tdiv_exact(a.v() * b.v(), pow10(MAX_SCALE as nat));
    } else {
        let d = (s - MAX_SCALE) as nat;
        lemma_pow_positive(10, rest2);
        lemma_pow_positive(10, d);
        lemma_pow_adds(10, d, rest2);
        lemma_tdiv_cancel(p, pow10(rest2), pow10(d));
        let q = tdiv(p, pow10(d));
        assert(fits_i128(q)) by {
            lemma_pow_positive(10, d);
            if p >= 0 {
                lemma_div_pos_is_pos(p, pow10(d));
                lemma_div_nonincreasing(p, pow10(d));
            } else {
                lemma_div_pos_is_pos(-p, pow10(d));
                lemma_div_nonincreasing(-p, pow10(d));
            }
        }
        lemma_spec_normalize(q, MAX_SCALE as nat);
        lemma_pow0(10);
        assert(q * pow10((MAX_SCALE - MAX_SCALE) as nat) == q * 1);
        assert(q * 1 == q) by (nonlinear_arith);
    }
}

/// The value product of two decimals is the mantissa product scaled by
/// the remaining powers of ten.
proof fn lemma_vv_as_mantissa_product(a: Decimal, b: Decimal, p: int)
    requires
        a.scale <= MAX_SCALE,
        b.scale <= MAX_SCALE,
        p == a.mantissa * b.mantissa,
    ensures
        a.v() * b.v() == p * pow10(((MAX_SCALE - a.scale) + (MAX_SCALE - b.scale)) as nat),
{
    lemma_pow_adds(10, (MAX_SCALE - a.scale) as nat, (MAX_SCALE - b.scale) as nat);
    assert((a.mantissa * pow10((MAX_SCALE - a.scale) as nat)) * (b.mantissa * pow10(
        (MAX_SCALE - b.scale) as nat,
    )) == (a.mantissa * b.mantissa) * (pow10((MAX_SCALE - a.scale) as nat) * pow10(
        (MAX_SCALE - b.scale) as nat,
    ))) by (nonlinear_arith);
}

/// Truncating division is exact on exact multiples.
proof fn lemma_tdiv_exact(x: int, c: int)
    requires
        c >= 1,
        exists|kq: int| x == #[trigger] (kq * c),
    ensures
        tdiv(x, c) * c == x,
        forall|kq: int| x == #[trigger] (kq * c) ==> tdiv(x, c) == kq,
{
    let kq = choose|kq: int| x == #[trigger] (kq * c);
    assert(c * kq == kq * c) by (nonlinear_arith);
    lemma_div_multiples_vanish(kq, c);
    if x >= 0 {
        assert(tdiv(x, c) == kq);
    } else {
        assert(-x == (-kq) * c) by (nonlinear_arith)
            requires x == kq * c;
        assert(c * (-kq) == (-kq) * c) by (nonlinear_arith);
        lemma_div_multiples_vanish(-kq, c);
        assert(tdiv(x, c) == kq);
    }
    assert(tdiv(x, c) * c == kq * c) by (nonlinear_arith)
        requires tdiv(x, c) == kq;
    assert forall|kq2: int| x == #[trigger] (kq2 * c) implies tdiv(x, c) == kq2 by {
        assert(kq2 * c == kq * c ==> kq2 == kq) by (nonlinear_arith)
            requires c >= 1;
    }
}

/// Common factors cancel under truncating division.
proof fn lemma_tdiv_cancel(x: int, c: int, e: int)
    requires
        c >= 1,
        e >= 1,
    ensures
        tdiv(x * c, e * c) == tdiv(x, e),
{
    if x >= 0 {
        assert(x * c >= 0) by (nonlinear_arith)
            requires x >= 0 && c >= 1;
        assert(e * c > 0) by (nonlinear_arith)
            requires c >= 1 && e >= 1;
        lemma_div_denominator(x * c, c, e);
        assert(c * x == x * c) by (nonlinear_arith);
        lemma_div_multiples_vanish(x, c);
        assert(c * e == e * c) by (nonlinear_arith);
        assert(tdiv(x * c, e * c) == tdiv(x, e));
    } else {
        assert((-x) * c == -(x * c)) by (nonlinear_arith);
        assert((-x) * c >= 0) by (nonlinear_arith)
            requires x < 0 && c >= 1;
        assert(e * c > 0) by (nonlinear_arith)
            requires c >= 1 && e >= 1;
        lemma_div_denominator((-x) * c, c, e);
        assert(c * (-x) == (-x) * c) by (nonlinear_arith);
        lemma_div_multiples_vanish(-x, c);
        assert(c * e == e * c) by (nonlinear_arith);
        assert(tdiv(x * c, e * c) == tdiv(x, e));
    }
}

/// The scaled-quotient target of `checked_div`, restated over mantissas:
/// (v(a) * 10^28) / v(b) == (ma * 10^k) / mb with k = 28 - sa + sb.
proof fn lemma_div_quotients_agree(a: Decimal, b: Decimal)
    requires
        a.wf(),
        b.wf(),
        a.v() >= 0,
        b.v() > 0,
    ensures
        (a.v() * pow10(MAX_SCALE as nat)) / b.v() == (a.mantissa * pow10(
            ((MAX_SCALE - a.scale) + b.scale) as nat,
        )) / (b.mantissa as int),
{
    let ra = (MAX_SCALE - a.scale) as nat;
    let rb = (MAX_SCALE - b.scale) as nat;
    let k = (ra + b.scale) as nat;
    lemma_v_sign(a);
    lemma_v_sign(b);
    lemma_pow_positive(10, ra);
    lemma_pow_positive(10, rb);
    lemma_pow_positive(10, k);
    lemma_pow_positive(10, MAX_SCALE as nat);
    // a.v() * 10^28 == (ma * 10^k) * 10^rb
    lemma_pow_adds(10, k, rb);
    assert(k + rb == ra + MAX_SCALE);
    lemma_pow_adds(10, ra, MAX_SCALE as nat);
    assert((a.mantissa * pow10(ra)) * pow10(MAX_SCALE as nat) == (a.mantissa * pow10(k)) * pow10(
        rb,
    )) by (nonlinear_arith)
        requires
            pow10(ra) * pow10(MAX_SCALE as nat) == pow10((ra + MAX_SCALE) as nat)
                && pow10(k) * pow10(rb) == pow10((k + rb) as nat)
                && pow10((ra + MAX_SCALE) as nat) == pow10((k + rb) as nat);
    // cancel the common factor 10^rb against b.v() == mb * 10^rb
    let x = a.mantissa * pow10(k);
    let y = b.mantissa as int;
    assert(x >= 0) by (nonlinear_arith)
        requires a.mantissa >= 0 && pow10(k) >= 1 && x == a.mantissa * pow10(k);
    assert(x * pow10(rb) >= 0) by (nonlinear_arith)
        requires x >= 0 && pow10(rb) >= 1;
    assert(y * pow10(rb) > 0) by (nonlinear_arith)
        requires y >= 1 && pow10(rb) >= 1;
    lemma_div_denominator(x * pow10(rb), pow10(rb), y);
    assert(pow10(rb) * x == x * pow10(rb)) by (nonlinear_arith);
    lemma_div_multiples_vanish(x, pow10(rb));
    assert(pow10(rb) * y == y * pow10(rb)) by (nonlinear_arith);
}

/// One long-division step: folding the next digit into the quotient.
proof fn lemma_step_quotient(ma: int, mb: int, q: int, rr: int, dgt: int, rr2: int, i: nat)
    requires
        mb > 0,
        ma * pow10(i) == q * mb + rr,
        rr * 10 == mb * dgt + rr2,
        0 <= rr2 < mb,
    ensures
        ma * pow10((i + 1) as nat) == (10 * q + dgt) * mb + rr2,
{
    lemma_pow_adds(10, i, 1);
    lemma_pow1(10);
    assert(pow10((i + 1) as nat) == pow10(i) * 10);
    assert(ma * (pow10(i) * 10) == (ma * pow10(i)) * 10) by (nonlinear_arith);
    assert((q * mb + rr) * 10 == (10 * q) * mb + rr * 10) by (nonlinear_arith);
    assert((10 * q) * mb + mb * dgt == (10 * q + dgt) * mb) by (nonlinear_arith);
}

/// The long-division quotient grows with the number of appended digits.
proof fn lemma_quotient_monotone(ma: int, mb: int, i: nat, k: nat)
    requires
        mb > 0,
        ma >= 0,
        i <= k,
    ensures
        (ma * pow10(i)) / mb <= (ma * pow10(k)) / mb,
{
    lemma_pow_positive(10, i);
    lemma_pow_positive(10, k);
    lemma_pow_increases(10, i, k);
    assert(ma * pow10(i) <= ma * pow10(k)) by (nonlinear_arith)
        requires ma >= 0 && pow10(i) <= pow10(k);
    lemma_div_is_ordered(ma * pow10(i), ma * pow10(k), mb);
}

/// Negation preserves well-formedness and negates the value.
proof fn lemma_neg_wf(d: Decimal)
    requires
        d.wf(),
    ensures
        d.spec_neg().wf(),
        d.spec_neg().v() == -d.v(),
        d.spec_neg().mantissa == -(d.mantissa as int),
{
    let m = d.mantissa as int;
    if d.scale > 0 {
        lemma_mod_division_less_than_divisor(m, 10);
        lemma_mod_division_less_than_divisor(-m, 10);
        lemma_fundamental_div_mod(m, 10);
        lemma_fundamental_div_mod(-m, 10);
        if (-m) % 10 == 0 {
            let q1 = m / 10;
            let q2 = (-m) / 10;
            assert(m % 10 == -10 * (q1 + q2)) by (nonlinear_arith)
                requires m == 10 * q1 + m % 10 && -m == 10 * q2;
            assert(false);
        }
    }
    assert((-m) * pow10((MAX_SCALE - d.scale) as nat) == -(m * pow10((MAX_SCALE - d.scale) as nat)))
        by (nonlinear_arith);
}

/// Rescaling to a larger scale then back down to MAX_SCALE yields v().
proof fn lemma_at_scale_to_v(d: Decimal, t: nat)
    requires
        d.scale <= t <= MAX_SCALE,
    ensures
        d.at_scale(t) * pow10((MAX_SCALE - t) as nat) == d.v(),
{
    lemma_pow_adds(10, (t - d.scale) as nat, (MAX_SCALE - t) as nat);
    assert((d.mantissa * pow10((t - d.scale) as nat)) * pow10((MAX_SCALE - t) as nat)
        == d.mantissa * (pow10((t - d.scale) as nat) * pow10((MAX_SCALE - t) as nat)))
        by (nonlinear_arith);
}

/// Lexicographic comparison of euclidean decompositions: with both
/// fractional parts in [0, c), q1*c + f1 <= q2*c + f2 exactly when
/// (q1, f1) <= (q2, f2) lexicographically.
proof fn lemma_lex_compare(q1: int, f1: int, q2: int, f2: int, c: int)
    requires
        0 <= f1 < c,
        0 <= f2 < c,
    ensures
        (q1 * c + f1 <= q2 * c + f2) <==> (q1 < q2 || (q1 == q2 && f1 <= f2)),
{
    if q1 < q2 {
        lemma_mul_inequality(q1 + 1, q2, c);
        lemma_mul_is_distributive_add_other_way(c, q1, 1);
        assert(q1 * c + f1 <= q2 * c + f2);
    } else if q1 > q2 {
        lemma_mul_inequality(q2 + 1, q1, c);
        lemma_mul_is_distributive_add_other_way(c, q2, 1);
        assert(q2 * c + f2 < q1 * c + f1);
    }
}

} // verus!
