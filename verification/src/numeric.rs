//! Fixed-point complex arithmetic for amplitudes and gate entries.
//!
//! A complex number is stored as a pair of signed 64-bit components scaled
//! by `SCALE` (2^31), so the real value `1.0` is the component `SCALE`.
//! All engine arithmetic on these components is exact integer arithmetic,
//! which lets the simulator state precise contracts about every amplitude.

use vstd::arithmetic::div_mod::*;
use vstd::arithmetic::mul::*;
use vstd::prelude::*;

verus! {

/// The fixed-point unit: components are in units of `1 / SCALE` (2^31).
pub const SCALE: i64 = 2147483648;

/// `SCALE * SCALE`: the unit for squared magnitudes and probabilities.
pub const SCALE_SQ: u64 = 4611686018427387904;

/// Saturation bound for any stored component (8.0 in fixed-point units).
/// Unitary gates on normalized states stay far below it; it only exists to
/// keep every operation total without overflow.
pub const COMP_LIMIT: i64 = 17179869184;

/// One complex number in fixed-point form, such as one amplitude of the
/// register or one entry of a gate matrix.
#[derive(Debug, PartialEq, Eq, Clone, Copy, Structural)]
pub struct Complex {
    /// Real component, in units of `1 / SCALE`.
    pub re: i64,
    /// Imaginary component, in units of `1 / SCALE`.
    pub im: i64,
}

/// The mathematical value of a `Complex`: a pair of unbounded integers,
/// still in units of `1 / SCALE`.
pub struct ComplexVal {
    pub re: int,
    pub im: int,
}

impl View for Complex {
    type V = ComplexVal;

    open spec fn view(&self) -> ComplexVal {
        ComplexVal { re: self.re as int, im: self.im as int }
    }
}

impl Complex {
    /// The fixed-point zero.
    pub fn zero() -> (r: Complex)
        ensures
            r@ == c_zero(),
    {
        Complex { re: 0, im: 0 }
    }

    /// The fixed-point one (`SCALE + 0i`).
    pub fn one() -> (r: Complex)
        ensures
            r@ == c_one(),
    {
        Complex { re: SCALE, im: 0 }
    }
}

pub open spec fn c_zero() -> ComplexVal {
    ComplexVal { re: 0, im: 0 }
}

pub open spec fn c_one() -> ComplexVal {
    ComplexVal { re: SCALE as int, im: 0 }
}

pub open spec fn c_add(a: ComplexVal, b: ComplexVal) -> ComplexVal {
    ComplexVal { re: a.re + b.re, im: a.im + b.im }
}

/// The exact complex product, still carrying both factors' scales
/// (so the result is in units of `1 / SCALE^2`).
pub open spec fn c_mul(a: ComplexVal, b: ComplexVal) -> ComplexVal {
    ComplexVal { re: a.re * b.re - a.im * b.im, im: a.re * b.im + a.im * b.re }
}

/// Squared magnitude, in units of `1 / SCALE^2`.
pub open spec fn c_normsq(a: ComplexVal) -> int {
    a.re * a.re + a.im * a.im
}

/// Both components within `[-m, m]`.
pub open spec fn c_bounded(a: ComplexVal, m: int) -> bool {
    -m <= a.re <= m && -m <= a.im <= m
}

/// Division rounded toward zero (`d > 0`).
pub open spec fn rtz(x: int, d: int) -> int {
    if x >= 0 {
        x / d
    } else {
        -((-x) / d)
    }
}

/// Division of a non-negative value rounded up (`d > 0`).
pub open spec fn rup(x: int, d: int) -> int {
    (x + d - 1) / d
}

/// Division rounded away from zero (`d > 0`).
pub open spec fn raz(x: int, d: int) -> int {
    if x >= 0 {
        rup(x, d)
    } else {
        -rup(-x, d)
    }
}

/// Saturate a component at `COMP_LIMIT`.
pub open spec fn clamp_comp(x: int) -> int {
    if x > COMP_LIMIT {
        COMP_LIMIT as int
    } else if x < -(COMP_LIMIT as int) {
        -(COMP_LIMIT as int)
    } else {
        x
    }
}

/// Rescale a product accumulated in units of `1 / SCALE^2` back to
/// `1 / SCALE` units, rounding toward zero and saturating: this is what a
/// gate application stores for each new amplitude.
pub open spec fn c_project(a: ComplexVal) -> ComplexVal {
    ComplexVal {
        re: clamp_comp(rtz(a.re, SCALE as int)),
        im: clamp_comp(rtz(a.im, SCALE as int)),
    }
}

/// Renormalize an amplitude after a measurement: multiply by `SCALE / s`
/// where `s` is the integer square root of the surviving squared mass,
/// rounding away from zero so no probability mass is lost.
pub open spec fn c_renorm(a: ComplexVal, s: int) -> ComplexVal {
    ComplexVal { re: raz(a.re * SCALE, s), im: raz(a.im * SCALE, s) }
}

/// `|a * b| <= ma * mb` for bounded factors.
pub proof fn lemma_mul_abs_bound(a: int, b: int, ma: int, mb: int)
    by (nonlinear_arith)
    requires
        -ma <= a <= ma,
        -mb <= b <= mb,
    ensures
        -(ma * mb) <= a * b <= ma * mb,
{
}

/// A squared magnitude is never negative.
pub proof fn lemma_normsq_nonneg(a: ComplexVal)
    by (nonlinear_arith)
    ensures
        c_normsq(a) >= 0,
        a.re * a.re >= 0,
        a.im * a.im >= 0,
        a == c_zero() ==> c_normsq(a) == 0,
{
}

/// A square below `(s + 1)^2` bounds the absolute value by `s`.
pub proof fn lemma_abs_le_of_sq(x: int, s: int)
    by (nonlinear_arith)
    requires
        s >= 0,
        x * x < (s + 1) * (s + 1),
    ensures
        -s <= x <= s,
{
}

/// Facts about rounding a non-negative value up: the result covers the
/// numerator, and a bound on the numerator bounds the quotient.
pub proof fn lemma_rup_props(v: int, s: int, cap: int)
    requires
        v >= 0,
        s >= 1,
        cap >= 0,
    ensures
        rup(v, s) >= 0,
        rup(v, s) * s >= v,
        v <= cap * s ==> rup(v, s) <= cap,
{
    lemma_fundamental_div_mod(v + s - 1, s);
    lemma_mod_division_less_than_divisor(v + s - 1, s);
    lemma_div_pos_is_pos(v + s - 1, s);
    let q = (v + s - 1) / s;
    assert(q * s == v + s - 1 - ((v + s - 1) % s)) by {
        lemma_mul_is_commutative(s, q);
    }
    if v <= cap * s {
        // (cap * s + s - 1) / s == cap, and division is monotone
        lemma_div_is_ordered(v + s - 1, cap * s + s - 1, s);
        assert((cap * s + s - 1) / s == cap) by {
            lemma_fundamental_div_mod_converse(cap * s + s - 1, s, cap, s - 1);
        }
    }
}

/// Renormalization of a component bounded by `s` stays within one unit
/// and never shrinks the carried mass: `|r| * s >= |a| * SCALE`.
pub proof fn lemma_raz_scale(a: int, s: int)
    requires
        s >= 1,
        -s <= a <= s,
    ensures
        -(SCALE as int) <= raz(a * SCALE, s) <= SCALE as int,
        a >= 0 ==> raz(a * SCALE, s) >= 0 && raz(a * SCALE, s) * s >= a * SCALE,
        a < 0 ==> raz(a * SCALE, s) <= 0 && raz(a * SCALE, s) * s <= a * SCALE,
{
    if a >= 0 {
        lemma_mul_nonnegative(a, SCALE as int);
        assert(a * SCALE <= s * SCALE) by {
            lemma_mul_inequality(a, s, SCALE as int);
        }
        lemma_rup_props(a * SCALE, s, SCALE as int);
        lemma_mul_is_commutative(s, SCALE as int);
    } else {
        let v = -a * SCALE;
        assert(v == -(a * SCALE)) by {
            lemma_mul_unary_negation(a, SCALE as int);
        }
        lemma_mul_nonnegative(-a, SCALE as int);
        assert(-a * SCALE <= s * SCALE) by {
            lemma_mul_inequality(-a, s, SCALE as int);
        }
        lemma_rup_props(v, s, SCALE as int);
        lemma_mul_is_commutative(s, SCALE as int);
        assert(raz(a * SCALE, s) == -rup(v, s));
        assert((-rup(v, s)) * s == -(rup(v, s) * s)) by {
            lemma_mul_unary_negation(rup(v, s), s);
        }
    }
}

/// Squaring preserves the mass inequality of `lemma_raz_scale`.
proof fn lemma_component_mass(a: int, s: int, r: int)
    by (nonlinear_arith)
    requires
        s >= 1,
        a >= 0 ==> r >= 0 && r * s >= a * SCALE,
        a < 0 ==> r <= 0 && r * s <= a * SCALE,
    ensures
        (r * r) * (s * s) >= (a * a) * ((SCALE as int) * (SCALE as int)),
{
}

/// Renormalizing an amplitude bounded by `s` keeps each component within
/// one fixed-point unit, and the squared magnitude scales up to at least
/// a full unit's worth: `|renorm(a)|^2 * s^2 >= |a|^2 * SCALE^2`.
pub proof fn lemma_renorm_props(a: ComplexVal, s: int)
    requires
        s >= 1,
        c_bounded(a, s),
    ensures
        c_bounded(c_renorm(a, s), SCALE as int),
        c_normsq(c_renorm(a, s)) * (s * s) >= c_normsq(a) * ((SCALE as int) * (SCALE as int)),
{
    lemma_raz_scale(a.re, s);
    lemma_raz_scale(a.im, s);
    let rr = raz(a.re * SCALE, s);
    let ri = raz(a.im * SCALE, s);
    lemma_component_mass(a.re, s, rr);
    lemma_component_mass(a.im, s, ri);
    assert((rr * rr + ri * ri) * (s * s) == (rr * rr) * (s * s) + (ri * ri) * (s * s)) by {
        lemma_mul_is_distributive_add_other_way(s * s, rr * rr, ri * ri);
    }
    assert((a.re * a.re + a.im * a.im) * ((SCALE as int) * (SCALE as int)) == (a.re * a.re) * (
    (SCALE as int) * (SCALE as int)) + (a.im * a.im) * ((SCALE as int) * (SCALE as int))) by {
        lemma_mul_is_distributive_add_other_way(
            (SCALE as int) * (SCALE as int),
            a.re * a.re,
            a.im * a.im,
        );
    }
}

/// Renormalizing the zero amplitude gives the zero amplitude.
pub proof fn lemma_renorm_zero(s: int)
    requires
        s >= 1,
    ensures
        c_renorm(c_zero(), s) == c_zero(),
{
    lemma_basic_div(s - 1, s);
}

/// Rescale a gate accumulator component: divide by `SCALE` rounding
/// toward zero, then saturate into a stored component.
pub fn project_component(x: i128) -> (r: i64)
    requires
        -0x1000000000000000000000000000000 < x < 0x1000000000000000000000000000000,
    ensures
        r as int == clamp_comp(rtz(x as int, SCALE as int)),
{
    let neg = x < 0;
    let mag: u128 = if neg {
        (-x) as u128
    } else {
        x as u128
    };
    let q: u128 = mag / (SCALE as u128);
    let qi: i128 = q as i128;
    let signed: i128 = if neg {
        -qi
    } else {
        qi
    };
    proof {
        lemma_div_is_ordered(0, mag as int, SCALE as int);
        lemma_div_is_ordered(mag as int, 0x1000000000000000000000000000000, SCALE as int);
    }
    if signed > COMP_LIMIT as i128 {
        COMP_LIMIT
    } else if signed < -(COMP_LIMIT as i128) {
        -COMP_LIMIT
    } else {
        signed as i64
    }
}

/// Renormalize a component after measurement: multiply by `SCALE / s`,
/// rounding the magnitude up.
pub fn renorm_component(a: i64, s: u64) -> (r: i64)
    requires
        s >= 1,
        -(s as int) <= a as int <= s as int,
    ensures
        r as int == raz(a as int * SCALE, s as int),
{
    proof {
        lemma_raz_scale(a as int, s as int);
    }
    let neg = a < 0;
    let mag: u128 = if neg {
        (-(a as i128)) as u128
    } else {
        a as u128
    };
    proof {
        assert(mag * (SCALE as u128) <= (u64::MAX as u128) * (SCALE as u128)) by {
            lemma_mul_inequality(mag as int, u64::MAX as int, SCALE as int);
        }
        lemma_mul_nonnegative(mag as int, SCALE as int);
    }
    let num: u128 = mag * (SCALE as u128);
    let q: u128 = (num + (s as u128 - 1)) / (s as u128);
    proof {
        if neg {
            assert(mag as int * SCALE == -(a as int * SCALE)) by {
                lemma_mul_unary_negation(a as int, SCALE as int);
            }
        }
        lemma_rup_props(num as int, s as int, SCALE as int);
        assert(num as int <= (SCALE as int) * (s as int)) by {
            lemma_mul_inequality(mag as int, s as int, SCALE as int);
            lemma_mul_is_commutative(s as int, SCALE as int);
        }
    }
    let qi: i64 = q as i64;
    if neg {
        -qi
    } else {
        qi
    }
}

/// The squared magnitude of a stored amplitude.
pub fn norm_sqr(c: &Complex) -> (r: u128)
    ensures
        r == c_normsq(c@),
{
    let re = c.re as i128;
    let im = c.im as i128;
    proof {
        lemma_mul_abs_bound(re as int, re as int, 0x8000000000000000, 0x8000000000000000);
        lemma_mul_abs_bound(im as int, im as int, 0x8000000000000000, 0x8000000000000000);
        assert((0x8000000000000000int) * (0x8000000000000000int)
            == 0x40000000000000000000000000000000int);
        assert(re * re >= 0) by (nonlinear_arith);
        assert(im * im >= 0) by (nonlinear_arith);
    }
    let sq_re: u128 = (re * re) as u128;
    let sq_im: u128 = (im * im) as u128;
    sq_re + sq_im
}

/// The integer square root: the largest `s` with `s * s <= x`.
pub open spec fn isqrt_rec(x: int, t: nat) -> int
    decreases t,
{
    if t * t <= x {
        t as int
    } else if t == 0 {
        0
    } else {
        isqrt_rec(x, (t - 1) as nat)
    }
}

pub open spec fn isqrt_spec(x: nat) -> int {
    isqrt_rec(x as int, x)
}

proof fn lemma_isqrt_rec_from(x: int, s: nat, t: nat)
    requires
        s <= t,
        s * s <= x,
        x < (s + 1) * (s + 1),
    ensures
        isqrt_rec(x, t) == s,
    decreases t,
{
    if t == s {
    } else {
        assert(t * t > x) by (nonlinear_arith)
            requires
                t >= s + 1,
                x < (s + 1) * (s + 1),
                s >= 0,
        ;
        lemma_isqrt_rec_from(x, s, (t - 1) as nat);
    }
}

/// `isqrt_spec` is pinned down by the two-sided square bound.
pub proof fn lemma_isqrt_unique(x: nat, s: nat)
    requires
        s * s <= x,
        x < (s + 1) * (s + 1),
    ensures
        isqrt_spec(x) == s,
{
    assert(s <= x) by (nonlinear_arith)
        requires
            s * s <= x,
            s >= 0,
    ;
    lemma_isqrt_rec_from(x as int, s, x);
}

/// The defining properties of `isqrt_spec`.
pub proof fn lemma_isqrt_props(x: nat)
    ensures
        0 <= isqrt_spec(x),
        isqrt_spec(x) * isqrt_spec(x) <= x,
        x < (isqrt_spec(x) + 1) * (isqrt_spec(x) + 1),
        x > 0 ==> isqrt_spec(x) >= 1,
{
    let s = isqrt_spec(x);
    let r = isqrt_rec(x as int, x);
    assert(s == r);
    lemma_isqrt_rec_props(x as int, x);
    if r < x {
        assert(x < (r + 1) * (r + 1));
    } else if x == 0 {
        assert(r == 0);
        assert(x < (r + 1) * (r + 1));
    } else if (x as int) * (x as int) <= x as int {
        assert(x == 1) by (nonlinear_arith)
            requires
                x * x <= x,
                x >= 1,
        ;
        assert(r == 1);
        assert((1int + 1) * (1int + 1) == 4);
        assert(x < (r + 1) * (r + 1));
    } else {
        // the recursion steps down at least once, so r <= x - 1 < x,
        // which contradicts r >= x: this branch cannot happen
        assert(r == isqrt_rec(x as int, (x - 1) as nat));
        lemma_isqrt_rec_props(x as int, (x - 1) as nat);
        assert(x < (r + 1) * (r + 1));
    }
    assert(x < (s + 1) * (s + 1));
    if x > 0 && s == 0 {
        assert(x < (0 + 1) * (0 + 1));
    }
}

proof fn lemma_isqrt_rec_props(x: int, t: nat)
    requires
        x >= 0,
    ensures
        0 <= isqrt_rec(x, t) <= t,
        isqrt_rec(x, t) * isqrt_rec(x, t) <= x,
        isqrt_rec(x, t) < t ==> x < (isqrt_rec(x, t) + 1) * (isqrt_rec(x, t) + 1),
    decreases t,
{
    let r = isqrt_rec(x, t);
    if t * t <= x {
        assert(r == t);
        assert(r * r <= x);
    } else if t == 0 {
        assert(r == 0);
        assert(r * r <= x);
    } else {
        lemma_isqrt_rec_props(x, (t - 1) as nat);
        assert(r == isqrt_rec(x, (t - 1) as nat));
        assert(r * r <= x);
    }
}

/// Binary-search integer square root.
pub fn isqrt(x: u128) -> (s: u64)
    requires
        x < 0x1000000000000000000000000000000,  // 2^120, ample for all callers
    ensures
        s == isqrt_spec(x as nat),
        s * s <= x,
        x < (s + 1) * (s + 1),
{
    let mut lo: u128 = 0;
    let mut hi: u128 = 0x1000000000000000;  // 2^60; (2^60)^2 == 2^120 > x
    proof {
        assert(hi * hi == 0x1000000000000000000000000000000);
    }
    while lo + 1 < hi
        invariant
            0 <= lo < hi <= 0x1000000000000000,
            lo * lo <= x,
            x < hi * hi,
        decreases hi - lo,
    {
        let mid: u128 = lo + (hi - lo) / 2;
        assert(lo < mid < hi);
        proof {
            lemma_mul_abs_bound(mid as int, mid as int, 0x1000000000000000, 0x1000000000000000);
            assert((0x1000000000000000int) * (0x1000000000000000int)
                == 0x1000000000000000000000000000000int);
        }
        let sq = mid * mid;
        if sq <= x {
            lo = mid;
        } else {
            hi = mid;
        }
    }
    proof {
        lemma_isqrt_unique(x as nat, lo as nat);
    }
    lo as u64
}

} // verus!
