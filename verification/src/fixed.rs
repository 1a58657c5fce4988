//! Saturating fixed-point arithmetic.
//!
//! Every physical quantity of the simulator (metres, metres per second,
//! seconds, ...) is an `i64` that counts millionths of its unit. The operations
//! here never overflow: a result that does not fit is clamped to the nearest
//! end of the `i64` range, and the two ends stand for "infinitely far" and
//! "brake as hard as possible". Quotients are rounded toward zero.
use vstd::prelude::*;

verus! {

/// How many raw steps make one unit.
pub const SCALE: i64 = 1_000_000;

/// The largest quantity; stands for "no limit".
pub const INFINITY: i64 = 0x7fff_ffff_ffff_ffff;

/// The smallest quantity; stands for the hardest possible braking.
pub const NEG_INFINITY: i64 = -0x8000_0000_0000_0000;

/// The quantity 0.5.
pub const HALF: i64 = 500_000;

/// The quantity 1.
pub const ONE: i64 = 1_000_000;

/// The quantity 2.
pub const TWO: i64 = 2_000_000;

/// The quantity 3.
pub const THREE: i64 = 3_000_000;

/// The quantity 6.
pub const SIX: i64 = 6_000_000;

/// The nearest `i64` to a mathematical integer.
pub open spec fn clamp(x: int) -> i64 {
    if x < i64::MIN {
        i64::MIN
    } else if x > i64::MAX {
        i64::MAX
    } else {
        x as i64
    }
}

/// The quotient `n / d` rounded toward zero (zero where `d` is zero).
pub open spec fn trunc_div(n: int, d: int) -> int {
    if d == 0 {
        0
    } else if n >= 0 && d > 0 {
        n / d
    } else if n >= 0 {
        -(n / (-d))
    } else if d > 0 {
        -((-n) / d)
    } else {
        (-n) / (-d)
    }
}

pub open spec fn spec_plus(a: i64, b: i64) -> i64 {
    clamp(a + b)
}

/// `a + b`, clamped.
#[verifier::when_used_as_spec(spec_plus)]
pub fn plus(a: i64, b: i64) -> (r: i64)
    ensures
        r == spec_plus(a, b),
{
    let s: i128 = a as i128 + b as i128;
    narrow(s)
}

pub open spec fn spec_minus(a: i64, b: i64) -> i64 {
    clamp(a - b)
}

/// `a - b`, clamped.
#[verifier::when_used_as_spec(spec_minus)]
pub fn minus(a: i64, b: i64) -> (r: i64)
    ensures
        r == spec_minus(a, b),
{
    let s: i128 = a as i128 - b as i128;
    narrow(s)
}

pub open spec fn spec_times(a: i64, b: i64) -> i64 {
    clamp(trunc_div(a * b, SCALE as int))
}

/// The product of two quantities, rounded toward zero and clamped.
#[verifier::when_used_as_spec(spec_times)]
pub fn times(a: i64, b: i64) -> (r: i64)
    ensures
        r == spec_times(a, b),
{
    proof {
        lemma_product_bound(a as int, b as int);
    }
    let p: i128 = (a as i128) * (b as i128);
    let q: i128 = p / 1_000_000i128;
    narrow(q)
}

pub open spec fn spec_over(a: i64, b: i64) -> i64 {
    if b == 0 {
        if a > 0 {
            INFINITY
        } else if a < 0 {
            NEG_INFINITY
        } else {
            0
        }
    } else {
        clamp(trunc_div(a * SCALE, b as int))
    }
}

/// The quotient of two quantities, rounded toward zero and clamped. A division
/// by zero gives the end of the range on the dividend's side, and zero for
/// zero over zero.
#[verifier::when_used_as_spec(spec_over)]
pub fn over(a: i64, b: i64) -> (r: i64)
    ensures
        r == spec_over(a, b),
{
    if b == 0 {
        if a > 0 {
            INFINITY
        } else if a < 0 {
            NEG_INFINITY
        } else {
            0
        }
    } else {
        let n: u128 = size(a) * 1_000_000u128;
        let q: u128 = n / size(b);
        if (a >= 0) == (b > 0) {
            narrow(q as i128)
        } else {
            narrow(-(q as i128))
        }
    }
}

pub open spec fn spec_square(a: i64) -> i64 {
    spec_times(a, a)
}

/// `a * a`.
#[verifier::when_used_as_spec(spec_square)]
pub fn square(a: i64) -> (r: i64)
    ensures
        r == spec_square(a),
{
    times(a, a)
}

pub open spec fn spec_magnitude(a: i64) -> i64 {
    if a >= 0 {
        a
    } else {
        clamp(-a)
    }
}

/// The absolute value, clamped.
#[verifier::when_used_as_spec(spec_magnitude)]
pub fn magnitude(a: i64) -> (r: i64)
    ensures
        r == spec_magnitude(a),
{
    if a >= 0 {
        a
    } else if a == i64::MIN {
        i64::MAX
    } else {
        -a
    }
}

pub open spec fn spec_lesser(a: i64, b: i64) -> i64 {
    if b < a {
        b
    } else {
        a
    }
}

/// The smaller of two quantities.
#[verifier::when_used_as_spec(spec_lesser)]
pub fn lesser(a: i64, b: i64) -> (r: i64)
    ensures
        r == spec_lesser(a, b),
{
    if b < a {
        b
    } else {
        a
    }
}

/// Whether `r` is the integer square root of `n`: the largest integer whose
/// square does not exceed `n`.
pub open spec fn is_floor_root(n: int, r: int) -> bool {
    0 <= r && r * r <= n && n < (r + 1) * (r + 1)
}

/// The integer square root of `n` (zero for a negative `n`).
pub open spec fn floor_root(n: int) -> int {
    if n < 0 {
        0
    } else {
        choose|r: int| is_floor_root(n, r)
    }
}

pub open spec fn spec_root(a: i64) -> i64 {
    if a <= 0 {
        0
    } else {
        floor_root(a * SCALE) as i64
    }
}

/// The square root of a quantity, rounded down; zero for a negative one.
#[verifier::when_used_as_spec(spec_root)]
pub fn root(a: i64) -> (r: i64)
    ensures
        r == spec_root(a),
        a > 0 ==> is_floor_root(a * SCALE, r as int),
        0 <= r <= 3_037_000_500_000,
{
    if a <= 0 {
        return 0;
    }
    let n: u128 = (a as u128) * 1_000_000u128;
    // the root lies in [lo, hi)
    let mut lo: u128 = 0;
    let mut hi: u128 = 3_037_000_500_001;
    assert(n < hi * hi) by (nonlinear_arith)
        requires
            n <= 0x7fff_ffff_ffff_ffff * 1_000_000,
            hi == 3_037_000_500_001,
    ;
    assert(lo * lo <= n);
    while hi - lo > 1
        invariant
            lo < hi <= 3_037_000_500_001,
            lo * lo <= n,
            n < hi * hi,
        decreases hi - lo,
    {
        let mid: u128 = lo + (hi - lo) / 2;
        assert(mid * mid <= 3_037_000_500_001 * 3_037_000_500_001) by (nonlinear_arith)
            requires
                mid <= 3_037_000_500_001,
        ;
        if mid * mid <= n {
            lo = mid;
        } else {
            hi = mid;
        }
    }
    proof {
        assert(hi == lo + 1);
        assert(is_floor_root(n as int, lo as int));
        lemma_floor_root_unique(n as int, lo as int, floor_root(n as int));
    }
    lo as i64
}

/// The distance of a value from zero.
fn size(x: i64) -> (r: u128)
    ensures
        r == if x >= 0 {
            x as int
        } else {
            -(x as int)
        },
{
    if x >= 0 {
        x as u128
    } else {
        (-(x as i128)) as u128
    }
}

/// Brings a wide intermediate result back into the `i64` range.
fn narrow(x: i128) -> (r: i64)
    ensures
        r == clamp(x as int),
{
    if x > 0x7fff_ffff_ffff_ffff {
        i64::MAX
    } else if x < -0x8000_0000_0000_0000 {
        i64::MIN
    } else {
        x as i64
    }
}

/// The product of two `i64` values fits in an `i128`.
pub proof fn lemma_product_bound(a: int, b: int)
    requires
        i64::MIN <= a <= i64::MAX,
        i64::MIN <= b <= i64::MAX,
    ensures
        -0x4000_0000_0000_0000_0000_0000_0000_0000 <= a * b
            <= 0x4000_0000_0000_0000_0000_0000_0000_0000,
{
    assert(-0x4000_0000_0000_0000_0000_0000_0000_0000 <= a * b
        <= 0x4000_0000_0000_0000_0000_0000_0000_0000) by (nonlinear_arith)
        requires
            -0x8000_0000_0000_0000 <= a <= 0x8000_0000_0000_0000,
            -0x8000_0000_0000_0000 <= b <= 0x8000_0000_0000_0000,
    ;
}

/// A product with zero is zero.
pub proof fn lemma_times_zero(a: i64)
    ensures
        spec_times(a, 0) == 0,
        spec_times(0, a) == 0,
{
    assert(a * 0 == 0 && 0 * a == 0) by (nonlinear_arith);
}

/// The product of two quantities that are not negative is not negative.
pub proof fn lemma_times_nonneg(a: i64, b: i64)
    requires
        a >= 0,
        b >= 0,
    ensures
        spec_times(a, b) >= 0,
{
    assert(a * b >= 0) by (nonlinear_arith)
        requires
            a >= 0,
            b >= 0,
    ;
}

/// Over a divisor that is positive, the rounded quotient grows with the
/// dividend.
pub proof fn lemma_trunc_div_grows(a: int, b: int, d: int)
    requires
        a <= b,
        d > 0,
    ensures
        trunc_div(a, d) <= trunc_div(b, d),
{
    if a >= 0 {
        vstd::arithmetic::div_mod::lemma_div_is_ordered(a, b, d);
    } else if b < 0 {
        vstd::arithmetic::div_mod::lemma_div_is_ordered(-b, -a, d);
    } else {
        vstd::arithmetic::div_mod::lemma_div_is_ordered(0, -a, d);
        vstd::arithmetic::div_mod::lemma_div_is_ordered(0, b, d);
    }
}

/// A product with a factor that is not negative grows with the other factor.
pub proof fn lemma_times_grows(a: i64, b: i64, c: i64)
    requires
        a <= b,
        c >= 0,
    ensures
        spec_times(a, c) <= spec_times(b, c),
        spec_times(c, a) <= spec_times(c, b),
{
    assert(a * c <= b * c && c * a == a * c && c * b == b * c) by (nonlinear_arith)
        requires
            a <= b,
            c >= 0,
    ;
    lemma_trunc_div_grows(a * c, b * c, SCALE as int);
}

/// A number has at most one integer square root.
pub proof fn lemma_floor_root_unique(n: int, r: int, s: int)
    requires
        is_floor_root(n, r),
        n >= 0,
        s == floor_root(n),
    ensures
        r == s,
{
    assert(is_floor_root(n, s));
    assert(r == s) by (nonlinear_arith)
        requires
            0 <= r,
            r * r <= n,
            n < (r + 1) * (r + 1),
            0 <= s,
            s * s <= n,
            n < (s + 1) * (s + 1),
    ;
}

} // verus!
