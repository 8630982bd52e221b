//! Fixed-point scalars, integer square roots, intervals and the random source.
//!
//! Every real quantity of the renderer is an integer count of millionths: the
//! scalar `s` stands for the real number `s / SCALE`. Products and quotients
//! are formed exactly in 128 bits and rounded down once.

use vstd::prelude::*;

verus! {

/// The fixed-point representation of the real number one.
pub const SCALE: i64 = 1_000_000;

/// Largest magnitude of a coordinate or colour channel (one thousand units).
pub const LIMIT: i64 = 1_000_000_000;

/// Stands for an unbounded upper end of an interval.
pub const INFINITY: i64 = 0x7fff_ffff_ffff_ffff;

/// Pi, rounded to the nearest millionth.
pub const PI: i64 = 3_141_593;

/// The value `v` held between `lo` and `hi`; `lo` wins where the two cross.
pub open spec fn clamp_int(v: int, lo: int, hi: int) -> int {
    if v < lo {
        lo
    } else if v > hi {
        hi
    } else {
        v
    }
}

/// A coordinate pulled back into `[-LIMIT, LIMIT]`.
pub open spec fn sat(v: int) -> int {
    clamp_int(v, -(LIMIT as int), LIMIT as int)
}

/// A scalar pulled back into the range of `i64`.
pub open spec fn sat64(v: int) -> int {
    clamp_int(v, i64::MIN as int, i64::MAX as int)
}

/// The rounded-down quotient `n / d`, for either sign of a non-zero `d`.
/// A vanishing divisor gives the extreme of the sign of `n`.
pub open spec fn quot(n: int, d: int) -> int {
    if d > 0 {
        n / d
    } else if d < 0 {
        (-n) / (-d)
    } else if n > 0 {
        i128::MAX as int
    } else if n < 0 {
        i128::MIN as int
    } else {
        0
    }
}

/// Fixed-point product of two scalars.
pub open spec fn fx_mul(a: int, b: int) -> int {
    (a * b) / (SCALE as int)
}

/// Fixed-point quotient of two scalars.
pub open spec fn fx_div(a: int, b: int) -> int {
    quot(a * SCALE, b)
}

/// `r` is the integer square root of `n`.
pub open spec fn is_isqrt(n: int, r: int) -> bool {
    0 <= r && r * r <= n < (r + 1) * (r + 1)
}

/// The integer square root: the largest `r` with `r * r <= n`.
pub open spec fn isqrt(n: int) -> int {
    choose|r: int| is_isqrt(n, r)
}

/// A product is no larger than the product of the bounds of its factors.
pub proof fn lemma_mul_bound(a: int, b: int, x: int, y: int)
    by (nonlinear_arith)
    requires
        -x <= a <= x,
        -y <= b <= y,
    ensures
        -(x * y) <= a * b <= x * y,
{
}

/// Squaring keeps the order of natural numbers.
pub proof fn lemma_square_monotone(a: int, b: int)
    by (nonlinear_arith)
    requires
        0 <= a <= b,
    ensures
        a * a <= b * b,
{
}

/// Squaring keeps the strict order of natural numbers.
pub proof fn lemma_square_strict(a: int, b: int)
    by (nonlinear_arith)
    requires
        0 <= a < b,
    ensures
        a * a < b * b,
{
}

/// A quotient is no larger than what it divides.
pub proof fn lemma_quotient_bound(n: int, d: int, bound: int)
    requires
        d > 0,
        -bound <= n <= bound,
    ensures
        -bound <= n / d <= bound,
{
    vstd::arithmetic::div_mod::lemma_fundamental_div_mod(n, d);
    let q = n / d;
    let r = n % d;
    assert(0 <= r < d);
    assert(d * q == n - r);
    if q > bound {
        assert(d * q >= q) by (nonlinear_arith)
            requires
                d >= 1,
                q >= 0,
        ;
    }
    if q < -bound {
        assert(d * q <= -bound - d) by (nonlinear_arith)
            requires
                d >= 1,
                bound >= 0,
                q <= -bound - 1,
        ;
    }
}

/// Two integer square roots of one number are the same.
pub proof fn lemma_isqrt_unique(n: int, r: int)
    requires
        is_isqrt(n, r),
    ensures
        isqrt(n) == r,
{
    let s = isqrt(n);
    assert(is_isqrt(n, s));
    if s < r {
        lemma_square_monotone(s + 1, r);
    } else if r < s {
        lemma_square_monotone(r + 1, s);
    }
}

/// Every natural number has an integer square root.
pub proof fn lemma_isqrt_exists(n: int)
    requires
        0 <= n,
    ensures
        is_isqrt(n, isqrt(n)),
    decreases n,
{
    if n == 0 {
        assert(is_isqrt(0, 0));
    } else {
        lemma_isqrt_exists(n - 1);
        let r = isqrt(n - 1);
        if (r + 1) * (r + 1) <= n {
            assert((r + 2) * (r + 2) > (r + 1) * (r + 1)) by (nonlinear_arith)
                requires
                    r >= 0,
            ;
            assert(is_isqrt(n, r + 1));
        } else {
            assert(is_isqrt(n, r));
        }
    }
}

/// A wide integer pulled back into `[-LIMIT, LIMIT]`.
pub fn saturate(v: i128) -> (r: i64)
    ensures
        r == sat(v as int),
{
    if v < -(LIMIT as i128) {
        -LIMIT
    } else if v > LIMIT as i128 {
        LIMIT
    } else {
        v as i64
    }
}

/// A wide integer pulled back into the range of `i64`.
pub fn saturate64(v: i128) -> (r: i64)
    ensures
        r == sat64(v as int),
{
    if v < i64::MIN as i128 {
        i64::MIN
    } else if v > i64::MAX as i128 {
        i64::MAX
    } else {
        v as i64
    }
}

/// The exact product of two 64-bit integers.
pub fn wide_mul(a: i64, b: i64) -> (r: i128)
    ensures
        r == a * b,
        -0x4000_0000_0000_0000_0000_0000_0000_0000 <= r <= 0x4000_0000_0000_0000_0000_0000_0000_0000,
{
    proof {
        lemma_mul_bound(a as int, b as int, 0x8000_0000_0000_0000, 0x8000_0000_0000_0000);
    }
    (a as i128) * (b as i128)
}

/// The rounded-down quotient by a positive divisor.
pub fn div_floor(n: i128, d: i128) -> (q: i128)
    requires
        d > 0,
    ensures
        q == n / d,
{
    if n >= 0 {
        n / d
    } else {
        let m: i128 = -(n + 1);
        let k: i128 = m / d;
        proof {
            let r = m as int % d as int;
            vstd::arithmetic::div_mod::lemma_fundamental_div_mod(m as int, d as int);
            assert(0 <= r < d);
            assert(d * k == k * d) by (nonlinear_arith);
            assert((-k - 1) * d + (d - 1 - r) == -(k * d) - d + d - 1 - r) by (nonlinear_arith);
            vstd::arithmetic::div_mod::lemma_fundamental_div_mod_converse(
                n as int,
                d as int,
                -k - 1,
                d - 1 - r,
            );
        }
        -k - 1
    }
}

/// The rounded-down quotient by a divisor of either sign.
pub fn quotient(n: i128, d: i128) -> (q: i128)
    requires
        i128::MIN < n,
        i128::MIN < d,
    ensures
        q == quot(n as int, d as int),
{
    if d > 0 {
        div_floor(n, d)
    } else if d < 0 {
        div_floor(-n, -d)
    } else if n > 0 {
        i128::MAX
    } else if n < 0 {
        i128::MIN
    } else {
        0
    }
}

/// The integer square root of a 128-bit number, by bisection.
pub fn int_sqrt(n: u128) -> (r: u64)
    ensures
        r == isqrt(n as int),
        is_isqrt(n as int, r as int),
{
    let mut lo: u128 = 0;
    let mut hi: u128 = 0x1_0000_0000_0000_0000;
    assert(0x1_0000_0000_0000_0000int * 0x1_0000_0000_0000_0000int
        == 0x1_0000_0000_0000_0000_0000_0000_0000_0000int) by (nonlinear_arith);
    while hi - lo > 1
        invariant
            lo < hi <= 0x1_0000_0000_0000_0000,
            lo * lo <= n < hi * hi,
        decreases hi - lo,
    {
        let mid: u128 = lo + (hi - lo) / 2;
        proof {
            lemma_square_strict(mid as int, 0x1_0000_0000_0000_0000);
        }
        if mid * mid <= n {
            lo = mid;
        } else {
            hi = mid;
        }
    }
    proof {
        lemma_isqrt_unique(n as int, lo as int);
    }
    lo as u64
}

/// Degrees to radians: `degrees * PI / 180`, rounded down.
pub open spec fn degrees_to_radians_spec(degrees: int) -> int {
    (degrees * PI) / (180 * SCALE)
}

/// Radians to degrees: `radians * 180 / PI`, rounded down and held in range.
pub open spec fn radians_to_degrees_spec(radians: int) -> int {
    sat64((radians * (180 * SCALE)) / (PI as int))
}

/// The gamma-2 transfer function: the square root of a positive component,
/// zero for the others.
pub open spec fn linear_to_gamma_spec(linear_component: int) -> int {
    if linear_component > 0 {
        isqrt(linear_component * SCALE)
    } else {
        0
    }
}

/// The point of `[min, max)` that the fraction `u` of one picks.
pub open spec fn lerp_range(min: int, max: int, u: int) -> int {
    sat64(min + fx_mul(max - min, u))
}

/// Degrees to radians.
pub fn degrees_to_radians(degrees: i64) -> (r: i64)
    ensures
        r == degrees_to_radians_spec(degrees as int),
{
    let n: i128 = wide_mul(degrees, PI);
    let q: i128 = div_floor(n, 180_000_000);
    proof {
        lemma_mul_bound(degrees as int, PI as int, 0x8000_0000_0000_0000, 3_141_593);
        assert(n >= -0x8000_0000_0000_0000 * 3_141_593);
        assert(n <= 0x8000_0000_0000_0000 * 3_141_593);
    }
    q as i64
}

/// Radians to degrees.
pub fn radians_to_degrees(radians: i64) -> (r: i64)
    ensures
        r == radians_to_degrees_spec(radians as int),
{
    let n: i128 = wide_mul(radians, 180_000_000);
    saturate64(div_floor(n, PI as i128))
}

/// The gamma-2 transfer function of one linear colour component.
pub fn linear_to_gamma(linear_component: i64) -> (r: i64)
    ensures
        r == linear_to_gamma_spec(linear_component as int),
{
    if linear_component > 0 {
        let n: i128 = wide_mul(linear_component, SCALE);
        let root: u64 = int_sqrt(n as u128);
        proof {
            lemma_mul_bound(linear_component as int, SCALE as int, 0x8000_0000_0000_0000, 1_000_000);
            if root >= 0x8000_0000_0000_0000 {
                lemma_square_monotone(0x8000_0000_0000_0000, root as int);
            }
        }
        root as i64
    } else {
        0
    }
}

/// One word from the thread-local generator of the `rand` crate
/// (`rand::random`). Nothing is claimed of the value. The call panics where
/// the operating system cannot seed the generator.
#[verifier::external_body]
fn random_word() -> (w: u64) {
    rand::random::<u64>()
}

/// A uniform sample of `[0, 1)`, as a count of millionths: the fraction
/// that a word from the generator stands for.
pub fn random_fraction() -> (u: i64)
    ensures
        0 <= u < SCALE,
        exists|word: u64| u == fraction_spec(word as int),
{
    let word: u64 = random_word();
    let u = fraction_of(word);
    assert(u == fraction_spec(word as int));
    u
}

/// The fraction of one that a 64-bit word stands for: its remainder by a
/// million, as a count of millionths.
pub open spec fn fraction_spec(word: int) -> int {
    word % (SCALE as int)
}

/// The fraction of one that a 64-bit word stands for.
pub fn fraction_of(word: u64) -> (u: i64)
    ensures
        u == fraction_spec(word as int),
        0 <= u < SCALE,
{
    (word % 1_000_000) as i64
}

/// A uniform sample of `[min, max)`.
pub fn random_float_range(min: i64, max: i64) -> (r: i64)
    ensures
        exists|u: int| 0 <= u < SCALE && r == lerp_range(min as int, max as int, u),
{
    let u: i64 = random_fraction();
    let r = lerp(min, max, u);
    assert(r == lerp_range(min as int, max as int, u as int));
    r
}

/// The point of `[min, max)` that the fraction `u` of one picks.
pub fn lerp(min: i64, max: i64, u: i64) -> (r: i64)
    requires
        -LIMIT <= u <= LIMIT,
    ensures
        r == lerp_range(min as int, max as int, u as int),
{
    let span: i128 = max as i128 - min as i128;
    proof {
        lemma_mul_bound(span as int, u as int, 0x1_0000_0000_0000_0000, LIMIT as int);
    }
    let step: i128 = div_floor(span * (u as i128), SCALE as i128);
    proof {
        lemma_quotient_bound(span * u, SCALE as int, 0x1_0000_0000_0000_0000 * LIMIT);
    }
    saturate64(min as i128 + step)
}

/// The decimal digits of `n` in ASCII, most significant first.
pub open spec fn decimal(n: nat) -> Seq<u8>
    decreases n,
{
    if n < 10 {
        seq![(48 + n) as u8]
    } else {
        decimal(n / 10).push((48 + n % 10) as u8)
    }
}

/// Appends the decimal digits of `n` to `out`.
pub fn push_decimal(out: &mut Vec<u8>, n: u32)
    ensures
        final(out)@ == old(out)@ + decimal(n as nat),
    decreases n,
{
    if n >= 10 {
        push_decimal(out, n / 10);
    }
    out.push(48u8 + (n % 10) as u8);
}

/// A closed range `[min, max]` of the ray parameter.
#[derive(Clone, Copy, Debug)]
pub struct Interval {
    pub min: i64,
    pub max: i64,
}

impl Interval {
    pub open spec fn contains_spec(self, value: int) -> bool {
        self.min <= value <= self.max
    }

    pub open spec fn surrounds_spec(self, value: int) -> bool {
        self.min < value < self.max
    }

    pub fn new(min: i64, max: i64) -> (r: Interval)
        ensures
            r.min == min,
            r.max == max,
    {
        Interval { min, max }
    }

    /// The length `max - min`, held in the range of `i64`.
    pub fn size(&self) -> (r: i64)
        ensures
            r == sat64(self.max - self.min),
    {
        saturate64(self.max as i128 - self.min as i128)
    }

    pub fn contains(&self, value: i64) -> (r: bool)
        ensures
            r == self.contains_spec(value as int),
    {
        self.min <= value && value <= self.max
    }

    pub fn surrounds(&self, value: i64) -> (r: bool)
        ensures
            r == self.surrounds_spec(value as int),
    {
        self.min < value && value < self.max
    }

    /// The nearest point of the interval; `min` wins where the ends cross.
    pub fn clamp(&self, value: i64) -> (r: i64)
        ensures
            r == clamp_int(value as int, self.min as int, self.max as int),
    {
        if value < self.min {
            self.min
        } else if value > self.max {
            self.max
        } else {
            value
        }
    }
}

} // verus!
