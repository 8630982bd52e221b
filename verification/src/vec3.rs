//! Three-component vectors and colours in saturating fixed-point arithmetic.
//!
//! A `Vec3` holds three scalars of magnitude at most `LIMIT`; whatever an
//! operation would carry beyond that is held at the boundary. `V3` is the
//! mathematical vector that contracts speak of.

use crate::util::{
    clamp_int, decimal, div_floor, fx_div, fx_mul, int_sqrt, isqrt, lemma_isqrt_exists,
    lemma_mul_bound, lemma_quotient_bound, lemma_square_monotone, lerp, lerp_range,
    linear_to_gamma, linear_to_gamma_spec, push_decimal, quotient, random_fraction, sat,
    saturate, wide_mul, Interval, LIMIT, SCALE,
};
use vstd::prelude::*;

verus! {

/// How far the squared length of a unit vector may lie from one.
pub const UNIT_TOLERANCE: i64 = 2_000_000_000;

/// A vector of three integers: the model of a `Vec3`.
pub struct V3 {
    pub x: int,
    pub y: int,
    pub z: int,
}

impl V3 {
    /// Each component lies in `[-LIMIT, LIMIT]`.
    pub open spec fn in_world(self) -> bool {
        &&& -LIMIT <= self.x <= LIMIT
        &&& -LIMIT <= self.y <= LIMIT
        &&& -LIMIT <= self.z <= LIMIT
    }

    /// Each component held in `[-LIMIT, LIMIT]`.
    pub open spec fn sat(self) -> V3 {
        V3 { x: sat(self.x), y: sat(self.y), z: sat(self.z) }
    }

    pub open spec fn add(self, o: V3) -> V3 {
        V3 { x: self.x + o.x, y: self.y + o.y, z: self.z + o.z }
    }

    pub open spec fn sub(self, o: V3) -> V3 {
        V3 { x: self.x - o.x, y: self.y - o.y, z: self.z - o.z }
    }

    pub open spec fn neg(self) -> V3 {
        V3 { x: -self.x, y: -self.y, z: -self.z }
    }

    pub open spec fn add_scalar(self, n: int) -> V3 {
        V3 { x: self.x + n, y: self.y + n, z: self.z + n }
    }

    /// The component-wise fixed-point product.
    pub open spec fn mul(self, o: V3) -> V3 {
        V3 { x: fx_mul(self.x, o.x), y: fx_mul(self.y, o.y), z: fx_mul(self.z, o.z) }
    }

    /// The fixed-point product with a scalar.
    pub open spec fn scale(self, n: int) -> V3 {
        V3 { x: fx_mul(self.x, n), y: fx_mul(self.y, n), z: fx_mul(self.z, n) }
    }

    /// The component-wise fixed-point quotient.
    pub open spec fn div(self, o: V3) -> V3 {
        V3 { x: fx_div(self.x, o.x), y: fx_div(self.y, o.y), z: fx_div(self.z, o.z) }
    }

    /// The fixed-point quotient by a scalar.
    pub open spec fn div_scalar(self, n: int) -> V3 {
        V3 { x: fx_div(self.x, n), y: fx_div(self.y, n), z: fx_div(self.z, n) }
    }

    /// The exact inner product, a count of millionths of millionths.
    pub open spec fn dot_wide(self, o: V3) -> int {
        self.x * o.x + self.y * o.y + self.z * o.z
    }

    /// The inner product as a scalar.
    pub open spec fn dot(self, o: V3) -> int {
        self.dot_wide(o) / (SCALE as int)
    }

    pub open spec fn length_squared(self) -> int {
        self.dot(self)
    }

    /// The Euclidean length: the integer square root of the exact square.
    pub open spec fn length(self) -> int {
        isqrt(self.dot_wide(self))
    }

    /// The exact cross product, a count of millionths of millionths.
    pub open spec fn cross_wide(self, o: V3) -> V3 {
        V3 {
            x: self.y * o.z - self.z * o.y,
            y: self.z * o.x - self.x * o.z,
            z: self.x * o.y - self.y * o.x,
        }
    }

    /// The cross product as a vector of scalars.
    pub open spec fn cross(self, o: V3) -> V3 {
        let w = self.cross_wide(o);
        V3 { x: w.x / (SCALE as int), y: w.y / (SCALE as int), z: w.z / (SCALE as int) }
    }

    /// The vector over its length; the zero vector stays as it is.
    pub open spec fn unit(self) -> V3 {
        if self.length() != 0 {
            self.div_scalar(self.length())
        } else {
            self
        }
    }

    /// All three components vanish at the resolution of the arithmetic.
    pub open spec fn near_zero(self) -> bool {
        self.x == 0 && self.y == 0 && self.z == 0
    }

    /// The mirror image of `self` in the plane of normal `n`:
    /// `self - 2 (self . n) n`.
    pub open spec fn reflect(self, n: V3) -> V3 {
        let k = 2 * self.dot_wide(n);
        V3 {
            x: self.x - (k * n.x) / (SCALE * SCALE),
            y: self.y - (k * n.y) / (SCALE * SCALE),
            z: self.z - (k * n.z) / (SCALE * SCALE),
        }
    }

    /// The cosine that refraction works with: `min(-self . n, 1)`.
    pub open spec fn cos_theta(self, n: V3) -> int {
        let c = self.neg().dot(n);
        if c < SCALE { c } else { SCALE as int }
    }

    /// The part of the refracted ray across the normal:
    /// `eta (self + cos_theta n)`, held in the world.
    pub open spec fn refract_perp(self, n: V3, eta: int) -> V3 {
        let c = self.cos_theta(n);
        let e = sat(eta);
        V3 {
            x: (e * (self.x * SCALE + c * n.x)) / (SCALE * SCALE),
            y: (e * (self.y * SCALE + c * n.y)) / (SCALE * SCALE),
            z: (e * (self.z * SCALE + c * n.z)) / (SCALE * SCALE),
        }.sat()
    }

    /// The part of the refracted ray along the normal:
    /// `-sqrt(|1 - |perp|^2|) n`.
    pub open spec fn refract_parallel(self, n: V3, eta: int) -> V3 {
        let p = self.refract_perp(n, eta);
        let d = SCALE * SCALE - p.dot_wide(p);
        let h = isqrt(if d >= 0 { d } else { -d });
        V3 {
            x: (-h * n.x) / (SCALE as int),
            y: (-h * n.y) / (SCALE as int),
            z: (-h * n.z) / (SCALE as int),
        }
    }

    /// The refracted direction after Snell's law for the ratio `eta` of the
    /// refractive indices.
    pub open spec fn refract(self, n: V3, eta: int) -> V3 {
        self.refract_perp(n, eta).add(self.refract_parallel(n, eta))
    }

    /// The vector taken `k` times.
    pub open spec fn times(self, k: int) -> V3 {
        V3 { x: self.x * k, y: self.y * k, z: self.z * k }
    }

    /// The unit vector along the vector, however short it is: a vector less
    /// than two thousandths long is taken two thousand times before it is
    /// taken over its length. The zero vector has the zero vector for it.
    pub open spec fn direction(self) -> V3 {
        if self.length() >= 2_000 {
            self.unit()
        } else {
            self.times(2_000).unit()
        }
    }

    /// The vector over its length, or the unit vector along `x` where the
    /// vector is less than two thousandths long.
    pub open spec fn onto_unit_sphere(self) -> V3 {
        if self.length() >= 2_000 {
            self.unit()
        } else {
            V3 { x: SCALE as int, y: 0, z: 0 }
        }
    }

    /// The unit vector that three fractions of one pick: the point of the
    /// cube `[-1, 1)^3` that they pick, taken onto the unit sphere.
    pub open spec fn direction_of(u: V3) -> V3 {
        V3::in_range(-SCALE, SCALE as int, u).sat().onto_unit_sphere()
    }

    /// The vector or its opposite, whichever lies on the side of `n`.
    pub open spec fn on_hemisphere(self, n: V3) -> V3 {
        if self.dot_wide(n) > 0 {
            self
        } else {
            self.neg()
        }
    }

    /// The length is one to within a thousandth.
    pub open spec fn is_unit(self) -> bool {
        SCALE * SCALE - UNIT_TOLERANCE <= self.dot_wide(self) <= SCALE * SCALE + UNIT_TOLERANCE
    }

    /// Three fractions of one.
    pub open spec fn is_fraction(self) -> bool {
        &&& 0 <= self.x < SCALE
        &&& 0 <= self.y < SCALE
        &&& 0 <= self.z < SCALE
    }

    /// The point of the cube `[min, max)^3` that the fractions `u` pick.
    pub open spec fn in_range(min: int, max: int, u: V3) -> V3 {
        V3 { x: lerp_range(min, max, u.x), y: lerp_range(min, max, u.y), z: lerp_range(min, max, u.z) }
    }
}

/// The inner product of two vectors of the world fits in 64 bits, and that of
/// a vector with itself is not negative.
pub proof fn lemma_dot_bound(a: V3, b: V3)
    requires
        a.in_world(),
        b.in_world(),
    ensures
        -3_000_000_000_000_000_000 <= a.dot_wide(b) <= 3_000_000_000_000_000_000,
        0 <= a.dot_wide(a),
{
    lemma_mul_bound(a.x, b.x, LIMIT as int, LIMIT as int);
    lemma_mul_bound(a.y, b.y, LIMIT as int, LIMIT as int);
    lemma_mul_bound(a.z, b.z, LIMIT as int, LIMIT as int);
    assert(a.x * a.x >= 0) by (nonlinear_arith);
    assert(a.y * a.y >= 0) by (nonlinear_arith);
    assert(a.z * a.z >= 0) by (nonlinear_arith);
}

/// The length of a vector of the world is at most twice `LIMIT`, and zero
/// for the zero vector alone.
pub proof fn lemma_length_bound(a: V3)
    requires
        a.in_world(),
    ensures
        0 <= a.length() <= 2 * LIMIT,
        a.length() == 0 <==> a.near_zero(),
{
    lemma_dot_bound(a, a);
    lemma_isqrt_exists(a.dot_wide(a));
    if a.length() > 2 * LIMIT {
        lemma_square_monotone(2 * LIMIT + 1, a.length());
    }
    let len = a.length();
    if a.near_zero() {
        assert(a.x * a.x + a.y * a.y + a.z * a.z == 0) by (nonlinear_arith)
            requires
                a.x == 0 && a.y == 0 && a.z == 0,
        ;
        if len >= 1 {
            lemma_square_monotone(1, len);
        }
    } else {
        assert(a.x * a.x + a.y * a.y + a.z * a.z >= 1) by (nonlinear_arith)
            requires
                a.x != 0 || a.y != 0 || a.z != 0,
        ;
        assert((len + 1) * (len + 1) == 1 ==> len == 0 || len == -2) by (nonlinear_arith);
        assert(len == 0 ==> (len + 1) * (len + 1) == 1) by (nonlinear_arith);
    }
}

/// Turning one of two vectors round turns the sign of their inner product,
/// and turning a vector round keeps its squared length.
pub proof fn lemma_neg_dot(a: V3, b: V3)
    ensures
        a.dot_wide(b.neg()) == -a.dot_wide(b),
        a.neg().dot_wide(b) == -a.dot_wide(b),
        a.neg().dot_wide(a.neg()) == a.dot_wide(a),
{
    assert(a.x * (-b.x) == -(a.x * b.x)) by (nonlinear_arith);
    assert(a.y * (-b.y) == -(a.y * b.y)) by (nonlinear_arith);
    assert(a.z * (-b.z) == -(a.z * b.z)) by (nonlinear_arith);
    assert((-a.x) * b.x == -(a.x * b.x)) by (nonlinear_arith);
    assert((-a.y) * b.y == -(a.y * b.y)) by (nonlinear_arith);
    assert((-a.z) * b.z == -(a.z * b.z)) by (nonlinear_arith);
    assert((-a.x) * (-a.x) == a.x * a.x) by (nonlinear_arith);
    assert((-a.y) * (-a.y) == a.y * a.y) by (nonlinear_arith);
    assert((-a.z) * (-a.z) == a.z * a.z) by (nonlinear_arith);
}

/// A component of a unit vector is at most one and a thousandth.
pub proof fn lemma_unit_component_bound(n: V3)
    requires
        n.is_unit(),
    ensures
        -1_002_000 <= n.x <= 1_002_000,
        -1_002_000 <= n.y <= 1_002_000,
        -1_002_000 <= n.z <= 1_002_000,
{
    assert(SCALE * SCALE == 1_000_000_000_000) by (nonlinear_arith);
    assert(n.x * n.x >= 0 && n.y * n.y >= 0 && n.z * n.z >= 0) by (nonlinear_arith);
    if n.x > 1_002_000 || n.x < -1_002_000 {
        assert(n.x * n.x > 1_002_000_000_000) by (nonlinear_arith)
            requires
                n.x > 1_002_000 || n.x < -1_002_000,
        ;
    }
    if n.y > 1_002_000 || n.y < -1_002_000 {
        assert(n.y * n.y > 1_002_000_000_000) by (nonlinear_arith)
            requires
                n.y > 1_002_000 || n.y < -1_002_000,
        ;
    }
    if n.z > 1_002_000 || n.z < -1_002_000 {
        assert(n.z * n.z > 1_002_000_000_000) by (nonlinear_arith)
            requires
                n.z > 1_002_000 || n.z < -1_002_000,
        ;
    }
}

/// One component `x` of a vector of length `len`, over that length: how far
/// its square, times `len * len`, lies from the square of `x`.
proof fn lemma_unit_component(x: int, len: int, n: int)
    requires
        len > 0,
        x * x <= n < (len + 1) * (len + 1),
    ensures
        ({
            let q = (x * SCALE) / len;
            &&& (len * len) * (q * q) <= 1_000_000_000_000 * (x * x) + 2_000_001 * (len * len)
            &&& (len * len) * (q * q) >= 1_000_000_000_000 * (x * x) - 2_000_000 * (len * len)
            &&& -SCALE - 1 <= q <= SCALE + 1
        }),
{
    let q = (x * SCALE) / len;
    let e = (x * SCALE) % len;
    vstd::arithmetic::div_mod::lemma_fundamental_div_mod(x * SCALE, len);
    assert(0 <= e < len);
    assert(-len <= x <= len) by (nonlinear_arith)
        requires
            len > 0,
            x * x < (len + 1) * (len + 1),
    ;
    lemma_mul_bound(x, e, len, len);
    lemma_mul_bound(e, e, len, len);
    assert(e * e >= 0) by (nonlinear_arith);
    assert((len * len) * (q * q) == 1_000_000_000_000 * (x * x) - 2_000_000 * (x * e) + e * e)
        by (nonlinear_arith)
        requires
            x * 1_000_000 == len * q + e,
    ;
    assert(-SCALE - 1 <= q <= SCALE + 1) by (nonlinear_arith)
        requires
            x * 1_000_000 == len * q + e,
            0 <= e < len,
            -len <= x <= len,
            len > 0,
    ;
}

/// A vector that is at least two thousandths long, taken over its length,
/// has unit length.
pub proof fn lemma_unit_has_unit_length(v: V3)
    requires
        v.length() >= 2_000,
    ensures
        v.unit().is_unit(),
        v.unit().in_world(),
{
    let n = v.dot_wide(v);
    let len = v.length();
    let (xx, yy, zz) = (v.x * v.x, v.y * v.y, v.z * v.z);
    assert(xx >= 0 && yy >= 0 && zz >= 0) by (nonlinear_arith)
        requires
            xx == v.x * v.x,
            yy == v.y * v.y,
            zz == v.z * v.z,
    ;
    lemma_isqrt_exists(n);
    lemma_unit_component(v.x, len, n);
    lemma_unit_component(v.y, len, n);
    lemma_unit_component(v.z, len, n);
    let u = v.unit();
    let (qx, qy, qz) = (u.x * u.x, u.y * u.y, u.z * u.z);
    let ll = len * len;
    let total = qx + qy + qz;
    assert(ll * total == ll * qx + ll * qy + ll * qz) by (nonlinear_arith)
        requires
            total == qx + qy + qz,
    ;
    assert(n <= ll + 2 * len) by (nonlinear_arith)
        requires
            n < (len + 1) * (len + 1),
            ll == len * len,
    ;
    assert(2_000 * len <= ll) by (nonlinear_arith)
        requires
            len >= 2_000,
            ll == len * len,
    ;
    assert(ll * total <= ll * 1_001_007_000_003);
    assert(ll * total >= ll * 999_994_000_000);
    assert(999_994_000_000 <= total <= 1_001_007_000_003) by (nonlinear_arith)
        requires
            ll > 0,
            ll * total <= ll * 1_001_007_000_003,
            ll * total >= ll * 999_994_000_000,
    ;
    assert(SCALE * SCALE == 1_000_000_000_000) by (nonlinear_arith);
}

/// The unit vector along a vector that does not vanish has unit length; the
/// zero vector has the zero vector for it.
pub proof fn lemma_direction_is_unit(v: V3)
    ensures
        !v.near_zero() ==> v.direction().is_unit(),
        v.near_zero() ==> v.direction() == v,
        v.direction().in_world(),
{
    let (xx, yy, zz) = (v.x * v.x, v.y * v.y, v.z * v.z);
    assert(xx >= 0 && yy >= 0 && zz >= 0) by (nonlinear_arith)
        requires
            xx == v.x * v.x,
            yy == v.y * v.y,
            zz == v.z * v.z,
    ;
    lemma_isqrt_exists(v.dot_wide(v));
    if v.near_zero() {
        assert(xx + yy + zz == 0) by (nonlinear_arith)
            requires
                v.x == 0 && v.y == 0 && v.z == 0,
                xx == v.x * v.x,
                yy == v.y * v.y,
                zz == v.z * v.z,
        ;
        if v.length() >= 1 {
            lemma_square_monotone(1, v.length());
        }
        let k = v.times(2_000);
        assert(k == v);
        assert(v.unit() == v);
    } else if v.length() >= 2_000 {
        lemma_unit_has_unit_length(v);
    } else {
        let k = v.times(2_000);
        let square = k.dot_wide(k);
        assert(xx + yy + zz >= 1) by (nonlinear_arith)
            requires
                v.x != 0 || v.y != 0 || v.z != 0,
                xx == v.x * v.x,
                yy == v.y * v.y,
                zz == v.z * v.z,
        ;
        assert(square == 4_000_000 * (xx + yy + zz)) by (nonlinear_arith)
            requires
                square == (v.x * 2_000) * (v.x * 2_000) + (v.y * 2_000) * (v.y * 2_000) + (v.z
                    * 2_000) * (v.z * 2_000),
                xx == v.x * v.x,
                yy == v.y * v.y,
                zz == v.z * v.z,
        ;
        lemma_isqrt_exists(square);
        if k.length() < 2_000 {
            lemma_square_monotone(k.length() + 1, 2_000);
        }
        lemma_unit_has_unit_length(k);
    }
}

/// A vector or point of three fixed-point scalars.
#[derive(Clone, Copy, Debug)]
pub struct Vec3 {
    x: i64,
    y: i64,
    z: i64,
}

impl View for Vec3 {
    type V = V3;

    closed spec fn view(&self) -> V3 {
        V3 { x: self.x as int, y: self.y as int, z: self.z as int }
    }
}

impl Vec3 {
    #[verifier::type_invariant]
    closed spec fn inv(self) -> bool {
        self@.in_world()
    }

    /// The vector of the three scalars, each held in `[-LIMIT, LIMIT]`.
    pub fn new(x: i64, y: i64, z: i64) -> (v: Vec3)
        ensures
            v@ == (V3 { x: x as int, y: y as int, z: z as int }).sat(),
            v@.in_world(),
    {
        Vec3 { x: saturate(x as i128), y: saturate(y as i128), z: saturate(z as i128) }
    }

    /// The vector of three wide integers, each held in `[-LIMIT, LIMIT]`.
    pub fn wide(x: i128, y: i128, z: i128) -> (v: Vec3)
        ensures
            v@ == (V3 { x: x as int, y: y as int, z: z as int }).sat(),
            v@.in_world(),
    {
        Vec3 { x: saturate(x), y: saturate(y), z: saturate(z) }
    }

    pub fn x(&self) -> (r: i64)
        ensures
            r == self@.x,
            self@.in_world(),
    {
        proof {
            use_type_invariant(self);
        }
        self.x
    }

    pub fn y(&self) -> (r: i64)
        ensures
            r == self@.y,
            self@.in_world(),
    {
        proof {
            use_type_invariant(self);
        }
        self.y
    }

    pub fn z(&self) -> (r: i64)
        ensures
            r == self@.z,
            self@.in_world(),
    {
        proof {
            use_type_invariant(self);
        }
        self.z
    }

    /// The exact inner product.
    pub fn dot_wide(&self, other: Vec3) -> (r: i128)
        ensures
            r == self@.dot_wide(other@),
            -3_000_000_000_000_000_000 <= r <= 3_000_000_000_000_000_000,
            self@.in_world(),
            other@.in_world(),
    {
        proof {
            use_type_invariant(self);
            use_type_invariant(&other);
            lemma_dot_bound(self@, other@);
            lemma_mul_bound(self.x as int, other.x as int, LIMIT as int, LIMIT as int);
            lemma_mul_bound(self.y as int, other.y as int, LIMIT as int, LIMIT as int);
            lemma_mul_bound(self.z as int, other.z as int, LIMIT as int, LIMIT as int);
        }
        wide_mul(self.x, other.x) + wide_mul(self.y, other.y) + wide_mul(self.z, other.z)
    }

    pub fn length(&self) -> (r: i64)
        ensures
            r == self@.length(),
            0 <= r <= 2 * LIMIT,
    {
        let n: i128 = self.dot_wide(*self);
        proof {
            lemma_dot_bound(self@, self@);
            lemma_length_bound(self@);
        }
        int_sqrt(n as u128) as i64
    }

    pub fn length_squared(&self) -> (r: i64)
        ensures
            r == self@.length_squared(),
    {
        self.dot(*self)
    }

    pub fn dot(&self, other: Vec3) -> (r: i64)
        ensures
            r == self@.dot(other@),
    {
        let n: i128 = self.dot_wide(other);
        div_floor(n, SCALE as i128) as i64
    }

    /// The unit vector along the vector; the zero vector stays as it is.
    pub fn unit_vector(&self) -> (r: Vec3)
        ensures
            r@ == self@.direction(),
            !self@.near_zero() ==> r@.is_unit(),
    {
        proof {
            use_type_invariant(self);
        }
        Vec3::direction_wide(self.x as i128, self.y as i128, self.z as i128)
    }

    /// Whether the length is one to within a thousandth.
    pub fn is_unit(&self) -> (r: bool)
        ensures
            r == self@.is_unit(),
    {
        let n: i128 = self.dot_wide(*self);
        1_000_000_000_000 - (UNIT_TOLERANCE as i128) <= n && n <= 1_000_000_000_000 + (
        UNIT_TOLERANCE as i128)
    }

    pub fn near_zero(&self) -> (r: bool)
        ensures
            r == self@.near_zero(),
    {
        self.x == 0 && self.y == 0 && self.z == 0
    }

    pub fn cross(&self, other: Vec3) -> (r: Vec3)
        ensures
            r@ == self@.cross(other@).sat(),
    {
        proof {
            use_type_invariant(self);
            use_type_invariant(&other);
            lemma_mul_bound(self.y as int, other.z as int, LIMIT as int, LIMIT as int);
            lemma_mul_bound(self.z as int, other.y as int, LIMIT as int, LIMIT as int);
            lemma_mul_bound(self.z as int, other.x as int, LIMIT as int, LIMIT as int);
            lemma_mul_bound(self.x as int, other.z as int, LIMIT as int, LIMIT as int);
            lemma_mul_bound(self.x as int, other.y as int, LIMIT as int, LIMIT as int);
            lemma_mul_bound(self.y as int, other.x as int, LIMIT as int, LIMIT as int);
        }
        let wx: i128 = wide_mul(self.y, other.z) - wide_mul(self.z, other.y);
        let wy: i128 = wide_mul(self.z, other.x) - wide_mul(self.x, other.z);
        let wz: i128 = wide_mul(self.x, other.y) - wide_mul(self.y, other.x);
        Vec3::wide(
            div_floor(wx, SCALE as i128),
            div_floor(wy, SCALE as i128),
            div_floor(wz, SCALE as i128),
        )
    }

    pub fn add(self, other: Vec3) -> (r: Vec3)
        ensures
            r@ == self@.add(other@).sat(),
    {
        proof {
            use_type_invariant(&self);
            use_type_invariant(&other);
        }
        Vec3::wide(
            self.x as i128 + other.x as i128,
            self.y as i128 + other.y as i128,
            self.z as i128 + other.z as i128,
        )
    }

    pub fn add_scalar(self, n: i64) -> (r: Vec3)
        ensures
            r@ == self@.add_scalar(n as int).sat(),
    {
        Vec3::wide(self.x as i128 + n as i128, self.y as i128 + n as i128, self.z as i128 + n as i128)
    }

    pub fn sub(self, other: Vec3) -> (r: Vec3)
        ensures
            r@ == self@.sub(other@).sat(),
    {
        Vec3::wide(
            self.x as i128 - other.x as i128,
            self.y as i128 - other.y as i128,
            self.z as i128 - other.z as i128,
        )
    }

    pub fn sub_scalar(self, n: i64) -> (r: Vec3)
        ensures
            r@ == self@.add_scalar(-n).sat(),
    {
        Vec3::wide(self.x as i128 - n as i128, self.y as i128 - n as i128, self.z as i128 - n as i128)
    }

    pub fn mul(self, other: Vec3) -> (r: Vec3)
        ensures
            r@ == self@.mul(other@).sat(),
    {
        Vec3::wide(
            div_floor(wide_mul(self.x, other.x), SCALE as i128),
            div_floor(wide_mul(self.y, other.y), SCALE as i128),
            div_floor(wide_mul(self.z, other.z), SCALE as i128),
        )
    }

    pub fn scale(self, n: i64) -> (r: Vec3)
        ensures
            r@ == self@.scale(n as int).sat(),
    {
        Vec3::wide(
            div_floor(wide_mul(self.x, n), SCALE as i128),
            div_floor(wide_mul(self.y, n), SCALE as i128),
            div_floor(wide_mul(self.z, n), SCALE as i128),
        )
    }

    pub fn div(self, other: Vec3) -> (r: Vec3)
        ensures
            r@ == self@.div(other@).sat(),
    {
        Vec3::wide(
            quotient(wide_mul(self.x, SCALE), other.x as i128),
            quotient(wide_mul(self.y, SCALE), other.y as i128),
            quotient(wide_mul(self.z, SCALE), other.z as i128),
        )
    }

    pub fn div_scalar(self, n: i64) -> (r: Vec3)
        ensures
            r@ == self@.div_scalar(n as int).sat(),
    {
        Vec3::wide(
            quotient(wide_mul(self.x, SCALE), n as i128),
            quotient(wide_mul(self.y, SCALE), n as i128),
            quotient(wide_mul(self.z, SCALE), n as i128),
        )
    }

    pub fn neg(self) -> (r: Vec3)
        ensures
            r@ == self@.neg(),
    {
        proof {
            use_type_invariant(&self);
        }
        Vec3 { x: -self.x, y: -self.y, z: -self.z }
    }

    pub fn reflect(&self, normal: Vec3) -> (r: Vec3)
        ensures
            r@ == self@.reflect(normal@).sat(),
    {
        let k: i128 = 2 * self.dot_wide(normal);
        proof {
            use_type_invariant(self);
            use_type_invariant(&normal);
            lemma_mul_bound(k as int, normal.x as int, 6_000_000_000_000_000_000, LIMIT as int);
            lemma_mul_bound(k as int, normal.y as int, 6_000_000_000_000_000_000, LIMIT as int);
            lemma_mul_bound(k as int, normal.z as int, 6_000_000_000_000_000_000, LIMIT as int);
        }
        let unit: i128 = 1_000_000_000_000;
        let dx: i128 = div_floor(k * (normal.x as i128), unit);
        let dy: i128 = div_floor(k * (normal.y as i128), unit);
        let dz: i128 = div_floor(k * (normal.z as i128), unit);
        proof {
            lemma_quotient_bound(k * normal.x, unit as int, 6_000_000_000_000_000_000_000_000_000);
            lemma_quotient_bound(k * normal.y, unit as int, 6_000_000_000_000_000_000_000_000_000);
            lemma_quotient_bound(k * normal.z, unit as int, 6_000_000_000_000_000_000_000_000_000);
        }
        Vec3::wide(self.x as i128 - dx, self.y as i128 - dy, self.z as i128 - dz)
    }

    /// The cosine that refraction works with: `min(-self . n, 1)`.
    pub fn cos_theta(&self, n: &Vec3) -> (c: i64)
        ensures
            c == self@.cos_theta(n@),
            -3_000_000_000_000 <= c <= SCALE,
    {
        let d: i128 = self.neg().dot_wide(*n);
        let c: i128 = div_floor(d, SCALE as i128);
        proof {
            lemma_quotient_bound(d as int, SCALE as int, 3_000_000_000_000_000_000);
        }
        if c < SCALE as i128 {
            c as i64
        } else {
            SCALE
        }
    }

    fn refract_perp(&self, n: &Vec3, etai_over_etat: i64) -> (r: Vec3)
        ensures
            r@ == self@.refract_perp(n@, etai_over_etat as int),
            r@.in_world(),
    {
        let c: i128 = self.cos_theta(n) as i128;
        let e: i128 = saturate(etai_over_etat as i128) as i128;
        proof {
            use_type_invariant(self);
            use_type_invariant(n);
            lemma_mul_bound(c as int, n.x as int, 3_000_000_000_000, LIMIT as int);
            lemma_mul_bound(c as int, n.y as int, 3_000_000_000_000, LIMIT as int);
            lemma_mul_bound(c as int, n.z as int, 3_000_000_000_000, LIMIT as int);
            lemma_mul_bound(self.x as int, SCALE as int, LIMIT as int, SCALE as int);
            lemma_mul_bound(self.y as int, SCALE as int, LIMIT as int, SCALE as int);
            lemma_mul_bound(self.z as int, SCALE as int, LIMIT as int, SCALE as int);
        }
        let ix: i128 = wide_mul(self.x, SCALE) + c * (n.x as i128);
        let iy: i128 = wide_mul(self.y, SCALE) + c * (n.y as i128);
        let iz: i128 = wide_mul(self.z, SCALE) + c * (n.z as i128);
        proof {
            lemma_mul_bound(e as int, ix as int, LIMIT as int, 3_001_000_000_000_000_000_000);
            lemma_mul_bound(e as int, iy as int, LIMIT as int, 3_001_000_000_000_000_000_000);
            lemma_mul_bound(e as int, iz as int, LIMIT as int, 3_001_000_000_000_000_000_000);
        }
        let unit: i128 = 1_000_000_000_000;
        Vec3::wide(div_floor(e * ix, unit), div_floor(e * iy, unit), div_floor(e * iz, unit))
    }

    pub fn refract(&self, n: &Vec3, etai_over_etat: i64) -> (r: Vec3)
        ensures
            r@ == self@.refract(n@, etai_over_etat as int).sat(),
    {
        let perp: Vec3 = self.refract_perp(n, etai_over_etat);
        let unit: i128 = 1_000_000_000_000;
        let d: i128 = unit - perp.dot_wide(perp);
        let m: i128 = if d >= 0 { d } else { -d };
        let h: i128 = int_sqrt(m as u128) as i128;
        proof {
            use_type_invariant(n);
            if h > 2 * LIMIT {
                lemma_square_monotone(2 * LIMIT + 1, h as int);
            }
            lemma_mul_bound(-h as int, n.x as int, 2 * LIMIT, LIMIT as int);
            lemma_mul_bound(-h as int, n.y as int, 2 * LIMIT, LIMIT as int);
            lemma_mul_bound(-h as int, n.z as int, 2 * LIMIT, LIMIT as int);
        }
        let px: i128 = div_floor(-h * (n.x as i128), SCALE as i128);
        let py: i128 = div_floor(-h * (n.y as i128), SCALE as i128);
        let pz: i128 = div_floor(-h * (n.z as i128), SCALE as i128);
        proof {
            lemma_quotient_bound(-h * n.x, SCALE as int, 2 * LIMIT * LIMIT);
            lemma_quotient_bound(-h * n.y, SCALE as int, 2 * LIMIT * LIMIT);
            lemma_quotient_bound(-h * n.z, SCALE as int, 2 * LIMIT * LIMIT);
        }
        Vec3::wide(perp.x() as i128 + px, perp.y() as i128 + py, perp.z() as i128 + pz)
    }

    /// The unit vector along a vector of three wide integers, however short
    /// it is; the zero vector for the zero vector.
    pub(crate) fn direction_wide(x: i128, y: i128, z: i128) -> (r: Vec3)
        requires
            -8_000_000_000_000_000_000 <= x <= 8_000_000_000_000_000_000,
            -8_000_000_000_000_000_000 <= y <= 8_000_000_000_000_000_000,
            -8_000_000_000_000_000_000 <= z <= 8_000_000_000_000_000_000,
        ensures
            r@ == (V3 { x: x as int, y: y as int, z: z as int }).direction(),
            x != 0 || y != 0 || z != 0 ==> r@.is_unit(),
    {
        let ghost v = V3 { x: x as int, y: y as int, z: z as int };
        proof {
            lemma_direction_is_unit(v);
        }
        let length: i128 = Vec3::length_wide(x, y, z);
        if length >= 2_000 {
            Vec3::over_length(x, y, z, length)
        } else {
            proof {
                assert(x * x >= 0 && y * y >= 0 && z * z >= 0) by (nonlinear_arith);
                lemma_isqrt_exists(x * x + y * y + z * z);
                if x > 2_000 || x < -2_000 {
                    assert(x * x >= 2_000 * 2_000) by (nonlinear_arith)
                        requires
                            x > 2_000 || x < -2_000,
                    ;
                }
                if y > 2_000 || y < -2_000 {
                    assert(y * y >= 2_000 * 2_000) by (nonlinear_arith)
                        requires
                            y > 2_000 || y < -2_000,
                    ;
                }
                if z > 2_000 || z < -2_000 {
                    assert(z * z >= 2_000 * 2_000) by (nonlinear_arith)
                        requires
                            z > 2_000 || z < -2_000,
                    ;
                }
                lemma_square_monotone(length as int + 1, 2_000);
            }
            let (kx, ky, kz) = (x * 2_000, y * 2_000, z * 2_000);
            let longer: i128 = Vec3::length_wide(kx, ky, kz);
            Vec3::over_length(kx, ky, kz, longer)
        }
    }

    /// The length of a vector of three wide integers.
    fn length_wide(x: i128, y: i128, z: i128) -> (length: i128)
        requires
            -8_000_000_000_000_000_000 <= x <= 8_000_000_000_000_000_000,
            -8_000_000_000_000_000_000 <= y <= 8_000_000_000_000_000_000,
            -8_000_000_000_000_000_000 <= z <= 8_000_000_000_000_000_000,
        ensures
            length == (V3 { x: x as int, y: y as int, z: z as int }).length(),
            0 <= length <= 0xffff_ffff_ffff_ffff,
    {
        proof {
            let k: int = 8_000_000_000_000_000_000;
            lemma_mul_bound(x as int, x as int, k, k);
            lemma_mul_bound(y as int, y as int, k, k);
            lemma_mul_bound(z as int, z as int, k, k);
            assert(x * x >= 0 && y * y >= 0 && z * z >= 0) by (nonlinear_arith);
        }
        let square: u128 = (x * x) as u128 + (y * y) as u128 + (z * z) as u128;
        int_sqrt(square) as i128
    }

    /// A vector of three wide integers over its length; the vector itself
    /// where the length is zero.
    fn over_length(x: i128, y: i128, z: i128, length: i128) -> (r: Vec3)
        requires
            -8_000_000_000_000_000_000 <= x <= 8_000_000_000_000_000_000,
            -8_000_000_000_000_000_000 <= y <= 8_000_000_000_000_000_000,
            -8_000_000_000_000_000_000 <= z <= 8_000_000_000_000_000_000,
            length == (V3 { x: x as int, y: y as int, z: z as int }).length(),
            0 <= length,
        ensures
            r@ == (V3 { x: x as int, y: y as int, z: z as int }).unit().sat(),
    {
        if length != 0 {
            proof {
                let k: int = 8_000_000_000_000_000_000;
                lemma_mul_bound(x as int, SCALE as int, k, SCALE as int);
                lemma_mul_bound(y as int, SCALE as int, k, SCALE as int);
                lemma_mul_bound(z as int, SCALE as int, k, SCALE as int);
            }
            Vec3::wide(
                div_floor(x * (SCALE as i128), length),
                div_floor(y * (SCALE as i128), length),
                div_floor(z * (SCALE as i128), length),
            )
        } else {
            Vec3::wide(x, y, z)
        }
    }

    /// The unit vector along the step from `from` to `to`, however short it
    /// is; the zero vector where the two are one point.
    pub fn direction_between(from: &Vec3, to: &Vec3) -> (r: Vec3)
        ensures
            r@ == to@.sub(from@).direction(),
            to@ != from@ ==> r@.is_unit(),
    {
        Vec3::direction_wide(
            to.x() as i128 - from.x() as i128,
            to.y() as i128 - from.y() as i128,
            to.z() as i128 - from.z() as i128,
        )
    }

    /// The vector over its length, or the unit vector along `x` where the
    /// vector is less than two thousandths long.
    pub fn onto_unit_sphere(self) -> (r: Vec3)
        ensures
            r@ == self@.onto_unit_sphere(),
            r@.is_unit(),
    {
        let length: i64 = self.length();
        if length >= 2_000 {
            proof {
                lemma_unit_has_unit_length(self@);
            }
            self.div_scalar(length)
        } else {
            proof {
                assert(SCALE * SCALE == 1_000_000_000_000) by (nonlinear_arith);
            }
            Vec3::new(SCALE, 0, 0)
        }
    }

    /// The unit vector that the three fractions `u` pick.
    pub fn direction_of(u: Vec3) -> (r: Vec3)
        ensures
            r@ == V3::direction_of(u@),
            r@.is_unit(),
    {
        Vec3::in_range(-SCALE, SCALE, u).onto_unit_sphere()
    }

    /// The vector or its opposite, whichever lies on the side of `normal`.
    pub fn on_hemisphere(self, normal: Vec3) -> (r: Vec3)
        ensures
            r@ == self@.on_hemisphere(normal@),
            r@.dot_wide(normal@) >= 0,
            r@.is_unit() == self@.is_unit(),
    {
        proof {
            lemma_neg_dot(self@, normal@);
        }
        if self.dot_wide(normal) > 0 {
            self
        } else {
            self.neg()
        }
    }

    /// Three uniform samples of `[0, 1)`.
    pub fn random() -> (r: Vec3)
        ensures
            r@.is_fraction(),
    {
        let x: i64 = random_fraction();
        let y: i64 = random_fraction();
        let z: i64 = random_fraction();
        Vec3 { x, y, z }
    }

    /// The point of the cube `[min, max)^3` that the fractions `u` pick.
    pub fn in_range(min: i64, max: i64, u: Vec3) -> (r: Vec3)
        ensures
            r@ == V3::in_range(min as int, max as int, u@).sat(),
    {
        proof {
            use_type_invariant(&u);
        }
        Vec3::wide(
            lerp(min, max, u.x) as i128,
            lerp(min, max, u.y) as i128,
            lerp(min, max, u.z) as i128,
        )
    }

    /// A uniform sample of the cube `[min, max)^3`.
    pub fn random_range(min: i64, max: i64) -> (r: Vec3)
        ensures
            exists|u: V3| u.is_fraction() && r@ == V3::in_range(min as int, max as int, u).sat(),
    {
        let u: Vec3 = Vec3::random();
        let r = Vec3::in_range(min, max, u);
        assert(u@.is_fraction() && r@ == V3::in_range(min as int, max as int, u@).sat());
        r
    }

    /// A random unit vector.
    pub fn random_unit_vector() -> (r: Vec3)
        ensures
            r@.is_unit(),
            exists|u: V3| u.is_fraction() && r@ == V3::direction_of(u),
    {
        let u: Vec3 = Vec3::random();
        let r = Vec3::direction_of(u);
        assert(u@.is_fraction() && r@ == V3::direction_of(u@));
        r
    }

    /// A random unit vector on the side of `normal`.
    pub fn random_on_hemisphere(normal: Vec3) -> (r: Vec3)
        ensures
            r@.is_unit(),
            r@.dot_wide(normal@) >= 0,
            exists|u: V3| u.is_fraction() && r@ == V3::direction_of(u).on_hemisphere(normal@),
    {
        let u: Vec3 = Vec3::random();
        let r = Vec3::direction_of(u).on_hemisphere(normal);
        proof {
            lemma_neg_dot(V3::direction_of(u@), normal@);
            assert(u@.is_fraction() && r@ == V3::direction_of(u@).on_hemisphere(normal@));
        }
        r
    }
}

/// The eight-bit value of a linear colour channel: the gamma-corrected
/// channel, held in `[0, 0.999]` and scaled by 256.
pub open spec fn channel_byte(c: int) -> int {
    (256 * clamp_int(linear_to_gamma_spec(c), 0, 999_000)) / (SCALE as int)
}

/// The line of a plain PPM image for one pixel: three decimal numbers,
/// a space between them, a line feed after them.
pub open spec fn pixel_line(c: V3) -> Seq<u8> {
    decimal(channel_byte(c.x) as nat) + seq![32u8] + decimal(channel_byte(c.y) as nat) + seq![32u8]
        + decimal(channel_byte(c.z) as nat) + seq![10u8]
}

pub proof fn lemma_channel_byte_range(c: int)
    ensures
        0 <= channel_byte(c) <= 255,
{
    let g = clamp_int(linear_to_gamma_spec(c), 0, 999_000);
    vstd::arithmetic::div_mod::lemma_fundamental_div_mod(256 * g, SCALE as int);
}

/// A linear colour. Its model is the vector of its red, green and blue
/// channels, in that order.
#[derive(Clone, Copy, Debug)]
pub struct Color {
    rgb: Vec3,
}

impl View for Color {
    type V = V3;

    closed spec fn view(&self) -> V3 {
        self.rgb@
    }
}

impl Color {
    pub fn new(r: i64, g: i64, b: i64) -> (c: Color)
        ensures
            c@ == (V3 { x: r as int, y: g as int, z: b as int }).sat(),
            c@.in_world(),
    {
        Color { rgb: Vec3::new(r, g, b) }
    }

    /// The colour of three wide channels, each held in `[-LIMIT, LIMIT]`.
    pub fn wide(r: i128, g: i128, b: i128) -> (c: Color)
        ensures
            c@ == (V3 { x: r as int, y: g as int, z: b as int }).sat(),
            c@.in_world(),
    {
        Color { rgb: Vec3::wide(r, g, b) }
    }

    pub fn r(&self) -> (r: i64)
        ensures
            r == self@.x,
            self@.in_world(),
    {
        self.rgb.x()
    }

    pub fn g(&self) -> (r: i64)
        ensures
            r == self@.y,
            self@.in_world(),
    {
        self.rgb.y()
    }

    pub fn b(&self) -> (r: i64)
        ensures
            r == self@.z,
            self@.in_world(),
    {
        self.rgb.z()
    }

    pub fn add(self, other: Color) -> (r: Color)
        ensures
            r@ == self@.add(other@).sat(),
    {
        Color { rgb: self.rgb.add(other.rgb) }
    }

    pub fn sub(self, other: Color) -> (r: Color)
        ensures
            r@ == self@.sub(other@).sat(),
    {
        Color { rgb: self.rgb.sub(other.rgb) }
    }

    /// The channel-wise product: the light `other` seen through `self`.
    pub fn mul(self, other: Color) -> (r: Color)
        ensures
            r@ == self@.mul(other@).sat(),
    {
        Color { rgb: self.rgb.mul(other.rgb) }
    }

    pub fn scale(self, n: i64) -> (r: Color)
        ensures
            r@ == self@.scale(n as int).sat(),
    {
        Color { rgb: self.rgb.scale(n) }
    }

    pub fn add_assign(&mut self, other: Color)
        ensures
            final(self)@ == old(self)@.add(other@).sat(),
    {
        self.rgb = self.rgb.add(other.rgb);
    }

    /// The eight-bit value of one linear channel.
    pub fn channel(c: i64) -> (b: u8)
        ensures
            b == channel_byte(c as int),
    {
        let intensity = Interval { min: 0, max: 999_000 };
        let g: i64 = intensity.clamp(linear_to_gamma(c));
        proof {
            lemma_channel_byte_range(c as int);
        }
        (256 * g / SCALE) as u8
    }

    /// Appends the pixel's line of a plain PPM image to `out`.
    pub fn write_color(&self, out: &mut Vec<u8>)
        ensures
            final(out)@ == old(out)@ + pixel_line(self@),
    {
        let ir: u8 = Color::channel(self.r());
        let ig: u8 = Color::channel(self.g());
        let ib: u8 = Color::channel(self.b());
        push_decimal(out, ir as u32);
        out.push(32u8);
        push_decimal(out, ig as u32);
        out.push(32u8);
        push_decimal(out, ib as u32);
        out.push(10u8);
    }
}

impl Vec3 {
    /// The colour whose channels are the sums of the components of the
    /// vector and the channels of `color`.
    pub fn add_color(self, color: Color) -> (r: Color)
        ensures
            r@ == self@.add(color@).sat(),
    {
        Color { rgb: self.add(color.rgb) }
    }
}

} // verus!
