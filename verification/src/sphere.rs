//! Spheres and where rays meet them.
//!
//! A point `origin + t * direction` lies on the sphere where
//! `a t^2 + 2 half_b t + c = 0`. The three coefficients and the
//! discriminant `half_b^2 - a c` are formed exactly, so the sign of the
//! discriminant is the sign that real arithmetic would give.

use crate::hit::{hit_view, lemma_facing_opposes, Hit, HitRecord};
use crate::material::Material;
use crate::ray::{Ray, RayModel};
use crate::util::{
    div_floor, int_sqrt, isqrt, lemma_isqrt_exists, lemma_mul_bound, lemma_square_monotone,
    wide_mul, Interval, LIMIT, SCALE,
};
use crate::vec3::{lemma_direction_is_unit, lemma_dot_bound, Vec3, V3};
use vstd::prelude::*;

verus! {

#[derive(Clone, Copy, Debug)]
pub struct Sphere {
    pub center: Vec3,
    pub radius: i64,
    pub material: Material,
}

/// The coefficient `a`: the squared length of the direction.
pub open spec fn quadratic_a(r: RayModel) -> int {
    r.direction.dot_wide(r.direction)
}

/// The coefficient `half_b`: `(origin - center) . direction`.
pub open spec fn quadratic_half_b(center: V3, r: RayModel) -> int {
    r.origin.sub(center).dot_wide(r.direction)
}

/// The coefficient `c`: `|origin - center|^2 - radius^2`.
pub open spec fn quadratic_c(center: V3, radius: int, r: RayModel) -> int {
    r.origin.sub(center).dot_wide(r.origin.sub(center)) - radius * radius
}

pub open spec fn discriminant(center: V3, radius: int, r: RayModel) -> int {
    quadratic_half_b(center, r) * quadratic_half_b(center, r) - quadratic_a(r) * quadratic_c(
        center,
        radius,
        r,
    )
}

/// The smaller root `(-half_b - sqrt(discriminant)) / a` as a scalar.
pub open spec fn near_root(center: V3, radius: int, r: RayModel) -> int {
    ((-quadratic_half_b(center, r) - isqrt(discriminant(center, radius, r))) * SCALE) / quadratic_a(
        r,
    )
}

/// The larger root `(-half_b + sqrt(discriminant)) / a` as a scalar.
pub open spec fn far_root(center: V3, radius: int, r: RayModel) -> int {
    ((-quadratic_half_b(center, r) + isqrt(discriminant(center, radius, r))) * SCALE) / quadratic_a(
        r,
    )
}

/// The value of `a t^2 + 2 half_b t + c` at the rational `t = p / q`,
/// times `q^2`: its sign says on which side of the sphere the point of
/// the ray at `t` lies.
pub open spec fn side_at(center: V3, radius: int, r: RayModel, p: int, q: int) -> int {
    quadratic_a(r) * (p * p) + 2 * quadratic_half_b(center, r) * (p * q) + quadratic_c(
        center,
        radius,
        r,
    ) * (q * q)
}

/// The largest radius of a sphere whose surface can cross the world: the
/// world is a cube of side twice `LIMIT`, so a sphere about a point of it
/// with a radius above four times `LIMIT` holds all of it.
pub const RADIUS_LIMIT: i64 = 4_000_000_000;

impl Sphere {
    /// The quadratic can be solved: the radius is positive and the surface
    /// can cross the world, the direction does not vanish, and the
    /// discriminant is not negative.
    pub open spec fn solvable(self, r: RayModel) -> bool {
        &&& 0 < self.radius <= RADIUS_LIMIT
        &&& quadratic_a(r) > 0
        &&& discriminant(self.center@, self.radius as int, r) >= 0
    }

    /// The outward normal at the point `p` of the surface: the unit vector
    /// from the centre to `p`. Where rounding has taken `p` to the centre
    /// itself, it is the unit vector against the ray.
    pub open spec fn outward_normal(self, r: RayModel, p: V3) -> V3 {
        if p == self.center@ {
            r.direction.neg().direction()
        } else {
            p.sub(self.center@).direction()
        }
    }

    /// The record of the hit at parameter `t`.
    pub open spec fn record(self, r: RayModel, t: int) -> Hit {
        let p = r.at(t).sat();
        Hit::facing(r, p, t, self.outward_normal(r, p), self.material)
    }

    /// The nearest hit of the ray on the sphere within the interval: the
    /// first of the two roots, in ascending order, that lies strictly inside
    /// the interval.
    pub open spec fn hit_spec(self, r: RayModel, ray_t: Interval) -> Option<Hit> {
        let near = near_root(self.center@, self.radius as int, r);
        let far = far_root(self.center@, self.radius as int, r);
        if !self.solvable(r) {
            None
        } else if ray_t.surrounds_spec(near) {
            Some(self.record(r, near))
        } else if ray_t.surrounds_spec(far) {
            Some(self.record(r, far))
        } else {
            None
        }
    }

    /// The sphere of the given centre and material; a negative radius counts
    /// as zero.
    pub fn new(center: Vec3, radius: i64, material: Material) -> (s: Sphere)
        ensures
            s.center == center,
            s.radius == if radius < 0 { 0 } else { radius },
            s.material == material,
    {
        Sphere { center, radius: if radius < 0 { 0 } else { radius }, material }
    }

    /// Where the ray meets the sphere within the interval, if it does.
    pub fn hit(&self, r: &Ray, ray_t: Interval) -> (res: Option<HitRecord>)
        ensures
            hit_view(res) == self.hit_spec(r@, ray_t),
            res matches Some(rec) ==> rec@.well_formed(r@),
    {
        if self.radius <= 0 || self.radius > RADIUS_LIMIT {
            return None;
        }
        let (a, half_b, c) = coefficients(&self.center, self.radius, r);
        if a == 0 {
            return None;
        }
        proof {
            lemma_mul_bound(
                half_b as int,
                half_b as int,
                6_000_000_000_000_000_000,
                6_000_000_000_000_000_000,
            );
            lemma_mul_bound(
                a as int,
                c as int,
                3_000_000_000_000_000_000,
                16_000_000_000_000_000_000,
            );
        }
        let disc: i128 = half_b * half_b - a * c;
        if disc < 0 {
            return None;
        }
        let root: i128 = int_sqrt(disc as u128) as i128;
        proof {
            if root > 9_200_000_000_000_000_000 {
                lemma_square_monotone(9_200_000_000_000_000_001, root as int);
            }
            lemma_mul_bound(-half_b - root, SCALE as int, 16_000_000_000_000_000_000, SCALE as int);
            lemma_mul_bound(-half_b + root, SCALE as int, 16_000_000_000_000_000_000, SCALE as int);
            lemma_sphere_hit_well_formed(*self, r@, ray_t);
        }
        let near: i128 = div_floor((-half_b - root) * (SCALE as i128), a);
        if (ray_t.min as i128) < near && near < (ray_t.max as i128) {
            return Some(self.record_at(r, near as i64));
        }
        let far: i128 = div_floor((-half_b + root) * (SCALE as i128), a);
        if (ray_t.min as i128) < far && far < (ray_t.max as i128) {
            return Some(self.record_at(r, far as i64));
        }
        None
    }

    /// The record of the hit at parameter `t`.
    fn record_at(&self, r: &Ray, t: i64) -> (rec: HitRecord)
        ensures
            rec@ == self.record(r@, t as int),
    {
        let p: Vec3 = r.at(t);
        let at_center: bool = p.x() == self.center.x() && p.y() == self.center.y() && p.z()
            == self.center.z();
        let outward_normal: Vec3 = if at_center {
            let eye = Vec3::new(0, 0, 0);
            Vec3::direction_between(&r.direction, &eye)
        } else {
            Vec3::direction_between(&self.center, &p)
        };
        HitRecord::facing(r, p, t, outward_normal, self.material)
    }
}

/// Every hit on a sphere has a unit normal that does not point along the ray.
pub proof fn lemma_sphere_hit_well_formed(s: Sphere, r: RayModel, ray_t: Interval)
    ensures
        s.hit_spec(r, ray_t) matches Some(h) ==> h.well_formed(r),
{
    if let Some(h) = s.hit_spec(r, ray_t) {
        let outward = s.outward_normal(r, h.p);
        lemma_facing_opposes(r, h.p, h.t, outward, s.material);
        if h.p == s.center@ {
            let d = r.direction;
            if d.neg().near_zero() {
                assert(d.x * d.x + d.y * d.y + d.z * d.z == 0) by (nonlinear_arith)
                    requires
                        d.x == 0 && d.y == 0 && d.z == 0,
                ;
            }
            lemma_direction_is_unit(d.neg());
        } else {
            lemma_direction_is_unit(h.p.sub(s.center@));
        }
    }
}

/// The smaller root is not larger than the larger one.
pub proof fn lemma_roots_ordered(center: V3, radius: int, r: RayModel)
    requires
        quadratic_a(r) > 0,
        discriminant(center, radius, r) >= 0,
    ensures
        near_root(center, radius, r) <= far_root(center, radius, r),
{
    let hb = quadratic_half_b(center, r);
    let root = isqrt(discriminant(center, radius, r));
    lemma_isqrt_exists(discriminant(center, radius, r));
    vstd::arithmetic::div_mod::lemma_div_is_ordered(
        (-hb - root) * SCALE,
        (-hb + root) * SCALE,
        quadratic_a(r),
    );
}

/// A hit on a sphere lies strictly inside the interval of the search.
pub proof fn lemma_sphere_hit_in_interval(s: Sphere, r: RayModel, ray_t: Interval)
    ensures
        s.hit_spec(r, ray_t) matches Some(h) ==> ray_t.min < h.t < ray_t.max,
{
}

/// Lowering the upper end of the interval to `max` keeps a hit nearer than
/// `max` as it is, and loses no other than one at `max` or beyond.
pub proof fn lemma_sphere_hit_narrowed(s: Sphere, r: RayModel, ray_t: Interval, max: i64)
    requires
        max <= ray_t.max,
    ensures
        s.hit_spec(r, Interval { min: ray_t.min, max }) matches Some(h) ==> s.hit_spec(r, ray_t)
            == Some(h),
        s.hit_spec(r, Interval { min: ray_t.min, max }) is None ==> (s.hit_spec(r, ray_t) matches Some(
            h,
        ) ==> h.t >= max),
{
    if s.solvable(r) {
        lemma_roots_ordered(s.center@, s.radius as int, r);
    }
}

/// A ray of unit direction that is aimed at the centre of a sphere meets
/// it at the distance to the centre less the radius, and leaves it at the
/// distance plus the radius; the discriminant is the square of the radius.
pub proof fn lemma_head_on_roots(center: V3, radius: int, r: RayModel, distance: int)
    requires
        radius >= 0,
        r.direction.dot_wide(r.direction) == SCALE * SCALE,
        (center.x - r.origin.x) * SCALE == distance * r.direction.x,
        (center.y - r.origin.y) * SCALE == distance * r.direction.y,
        (center.z - r.origin.z) * SCALE == distance * r.direction.z,
    ensures
        discriminant(center, radius, r) == (SCALE * radius) * (SCALE * radius),
        near_root(center, radius, r) == distance - radius,
        far_root(center, radius, r) == distance + radius,
{
    let d = r.direction;
    let oc = r.origin.sub(center);
    let k = distance;
    let one = SCALE as int;
    let a = quadratic_a(r);
    let hb = quadratic_half_b(center, r);
    let c = quadratic_c(center, radius, r);
    assert(one * one == 1_000_000_000_000) by (nonlinear_arith)
        requires
            one == 1_000_000,
    ;
    lemma_along(oc.x, d.x, k);
    lemma_along(oc.y, d.y, k);
    lemma_along(oc.z, d.z, k);
    let (px, py, pz) = (oc.x * d.x, oc.y * d.y, oc.z * d.z);
    let (dx, dy, dz) = (d.x * d.x, d.y * d.y, d.z * d.z);
    assert(hb * 1_000_000 == -(k * dx) - k * dy - k * dz);
    assert(k * a == k * dx + k * dy + k * dz) by (nonlinear_arith)
        requires
            a == dx + dy + dz,
    ;
    assert(hb == -k * one) by (nonlinear_arith)
        requires
            hb * 1_000_000 == -(k * a),
            a == 1_000_000_000_000,
            one == 1_000_000,
    ;
    let sq = oc.dot_wide(oc);
    let (ox, oy, oz) = (oc.x * oc.x, oc.y * oc.y, oc.z * oc.z);
    assert(sq * 1_000_000_000_000 == (k * k) * dx + (k * k) * dy + (k * k) * dz);
    assert((k * k) * a == (k * k) * dx + (k * k) * dy + (k * k) * dz) by (nonlinear_arith)
        requires
            a == dx + dy + dz,
    ;
    assert(sq == k * k) by (nonlinear_arith)
        requires
            sq * 1_000_000_000_000 == (k * k) * a,
            a == 1_000_000_000_000,
    ;
    let disc = discriminant(center, radius, r);
    let root = one * radius;
    assert(disc == root * root) by (nonlinear_arith)
        requires
            disc == hb * hb - a * c,
            hb == -k * one,
            a == one * one,
            c == k * k - radius * radius,
            root == one * radius,
    ;
    assert(root >= 0 && (root + 1) * (root + 1) > root * root) by (nonlinear_arith)
        requires
            root == one * radius,
            one == 1_000_000,
            radius >= 0,
    ;
    crate::util::lemma_isqrt_unique(disc, root);
    assert((-hb - root) * one == (k - radius) * 1_000_000_000_000) by (nonlinear_arith)
        requires
            hb == -k * one,
            root == one * radius,
            one == 1_000_000,
    ;
    assert((-hb + root) * one == (k + radius) * 1_000_000_000_000) by (nonlinear_arith)
        requires
            hb == -k * one,
            root == one * radius,
            one == 1_000_000,
    ;
    assert(a == 1_000_000_000_000);
}

/// A vector with a length above zero does not vanish.
proof fn lemma_length_bound_nonzero(v: V3)
    requires
        v.length() >= 1,
    ensures
        !v.near_zero(),
{
    if v.near_zero() {
        assert(v.x * v.x + v.y * v.y + v.z * v.z == 0) by (nonlinear_arith)
            requires
                v.x == 0 && v.y == 0 && v.z == 0,
        ;
        lemma_isqrt_exists(0);
        lemma_square_monotone(1, v.length());
    }
}

/// The step back from the centre of a sphere to the point where a ray of
/// direction `d` that is aimed at the centre meets it: `-radius * d`,
/// rounded down.
pub open spec fn step_back(radius: int, d: V3) -> V3 {
    V3 {
        x: (-radius * d.x) / (SCALE as int),
        y: (-radius * d.y) / (SCALE as int),
        z: (-radius * d.z) / (SCALE as int),
    }
}

/// How far a component of the normal of a head-on hit may lie from the
/// opposite of that component of the direction: what the rounding of the
/// step back and of its length leaves, which shrinks as the radius grows.
pub open spec fn head_on_slack(radius: int) -> int {
    (5 * SCALE) / (radius - 4) + 1
}

/// The vector `n` is the opposite of the direction `d` to within the slack
/// of a head-on hit on a sphere of the given radius.
pub open spec fn opposes_closely(n: V3, d: V3, radius: int) -> bool {
    &&& -head_on_slack(radius) <= n.x + d.x <= head_on_slack(radius)
    &&& -head_on_slack(radius) <= n.y + d.y <= head_on_slack(radius)
    &&& -head_on_slack(radius) <= n.z + d.z <= head_on_slack(radius)
}

/// One component `d` of a unit direction and the component of the step back
/// along it: the products that its square and its inner product are made of.
proof fn lemma_step_back_component(d: int, radius: int)
    requires
        -SCALE <= d <= SCALE,
        radius >= 0,
    ensures
        ({
            let w = (-radius * d) / (SCALE as int);
            let g = (-radius * d) % (SCALE as int);
            &&& 0 <= g < SCALE
            &&& 1_000_000 * w == -(radius * d) - g
            &&& 1_000_000_000_000 * (w * w) == (radius * radius) * (d * d) + 2 * (radius * (d
                * g)) + g * g
            &&& -1_000_000_000_000 <= d * g <= 1_000_000_000_000
            &&& 0 <= g * g <= 1_000_000_000_000
        }),
{
    let w = (-radius * d) / (SCALE as int);
    let g = (-radius * d) % (SCALE as int);
    vstd::arithmetic::div_mod::lemma_fundamental_div_mod(-radius * d, SCALE as int);
    assert(-radius * d == -(radius * d)) by (nonlinear_arith);
    lemma_mul_bound(d, g, SCALE as int, SCALE as int);
    lemma_mul_bound(g, g, SCALE as int, SCALE as int);
    assert(g * g >= 0) by (nonlinear_arith);
    assert(1_000_000_000_000 * (w * w) == (radius * radius) * (d * d) + 2 * (radius * (d * g))
        + g * g) by (nonlinear_arith)
        requires
            1_000_000 * w == -(radius * d) - g,
    ;
}

/// One component of the unit vector along the step back: how far it lies
/// from the opposite of the component `d` of the direction, times the length
/// `len` of the step back.
proof fn lemma_normal_component(d: int, radius: int, len: int)
    requires
        -SCALE <= d <= SCALE,
        radius >= 8,
        radius - 4 <= len <= radius + 3,
    ensures
        ({
            let w = (-radius * d) / (SCALE as int);
            let g = (-radius * d) % (SCALE as int);
            let n = (w * SCALE) / len;
            let f = (w * SCALE) % len;
            &&& 0 <= f < len
            &&& -(5 * SCALE) - len <= len * (n + d) <= 5 * SCALE + len
            &&& len * (d * n) == -(radius * (d * d)) - d * g - d * f
            &&& -(SCALE * len) <= d * f <= SCALE * len
            &&& -head_on_slack(radius) <= n + d <= head_on_slack(radius)
        }),
{
    let w = (-radius * d) / (SCALE as int);
    let g = (-radius * d) % (SCALE as int);
    let n = (w * SCALE) / len;
    let f = (w * SCALE) % len;
    lemma_step_back_component(d, radius);
    vstd::arithmetic::div_mod::lemma_fundamental_div_mod(w * SCALE, len);
    assert(0 <= f < len);
    assert(len * n == -(radius * d) - g - f);
    lemma_mul_bound(d, len - radius, SCALE as int, 4);
    let x = n + d;
    assert(len * x == d * (len - radius) - g - f) by (nonlinear_arith)
        requires
            len * n == -(radius * d) - g - f,
            x == n + d,
    ;
    lemma_mul_bound(d, f, SCALE as int, len);
    assert(len * (d * n) == -(radius * (d * d)) - d * g - d * f) by (nonlinear_arith)
        requires
            len * n == -(radius * d) - g - f,
    ;
    let slack = 5 * SCALE / len;
    vstd::arithmetic::div_mod::lemma_fundamental_div_mod(5 * SCALE, len);
    vstd::arithmetic::div_mod::lemma_div_is_ordered_by_denominator(5 * SCALE, radius - 4, len);
    assert(-slack - 1 <= x <= slack + 1) by (nonlinear_arith)
        requires
            len > 0,
            -(5 * SCALE) - len <= len * x <= 5 * SCALE + len,
            5 * SCALE == len * slack + (5 * SCALE) % len,
            0 <= (5 * SCALE) % len < len,
    ;
}

/// The unit vector along the step back of a head-on hit on a sphere with a
/// radius of more than two thousandths points against the direction, and is
/// its opposite to within the slack.
pub proof fn lemma_head_on_normal(radius: int, d: V3)
    requires
        radius >= 2_004,
        d.dot_wide(d) == SCALE * SCALE,
    ensures
        d.dot_wide(step_back(radius, d).direction()) < 0,
        opposes_closely(step_back(radius, d).direction(), d, radius),
        step_back(radius, d).length() >= 2_000,
{
    let w = step_back(radius, d);
    assert(SCALE * SCALE == 1_000_000_000_000) by (nonlinear_arith);
    let (dx, dy, dz) = (d.x * d.x, d.y * d.y, d.z * d.z);
    assert(dx >= 0 && dy >= 0 && dz >= 0) by (nonlinear_arith)
        requires
            dx == d.x * d.x,
            dy == d.y * d.y,
            dz == d.z * d.z,
    ;
    if d.x > SCALE || d.x < -SCALE {
        assert(d.x * d.x > 1_000_000_000_000) by (nonlinear_arith)
            requires
                d.x > 1_000_000 || d.x < -1_000_000,
        ;
    }
    if d.y > SCALE || d.y < -SCALE {
        assert(d.y * d.y > 1_000_000_000_000) by (nonlinear_arith)
            requires
                d.y > 1_000_000 || d.y < -1_000_000,
        ;
    }
    if d.z > SCALE || d.z < -SCALE {
        assert(d.z * d.z > 1_000_000_000_000) by (nonlinear_arith)
            requires
                d.z > 1_000_000 || d.z < -1_000_000,
        ;
    }
    lemma_step_back_component(d.x, radius);
    lemma_step_back_component(d.y, radius);
    lemma_step_back_component(d.z, radius);
    let rr = radius * radius;
    let ww = w.dot_wide(w);
    assert(rr * (dx + dy + dz) == rr * dx + rr * dy + rr * dz) by (nonlinear_arith);
    let gx = (-radius * d.x) % (SCALE as int);
    let gy = (-radius * d.y) % (SCALE as int);
    let gz = (-radius * d.z) % (SCALE as int);
    lemma_mul_bound(radius, d.x * gx, radius, 1_000_000_000_000);
    lemma_mul_bound(radius, d.y * gy, radius, 1_000_000_000_000);
    lemma_mul_bound(radius, d.z * gz, radius, 1_000_000_000_000);
    assert(1_000_000_000_000 * ww <= rr * 1_000_000_000_000 + 6 * (radius * 1_000_000_000_000)
        + 3_000_000_000_000);
    assert(1_000_000_000_000 * ww >= rr * 1_000_000_000_000 - 6 * (radius * 1_000_000_000_000));
    assert(rr - 6 * radius <= ww <= rr + 6 * radius + 3);
    assert(ww >= 0) by (nonlinear_arith)
        requires
            ww >= radius * radius - 6 * radius,
            radius >= 8,
    ;
    lemma_isqrt_exists(ww);
    let len = w.length();
    if len >= radius + 4 {
        lemma_square_monotone(radius + 4, len);
        assert((radius + 4) * (radius + 4) == rr + 8 * radius + 16) by (nonlinear_arith)
            requires
                rr == radius * radius,
        ;
    }
    if len + 1 <= radius - 4 {
        lemma_square_monotone(len + 1, radius - 4);
        assert((radius - 4) * (radius - 4) == rr - 8 * radius + 16) by (nonlinear_arith)
            requires
                rr == radius * radius,
        ;
    }
    assert(radius - 4 <= len <= radius + 3);
    lemma_normal_component(d.x, radius, len);
    lemma_normal_component(d.y, radius, len);
    lemma_normal_component(d.z, radius, len);
    let n = w.direction();
    assert(n == w.unit());
    assert(n.x == (w.x * SCALE) / len);
    let across = d.dot_wide(n);
    assert(len * across == len * (d.x * n.x) + len * (d.y * n.y) + len * (d.z * n.z))
        by (nonlinear_arith)
        requires
            across == d.x * n.x + d.y * n.y + d.z * n.z,
    ;
    assert(radius * (dx + dy + dz) == radius * dx + radius * dy + radius * dz)
        by (nonlinear_arith);
    assert(len * across <= -(radius * 1_000_000_000_000) + 3_000_000_000_000 + 3 * (SCALE * len));
    assert(len * across < 0) by (nonlinear_arith)
        requires
            len * across <= -(radius * 1_000_000_000_000) + 3_000_000_000_000 + 3 * (1_000_000
                * len),
            len <= radius + 3,
            radius >= 2_004,
    ;
    assert(across < 0) by (nonlinear_arith)
        requires
            len > 0,
            len * across < 0,
    ;
}

/// One coordinate of the point at which a head-on ray meets a sphere: it
/// lies the step back from the centre, between the origin and the centre.
proof fn lemma_head_on_coordinate(o: int, c: int, d: int, k: int, radius: int)
    requires
        0 <= radius <= k,
        (c - o) * SCALE == k * d,
    ensures
        o + ((k - radius) * d) / (SCALE as int) == c + (-radius * d) / (SCALE as int),
        o <= c ==> o <= c + (-radius * d) / (SCALE as int) <= c,
        c <= o ==> c <= c + (-radius * d) / (SCALE as int) <= o,
{
    let m = c - o;
    let back = -radius * d;
    assert((k - radius) * d == m * 1_000_000 + back) by (nonlinear_arith)
        requires
            m * 1_000_000 == k * d,
            back == -radius * d,
    ;
    assert((m * 1_000_000 + back) / 1_000_000 == m + back / 1_000_000);
    if d >= 0 {
        assert(-(m * 1_000_000) <= back <= 0) by (nonlinear_arith)
            requires
                d >= 0,
                0 <= radius <= k,
                m * 1_000_000 == k * d,
                back == -radius * d,
        ;
    } else {
        assert(0 <= back <= -(m * 1_000_000)) by (nonlinear_arith)
            requires
                d < 0,
                0 <= radius <= k,
                m * 1_000_000 == k * d,
                back == -radius * d,
        ;
    }
}

/// A ray of unit direction that is aimed at the centre of a sphere from
/// outside it hits the sphere where the distance to the centre less the
/// radius lies inside the interval: at that parameter, at the point that
/// lies the step back from the centre, on the front face, with the unit
/// vector along the step back for its normal.
pub proof fn lemma_head_on_hit(s: Sphere, r: RayModel, ray_t: Interval, distance: int)
    requires
        0 < s.radius <= RADIUS_LIMIT,
        s.radius <= distance,
        r.origin.in_world(),
        s.center@.in_world(),
        r.direction.dot_wide(r.direction) == SCALE * SCALE,
        (s.center@.x - r.origin.x) * SCALE == distance * r.direction.x,
        (s.center@.y - r.origin.y) * SCALE == distance * r.direction.y,
        (s.center@.z - r.origin.z) * SCALE == distance * r.direction.z,
        ray_t.min < distance - s.radius < ray_t.max,
    ensures
        s.hit_spec(r, ray_t) matches Some(h) && {
            &&& h.t == distance - s.radius
            &&& h.p == r.at(h.t)
            &&& h.p.sub(s.center@) == step_back(s.radius as int, r.direction)
            &&& h.well_formed(r)
            &&& h.p != s.center@ ==> h.normal == if h.front_face {
                step_back(s.radius as int, r.direction).direction()
            } else {
                step_back(s.radius as int, r.direction).direction().neg()
            }
            &&& s.radius >= 2_004 ==> h.front_face && opposes_closely(
                h.normal,
                r.direction,
                s.radius as int,
            )
        },
{
    let center = s.center@;
    let radius = s.radius as int;
    let d = r.direction;
    let o = r.origin;
    lemma_head_on_roots(center, radius, r, distance);
    let root = SCALE * radius;
    assert(root * root >= 0) by (nonlinear_arith);
    assert(SCALE * SCALE == 1_000_000_000_000) by (nonlinear_arith);
    assert(s.solvable(r));
    let t = distance - radius;
    lemma_head_on_coordinate(o.x, center.x, d.x, distance, radius);
    lemma_head_on_coordinate(o.y, center.y, d.y, distance, radius);
    lemma_head_on_coordinate(o.z, center.z, d.z, distance, radius);
    let p = r.at(t);
    assert(p.in_world());
    assert(p.sat() == p);
    lemma_sphere_hit_well_formed(s, r, ray_t);
    if radius >= 2_004 {
        lemma_head_on_normal(radius, d);
        let back = step_back(radius, d);
        lemma_length_bound_nonzero(back);
    }
}

/// Where the offset `o` of the origin from the centre is `-k` times the
/// component `d` of the direction, products with it are multiples of `d * d`.
proof fn lemma_along(o: int, d: int, k: int)
    by (nonlinear_arith)
    requires
        -o * SCALE == k * d,
    ensures
        (o * d) * 1_000_000 == -(k * (d * d)),
        (o * o) * 1_000_000_000_000 == (k * k) * (d * d),
{
}

/// A positive root has a positive numerator.
proof fn lemma_positive_root(num: int, a: int)
    requires
        a > 0,
        (num * SCALE) / a > 0,
    ensures
        num > 0,
{
    let n = num * SCALE;
    vstd::arithmetic::div_mod::lemma_fundamental_div_mod(n, a);
    assert(a * (n / a) > 0) by (nonlinear_arith)
        requires
            a > 0,
            n / a > 0,
    ;
    assert(num > 0) by (nonlinear_arith)
        requires
            num * SCALE > 0,
    ;
}

/// A ray that stays outside a sphere does not hit it: if every point of the
/// ray at a parameter `p / q >= 0` lies strictly outside the sphere, no hit
/// is found in an interval that starts at zero or later.
pub proof fn lemma_ray_outside_sphere_misses(s: Sphere, r: RayModel, ray_t: Interval)
    requires
        ray_t.min >= 0,
        forall|p: int, q: int|
            p >= 0 && q > 0 ==> #[trigger] side_at(s.center@, s.radius as int, r, p, q) > 0,
    ensures
        s.hit_spec(r, ray_t) is None,
{
    let center = s.center@;
    let radius = s.radius as int;
    let a = quadratic_a(r);
    let hb = quadratic_half_b(center, r);
    let c = quadratic_c(center, radius, r);
    let disc = discriminant(center, radius, r);
    let near = near_root(center, radius, r);
    let far = far_root(center, radius, r);
    if s.solvable(r) && (ray_t.surrounds_spec(near) || ray_t.surrounds_spec(far)) {
        lemma_isqrt_exists(disc);
        let root = isqrt(disc);
        if ray_t.surrounds_spec(near) {
            lemma_positive_root(-hb - root, a);
        } else {
            lemma_positive_root(-hb + root, a);
        }
        assert(-hb + root > 0);
        if hb <= 0 {
            assert(side_at(center, radius, r, -hb, a) == -(a * disc)) by (nonlinear_arith)
                requires
                    side_at(center, radius, r, -hb, a) == a * ((-hb) * (-hb)) + 2 * hb * ((-hb) * a)
                        + c * (a * a),
                    disc == hb * hb - a * c,
            ;
            assert(a * disc >= 0) by (nonlinear_arith)
                requires
                    a > 0,
                    disc >= 0,
            ;
        } else {
            lemma_square_monotone(hb + 1, root);
            assert((hb + 1) * (hb + 1) > hb * hb) by (nonlinear_arith)
                requires
                    hb > 0,
            ;
            assert(c < 0) by (nonlinear_arith)
                requires
                    a > 0,
                    a * c < 0,
            ;
            assert(side_at(center, radius, r, 0, 1) == c) by (nonlinear_arith)
                requires
                    side_at(center, radius, r, 0, 1) == a * (0 * 0) + 2 * hb * (0 * 1) + c * (1 * 1),
            ;
        }
    }
}

/// The three coefficients of the quadratic of a ray and a sphere.
pub(crate) fn coefficients(center: &Vec3, radius: i64, r: &Ray) -> (q: (i128, i128, i128))
    requires
        0 <= radius <= RADIUS_LIMIT,
    ensures
        q.0 == quadratic_a(r@),
        q.1 == quadratic_half_b(center@, r@),
        q.2 == quadratic_c(center@, radius as int, r@),
        0 <= q.0 <= 3_000_000_000_000_000_000,
        -6_000_000_000_000_000_000 <= q.1 <= 6_000_000_000_000_000_000,
        -16_000_000_000_000_000_000 <= q.2 <= 12_000_000_000_000_000_000,
{
    let dx: i64 = r.direction.x();
    let dy: i64 = r.direction.y();
    let dz: i64 = r.direction.z();
    let ocx: i64 = r.origin.x() - center.x();
    let ocy: i64 = r.origin.y() - center.y();
    let ocz: i64 = r.origin.z() - center.z();
    let a: i128 = r.direction.dot_wide(r.direction);
    proof {
        lemma_dot_bound(r@.direction, r@.direction);
        let w: int = 2 * LIMIT;
        lemma_mul_bound(ocx as int, dx as int, w, LIMIT as int);
        lemma_mul_bound(ocy as int, dy as int, w, LIMIT as int);
        lemma_mul_bound(ocz as int, dz as int, w, LIMIT as int);
        lemma_mul_bound(ocx as int, ocx as int, w, w);
        lemma_mul_bound(ocy as int, ocy as int, w, w);
        lemma_mul_bound(ocz as int, ocz as int, w, w);
        lemma_mul_bound(radius as int, radius as int, RADIUS_LIMIT as int, RADIUS_LIMIT as int);
        assert(ocx * ocx >= 0) by (nonlinear_arith);
        assert(ocy * ocy >= 0) by (nonlinear_arith);
        assert(ocz * ocz >= 0) by (nonlinear_arith);
        assert(radius * radius >= 0) by (nonlinear_arith);
    }
    let half_b: i128 = wide_mul(ocx, dx) + wide_mul(ocy, dy) + wide_mul(ocz, dz);
    let c: i128 = wide_mul(ocx, ocx) + wide_mul(ocy, ocy) + wide_mul(ocz, ocz) - wide_mul(
        radius,
        radius,
    );
    (a, half_b, c)
}

} // verus!
