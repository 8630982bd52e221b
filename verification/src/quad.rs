//! Planar quadrilaterals and where rays meet them.
//!
//! The four corners are taken to lie in one plane and to run round a convex
//! outline in one sense, counter-clockwise as seen from the side that the
//! normal points to. The side of each edge on which a point lies is decided
//! by the sign of an exact product.

use crate::hit::{hit_view, lemma_facing_opposes, Hit, HitRecord};
use crate::material::Material;
use crate::ray::{Ray, RayModel};
use crate::util::{lemma_mul_bound, quot, quotient, wide_mul, Interval, LIMIT, SCALE};
use crate::vec3::{lemma_direction_is_unit, lemma_unit_component_bound, Vec3, V3};
use vstd::prelude::*;

verus! {

#[derive(Clone, Copy, Debug)]
pub struct Quad {
    pub a: Vec3,
    pub b: Vec3,
    pub c: Vec3,
    pub d: Vec3,
    pub normal: Vec3,
    pub material: Material,
}

/// The unit normal of the plane through `a`, `b` and `c`: the unit vector
/// along the exact cross product of `b - a` and `c - a`. Three points on one
/// line have the zero vector for it.
pub open spec fn plane_normal(a: V3, b: V3, c: V3) -> V3 {
    b.sub(a).cross_wide(c.sub(a)).direction()
}

/// Three corners that do not lie on one line have a plane normal of unit
/// length.
pub proof fn lemma_plane_normal_is_unit(a: V3, b: V3, c: V3)
    requires
        !b.sub(a).cross_wide(c.sub(a)).near_zero(),
    ensures
        plane_normal(a, b, c).is_unit(),
        plane_normal(a, b, c).in_world(),
{
    lemma_direction_is_unit(b.sub(a).cross_wide(c.sub(a)));
}

/// On which side of the edge from `from` to `to` the point `p` lies, as seen
/// along `-n`: positive to the left, negative to the right, zero on the
/// line of the edge.
pub open spec fn edge_side(from: V3, to: V3, p: V3, n: V3) -> int {
    to.sub(from).cross_wide(p.sub(from)).dot_wide(n)
}

impl Quad {
    /// The parameter at which the ray crosses the plane of the quad:
    /// `(a - origin) . n / direction . n`.
    pub open spec fn plane_t(self, r: RayModel) -> int {
        quot(
            self.a@.sub(r.origin).dot_wide(self.normal@) * SCALE,
            r.direction.dot_wide(self.normal@),
        )
    }

    /// The point `p` of the plane lies within the four edges.
    pub open spec fn inside(self, p: V3) -> bool {
        &&& edge_side(self.a@, self.b@, p, self.normal@) >= 0
        &&& edge_side(self.b@, self.c@, p, self.normal@) >= 0
        &&& edge_side(self.c@, self.d@, p, self.normal@) >= 0
        &&& edge_side(self.d@, self.a@, p, self.normal@) >= 0
    }

    /// The ray crosses the plane: the normal has unit length and the ray is
    /// not parallel to the plane.
    pub open spec fn crosses(self, r: RayModel) -> bool {
        self.normal@.is_unit() && r.direction.dot_wide(self.normal@) != 0
    }

    /// The point `p` on the ray `r` lies in the plane of the quad, to
    /// within the rounding of the ray parameter and of the point itself.
    pub open spec fn near_plane(self, r: RayModel, p: V3) -> bool {
        let gap = p.sub(self.a@).dot_wide(self.normal@) * SCALE;
        let across = r.direction.dot_wide(self.normal@);
        let slack = (if across >= 0 { across } else { -across }) + 3_006_000_000_000;
        -slack <= gap <= slack
    }

    /// The hit of the ray on the quad within the interval.
    pub open spec fn hit_spec(self, r: RayModel, ray_t: Interval) -> Option<Hit> {
        let t = self.plane_t(r);
        let p = r.at(t).sat();
        if self.crosses(r) && ray_t.surrounds_spec(t) && self.inside(p) {
            Some(Hit::facing(r, p, t, self.normal@, self.material))
        } else {
            None
        }
    }

    /// The quad of the four corners, with the unit normal of their plane.
    pub fn new(a: Vec3, b: Vec3, c: Vec3, d: Vec3, material: Material) -> (q: Quad)
        ensures
            q.a == a,
            q.b == b,
            q.c == c,
            q.d == d,
            q.material == material,
            q.normal@ == plane_normal(a@, b@, c@),
            !b@.sub(a@).cross_wide(c@.sub(a@)).near_zero() ==> q.normal@.is_unit(),
    {
        let (wx, wy, wz) = cross_from(&a, &b, &c);
        let normal = Vec3::direction_wide(wx, wy, wz);
        Quad { a, b, c, d, normal, material }
    }

    /// Where the ray meets the quad within the interval, if it does.
    pub fn hit(&self, r: &Ray, ray_t: Interval) -> (res: Option<HitRecord>)
        ensures
            hit_view(res) == self.hit_spec(r@, ray_t),
            res matches Some(rec) ==> rec@.well_formed(r@) && self.inside(rec@.p),
    {
        let normal: Vec3 = self.normal;
        if !normal.is_unit() {
            return None;
        }
        let denominator: i128 = r.direction.dot_wide(normal);
        if denominator == 0 {
            return None;
        }
        let numerator: i128 = dot_from(&r.origin, &self.a, &normal);
        proof {
            lemma_mul_bound(numerator as int, SCALE as int, 6_000_000_000_000_000_000, SCALE as int);
        }
        let t: i128 = quotient(numerator * (SCALE as i128), denominator);
        if !((ray_t.min as i128) < t && t < (ray_t.max as i128)) {
            return None;
        }
        let t: i64 = t as i64;
        let p: Vec3 = r.at(t);
        let c1: i128 = side(&self.a, &self.b, &p, &normal);
        let c2: i128 = side(&self.b, &self.c, &p, &normal);
        let c3: i128 = side(&self.c, &self.d, &p, &normal);
        let c4: i128 = side(&self.d, &self.a, &p, &normal);
        if c1 >= 0 && c2 >= 0 && c3 >= 0 && c4 >= 0 {
            proof {
                lemma_facing_opposes(r@, p@, t as int, normal@, self.material);
            }
            Some(HitRecord::facing(r, p, t, normal, self.material))
        } else {
            None
        }
    }
}

/// One component of the step `t * d / SCALE` along a ray, times the
/// component `n` of a unit normal: how far it lies from `t * d * n / SCALE`.
proof fn lemma_step_component(t: int, d: int, n: int)
    requires
        -1_002_000 <= n <= 1_002_000,
    ensures
        ({
            let f = (t * d) / (SCALE as int);
            &&& 1_000_000 * (f * n) <= t * (d * n) + 1_002_000_000_000
            &&& 1_000_000 * (f * n) >= t * (d * n) - 1_002_000_000_000
        }),
{
    let f = (t * d) / (SCALE as int);
    let g = (t * d) % (SCALE as int);
    vstd::arithmetic::div_mod::lemma_fundamental_div_mod(t * d, SCALE as int);
    assert(0 <= g < 1_000_000);
    lemma_mul_bound(g, n, 1_000_000, 1_002_000);
    assert(1_000_000 * (f * n) == t * (d * n) - g * n) by (nonlinear_arith)
        requires
            t * d == 1_000_000 * f + g,
    ;
}

/// Every hit on a quad lies within its four edges, and in its plane where
/// the point of the ray lies inside the world.
pub proof fn lemma_quad_hit_on_quad(q: Quad, r: RayModel, ray_t: Interval)
    ensures
        q.hit_spec(r, ray_t) matches Some(h) ==> {
            &&& q.inside(h.p)
            &&& r.at(h.t).in_world() ==> q.near_plane(r, h.p)
        },
{
    if let Some(h) = q.hit_spec(r, ray_t) {
        let t = q.plane_t(r);
        if r.at(t).in_world() {
            let n = q.normal@;
            let d = r.direction;
            let o = r.origin;
            let a = q.a@;
            let den = d.dot_wide(n);
            let num = a.sub(o).dot_wide(n);
            let p = r.at(t);
            assert(h.p == p);
            lemma_unit_component_bound(n);
            lemma_step_component(t, d.x, n.x);
            lemma_step_component(t, d.y, n.y);
            lemma_step_component(t, d.z, n.z);
            let (fx, fy, fz) = (
                (t * d.x) / (SCALE as int),
                (t * d.y) / (SCALE as int),
                (t * d.z) / (SCALE as int),
            );
            let stepped = fx * n.x + fy * n.y + fz * n.z;
            assert(p.sub(a).dot_wide(n) == stepped - num) by (nonlinear_arith)
                requires
                    p.sub(a).dot_wide(n) == (o.x + fx - a.x) * n.x + (o.y + fy - a.y) * n.y + (o.z
                        + fz - a.z) * n.z,
                    num == (a.x - o.x) * n.x + (a.y - o.y) * n.y + (a.z - o.z) * n.z,
                    stepped == fx * n.x + fy * n.y + fz * n.z,
            ;
            assert(t * den == t * (d.x * n.x) + t * (d.y * n.y) + t * (d.z * n.z))
                by (nonlinear_arith)
                requires
                    den == d.x * n.x + d.y * n.y + d.z * n.z,
            ;
            let whole = num * SCALE;
            if den > 0 {
                vstd::arithmetic::div_mod::lemma_fundamental_div_mod(whole, den);
                assert(den * t == t * den) by (nonlinear_arith);
            } else {
                vstd::arithmetic::div_mod::lemma_fundamental_div_mod(-whole, -den);
                assert((-den) * t == -(t * den)) by (nonlinear_arith);
            }
        }
    }
}

/// Every hit on a quad has a unit normal that does not point along the ray.
pub proof fn lemma_quad_hit_well_formed(q: Quad, r: RayModel, ray_t: Interval)
    ensures
        q.hit_spec(r, ray_t) matches Some(h) ==> h.well_formed(r),
{
    let t = q.plane_t(r);
    lemma_facing_opposes(r, r.at(t).sat(), t, q.normal@, q.material);
}

/// A hit on a quad lies strictly inside the interval of the search.
pub proof fn lemma_quad_hit_in_interval(q: Quad, r: RayModel, ray_t: Interval)
    ensures
        q.hit_spec(r, ray_t) matches Some(h) ==> ray_t.min < h.t < ray_t.max,
{
}

/// Lowering the upper end of the interval to `max` keeps a hit nearer than
/// `max` as it is, and loses no other than one at `max` or beyond.
pub proof fn lemma_quad_hit_narrowed(q: Quad, r: RayModel, ray_t: Interval, max: i64)
    requires
        max <= ray_t.max,
    ensures
        q.hit_spec(r, Interval { min: ray_t.min, max }) matches Some(h) ==> q.hit_spec(r, ray_t)
            == Some(h),
        q.hit_spec(r, Interval { min: ray_t.min, max }) is None ==> (q.hit_spec(r, ray_t) matches Some(
            h,
        ) ==> h.t >= max),
{
}

/// The exact cross product of `b - a` and `c - a`.
fn cross_from(a: &Vec3, b: &Vec3, c: &Vec3) -> (w: (i128, i128, i128))
    ensures
        (V3 { x: w.0 as int, y: w.1 as int, z: w.2 as int }) == b@.sub(a@).cross_wide(c@.sub(a@)),
        -8_000_000_000_000_000_000 <= w.0 <= 8_000_000_000_000_000_000,
        -8_000_000_000_000_000_000 <= w.1 <= 8_000_000_000_000_000_000,
        -8_000_000_000_000_000_000 <= w.2 <= 8_000_000_000_000_000_000,
{
    let ux: i64 = b.x() - a.x();
    let uy: i64 = b.y() - a.y();
    let uz: i64 = b.z() - a.z();
    let vx: i64 = c.x() - a.x();
    let vy: i64 = c.y() - a.y();
    let vz: i64 = c.z() - a.z();
    proof {
        let w: int = 2 * LIMIT;
        lemma_mul_bound(uy as int, vz as int, w, w);
        lemma_mul_bound(uz as int, vy as int, w, w);
        lemma_mul_bound(uz as int, vx as int, w, w);
        lemma_mul_bound(ux as int, vz as int, w, w);
        lemma_mul_bound(ux as int, vy as int, w, w);
        lemma_mul_bound(uy as int, vx as int, w, w);
    }
    (
        wide_mul(uy, vz) - wide_mul(uz, vy),
        wide_mul(uz, vx) - wide_mul(ux, vz),
        wide_mul(ux, vy) - wide_mul(uy, vx),
    )
}

/// The exact inner product of `to - from` and `n`.
fn dot_from(from: &Vec3, to: &Vec3, n: &Vec3) -> (r: i128)
    ensures
        r == to@.sub(from@).dot_wide(n@),
        -6_000_000_000_000_000_000 <= r <= 6_000_000_000_000_000_000,
{
    let ux: i64 = to.x() - from.x();
    let uy: i64 = to.y() - from.y();
    let uz: i64 = to.z() - from.z();
    let nx: i64 = n.x();
    let ny: i64 = n.y();
    let nz: i64 = n.z();
    proof {
        let w: int = 2 * LIMIT;
        lemma_mul_bound(ux as int, nx as int, w, LIMIT as int);
        lemma_mul_bound(uy as int, ny as int, w, LIMIT as int);
        lemma_mul_bound(uz as int, nz as int, w, LIMIT as int);
    }
    wide_mul(ux, nx) + wide_mul(uy, ny) + wide_mul(uz, nz)
}

/// On which side of the edge from `from` to `to` the point `p` lies.
fn side(from: &Vec3, to: &Vec3, p: &Vec3, n: &Vec3) -> (r: i128)
    ensures
        r == edge_side(from@, to@, p@, n@),
{
    let (wx, wy, wz) = cross_from(from, to, p);
    let nx: i64 = n.x();
    let ny: i64 = n.y();
    let nz: i64 = n.z();
    proof {
        let k: int = 8_000_000_000_000_000_000;
        lemma_mul_bound(wx as int, nx as int, k, LIMIT as int);
        lemma_mul_bound(wy as int, ny as int, k, LIMIT as int);
        lemma_mul_bound(wz as int, nz as int, k, LIMIT as int);
    }
    wx * (nx as i128) + wy * (ny as i128) + wz * (nz as i128)
}

} // verus!
