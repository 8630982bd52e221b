//! Hit records, the primitives that rays can hit, and the scene.

use crate::material::Material;
use crate::quad::{
    lemma_quad_hit_in_interval, lemma_quad_hit_narrowed, lemma_quad_hit_well_formed, Quad,
};
use crate::ray::{Ray, RayModel};
use crate::sphere::{
    lemma_sphere_hit_in_interval, lemma_sphere_hit_narrowed, lemma_sphere_hit_well_formed, Sphere,
};
use crate::util::Interval;
use crate::vec3::{lemma_neg_dot, Vec3, V3};
use vstd::prelude::*;

verus! {

/// The model of a `HitRecord`.
pub struct Hit {
    pub p: V3,
    pub normal: V3,
    pub t: int,
    pub front_face: bool,
    pub material: Material,
}

impl Hit {
    /// The record of a hit at `p` whose surface has the outward normal
    /// `outward`: the stored normal is the one of the two that opposes the ray.
    pub open spec fn facing(r: RayModel, p: V3, t: int, outward: V3, material: Material) -> Hit {
        let front_face = r.direction.dot_wide(outward) < 0;
        Hit { p, normal: if front_face { outward } else { outward.neg() }, t, front_face, material }
    }

    /// The normal has unit length and does not point along the ray.
    pub open spec fn well_formed(self, r: RayModel) -> bool {
        self.normal.is_unit() && self.normal.dot_wide(r.direction) <= 0
    }
}

/// Where a ray met a surface.
#[derive(Clone, Copy, Debug)]
pub struct HitRecord {
    pub p: Vec3,
    pub normal: Vec3,
    pub t: i64,
    pub front_face: bool,
    pub material: Material,
}

impl View for HitRecord {
    type V = Hit;

    open spec fn view(&self) -> Hit {
        Hit {
            p: self.p@,
            normal: self.normal@,
            t: self.t as int,
            front_face: self.front_face,
            material: self.material,
        }
    }
}

/// The model of an optional record.
pub open spec fn hit_view(o: Option<HitRecord>) -> Option<Hit> {
    match o {
        Some(rec) => Some(rec@),
        None => None,
    }
}

/// The stored normal of a record never points along the ray.
pub proof fn lemma_facing_opposes(r: RayModel, p: V3, t: int, outward: V3, material: Material)
    ensures
        Hit::facing(r, p, t, outward, material).normal.dot_wide(r.direction) <= 0,
        Hit::facing(r, p, t, outward, material).normal.is_unit() <==> outward.is_unit(),
{
    lemma_neg_dot(r.direction, outward);
    lemma_neg_dot(outward, r.direction);
    assert(outward.dot_wide(r.direction) == r.direction.dot_wide(outward)) by (nonlinear_arith);
}

impl HitRecord {
    /// The record of a hit at `p` whose surface has the outward normal
    /// `outward_normal`.
    pub fn facing(r: &Ray, p: Vec3, t: i64, outward_normal: Vec3, material: Material) -> (rec:
        HitRecord)
        ensures
            rec@ == Hit::facing(r@, p@, t as int, outward_normal@, material),
    {
        let mut rec = HitRecord { p, normal: outward_normal, t, front_face: true, material };
        rec.set_face_normal(r, outward_normal);
        rec
    }

    /// Orients the stored normal against the ray `r`.
    pub fn set_face_normal(&mut self, r: &Ray, outward_normal: Vec3)
        ensures
            final(self)@ == Hit::facing(
                r@,
                old(self)@.p,
                old(self)@.t,
                outward_normal@,
                old(self)@.material,
            ),
    {
        self.front_face = r.direction.dot_wide(outward_normal) < 0;
        self.normal = if self.front_face {
            outward_normal
        } else {
            outward_normal.neg()
        };
    }
}

/// A shape that a ray can hit.
#[derive(Clone, Copy, Debug)]
pub enum Primitive {
    Sphere(Sphere),
    Quad(Quad),
}

impl Primitive {
    pub open spec fn hit_spec(self, r: RayModel, ray_t: Interval) -> Option<Hit> {
        match self {
            Primitive::Sphere(s) => s.hit_spec(r, ray_t),
            Primitive::Quad(q) => q.hit_spec(r, ray_t),
        }
    }

    /// Where the ray meets the shape within the interval, if it does.
    pub fn hit(&self, r: &Ray, ray_t: Interval) -> (res: Option<HitRecord>)
        ensures
            hit_view(res) == self.hit_spec(r@, ray_t),
            res matches Some(rec) ==> rec@.well_formed(r@),
    {
        match self {
            Primitive::Sphere(s) => s.hit(r, ray_t),
            Primitive::Quad(q) => q.hit(r, ray_t),
        }
    }
}

/// The upper end of the interval in which the next primitive is searched:
/// the parameter of the nearest hit so far, or the end of the whole interval.
pub open spec fn narrowed(ray_t: Interval, so_far: Option<Hit>) -> Interval {
    match so_far {
        Some(h) => Interval { min: ray_t.min, max: h.t as i64 },
        None => ray_t,
    }
}

/// The nearest hit among the primitives, found by going through them in
/// order: each is searched only nearer than the nearest hit before it.
pub open spec fn closest_hit_spec(objects: Seq<Primitive>, r: RayModel, ray_t: Interval) -> Option<
    Hit,
>
    decreases objects.len(),
{
    if objects.len() == 0 {
        None
    } else {
        let before = closest_hit_spec(objects.drop_last(), r, ray_t);
        match objects.last().hit_spec(r, narrowed(ray_t, before)) {
            Some(h) => Some(h),
            None => before,
        }
    }
}

/// Every hit record has a normal of unit length that does not point along
/// the ray that hit: of a single primitive and of a scene.
pub proof fn lemma_hits_are_well_formed(objects: Seq<Primitive>, r: RayModel, ray_t: Interval)
    ensures
        forall|i: int|
            0 <= i < objects.len() ==> ((#[trigger] objects[i]).hit_spec(r, ray_t) matches Some(h)
                ==> h.well_formed(r)),
        closest_hit_spec(objects, r, ray_t) matches Some(h) ==> h.well_formed(r),
    decreases objects.len(),
{
    assert forall|i: int| 0 <= i < objects.len() implies ((#[trigger] objects[i]).hit_spec(
        r,
        ray_t,
    ) matches Some(h) ==> h.well_formed(r)) by {
        lemma_primitive_hit_well_formed(objects[i], r, ray_t);
    }
    if objects.len() > 0 {
        let before = closest_hit_spec(objects.drop_last(), r, ray_t);
        lemma_hits_are_well_formed(objects.drop_last(), r, ray_t);
        lemma_primitive_hit_well_formed(objects.last(), r, narrowed(ray_t, before));
    }
}

/// Every hit on a primitive has a unit normal that does not point along the
/// ray.
pub proof fn lemma_primitive_hit_well_formed(p: Primitive, r: RayModel, ray_t: Interval)
    ensures
        p.hit_spec(r, ray_t) matches Some(h) ==> h.well_formed(r),
{
    match p {
        Primitive::Sphere(s) => lemma_sphere_hit_well_formed(s, r, ray_t),
        Primitive::Quad(q) => lemma_quad_hit_well_formed(q, r, ray_t),
    }
}

/// A hit on a primitive lies strictly inside the interval of the search.
pub proof fn lemma_primitive_hit_in_interval(p: Primitive, r: RayModel, ray_t: Interval)
    ensures
        p.hit_spec(r, ray_t) matches Some(h) ==> ray_t.min < h.t < ray_t.max,
{
    match p {
        Primitive::Sphere(s) => lemma_sphere_hit_in_interval(s, r, ray_t),
        Primitive::Quad(q) => lemma_quad_hit_in_interval(q, r, ray_t),
    }
}

/// Lowering the upper end of the interval to `max` keeps a hit nearer than
/// `max` as it is, and loses no other than one at `max` or beyond.
pub proof fn lemma_primitive_hit_narrowed(p: Primitive, r: RayModel, ray_t: Interval, max: i64)
    requires
        max <= ray_t.max,
    ensures
        p.hit_spec(r, Interval { min: ray_t.min, max }) matches Some(h) ==> p.hit_spec(r, ray_t)
            == Some(h),
        p.hit_spec(r, Interval { min: ray_t.min, max }) is None ==> (p.hit_spec(r, ray_t) matches Some(
            h,
        ) ==> h.t >= max),
{
    match p {
        Primitive::Sphere(s) => lemma_sphere_hit_narrowed(s, r, ray_t, max),
        Primitive::Quad(q) => lemma_quad_hit_narrowed(q, r, ray_t, max),
    }
}

/// `found` is the nearest of the hits of the primitives within the
/// interval: none where no primitive is hit, and otherwise the hit of one
/// of them than which no other is nearer.
pub open spec fn is_nearest_hit(
    objects: Seq<Primitive>,
    r: RayModel,
    ray_t: Interval,
    found: Option<Hit>,
) -> bool {
    match found {
        None => forall|i: int|
            0 <= i < objects.len() ==> (#[trigger] objects[i]).hit_spec(r, ray_t) is None,
        Some(h) => {
            &&& ray_t.min < h.t < ray_t.max
            &&& exists|i: int|
                0 <= i < objects.len() && (#[trigger] objects[i]).hit_spec(r, ray_t) == Some(h)
            &&& forall|j: int|
                0 <= j < objects.len() ==> ((#[trigger] objects[j]).hit_spec(r, ray_t) matches Some(g)
                    ==> h.t <= g.t)
        },
    }
}

/// The hit of a scene is the nearest of the hits of its primitives.
pub proof fn lemma_closest_hit_is_nearest(objects: Seq<Primitive>, r: RayModel, ray_t: Interval)
    ensures
        is_nearest_hit(objects, r, ray_t, closest_hit_spec(objects, r, ray_t)),
    decreases objects.len(),
{
    if objects.len() > 0 {
        let front = objects.drop_last();
        let last = objects.last();
        let before = closest_hit_spec(front, r, ray_t);
        lemma_closest_hit_is_nearest(front, r, ray_t);
        assert forall|i: int| 0 <= i < front.len() implies front[i] == objects[i] by {}
        match before {
            None => {
                lemma_primitive_hit_in_interval(last, r, ray_t);
                assert forall|i: int| 0 <= i < objects.len() && i != objects.len() - 1 implies (
                #[trigger] objects[i]).hit_spec(r, ray_t) is None by {
                    assert(front[i] == objects[i]);
                }
                if last.hit_spec(r, ray_t) is Some {
                    assert(objects[objects.len() - 1] == last);
                }
            },
            Some(b) => {
                let max = b.t as i64;
                let i0 = choose|i: int|
                    0 <= i < front.len() && (#[trigger] front[i]).hit_spec(r, ray_t) == Some(b);
                assert(objects[i0] == front[i0]);
                lemma_primitive_hit_narrowed(last, r, ray_t, max);
                lemma_primitive_hit_in_interval(last, r, narrowed(ray_t, before));
                assert forall|j: int| 0 <= j < objects.len() && j != objects.len() - 1 implies ((
                #[trigger] objects[j]).hit_spec(r, ray_t) matches Some(g) ==> b.t <= g.t) by {
                    assert(front[j] == objects[j]);
                }
                assert(objects[objects.len() - 1] == last);
            },
        }
    }
}

/// The scene: the primitives in the order in which they were added.
pub struct Hittables {
    pub objects: Vec<Primitive>,
}

impl Hittables {
    pub fn new() -> (world: Hittables)
        ensures
            world.objects@.len() == 0,
    {
        Hittables { objects: Vec::new() }
    }

    pub fn add(&mut self, object: Primitive)
        ensures
            final(self).objects@ == old(self).objects@.push(object),
    {
        self.objects.push(object);
    }

    /// The nearest hit of the ray on the scene within the interval.
    pub fn closest_hit(&self, r: &Ray, ray_t: Interval) -> (res: Option<HitRecord>)
        ensures
            hit_view(res) == closest_hit_spec(self.objects@, r@, ray_t),
            is_nearest_hit(self.objects@, r@, ray_t, hit_view(res)),
            res matches Some(rec) ==> rec@.well_formed(r@),
    {
        proof {
            lemma_closest_hit_is_nearest(self.objects@, r@, ray_t);
        }
        let mut best: Option<HitRecord> = None;
        let mut closest_so_far: i64 = ray_t.max;
        let mut i: usize = 0;
        while i < self.objects.len()
            invariant
                i <= self.objects.len(),
                hit_view(best) == closest_hit_spec(self.objects@.take(i as int), r@, ray_t),
                (Interval { min: ray_t.min, max: closest_so_far }) == narrowed(
                    ray_t,
                    hit_view(best),
                ),
                best matches Some(rec) ==> rec@.well_formed(r@),
            decreases self.objects.len() - i,
        {
            proof {
                let next = self.objects@.take(i + 1);
                assert(next.drop_last() == self.objects@.take(i as int));
                assert(next.last() == self.objects@[i as int]);
            }
            let found = self.objects[i].hit(r, Interval::new(ray_t.min, closest_so_far));
            if let Some(rec) = found {
                closest_so_far = rec.t;
                best = Some(rec);
            }
            i += 1;
        }
        proof {
            assert(self.objects@.take(i as int) == self.objects@);
        }
        best
    }
}

} // verus!
