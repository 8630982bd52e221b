//! Surface materials and how each scatters an incoming ray.
//!
//! Scattering is a function of the ray, the hit and the random numbers of
//! the event. `scatter_with` takes the random numbers as an argument;
//! `scatter` draws them.

use crate::hit::{Hit, HitRecord};
use crate::ray::{Ray, RayModel};
use crate::util::{
    clamp_int, div_floor, fx_div, fx_mul, int_sqrt, is_isqrt, isqrt, lemma_mul_bound,
    lemma_square_monotone, quotient, random_fraction, sat, sat64, saturate, saturate64, LIMIT,
    SCALE,
};
use crate::vec3::{Color, Vec3, V3};
use vstd::prelude::*;

verus! {

/// A diffuse surface of the given base colour.
#[derive(Clone, Copy, Debug)]
pub struct Lambertian {
    pub albedo: Color,
}

/// A mirror of the given base colour, blurred by `fuzz`.
#[derive(Clone, Copy, Debug)]
pub struct Metal {
    pub albedo: Color,
    pub fuzz: i64,
}

/// A clear medium of the given refractive index, relative to what is
/// outside it.
#[derive(Clone, Copy, Debug)]
pub struct Dielectric {
    pub refraction_index: i64,
}

#[derive(Clone, Copy, Debug)]
pub enum Material {
    Lambertian(Lambertian),
    Metal(Metal),
    Dielectric(Dielectric),
}

/// The model of a `Sample`.
pub struct SampleModel {
    pub direction: V3,
    pub choice: int,
}

impl SampleModel {
    /// All four numbers are fractions of one.
    pub open spec fn is_fraction(self) -> bool {
        self.direction.is_fraction() && 0 <= self.choice < SCALE
    }

    /// The unit vector that the three fractions pick.
    pub open spec fn unit_vector(self) -> V3 {
        V3::direction_of(self.direction)
    }
}

/// The random numbers of one scatter event: three that pick a direction,
/// and one that decides between reflection and refraction.
#[derive(Clone, Copy, Debug)]
pub struct Sample {
    pub direction: Vec3,
    pub choice: i64,
}

impl View for Sample {
    type V = SampleModel;

    open spec fn view(&self) -> SampleModel {
        SampleModel { direction: self.direction@, choice: self.choice as int }
    }
}

/// The model of a `Scatter`.
pub struct ScatterModel {
    pub attenuation: V3,
    pub scattered: RayModel,
}

/// What a surface sends on: the colour by which the light along the
/// scattered ray is dimmed, and that ray.
#[derive(Clone, Copy, Debug)]
pub struct Scatter {
    pub attenuation: Color,
    pub scattered: Ray,
}

impl View for Scatter {
    type V = ScatterModel;

    open spec fn view(&self) -> ScatterModel {
        ScatterModel { attenuation: self.attenuation@, scattered: self.scattered@ }
    }
}

/// The model of an optional scatter.
pub open spec fn scatter_view(o: Option<Scatter>) -> Option<ScatterModel> {
    match o {
        Some(s) => Some(s@),
        None => None,
    }
}

/// The diffuse direction: the normal plus a random direction, or the normal
/// itself where the sum vanishes.
pub open spec fn lambertian_direction(normal: V3, u: V3) -> V3 {
    let d = normal.add(u).sat();
    if d.near_zero() {
        normal
    } else {
        d
    }
}

/// The direction off a metal: the mirror image of the incoming direction,
/// plus `fuzz` times a random direction.
pub open spec fn metal_direction(incoming: V3, normal: V3, fuzz: int, u: V3) -> V3 {
    incoming.reflect(normal).sat().add(u.scale(fuzz).sat()).sat()
}

/// The ratio of the refractive indices across the surface: the inverse of
/// the index where the ray enters the medium, the index where it leaves.
pub open spec fn refraction_ratio(index: int, front_face: bool) -> int {
    if front_face {
        sat64(fx_div(SCALE as int, index))
    } else {
        index
    }
}

/// The sine that belongs to a cosine: `sqrt(1 - cos^2)`, zero where the
/// cosine exceeds one.
pub open spec fn sin_theta(cos: int) -> int {
    let d = SCALE * SCALE - cos * cos;
    isqrt(if d > 0 { d } else { 0 })
}

/// Snell's law has no solution: `ratio * sin > 1`.
pub open spec fn cannot_refract(ratio: int, cos: int) -> bool {
    ratio * sin_theta(cos) > SCALE * SCALE
}

/// Schlick's approximation of the share of light that a clear surface
/// reflects: `r0 + (1 - r0) (1 - cos)^5` with `r0 = ((1 - ratio) / (1 + ratio))^2`.
pub open spec fn reflectance(cos: int, ratio: int) -> int {
    let q = sat(fx_div(SCALE - ratio, SCALE + ratio));
    let r0 = fx_mul(q, q);
    let m = clamp_int(SCALE - cos, 0, 2 * SCALE);
    let m5 = (m * m * m * m * m) / (SCALE * SCALE * SCALE * SCALE);
    r0 + fx_mul(SCALE - r0, m5)
}

/// The direction through a clear surface: reflected where Snell's law has no
/// solution or the reflectance exceeds the sample `choice`, else refracted.
pub open spec fn dielectric_direction(
    incoming: V3,
    normal: V3,
    front_face: bool,
    index: int,
    choice: int,
) -> V3 {
    let ratio = refraction_ratio(index, front_face);
    let unit = incoming.direction();
    let cos = unit.cos_theta(normal);
    if cannot_refract(ratio, cos) || reflectance(cos, ratio) > choice {
        unit.reflect(normal).sat()
    } else {
        unit.refract(normal, ratio).sat()
    }
}

impl Material {
    /// What the material sends on for the ray `r_in` that hit at `rec`,
    /// given the random numbers `s`; `None` where the ray is absorbed.
    pub open spec fn scatter_spec(self, r_in: RayModel, rec: Hit, s: SampleModel) -> Option<
        ScatterModel,
    > {
        match self {
            Material::Lambertian(m) => Some(
                ScatterModel {
                    attenuation: m.albedo@,
                    scattered: RayModel {
                        origin: rec.p,
                        direction: lambertian_direction(rec.normal, s.unit_vector()),
                    },
                },
            ),
            Material::Metal(m) => {
                let d = metal_direction(r_in.direction, rec.normal, m.fuzz as int, s.unit_vector());
                if d.dot_wide(rec.normal) > 0 {
                    Some(
                        ScatterModel {
                            attenuation: m.albedo@,
                            scattered: RayModel { origin: rec.p, direction: d },
                        },
                    )
                } else {
                    None
                }
            },
            Material::Dielectric(m) => Some(
                ScatterModel {
                    attenuation: V3 { x: SCALE as int, y: SCALE as int, z: SCALE as int },
                    scattered: RayModel {
                        origin: rec.p,
                        direction: dielectric_direction(
                            r_in.direction,
                            rec.normal,
                            rec.front_face,
                            m.refraction_index as int,
                            s.choice,
                        ),
                    },
                },
            ),
        }
    }

    /// Scatters the ray with the random numbers of `sample`.
    pub fn scatter_with(&self, r_in: &Ray, rec: &HitRecord, sample: &Sample) -> (res: Option<
        Scatter,
    >)
        ensures
            scatter_view(res) == self.scatter_spec(r_in@, rec@, sample@),
            self is Lambertian || self is Dielectric ==> res is Some,
            self matches Material::Metal(m) ==> (res is None <==> metal_direction(
                r_in@.direction,
                rec@.normal,
                m.fuzz as int,
                sample@.unit_vector(),
            ).dot_wide(rec@.normal) <= 0),
    {
        let u: Vec3 = sample.unit_vector();
        match self {
            Material::Lambertian(m) => {
                let sum: Vec3 = rec.normal.add(u);
                let direction: Vec3 = if sum.near_zero() {
                    rec.normal
                } else {
                    sum
                };
                Some(Scatter { attenuation: m.albedo, scattered: Ray::new(rec.p, direction) })
            },
            Material::Metal(m) => {
                let reflected: Vec3 = r_in.direction.reflect(rec.normal);
                let direction: Vec3 = reflected.add(u.scale(m.fuzz));
                if direction.dot_wide(rec.normal) > 0 {
                    Some(Scatter { attenuation: m.albedo, scattered: Ray::new(rec.p, direction) })
                } else {
                    None
                }
            },
            Material::Dielectric(m) => {
                let ratio: i64 = ratio_across(m.refraction_index, rec.front_face);
                let unit_direction: Vec3 = r_in.direction.unit_vector();
                let cos: i64 = unit_direction.cos_theta(&rec.normal);
                let sin: i64 = sine(cos);
                proof {
                    lemma_mul_bound(ratio as int, sin as int, 0x8000_0000_0000_0000, SCALE as int);
                }
                let cannot: bool = (ratio as i128) * (sin as i128) > 1_000_000_000_000;
                let direction: Vec3 = if cannot || schlick(cos, ratio) > sample.choice as i128 {
                    unit_direction.reflect(rec.normal)
                } else {
                    unit_direction.refract(&rec.normal, ratio)
                };
                Some(
                    Scatter {
                        attenuation: Color::new(SCALE, SCALE, SCALE),
                        scattered: Ray::new(rec.p, direction),
                    },
                )
            },
        }
    }

    /// Scatters the ray with random numbers of its own.
    pub fn scatter(&self, r_in: &Ray, rec: &HitRecord) -> (res: Option<Scatter>)
        ensures
            exists|s: SampleModel|
                s.is_fraction() && scatter_view(res) == self.scatter_spec(r_in@, rec@, s),
            self is Lambertian || self is Dielectric ==> res is Some,
    {
        let sample = Sample::random();
        let res = self.scatter_with(r_in, rec, &sample);
        assert(sample@.is_fraction() && scatter_view(res) == self.scatter_spec(
            r_in@,
            rec@,
            sample@,
        ));
        res
    }
}

/// A diffuse surface and a clear one never absorb; a metal absorbs exactly
/// the rays whose blurred mirror image does not leave the surface.
pub proof fn lemma_absorption(m: Material, r_in: RayModel, rec: Hit, s: SampleModel)
    ensures
        m is Lambertian || m is Dielectric ==> m.scatter_spec(r_in, rec, s) is Some,
        m matches Material::Metal(metal) ==> (m.scatter_spec(r_in, rec, s) is None <==> metal_direction(
            r_in.direction,
            rec.normal,
            metal.fuzz as int,
            s.unit_vector(),
        ).dot_wide(rec.normal) <= 0),
{
}

/// With the refractive index one the ratio across the surface is one on
/// either face, and Snell's law has a solution at every angle.
pub proof fn lemma_index_one_always_refracts(front_face: bool, cos: int)
    requires
        -SCALE <= cos <= SCALE,
    ensures
        refraction_ratio(SCALE as int, front_face) == SCALE,
        !cannot_refract(SCALE as int, cos),
{
    lemma_mul_bound(cos, cos, SCALE as int, SCALE as int);
    assert(cos * cos >= 0) by (nonlinear_arith);
    let d = SCALE * SCALE - cos * cos;
    let m = if d > 0 { d } else { 0 };
    crate::util::lemma_isqrt_exists(m);
    if isqrt(m) > SCALE {
        lemma_square_monotone(SCALE + 1, isqrt(m));
    }
}

/// A ray that meets a clear surface of refractive index one along the
/// normal, where the normal is not shorter than one, goes straight on.
pub proof fn lemma_index_one_goes_straight_on(
    incoming: V3,
    normal: V3,
    front_face: bool,
    choice: int,
)
    requires
        normal == incoming.direction().neg(),
        normal.dot_wide(normal) >= SCALE * SCALE,
        choice >= 0,
    ensures
        dielectric_direction(incoming, normal, front_face, SCALE as int, choice)
            == incoming.direction(),
{
    let unit = incoming.direction();
    let one = SCALE as int;
    crate::vec3::lemma_direction_is_unit(incoming);
    crate::vec3::lemma_neg_dot(unit, normal);
    assert(unit.neg() == normal);
    assert(unit.cos_theta(normal) == one);
    assert(is_isqrt(0, 0));
    crate::util::lemma_isqrt_unique(0, 0);
    assert(sin_theta(one) == 0);
    assert(SCALE * SCALE * SCALE * SCALE == 1_000_000_000_000_000_000_000_000) by (nonlinear_arith);
    assert(fx_div(one - one, one + one) == 0);
    assert(fx_mul(0, 0) == 0);
    assert(clamp_int(one - one, 0, 2 * one) == 0);
    assert(0int * 0 * 0 * 0 * 0 == 0);
    assert(fx_mul(one - 0, 0) == 0);
    assert(reflectance(one, one) == 0);
    let perp = unit.refract_perp(normal, one);
    assert(perp == V3 { x: 0, y: 0, z: 0 });
    assert(perp.dot_wide(perp) == 0);
    assert(is_isqrt(one * one, one));
    crate::util::lemma_isqrt_unique(one * one, one);
    let h = isqrt(one * one - perp.dot_wide(perp));
    assert(h == one);
    assert((-h * normal.x) / one == unit.x) by (nonlinear_arith)
        requires
            h == one,
            one == 1_000_000,
            normal.x == -unit.x,
    ;
    assert((-h * normal.y) / one == unit.y) by (nonlinear_arith)
        requires
            h == one,
            one == 1_000_000,
            normal.y == -unit.y,
    ;
    assert((-h * normal.z) / one == unit.z) by (nonlinear_arith)
        requires
            h == one,
            one == 1_000_000,
            normal.z == -unit.z,
    ;
    assert(unit.refract_parallel(normal, one) == unit);
}

impl Sample {
    /// Four uniform samples of `[0, 1)`.
    pub fn random() -> (s: Sample)
        ensures
            s@.is_fraction(),
    {
        Sample { direction: Vec3::random(), choice: random_fraction() }
    }

    /// The unit vector that the three fractions pick.
    pub fn unit_vector(&self) -> (u: Vec3)
        ensures
            u@ == self@.unit_vector(),
            u@.is_unit(),
    {
        Vec3::direction_of(self.direction)
    }
}

impl Lambertian {
    pub fn new(albedo: Color) -> (m: Lambertian)
        ensures
            m.albedo == albedo,
    {
        Lambertian { albedo }
    }
}

impl Metal {
    /// The metal of the given colour; `fuzz` is held in `[0, 1]`.
    pub fn new(albedo: Color, fuzz: i64) -> (m: Metal)
        ensures
            m.albedo == albedo,
            m.fuzz == clamp_int(fuzz as int, 0, SCALE as int),
    {
        Metal {
            albedo,
            fuzz: if fuzz < 0 {
                0
            } else if fuzz > SCALE {
                SCALE
            } else {
                fuzz
            },
        }
    }
}

impl Dielectric {
    pub fn new(refraction_index: i64) -> (m: Dielectric)
        ensures
            m.refraction_index == refraction_index,
    {
        Dielectric { refraction_index }
    }
}

/// The ratio of the refractive indices across the surface.
fn ratio_across(index: i64, front_face: bool) -> (r: i64)
    ensures
        r == refraction_ratio(index as int, front_face),
{
    if front_face {
        saturate64(quotient(1_000_000_000_000, index as i128))
    } else {
        index
    }
}

/// The sine that belongs to a cosine.
fn sine(cos: i64) -> (s: i64)
    requires
        -3_000_000_000_000 <= cos <= SCALE,
    ensures
        s == sin_theta(cos as int),
        0 <= s <= SCALE,
{
    proof {
        lemma_mul_bound(cos as int, cos as int, 3_000_000_000_000, 3_000_000_000_000);
        assert(cos * cos >= 0) by (nonlinear_arith);
    }
    let d: i128 = 1_000_000_000_000 - (cos as i128) * (cos as i128);
    let m: i128 = if d > 0 {
        d
    } else {
        0
    };
    let s: u64 = int_sqrt(m as u128);
    proof {
        if s > SCALE {
            lemma_square_monotone(SCALE + 1, s as int);
        }
    }
    s as i64
}

/// Schlick's approximation of the reflectance.
fn schlick(cos: i64, ratio: i64) -> (r: i128)
    ensures
        r == reflectance(cos as int, ratio as int),
{
    let one: i128 = SCALE as i128;
    proof {
        lemma_mul_bound(one - ratio, SCALE as int, 0x1_0000_0000_0000_0000, SCALE as int);
    }
    let q: i128 = saturate(quotient((one - ratio as i128) * one, one + ratio as i128)) as i128;
    proof {
        lemma_mul_bound(q as int, q as int, LIMIT as int, LIMIT as int);
    }
    let r0: i128 = div_floor(q * q, one);
    let gap: i128 = one - cos as i128;
    let m: i128 = if gap < 0 {
        0
    } else if gap > 2 * one {
        2 * one
    } else {
        gap
    };
    proof {
        let w: int = 2 * SCALE;
        lemma_mul_bound(m as int, m as int, w, w);
        lemma_mul_bound(m * m, m as int, w * w, w);
        lemma_mul_bound(m * m * m, m as int, w * w * w, w);
        lemma_mul_bound(m * m * m * m, m as int, w * w * w * w, w);
        assert(w * w * w * w * w == 32_000_000_000_000_000_000_000_000_000_000) by (nonlinear_arith)
            requires
                w == 2_000_000,
        ;
        assert(SCALE * SCALE * SCALE * SCALE == 1_000_000_000_000_000_000_000_000)
            by (nonlinear_arith);
    }
    let m5: i128 = div_floor(m * m * m * m * m, 1_000_000_000_000_000_000_000_000);
    proof {
        assert(-32_000_000 <= m5 <= 32_000_000);
        assert(-1_000_000_000_000 <= r0 <= 1_000_000_000_000);
        lemma_mul_bound(one - r0, m5 as int, 1_000_001_000_000, 32_000_000);
    }
    r0 + div_floor((one - r0) * m5, one)
}

} // verus!
