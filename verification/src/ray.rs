//! Rays, half-lines `origin + t * direction`, and the light that arrives
//! along them.
//!
//! A ray that meets a surface is scattered by its material and followed on,
//! the light along the scattered ray dimmed by the colour of the surface. A
//! ray that meets nothing shows the sky. A path that has used up its bounces
//! shows a colour of its own.

use crate::hit::{closest_hit_spec, Hittables, Primitive};
use crate::material::{Sample, SampleModel};
use crate::sphere::{coefficients, discriminant, near_root, quadratic_a, RADIUS_LIMIT};
use crate::util::{
    div_floor, int_sqrt, lemma_mul_bound, lemma_quotient_bound, lemma_square_monotone, sat64,
    saturate64, wide_mul, Interval, INFINITY, SCALE,
};
use crate::vec3::{Color, Vec3, V3};
use vstd::prelude::*;

verus! {

/// The model of a `Ray`.
pub struct RayModel {
    pub origin: V3,
    pub direction: V3,
}

impl RayModel {
    /// The point at parameter `t`, before it is held in the world.
    pub open spec fn at(self, t: int) -> V3 {
        V3 {
            x: self.origin.x + (t * self.direction.x) / (SCALE as int),
            y: self.origin.y + (t * self.direction.y) / (SCALE as int),
            z: self.origin.z + (t * self.direction.z) / (SCALE as int),
        }
    }
}

/// How far along a ray the search for a hit starts: near enough to see
/// what is close, far enough not to hit the surface that the ray left.
pub const SHADOW_EPSILON: i64 = 1_000;

/// The colour white.
pub open spec fn white() -> V3 {
    V3 { x: SCALE as int, y: SCALE as int, z: SCALE as int }
}

/// The colour black: no light.
pub open spec fn black() -> V3 {
    V3 { x: 0, y: 0, z: 0 }
}

/// The blue of the sky overhead.
pub open spec fn sky_blue() -> V3 {
    V3 { x: 500_000, y: 700_000, z: SCALE as int }
}

/// The colour of a path that has used up its bounces: pure green, which no
/// surface of a scene gives by itself, so that a depth too small shows.
pub open spec fn exhausted() -> V3 {
    V3 { x: 0, y: SCALE as int, z: 0 }
}

/// The colour of the sky behind a direction: white at the bottom, sky blue
/// at the top, mixed by `0.5 (y + 1)` of the unit direction.
pub open spec fn sky(direction: V3) -> V3 {
    let t = (direction.direction().y + SCALE) / 2;
    white().scale(SCALE - t).sat().add(sky_blue().scale(t).sat()).sat()
}

/// The interval of the ray parameter in which hits are searched.
pub open spec fn search_interval() -> Interval {
    Interval { min: SHADOW_EPSILON, max: INFINITY }
}

/// The models of a sequence of samples.
pub open spec fn sample_views(samples: Seq<Sample>) -> Seq<SampleModel> {
    samples.map_values(|s: Sample| s@)
}

/// Every sample of the sequence is made of fractions of one.
pub open spec fn all_fractions(samples: Seq<SampleModel>) -> bool {
    forall|i: int| 0 <= i < samples.len() ==> (#[trigger] samples[i]).is_fraction()
}

/// The sample of the next scatter event: the first of the sequence, or the
/// sample of four zeros where the sequence has run out.
pub open spec fn next_sample(samples: Seq<SampleModel>) -> SampleModel {
    if samples.len() > 0 {
        samples.first()
    } else {
        zero_sample()
    }
}

/// The samples of the scatter events after the next one.
pub open spec fn later_samples(samples: Seq<SampleModel>) -> Seq<SampleModel> {
    if samples.len() > 0 {
        samples.drop_first()
    } else {
        samples
    }
}

/// The light that arrives along the ray `r` from the scene `world`, with at
/// most `depth` scatter events, which use the samples in order.
pub open spec fn color_spec(
    r: RayModel,
    world: Seq<Primitive>,
    depth: nat,
    samples: Seq<SampleModel>,
) -> V3
    decreases depth,
{
    if depth == 0 {
        exhausted()
    } else {
        match closest_hit_spec(world, r, search_interval()) {
            None => sky(r.direction),
            Some(rec) => match rec.material.scatter_spec(r, rec, next_sample(samples)) {
                None => black(),
                Some(sc) => sc.attenuation.mul(
                    color_spec(sc.scattered, world, (depth - 1) as nat, later_samples(samples)),
                ).sat(),
            },
        }
    }
}

/// The models of a sequence of colours.
pub open spec fn color_views(colors: Seq<Color>) -> Seq<V3> {
    colors.map_values(|c: Color| c@)
}

/// The light `c` seen through the surfaces of a path, the nearest first:
/// each dims what comes through the ones behind it.
pub open spec fn dimmed(dims: Seq<V3>, c: V3) -> V3
    decreases dims.len(),
{
    if dims.len() == 0 {
        c
    } else {
        dims.first().mul(dimmed(dims.drop_first(), c)).sat()
    }
}

/// The sample that stands for each one that is missing: four zeros.
pub open spec fn zero_sample() -> SampleModel {
    SampleModel { direction: V3 { x: 0, y: 0, z: 0 }, choice: 0 }
}

/// The light along a ray is the same with the sample of four zeros after
/// the samples as without it.
pub proof fn lemma_zero_sample_pads(
    r: RayModel,
    world: Seq<Primitive>,
    depth: nat,
    samples: Seq<SampleModel>,
)
    ensures
        color_spec(r, world, depth, samples) == color_spec(
            r,
            world,
            depth,
            samples.push(zero_sample()),
        ),
    decreases depth,
{
    if depth > 0 {
        let padded = samples.push(zero_sample());
        if samples.len() > 0 {
            assert(padded.first() == samples.first());
            assert(padded.drop_first() =~= samples.drop_first().push(zero_sample()));
        } else {
            assert(padded.first() == zero_sample());
            assert(padded.drop_first() =~= samples);
        }
        match closest_hit_spec(world, r, search_interval()) {
            None => {},
            Some(rec) => match rec.material.scatter_spec(r, rec, next_sample(samples)) {
                None => {},
                Some(sc) => {
                    if samples.len() > 0 {
                        lemma_zero_sample_pads(
                            sc.scattered,
                            world,
                            (depth - 1) as nat,
                            samples.drop_first(),
                        );
                    }
                },
            },
        }
    }
}

/// One more surface at the far end of a path dims the light before the
/// others do.
pub proof fn lemma_dimmed_push(dims: Seq<V3>, last: V3, c: V3)
    ensures
        dimmed(dims.push(last), c) == dimmed(dims, last.mul(c).sat()),
    decreases dims.len(),
{
    let longer = dims.push(last);
    if dims.len() == 0 {
        assert(longer.drop_first().len() == 0);
        assert(longer.first() == last);
        assert(dimmed(longer.drop_first(), c) == c);
        assert(dimmed(longer, c) == last.mul(c).sat());
    } else {
        assert(longer.first() == dims.first());
        assert(longer.drop_first() == dims.drop_first().push(last));
        lemma_dimmed_push(dims.drop_first(), last, c);
        assert(dimmed(longer, c) == dims.first().mul(dimmed(longer.drop_first(), c)).sat());
    }
}

/// What `Ray::hit_sphere` returns: the smaller root of the quadratic of the
/// ray and the sphere, or minus one where there is none.
pub open spec fn hit_sphere_spec(r: RayModel, center: V3, radius: int) -> int {
    if -RADIUS_LIMIT <= radius <= RADIUS_LIMIT && quadratic_a(r) > 0 && discriminant(
        center,
        radius,
        r,
    ) >= 0 {
        sat64(near_root(center, radius, r))
    } else {
        -SCALE
    }
}

/// A ray that meets nothing has the colour of the sky behind it: in a scene
/// without primitives every ray with a bounce left does.
pub proof fn lemma_empty_scene_shows_sky(
    r: RayModel,
    world: Seq<Primitive>,
    depth: nat,
    samples: Seq<SampleModel>,
)
    requires
        world.len() == 0,
        depth > 0,
    ensures
        color_spec(r, world, depth, samples) == sky(r.direction),
{
}

#[derive(Clone, Copy, Debug)]
pub struct Ray {
    pub origin: Vec3,
    pub direction: Vec3,
}

impl View for Ray {
    type V = RayModel;

    open spec fn view(&self) -> RayModel {
        RayModel { origin: self.origin@, direction: self.direction@ }
    }
}

impl Ray {
    pub fn new(origin: Vec3, direction: Vec3) -> (r: Ray)
        ensures
            r.origin == origin,
            r.direction == direction,
    {
        Ray { origin, direction }
    }

    /// The point along the ray at parameter `t`.
    pub fn at(&self, t: i64) -> (p: Vec3)
        ensures
            p@ == self@.at(t as int).sat(),
    {
        let ox: i64 = self.origin.x();
        let oy: i64 = self.origin.y();
        let oz: i64 = self.origin.z();
        let dx: i64 = self.direction.x();
        let dy: i64 = self.direction.y();
        let dz: i64 = self.direction.z();
        let sx: i128 = div_floor(wide_mul(t, dx), SCALE as i128);
        let sy: i128 = div_floor(wide_mul(t, dy), SCALE as i128);
        let sz: i128 = div_floor(wide_mul(t, dz), SCALE as i128);
        proof {
            let big: int = 0x4000_0000_0000_0000_0000_0000_0000_0000;
            lemma_quotient_bound(t * dx, SCALE as int, big);
            lemma_quotient_bound(t * dy, SCALE as int, big);
            lemma_quotient_bound(t * dz, SCALE as int, big);
        }
        Vec3::wide(ox as i128 + sx, oy as i128 + sy, oz as i128 + sz)
    }

    /// The colour of the sky behind the ray.
    pub fn sky(&self) -> (c: Color)
        ensures
            c@ == sky(self@.direction),
    {
        let unit_direction: Vec3 = self.direction.unit_vector();
        let t: i64 = div_floor((unit_direction.y() + SCALE) as i128, 2) as i64;
        Color::new(SCALE, SCALE, SCALE).scale(SCALE - t).add(
            Color::new(500_000, 700_000, SCALE).scale(t),
        )
    }

    /// The light that arrives along the ray, with the random numbers of the
    /// scatter events taken from `samples` in order; where they run out, the
    /// sample of four zeros stands for each further one.
    pub fn color_with(&self, world: &Hittables, depth: u32, samples: &Vec<Sample>) -> (c: Color)
        ensures
            c@ == color_spec(self@, world.objects@, depth as nat, sample_views(samples@)),
    {
        self.follow(world, depth, Some(samples))
    }

    /// The light that arrives along the ray, with random numbers drawn for
    /// each scatter event of the path as it comes.
    pub fn color(&self, world: &Hittables, depth: u32) -> (c: Color)
        ensures
            exists|samples: Seq<SampleModel>|
                samples.len() <= depth && all_fractions(samples) && c@ == color_spec(
                    self@,
                    world.objects@,
                    depth as nat,
                    samples,
                ),
    {
        self.follow(world, depth, None)
    }

    /// The light that arrives along the ray, with the random numbers of the
    /// scatter events taken from `given` where there are any, and drawn
    /// where there are none.
    ///
    /// The path is followed to its end first, and the colours by which its
    /// surfaces dim the light are then applied from the last one back.
    #[verifier::rlimit(50)]
    fn follow(&self, world: &Hittables, depth: u32, given: Option<&Vec<Sample>>) -> (c: Color)
        ensures
            given matches Some(samples) ==> c@ == color_spec(
                self@,
                world.objects@,
                depth as nat,
                sample_views(samples@),
            ),
            given is None ==> exists|samples: Seq<SampleModel>|
                samples.len() <= depth && all_fractions(samples) && c@ == color_spec(
                    self@,
                    world.objects@,
                    depth as nat,
                    samples,
                ),
    {
        let ghost all = match given {
            Some(samples) => sample_views(samples@),
            None => Seq::empty(),
        };
        let ghost mut used: Seq<SampleModel> = Seq::empty();
        let mut dims: Vec<Color> = Vec::new();
        let mut ray: Ray = *self;
        let mut left: u32 = depth;
        let mut next: usize = 0;
        let mut end: Color = Color::new(0, SCALE, 0);
        proof {
            assert forall|rest: Seq<SampleModel>| used + rest == rest by {
                assert(used + rest =~= rest);
            }
            assert(all.skip(0) =~= all);
        }
        while left > 0
            invariant_except_break
                end@ == exhausted(),
                forall|rest: Seq<SampleModel>| #[trigger]
                    color_spec(self@, world.objects@, depth as nat, used + rest) == dimmed(
                        color_views(dims@),
                        color_spec(ray@, world.objects@, left as nat, rest),
                    ),
                used.len() + left <= depth,
            invariant
                given matches Some(samples) ==> all == sample_views(samples@),
                next <= all.len(),
                given is None ==> all_fractions(used),
                given is Some ==> color_spec(self@, world.objects@, depth as nat, all)
                    == color_spec(
                    self@,
                    world.objects@,
                    depth as nat,
                    used + all.skip(next as int),
                ),
            ensures
                used.len() <= depth,
                forall|rest: Seq<SampleModel>| #[trigger]
                    color_spec(self@, world.objects@, depth as nat, used + rest) == dimmed(
                        color_views(dims@),
                        end@,
                    ),
            decreases left,
        {
            let found = world.closest_hit(&ray, Interval::new(SHADOW_EPSILON, INFINITY));
            let rec = match found {
                None => {
                    end = ray.sky();
                    break ;
                },
                Some(rec) => rec,
            };
            let ghost before = next;
            let sample = match given {
                Some(samples) => if next < samples.len() {
                    next += 1;
                    samples[next - 1]
                } else {
                    Sample { direction: Vec3::new(0, 0, 0), choice: 0 }
                },
                None => Sample::random(),
            };
            let ghost longer = used.push(sample@);
            proof {
                if given is None {
                    assert forall|k: int| 0 <= k < longer.len() implies (#[trigger] longer[k]).is_fraction() by {
                        if k < used.len() {
                            assert(longer[k] == used[k]);
                        }
                    }
                }
                if let Some(samples) = given {
                    if before < all.len() {
                        assert(all[before as int] == samples@[before as int]@);
                        assert(longer + all.skip(next as int) =~= used + all.skip(before as int));
                    } else {
                        assert(all.skip(before as int) =~= Seq::<SampleModel>::empty());
                        assert(used + all.skip(before as int) =~= used);
                        assert(longer + all.skip(next as int) =~= longer);
                        lemma_zero_sample_pads(self@, world.objects@, depth as nat, used);
                    }
                }
            }
            let scattered = rec.material.scatter_with(&ray, &rec, &sample);
            proof {
                let onward = match scattered {
                    Some(sc) => color_views(dims@).push(sc.attenuation@),
                    None => color_views(dims@),
                };
                assert forall|rest: Seq<SampleModel>| #[trigger]
                    color_spec(self@, world.objects@, depth as nat, longer + rest) == dimmed(
                        onward,
                        match scattered {
                            Some(sc) => color_spec(
                                sc.scattered@,
                                world.objects@,
                                (left - 1) as nat,
                                rest,
                            ),
                            None => black(),
                        },
                    ) by {
                    let from_here = seq![sample@] + rest;
                    assert(used + from_here =~= longer + rest);
                    assert(from_here.first() == sample@);
                    assert(from_here.drop_first() =~= rest);
                    if let Some(sc) = scattered {
                        lemma_dimmed_push(
                            color_views(dims@),
                            sc.attenuation@,
                            color_spec(sc.scattered@, world.objects@, (left - 1) as nat, rest),
                        );
                    }
                }
                used = longer;
            }
            let sc = match scattered {
                None => {
                    end = Color::new(0, 0, 0);
                    break ;
                },
                Some(sc) => sc,
            };
            proof {
                assert(color_views(dims@).push(sc.attenuation@) == color_views(
                    dims@.push(sc.attenuation),
                ));
            }
            dims.push(sc.attenuation);
            ray = sc.scattered;
            left -= 1;
        }
        let c = dim_back(&dims, end);
        proof {
            assert(used + Seq::<SampleModel>::empty() =~= used);
            if given is None {
                assert(used.len() <= depth && all_fractions(used) && c@ == color_spec(
                    self@,
                    world.objects@,
                    depth as nat,
                    used,
                ));
            }
        }
        c
    }

    /// The parameter at which the ray first meets the sphere, or minus one
    /// where it does not.
    pub fn hit_sphere(&self, center: Vec3, radius: i64) -> (t: i64)
        ensures
            t == hit_sphere_spec(self@, center@, radius as int),
    {
        if radius < -RADIUS_LIMIT || radius > RADIUS_LIMIT {
            return -SCALE;
        }
        let size: i64 = if radius < 0 {
            -radius
        } else {
            radius
        };
        let (a, half_b, c) = coefficients(&center, size, self);
        proof {
            assert(size * size == radius * radius) by (nonlinear_arith)
                requires
                    size == radius || size == -radius,
            ;
            lemma_mul_bound(
                half_b as int,
                half_b as int,
                6_000_000_000_000_000_000,
                6_000_000_000_000_000_000,
            );
            lemma_mul_bound(
                a as int,
                c as int,
                3_000_000_000_000_000_000,
                16_000_000_000_000_000_000,
            );
        }
        let disc: i128 = half_b * half_b - a * c;
        if a == 0 || disc < 0 {
            return -SCALE;
        }
        let root: i128 = int_sqrt(disc as u128) as i128;
        proof {
            if root > 9_200_000_000_000_000_000 {
                lemma_square_monotone(9_200_000_000_000_000_001, root as int);
            }
            lemma_mul_bound(-half_b - root, SCALE as int, 16_000_000_000_000_000_000, SCALE as int);
        }
        saturate64(div_floor((-half_b - root) * (SCALE as i128), a))
    }
}

/// The light `end` seen through the surfaces of a path, applied from the
/// last one back.
fn dim_back(dims: &Vec<Color>, end: Color) -> (c: Color)
    ensures
        c@ == dimmed(color_views(dims@), end@),
{
    let mut c: Color = end;
    let mut k: usize = dims.len();
    proof {
        assert(color_views(dims@).take(k as int) == color_views(dims@));
    }
    while k > 0
        invariant
            k <= dims@.len(),
            dimmed(color_views(dims@), end@) == dimmed(color_views(dims@).take(k as int), c@),
        decreases k,
    {
        proof {
            let upto = color_views(dims@).take(k as int);
            assert(upto.drop_last() == color_views(dims@).take(k - 1));
            assert(upto.last() == dims@[k - 1]@);
            assert(upto == upto.drop_last().push(upto.last()));
            lemma_dimmed_push(upto.drop_last(), upto.last(), c@);
        }
        k -= 1;
        c = dims[k].mul(c);
    }
    c
}

} // verus!
