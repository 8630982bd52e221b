//! The camera: the geometry of the viewport, the rays through each pixel,
//! and the image as the bytes of a plain PPM file.
//!
//! The eye sits at the origin and looks along `-z` at a viewport two units
//! high, one unit away. Pixel `(0, 0)` is the top left one: the columns run
//! along `+x`, the rows down along `-y`, and the rows of the image are
//! written in that order. `render` draws the random numbers of the image;
//! `render_with` takes them as an argument.

use crate::hit::{Hittables, Primitive};
use crate::material::{Sample, SampleModel};
use crate::ray::{
    all_fractions, color_spec, lemma_empty_scene_shows_sky, sample_views, sky, Ray, RayModel,
};
use crate::util::{
    clamp_int, decimal, div_floor, lemma_mul_bound, push_decimal, quot, quotient, random_fraction,
    sat, LIMIT, SCALE,
};
use crate::vec3::{pixel_line, Color, Vec3, V3};
use vstd::prelude::*;

verus! {

pub struct Camera {
    pub aspect_ratio: i64,
    pub image_width: u32,
    pub image_height: u32,
    pub camera_center: Vec3,
    pub pixel_delta_u: Vec3,
    pub pixel_delta_v: Vec3,
    pub pixel00_loc: Vec3,
    pub samples_per_pixel: u32,
    pub max_depth: u32,
}

/// The height of the viewport.
pub const VIEWPORT_HEIGHT: i64 = 2_000_000;

/// The distance from the eye to the viewport.
pub const FOCAL_LENGTH: i64 = 1_000_000;

/// The height of the image in pixels: the width over the aspect ratio,
/// rounded down, and at least one.
pub open spec fn image_height_spec(aspect_ratio: int, image_width: int) -> int {
    clamp_int(quot(image_width * SCALE, aspect_ratio), 1, u32::MAX as int)
}

/// The side of a pixel: the height of the viewport over the height of the
/// image.
pub open spec fn pixel_size_spec(image_height: int) -> int {
    (VIEWPORT_HEIGHT as int) / image_height
}

/// The step from one pixel to the next in a row.
pub open spec fn pixel_delta_u_spec(image_height: int) -> V3 {
    V3 { x: pixel_size_spec(image_height), y: 0, z: 0 }
}

/// The step from one row of pixels to the next one below it.
pub open spec fn pixel_delta_v_spec(image_height: int) -> V3 {
    V3 { x: 0, y: -pixel_size_spec(image_height), z: 0 }
}

/// The centre of pixel `(0, 0)`, the top left one: half the width of the
/// pixels to the left of the axis but for half a pixel, and half a pixel
/// below the top of the viewport. A centre beyond the world is held at its
/// boundary.
pub open spec fn pixel00_spec(image_width: int, image_height: int) -> V3 {
    V3 {
        x: sat((pixel_size_spec(image_height) - pixel_size_spec(image_height) * image_width) / 2),
        y: (VIEWPORT_HEIGHT - pixel_size_spec(image_height)) / 2,
        z: -FOCAL_LENGTH,
    }
}

/// The model of a `PixelSample`.
pub struct PixelSampleModel {
    pub offset: V3,
    pub bounces: Seq<SampleModel>,
}

impl PixelSampleModel {
    /// The offset lies in the unit square and there are at most `depth`
    /// bounces, all made of fractions of one.
    pub open spec fn is_valid(self, depth: nat) -> bool {
        &&& self.offset.is_fraction()
        &&& self.offset.z == 0
        &&& self.bounces.len() <= depth
        &&& all_fractions(self.bounces)
    }
}

/// The random numbers of one camera ray: where in the pixel it passes, and
/// the samples of the scatter events of its path.
pub struct PixelSample {
    pub offset: Vec3,
    pub bounces: Vec<Sample>,
}

impl View for PixelSample {
    type V = PixelSampleModel;

    open spec fn view(&self) -> PixelSampleModel {
        PixelSampleModel { offset: self.offset@, bounces: sample_views(self.bounces@) }
    }
}

/// The models of a sequence of pixel samples.
pub open spec fn pixel_sample_views(samples: Seq<PixelSample>) -> Seq<PixelSampleModel> {
    samples.map_values(|s: PixelSample| s@)
}

/// The models of the samples of a row of pixels.
pub open spec fn row_views(row: Seq<Vec<PixelSample>>) -> Seq<Seq<PixelSampleModel>> {
    row.map_values(|pixel: Vec<PixelSample>| pixel_sample_views(pixel@))
}

/// The models of the samples of an image.
pub open spec fn image_views(rows: Seq<Vec<Vec<PixelSample>>>) -> Seq<Seq<Seq<PixelSampleModel>>> {
    rows.map_values(|row: Vec<Vec<PixelSample>>| row_views(row@))
}

/// Every pixel sample of the sequence is valid for `depth` bounces.
pub open spec fn all_valid(samples: Seq<PixelSampleModel>, depth: nat) -> bool {
    forall|k: int| 0 <= k < samples.len() ==> (#[trigger] samples[k]).is_valid(depth)
}

impl Camera {
    /// The ray from the eye through pixel `(i, j)`, moved within the pixel
    /// by `offset`.
    pub open spec fn ray_spec(self, i: int, j: int, offset: V3) -> RayModel {
        let across = self.pixel_delta_u@.scale(i * SCALE + offset.x).sat();
        let up = self.pixel_delta_v@.scale(j * SCALE + offset.y).sat();
        let pixel_sample = self.pixel00_loc@.add(across).sat().add(up).sat();
        RayModel {
            origin: self.camera_center@,
            direction: pixel_sample.sub(self.camera_center@).sat(),
        }
    }

    /// The light of one camera ray through pixel `(i, j)`.
    pub open spec fn sample_color(
        self,
        world: Seq<Primitive>,
        i: int,
        j: int,
        s: PixelSampleModel,
    ) -> V3 {
        color_spec(self.ray_spec(i, j, s.offset), world, self.max_depth as nat, s.bounces)
    }

    /// The exact sum of the light of the camera rays through pixel `(i, j)`.
    pub open spec fn pixel_sum(
        self,
        world: Seq<Primitive>,
        i: int,
        j: int,
        samples: Seq<PixelSampleModel>,
    ) -> V3
        decreases samples.len(),
    {
        if samples.len() == 0 {
            V3 { x: 0, y: 0, z: 0 }
        } else {
            self.pixel_sum(world, i, j, samples.drop_last()).add(
                self.sample_color(world, i, j, samples.last()),
            )
        }
    }

    /// The colour of pixel `(i, j)`: the mean of the light of its camera
    /// rays; black where there is none.
    pub open spec fn pixel_mean(
        self,
        world: Seq<Primitive>,
        i: int,
        j: int,
        samples: Seq<PixelSampleModel>,
    ) -> V3 {
        let sum = self.pixel_sum(world, i, j, samples);
        let n = samples.len() as int;
        if n == 0 {
            sum
        } else {
            V3 { x: sum.x / n, y: sum.y / n, z: sum.z / n }.sat()
        }
    }

    /// The samples of one pixel: one for each ray through it, each valid.
    pub open spec fn valid_pixel(self, samples: Seq<PixelSampleModel>) -> bool {
        samples.len() == self.samples_per_pixel && all_valid(samples, self.max_depth as nat)
    }

    /// The samples of one row: those of one pixel for each column.
    pub open spec fn valid_row(self, row: Seq<Seq<PixelSampleModel>>) -> bool {
        &&& row.len() == self.image_width
        &&& forall|i: int| 0 <= i < row.len() ==> self.valid_pixel(#[trigger] row[i])
    }

    /// The samples of an image: those of one row for each row.
    pub open spec fn valid_image(self, rows: Seq<Seq<Seq<PixelSampleModel>>>) -> bool {
        &&& rows.len() == self.image_height
        &&& forall|n: int| 0 <= n < rows.len() ==> self.valid_row(#[trigger] rows[n])
    }

    /// The samples have the shape of the image: one row for each row of
    /// pixels, and in each row one list of samples for each pixel.
    pub open spec fn fits(self, rows: Seq<Seq<Seq<PixelSampleModel>>>) -> bool {
        &&& rows.len() == self.image_height
        &&& forall|n: int| 0 <= n < rows.len() ==> (#[trigger] rows[n]).len() == self.image_width
    }

    /// The lines of the pixels of row `j`, from the left, as far as `row`
    /// has samples for them.
    pub open spec fn row_spec(
        self,
        world: Seq<Primitive>,
        j: int,
        row: Seq<Seq<PixelSampleModel>>,
    ) -> Seq<u8>
        decreases row.len(),
    {
        if row.len() == 0 {
            Seq::empty()
        } else {
            self.row_spec(world, j, row.drop_last()) + pixel_line(
                self.pixel_mean(world, row.len() - 1, j, row.last()),
            )
        }
    }

    /// The lines of the rows of the image, from the top one, as far as
    /// `rows` has samples for them.
    pub open spec fn body_spec(
        self,
        world: Seq<Primitive>,
        rows: Seq<Seq<Seq<PixelSampleModel>>>,
    ) -> Seq<u8>
        decreases rows.len(),
    {
        if rows.len() == 0 {
            Seq::empty()
        } else {
            self.body_spec(world, rows.drop_last()) + self.row_spec(
                world,
                rows.len() - 1,
                rows.last(),
            )
        }
    }

    /// The head of the plain PPM file: the magic number, the width and the
    /// height, and the largest channel value, 255.
    pub open spec fn header_spec(self) -> Seq<u8> {
        seq![80u8, 51u8, 10u8] + decimal(self.image_width as nat) + seq![32u8] + decimal(
            self.image_height as nat,
        ) + seq![10u8, 50u8, 53u8, 53u8, 10u8]
    }

    /// The plain PPM file of the image.
    pub open spec fn image_spec(
        self,
        world: Seq<Primitive>,
        rows: Seq<Seq<Seq<PixelSampleModel>>>,
    ) -> Seq<u8> {
        self.header_spec() + self.body_spec(world, rows)
    }

    /// The camera for an image of the given width and aspect ratio, with
    /// `samples_per_pixel` rays through each pixel and paths of at most
    /// `max_depth` scatter events.
    pub fn new(aspect_ratio: i64, image_width: u32, samples_per_pixel: u32, max_depth: u32) -> (cam:
        Camera)
        ensures
            cam.aspect_ratio == aspect_ratio,
            cam.image_width == image_width,
            cam.samples_per_pixel == samples_per_pixel,
            cam.max_depth == max_depth,
            cam.image_height == image_height_spec(aspect_ratio as int, image_width as int),
            cam.image_height >= 1,
            cam.camera_center@ == (V3 { x: 0, y: 0, z: 0 }),
            cam.pixel_delta_u@ == pixel_delta_u_spec(cam.image_height as int),
            cam.pixel_delta_v@ == pixel_delta_v_spec(cam.image_height as int),
            cam.pixel00_loc@ == pixel00_spec(image_width as int, cam.image_height as int),
    {
        proof {
            lemma_mul_bound(image_width as int, SCALE as int, 0x1_0000_0000, SCALE as int);
        }
        let rows: i128 = quotient((image_width as i128) * (SCALE as i128), aspect_ratio as i128);
        let image_height: u32 = if rows < 1 {
            1
        } else if rows > u32::MAX as i128 {
            u32::MAX
        } else {
            rows as u32
        };
        let size: i64 = VIEWPORT_HEIGHT / (image_height as i64);
        proof {
            crate::util::lemma_quotient_bound(
                VIEWPORT_HEIGHT as int,
                image_height as int,
                VIEWPORT_HEIGHT as int,
            );
            lemma_mul_bound(size as int, image_width as int, VIEWPORT_HEIGHT as int, 0x1_0000_0000);
        }
        let x00: i128 = div_floor(size as i128 - (size as i128) * (image_width as i128), 2);
        let y00: i64 = (VIEWPORT_HEIGHT - size) / 2;
        Camera {
            aspect_ratio,
            image_width,
            image_height,
            camera_center: Vec3::new(0, 0, 0),
            pixel_delta_u: Vec3::new(size, 0, 0),
            pixel_delta_v: Vec3::new(0, -size, 0),
            pixel00_loc: Vec3::wide(x00, y00 as i128, -FOCAL_LENGTH as i128),
            samples_per_pixel,
            max_depth,
        }
    }

    /// The ray from the eye through pixel `(i, j)`, moved within the pixel
    /// by `offset`.
    pub fn get_ray_with(&self, i: u32, j: u32, offset: &Vec3) -> (r: Ray)
        ensures
            r@ == self.ray_spec(i as int, j as int, offset@),
    {
        let across: i64 = i as i64 * SCALE + offset.x();
        let up: i64 = j as i64 * SCALE + offset.y();
        let pixel_sample: Vec3 = self.pixel00_loc.add(self.pixel_delta_u.scale(across)).add(
            self.pixel_delta_v.scale(up),
        );
        Ray::new(self.camera_center, pixel_sample.sub(self.camera_center))
    }

    /// A random ray from the eye through pixel `(i, j)`.
    pub fn get_ray(&self, i: u32, j: u32) -> (r: Ray)
        ensures
            exists|offset: V3|
                offset.is_fraction() && offset.z == 0 && r@ == self.ray_spec(
                    i as int,
                    j as int,
                    offset,
                ),
    {
        let offset: Vec3 = self.sample_square();
        let r = self.get_ray_with(i, j, &offset);
        assert(offset@.is_fraction() && offset@.z == 0 && r@ == self.ray_spec(
            i as int,
            j as int,
            offset@,
        ));
        r
    }

    /// The colour of pixel `(i, j)` with the random numbers of `samples`,
    /// one for each ray through the pixel.
    pub fn pixel_color_with(&self, world: &Hittables, i: u32, j: u32, samples: &Vec<PixelSample>) -> (c:
        Color)
        ensures
            c@ == self.pixel_mean(
                world.objects@,
                i as int,
                j as int,
                pixel_sample_views(samples@),
            ),
    {
        self.pixel(world, i, j, Some(samples))
    }

    /// The colour of pixel `(i, j)`: the mean of the light of
    /// `samples_per_pixel` random rays through it.
    pub fn pixel_color(&self, world: &Hittables, i: u32, j: u32) -> (c: Color)
        ensures
            exists|samples: Seq<PixelSampleModel>|
                self.valid_pixel(samples) && c@ == self.pixel_mean(
                    world.objects@,
                    i as int,
                    j as int,
                    samples,
                ),
    {
        self.pixel(world, i, j, None)
    }

    /// The colour of pixel `(i, j)`: the mean of the light of its rays, one
    /// for each sample of `given` where there are any, `samples_per_pixel`
    /// random ones where there are none.
    #[verifier::rlimit(50)]
    fn pixel(&self, world: &Hittables, i: u32, j: u32, given: Option<&Vec<PixelSample>>) -> (c:
        Color)
        ensures
            given matches Some(samples) ==> c@ == self.pixel_mean(
                world.objects@,
                i as int,
                j as int,
                pixel_sample_views(samples@),
            ),
            given is None ==> exists|samples: Seq<PixelSampleModel>|
                self.valid_pixel(samples) && c@ == self.pixel_mean(
                    world.objects@,
                    i as int,
                    j as int,
                    samples,
                ),
    {
        let count: usize = match given {
            Some(samples) => samples.len(),
            None => self.samples_per_pixel as usize,
        };
        let ghost all = match given {
            Some(samples) => pixel_sample_views(samples@),
            None => Seq::empty(),
        };
        let ghost mut models: Seq<PixelSampleModel> = Seq::empty();
        let mut red: i128 = 0;
        let mut green: i128 = 0;
        let mut blue: i128 = 0;
        let mut k: usize = 0;
        while k < count
            invariant
                k <= count,
                models.len() == k,
                given matches Some(samples) ==> count == samples@.len() && all
                    == pixel_sample_views(samples@) && models == all.take(k as int),
                given is None ==> count == self.samples_per_pixel && all_valid(
                    models,
                    self.max_depth as nat,
                ),
                (V3 { x: red as int, y: green as int, z: blue as int }) == self.pixel_sum(
                    world.objects@,
                    i as int,
                    j as int,
                    models,
                ),
                -(k * LIMIT) <= red <= k * LIMIT,
                -(k * LIMIT) <= green <= k * LIMIT,
                -(k * LIMIT) <= blue <= k * LIMIT,
            decreases count - k,
        {
            let offset: Vec3 = match given {
                Some(samples) => samples[k].offset,
                None => self.sample_square(),
            };
            let r: Ray = self.get_ray_with(i, j, &offset);
            let c: Color = match given {
                Some(samples) => r.color_with(world, self.max_depth, &samples[k].bounces),
                None => r.color(world, self.max_depth),
            };
            proof {
                let sample = match given {
                    Some(samples) => samples@[k as int]@,
                    None => PixelSampleModel {
                        offset: offset@,
                        bounces: choose|bounces: Seq<SampleModel>|
                            bounces.len() <= self.max_depth && all_fractions(bounces) && c@
                                == color_spec(
                                r@,
                                world.objects@,
                                self.max_depth as nat,
                                bounces,
                            ),
                    },
                };
                let next = models.push(sample);
                assert(next.drop_last() == models);
                assert(next.last() == sample);
                if given is Some {
                    assert(all[k as int] == sample);
                    assert(next =~= all.take(k + 1));
                } else {
                    assert forall|n: int| 0 <= n < next.len() implies (#[trigger] next[n]).is_valid(
                        self.max_depth as nat,
                    ) by {
                        if n < k {
                            assert(next[n] == models[n]);
                        }
                    }
                }
                models = next;
                lemma_mul_bound(k as int, LIMIT as int, 0x1_0000_0000_0000_0000, LIMIT as int);
                assert((k + 1) * LIMIT == k * LIMIT + LIMIT) by (nonlinear_arith);
            }
            red = red + c.r() as i128;
            green = green + c.g() as i128;
            blue = blue + c.b() as i128;
            k += 1;
        }
        let c = if count == 0 {
            Color::new(0, 0, 0)
        } else {
            Color::wide(
                div_floor(red, count as i128),
                div_floor(green, count as i128),
                div_floor(blue, count as i128),
            )
        };
        proof {
            if given is Some {
                assert(all.take(k as int) =~= all);
            } else {
                assert(self.valid_pixel(models) && c@ == self.pixel_mean(
                    world.objects@,
                    i as int,
                    j as int,
                    models,
                ));
            }
        }
        c
    }

    /// Appends the lines of the pixels of row `j`, from the left, to `out`.
    pub fn render_row(&self, world: &Hittables, j: u32, out: &mut Vec<u8>)
        ensures
            exists|row: Seq<Seq<PixelSampleModel>>|
                self.valid_row(row) && final(out)@ == old(out)@ + self.row_spec(
                    world.objects@,
                    j as int,
                    row,
                ),
    {
        self.row(world, j, None, out)
    }

    /// Appends the lines of the pixels of row `j`, from the left, to `out`,
    /// with the random numbers of `given` where there are any: those of one
    /// pixel after another.
    #[verifier::rlimit(50)]
    fn row(
        &self,
        world: &Hittables,
        j: u32,
        given: Option<&Vec<Vec<PixelSample>>>,
        out: &mut Vec<u8>,
    )
        requires
            given matches Some(row) ==> row@.len() == self.image_width,
        ensures
            given matches Some(row) ==> final(out)@ == old(out)@ + self.row_spec(
                world.objects@,
                j as int,
                row_views(row@),
            ),
            given is None ==> exists|row: Seq<Seq<PixelSampleModel>>|
                self.valid_row(row) && final(out)@ == old(out)@ + self.row_spec(
                    world.objects@,
                    j as int,
                    row,
                ),
    {
        let ghost all = match given {
            Some(row) => row_views(row@),
            None => Seq::empty(),
        };
        let ghost mut models: Seq<Seq<PixelSampleModel>> = Seq::empty();
        let mut i: u32 = 0;
        while i < self.image_width
            invariant
                i <= self.image_width,
                models.len() == i,
                given matches Some(row) ==> row@.len() == self.image_width && all == row_views(
                    row@,
                ) && models == all.take(i as int),
                given is None ==> forall|n: int|
                    0 <= n < models.len() ==> self.valid_pixel(#[trigger] models[n]),
                out@ == old(out)@ + self.row_spec(world.objects@, j as int, models),
            decreases self.image_width - i,
        {
            let c: Color = match given {
                Some(row) => self.pixel_color_with(world, i, j, &row[i as usize]),
                None => self.pixel_color(world, i, j),
            };
            c.write_color(out);
            proof {
                let samples = match given {
                    Some(row) => pixel_sample_views(row@[i as int]@),
                    None => choose|samples: Seq<PixelSampleModel>|
                        self.valid_pixel(samples) && c@ == self.pixel_mean(
                            world.objects@,
                            i as int,
                            j as int,
                            samples,
                        ),
                };
                lemma_one_more_pixel(*self, world.objects@, j as int, models, samples);
                let line = pixel_line(c@);
                let lines = self.row_spec(world.objects@, j as int, models);
                assert((old(out)@ + lines) + line == old(out)@ + (lines + line));
                let next = models.push(samples);
                if given is Some {
                    assert(all[i as int] == samples);
                    assert(next =~= all.take(i + 1));
                } else {
                    assert forall|n: int| 0 <= n < next.len() implies self.valid_pixel(
                        #[trigger] next[n],
                    ) by {
                        if n < i {
                            assert(next[n] == models[n]);
                        }
                    }
                }
                models = next;
            }
            i += 1;
        }
        proof {
            if given is Some {
                assert(all.take(i as int) =~= all);
            } else {
                assert(self.valid_row(models) && out@ == old(out)@ + self.row_spec(
                    world.objects@,
                    j as int,
                    models,
                ));
            }
        }
    }

    /// Appends the head of the plain PPM file to `out`.
    pub fn write_header(&self, out: &mut Vec<u8>)
        ensures
            final(out)@ == old(out)@ + self.header_spec(),
    {
        out.push(80u8);
        out.push(51u8);
        out.push(10u8);
        push_decimal(out, self.image_width);
        out.push(32u8);
        push_decimal(out, self.image_height);
        out.push(10u8);
        out.push(50u8);
        out.push(53u8);
        out.push(53u8);
        out.push(10u8);
    }

    /// Whether the samples have the shape of the image.
    fn shape_fits(&self, samples: &Vec<Vec<Vec<PixelSample>>>) -> (fits: bool)
        ensures
            fits == self.fits(image_views(samples@)),
    {
        if samples.len() != self.image_height as usize {
            return false;
        }
        let ghost models = image_views(samples@);
        let mut n: usize = 0;
        while n < samples.len()
            invariant
                n <= samples.len(),
                samples@.len() == self.image_height,
                models == image_views(samples@),
                forall|m: int| 0 <= m < n ==> (#[trigger] models[m]).len() == self.image_width,
            decreases samples.len() - n,
        {
            if samples[n].len() != self.image_width as usize {
                proof {
                    assert(models[n as int].len() == samples@[n as int]@.len());
                }
                return false;
            }
            proof {
                assert(models[n as int].len() == samples@[n as int]@.len());
            }
            n += 1;
        }
        true
    }

    /// The image of the scene as a plain PPM file, with the random numbers
    /// of `samples`: those of the rows from the top one down, in each row
    /// those of the pixels from the left, for each pixel those of one ray
    /// after another. There is no image where they do not have its shape.
    pub fn render_with(&self, world: &Hittables, samples: &Vec<Vec<Vec<PixelSample>>>) -> (res:
        Option<Vec<u8>>)
        ensures
            res is Some <==> self.fits(image_views(samples@)),
            res matches Some(out) ==> out@ == self.image_spec(
                world.objects@,
                image_views(samples@),
            ),
    {
        if !self.shape_fits(samples) {
            return None;
        }
        Some(self.image(world, Some(samples)))
    }

    /// The image of the scene as a plain PPM file: the head, then one line
    /// for each pixel, the rows from the top one down, each from the left.
    pub fn render(&self, world: &Hittables) -> (out: Vec<u8>)
        ensures
            exists|rows: Seq<Seq<Seq<PixelSampleModel>>>|
                self.valid_image(rows) && out@ == self.image_spec(world.objects@, rows),
    {
        self.image(world, None)
    }

    /// The image of the scene as a plain PPM file, with the random numbers
    /// of `given` where there are any.
    #[verifier::rlimit(50)]
    fn image(&self, world: &Hittables, given: Option<&Vec<Vec<Vec<PixelSample>>>>) -> (out: Vec<
        u8,
    >)
        requires
            given matches Some(rows) ==> self.fits(image_views(rows@)),
        ensures
            given matches Some(rows) ==> out@ == self.image_spec(
                world.objects@,
                image_views(rows@),
            ),
            given is None ==> exists|rows: Seq<Seq<Seq<PixelSampleModel>>>|
                self.valid_image(rows) && out@ == self.image_spec(world.objects@, rows),
    {
        let ghost all = match given {
            Some(rows) => image_views(rows@),
            None => Seq::empty(),
        };
        let ghost mut models: Seq<Seq<Seq<PixelSampleModel>>> = Seq::empty();
        let mut out: Vec<u8> = Vec::new();
        self.write_header(&mut out);
        let mut n: u32 = 0;
        while n < self.image_height
            invariant
                n <= self.image_height,
                models.len() == n,
                given matches Some(rows) ==> all == image_views(rows@) && self.fits(all)
                    && models == all.take(n as int),
                given is None ==> forall|m: int|
                    0 <= m < models.len() ==> self.valid_row(#[trigger] models[m]),
                out@ == self.header_spec() + self.body_spec(world.objects@, models),
            decreases self.image_height - n,
        {
            let ghost before = out@;
            match given {
                Some(rows) => {
                    proof {
                        assert(all[n as int] == row_views(rows@[n as int]@));
                        assert(all[n as int].len() == self.image_width);
                    }
                    self.row(world, n, Some(&rows[n as usize]), &mut out)
                },
                None => self.row(world, n, None, &mut out),
            }
            proof {
                let row = match given {
                    Some(rows) => row_views(rows@[n as int]@),
                    None => choose|row: Seq<Seq<PixelSampleModel>>|
                        self.valid_row(row) && out@ == before + self.row_spec(
                            world.objects@,
                            n as int,
                            row,
                        ),
                };
                lemma_one_more_row(*self, world.objects@, models, row);
                let line = self.row_spec(world.objects@, n as int, row);
                let body = self.body_spec(world.objects@, models);
                assert((self.header_spec() + body) + line == self.header_spec() + (body + line));
                let next = models.push(row);
                if given is Some {
                    assert(next =~= all.take(n + 1));
                } else {
                    assert forall|m: int| 0 <= m < next.len() implies self.valid_row(
                        #[trigger] next[m],
                    ) by {
                        if m < n {
                            assert(next[m] == models[m]);
                        }
                    }
                }
                models = next;
            }
            n += 1;
        }
        proof {
            if given is Some {
                assert(all.take(n as int) =~= all);
            } else {
                assert(self.valid_image(models) && out@ == self.image_spec(
                    world.objects@,
                    models,
                ));
            }
        }
        out
    }

    /// A random point of the unit square.
    pub fn sample_square(&self) -> (offset: Vec3)
        ensures
            offset@.is_fraction(),
            offset@.z == 0,
    {
        Vec3::new(random_fraction(), random_fraction(), 0)
    }
}

/// The lines of a row with the samples of one more pixel are the lines of
/// the row and the line of that pixel.
proof fn lemma_one_more_pixel(
    cam: Camera,
    world: Seq<Primitive>,
    j: int,
    row: Seq<Seq<PixelSampleModel>>,
    samples: Seq<PixelSampleModel>,
)
    ensures
        cam.row_spec(world, j, row.push(samples)) == cam.row_spec(world, j, row) + pixel_line(
            cam.pixel_mean(world, row.len() as int, j, samples),
        ),
{
    let next = row.push(samples);
    assert(next.drop_last() == row);
    assert(next.last() == samples);
}

/// The lines of an image with the samples of one more row are the lines of
/// the image and the lines of that row.
proof fn lemma_one_more_row(
    cam: Camera,
    world: Seq<Primitive>,
    rows: Seq<Seq<Seq<PixelSampleModel>>>,
    row: Seq<Seq<PixelSampleModel>>,
)
    ensures
        cam.body_spec(world, rows.push(row)) == cam.body_spec(world, rows) + cam.row_spec(
            world,
            rows.len() as int,
            row,
        ),
{
    let next = rows.push(row);
    assert(next.drop_last() == rows);
    assert(next.last() == row);
}

/// In a scene without primitives every camera ray with a bounce left shows
/// the sky behind it, and a pixel with one ray has that colour.
pub proof fn lemma_empty_scene_pixel(
    cam: Camera,
    world: Seq<Primitive>,
    i: int,
    j: int,
    s: PixelSampleModel,
)
    requires
        world.len() == 0,
        cam.max_depth > 0,
    ensures
        cam.sample_color(world, i, j, s) == sky(cam.ray_spec(i, j, s.offset).direction),
        cam.pixel_mean(world, i, j, seq![s]) == sky(cam.ray_spec(i, j, s.offset).direction),
{
    let r = cam.ray_spec(i, j, s.offset);
    lemma_empty_scene_shows_sky(r, world, cam.max_depth as nat, s.bounces);
    let one = seq![s];
    assert(one.drop_last().len() == 0);
    assert(one.last() == s);
    assert(cam.pixel_sum(world, i, j, one.drop_last()) == V3 { x: 0, y: 0, z: 0 });
    assert(cam.pixel_sum(world, i, j, one) == sky(r.direction));
}

} // verus!
