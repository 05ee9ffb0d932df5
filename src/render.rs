//! Per-pixel estimation and the assembly of the pixel buffer.
use vstd::prelude::*;

use rand::rngs::StdRng;

use crate::camera::Camera;
use crate::fixed::{bounded, clamp, div_spec, quot, sqrt_spec, ONE};
use crate::fixed;
use crate::hit::{all_wf, Hittable};
use crate::random::random_f32;
use crate::ray::{color_outcome, ray_color};
use crate::vec3::{Color, Vec3, v3};

verus! {

/// Largest image side accepted.
pub const MAX_DIM: i32 = 1_000_000;

/// Brightest channel value before encoding, just under 1.
pub const CHANNEL_MAX: i64 = 999_000;

/// One channel of a pixel as a byte: the average over the samples, gamma
/// corrected (square root), capped just under 1 and scaled to 0..=255.
/// A negative average encodes as 0.
pub open spec fn channel_byte(c: int, samples: int) -> int {
    let avg = quot(c, samples);
    let g = if avg < 0 {
        0
    } else {
        sqrt_spec(avg)
    };
    let capped = if g > CHANNEL_MAX {
        CHANNEL_MAX as int
    } else {
        g
    };
    (256 * capped) / (ONE as int)
}

fn channel(c: i64, samples_per_pixel: i32) -> (b: u8)
    requires
        bounded(c as int),
        samples_per_pixel > 0,
    ensures
        b == channel_byte(c as int, samples_per_pixel as int),
{
    let avg = fixed::quot_wide(c as i128, samples_per_pixel as i128) as i64;
    let g = if avg < 0 {
        0
    } else {
        fixed::sqrt(avg)
    };
    let capped = crate::util::clamp(g, 0, CHANNEL_MAX);
    ((256 * capped) / ONE) as u8
}

/// Turn the sum of a pixel's samples into three bytes.
pub fn post_process(color: &Color, samples_per_pixel: i32) -> (r: Vec<u8>)
    requires
        color.wf(),
        samples_per_pixel > 0,
    ensures
        r@ == seq![
            channel_byte(color.x as int, samples_per_pixel as int) as u8,
            channel_byte(color.y as int, samples_per_pixel as int) as u8,
            channel_byte(color.z as int, samples_per_pixel as int) as u8,
        ],
{
    let r = channel(color.x, samples_per_pixel);
    let g = channel(color.y, samples_per_pixel);
    let b = channel(color.z, samples_per_pixel);
    vec![r, g, b]
}

/// The image has at least one pixel and at most `MAX_DIM` on a side.
pub open spec fn dims_ok(width: int, height: int) -> bool {
    1 <= width <= MAX_DIM && 1 <= height <= MAX_DIM
}

/// Pixels between the first and last sample positions along a side of `n`
/// pixels; a side of one pixel spans the whole image plane.
pub open spec fn span(n: int) -> int {
    if n > 1 {
        n - 1
    } else {
        1
    }
}

/// The image-plane coordinate of pixel `k` of a side of `n` pixels, offset
/// by the draw `du` within the pixel.
pub open spec fn sample_coord(k: int, n: int, du: int) -> int {
    div_spec(clamp(k * ONE + du), span(n) * ONE)
}

/// `c` is a color one sample of pixel `(i, j)` can give: the estimate, with
/// `depth` bounces, along the camera ray through a random point of the
/// pixel, from a point of the lens at a moment of the shutter interval.
pub open spec fn pixel_sample(
    world: Seq<Hittable>,
    cam: Camera,
    i: int,
    j: int,
    w: int,
    h: int,
    depth: int,
    c: Color,
) -> bool {
    exists|du: int, dv: int, disk: Vec3, time: int|
        0 <= du < ONE && 0 <= dv < ONE && disk.wf() && disk.z == 0 && disk.dot_spec(disk) < ONE
            && cam.time0 <= time < cam.time1 && #[trigger] color_outcome(
            world,
            cam.ray_spec(sample_coord(i, w, du), sample_coord(j, h, dv), disk, time),
            depth,
            c,
        )
}

/// Saturating sum of colors, in order.
pub open spec fn sat_sum(cs: Seq<Color>) -> Color
    decreases cs.len(),
{
    if cs.len() == 0 {
        v3(0, 0, 0)
    } else {
        sat_sum(cs.drop_last()).plus_spec(cs.last())
    }
}

/// `c` is a value the sum over `samples` samples of pixel `(i, j)` can take.
pub open spec fn pixel_estimate(
    world: Seq<Hittable>,
    cam: Camera,
    i: int,
    j: int,
    w: int,
    h: int,
    samples: int,
    depth: int,
    c: Color,
) -> bool {
    exists|cs: Seq<Color>|
        cs.len() == (if samples > 0 {
            samples
        } else {
            0
        }) && (forall|k: int|
            0 <= k < cs.len() ==> #[trigger] pixel_sample(world, cam, i, j, w, h, depth, cs[k]))
            && c == #[trigger] sat_sum(cs)
}

/// Sum of `samples_per_pixel` estimates for pixel `(i, j)`, each through a
/// random point of the pixel.
pub fn pixel_color(
    objects: &Vec<Hittable>,
    camera: &Camera,
    i: i32,
    j: i32,
    image_width: i32,
    image_height: i32,
    samples_per_pixel: i32,
    max_depth: i32,
    rng: &mut StdRng,
) -> (c: Color)
    requires
        all_wf(objects@),
        camera.wf(),
        dims_ok(image_width as int, image_height as int),
        0 <= i < image_width,
        0 <= j < image_height,
    ensures
        c.wf(),
        pixel_estimate(
            objects@,
            *camera,
            i as int,
            j as int,
            image_width as int,
            image_height as int,
            samples_per_pixel as int,
            max_depth as int,
            c,
        ),
        samples_per_pixel <= 0 ==> c == v3(0, 0, 0),
        max_depth <= 0 ==> c == v3(0, 0, 0),
{
    let mut acc = Vec3::zero();
    let mut k: i32 = 0;
    let ghost mut cs: Seq<Color> = Seq::empty();
    let dw: i64 = if image_width > 1 { image_width as i64 - 1 } else { 1 };
    let dh: i64 = if image_height > 1 { image_height as i64 - 1 } else { 1 };
    while k < samples_per_pixel
        invariant
            0 <= k,
            k <= samples_per_pixel || k == 0,
            cs.len() == k,
            forall|m: int|
                0 <= m < cs.len() ==> #[trigger] pixel_sample(
                    objects@,
                    *camera,
                    i as int,
                    j as int,
                    image_width as int,
                    image_height as int,
                    max_depth as int,
                    cs[m],
                ),
            acc == sat_sum(cs),
            acc.wf(),
            all_wf(objects@),
            camera.wf(),
            dims_ok(image_width as int, image_height as int),
            0 <= i < image_width,
            0 <= j < image_height,
            dw == span(image_width as int),
            dh == span(image_height as int),
            samples_per_pixel <= 0 ==> acc == v3(0, 0, 0),
            max_depth <= 0 ==> acc == v3(0, 0, 0),
        decreases samples_per_pixel - k,
    {
        let du = random_f32(rng);
        let u = fixed::div(fixed::add(i as i64 * ONE, du), dw * ONE);
        let dv = random_f32(rng);
        let v = fixed::div(fixed::add(j as i64 * ONE, dv), dh * ONE);
        let r = camera.get_ray(u, v, rng);
        let col = ray_color(&r, objects, max_depth, rng);
        proof {
            let disk = choose|disk: Vec3|
                disk.wf() && disk.z == 0 && disk.dot_spec(disk) < ONE && r == camera.ray_spec(
                    u as int,
                    v as int,
                    disk,
                    r.time as int,
                );
            assert(u == sample_coord(i as int, image_width as int, du as int));
            assert(v == sample_coord(j as int, image_height as int, dv as int));
            assert(color_outcome(
                objects@,
                camera.ray_spec(
                    sample_coord(i as int, image_width as int, du as int),
                    sample_coord(j as int, image_height as int, dv as int),
                    disk,
                    r.time as int,
                ),
                max_depth as int,
                col,
            ));
            assert(pixel_sample(
                objects@,
                *camera,
                i as int,
                j as int,
                image_width as int,
                image_height as int,
                max_depth as int,
                col,
            ));
        }
        acc = acc.plus(&col);
        proof {
            let old_cs = cs;
            cs = cs.push(col);
            assert(cs.drop_last() == old_cs);
            assert(forall|m: int| 0 <= m < old_cs.len() ==> cs[m] == old_cs[m]);
        }
        k += 1;
    }
    proof {
        assert(cs.len() == (if samples_per_pixel > 0 {
            samples_per_pixel as int
        } else {
            0
        }));
    }
    acc
}

/// Pixel `p` of `row` holds the encoding of the color `c`.
pub open spec fn encodes(row: Seq<u8>, p: int, c: Color, samples: int) -> bool {
    &&& row[3 * p] == channel_byte(c.x as int, samples) as u8
    &&& row[3 * p + 1] == channel_byte(c.y as int, samples) as u8
    &&& row[3 * p + 2] == channel_byte(c.z as int, samples) as u8
}

/// Pixel `p` of row `j` holds the encoding of a value its sample sum can take.
pub open spec fn pixel_encoded(
    row: Seq<u8>,
    world: Seq<Hittable>,
    cam: Camera,
    p: int,
    j: int,
    w: int,
    h: int,
    samples: int,
    depth: int,
) -> bool {
    exists|c: Color|
        c.wf() && pixel_estimate(world, cam, p, j, w, h, samples, depth, c) && #[trigger] encodes(
            row,
            p,
            c,
            samples,
        )
}

/// The bytes of row `j` of the image, left to right, three per pixel.
pub fn render_row(
    objects: &Vec<Hittable>,
    camera: &Camera,
    j: i32,
    image_width: i32,
    image_height: i32,
    samples_per_pixel: i32,
    max_depth: i32,
    rng: &mut StdRng,
) -> (row: Vec<u8>)
    requires
        all_wf(objects@),
        camera.wf(),
        dims_ok(image_width as int, image_height as int),
        0 <= j < image_height,
        samples_per_pixel > 0,
    ensures
        row@.len() == 3 * image_width,
        forall|p: int|
            0 <= p < image_width ==> #[trigger] pixel_encoded(
                row@,
                objects@,
                *camera,
                p,
                j as int,
                image_width as int,
                image_height as int,
                samples_per_pixel as int,
                max_depth as int,
            ),
{
    let mut row: Vec<u8> = Vec::new();
    let mut i: i32 = 0;
    while i < image_width
        invariant
            0 <= i <= image_width,
            row@.len() == 3 * i,
            forall|p: int|
                0 <= p < i ==> #[trigger] pixel_encoded(
                    row@,
                    objects@,
                    *camera,
                    p,
                    j as int,
                    image_width as int,
                    image_height as int,
                    samples_per_pixel as int,
                    max_depth as int,
                ),
            all_wf(objects@),
            camera.wf(),
            dims_ok(image_width as int, image_height as int),
            0 <= j < image_height,
            samples_per_pixel > 0,
        decreases image_width - i,
    {
        let color = pixel_color(
            objects,
            camera,
            i,
            j,
            image_width,
            image_height,
            samples_per_pixel,
            max_depth,
            rng,
        );
        let px = post_process(&color, samples_per_pixel);
        let ghost before = row@;
        row.push(px[0]);
        row.push(px[1]);
        row.push(px[2]);
        proof {
            assert(encodes(row@, i as int, color, samples_per_pixel as int));
            assert forall|p: int| 0 <= p < i + 1 implies #[trigger] pixel_encoded(
                row@,
                objects@,
                *camera,
                p,
                j as int,
                image_width as int,
                image_height as int,
                samples_per_pixel as int,
                max_depth as int,
            ) by {
                if p < i {
                    assert(pixel_encoded(
                        before,
                        objects@,
                        *camera,
                        p,
                        j as int,
                        image_width as int,
                        image_height as int,
                        samples_per_pixel as int,
                        max_depth as int,
                    ));
                    let c = choose|c: Color|
                        c.wf() && pixel_estimate(
                            objects@,
                            *camera,
                            p,
                            j as int,
                            image_width as int,
                            image_height as int,
                            samples_per_pixel as int,
                            max_depth as int,
                            c,
                        ) && #[trigger] encodes(before, p, c, samples_per_pixel as int);
                    assert(row@[3 * p] == before[3 * p]);
                    assert(row@[3 * p + 1] == before[3 * p + 1]);
                    assert(row@[3 * p + 2] == before[3 * p + 2]);
                    assert(encodes(row@, p, c, samples_per_pixel as int));
                } else {
                    assert(encodes(row@, p, color, samples_per_pixel as int));
                }
            }
        }
        i += 1;
    }
    row
}

/// The rows one after the other.
pub open spec fn concat_rows(rows: Seq<Vec<u8>>) -> Seq<u8>
    decreases rows.len(),
{
    if rows.len() == 0 {
        seq![]
    } else {
        concat_rows(rows.drop_last()) + rows.last()@
    }
}

/// Join rows, produced in any order but stored by position, into one buffer.
pub fn assemble(rows: &Vec<Vec<u8>>) -> (pixels: Vec<u8>)
    requires
        concat_rows(rows@).len() <= usize::MAX,
    ensures
        pixels@ == concat_rows(rows@),
{
    let mut pixels: Vec<u8> = Vec::new();
    let mut k: usize = 0;
    while k < rows.len()
        invariant
            k <= rows@.len(),
            pixels@ == concat_rows(rows@.take(k as int)),
        decreases rows@.len() - k,
    {
        assert(rows@.take(k + 1).drop_last() == rows@.take(k as int));
        let row = &rows[k];
        let mut m: usize = 0;
        let ghost before = pixels@;
        while m < row.len()
            invariant
                m <= row@.len(),
                pixels@ == before + row@.take(m as int),
            decreases row@.len() - m,
        {
            pixels.push(row[m]);
            assert(row@.take(m + 1) == row@.take(m as int).push(row@[m as int]));
            m += 1;
        }
        assert(row@.take(m as int) == row@);
        k += 1;
    }
    assert(rows@.take(k as int) == rows@);
    pixels
}

} // verus!
