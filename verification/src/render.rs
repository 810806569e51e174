//! From a scene to the bytes of an image.
//!
//! Each pixel is the average of a number of samples; each sample jitters the
//! pixel's position by two draws before it is traced. Rows are written from
//! the top of the window down, pixels from left to right, three bytes each.
use crate::camera::Camera;
use crate::format::Binary32;
use crate::sampler::{drawn_from, first, lemma_drawn_chain, lemma_drawn_rest, rest, Sampler};
use crate::scene::{color, lemma_radiance_draws, radiance, Hitable};
use crate::vec::Vec3;
use vstd::prelude::*;

verus! {

/// The pattern of 255.999, which takes a channel in `[0, 1]` to a byte.
pub const SCALE: u32 = 0x437f_ffbe;

/// The colour of one sample of pixel `(x, y)`: the light along the ray
/// through `((x + r1) / width, (y + r2) / height)`, where `r1` and `r2` are
/// the next two draws.
pub open spec fn sample_colour<H: Hitable>(
    camera: Camera,
    world: &H,
    x: nat,
    y: nat,
    width: nat,
    height: nat,
    samples: Seq<Binary32>,
) -> (Vec3, Seq<Binary32>) {
    let u = Binary32::of_integer(x).sum(first(samples)).quotient(Binary32::of_integer(width));
    let v = Binary32::of_integer(y).sum(first(rest(samples))).quotient(
        Binary32::of_integer(height),
    );
    radiance(world, camera.ray_through(u, v), 0, rest(rest(samples)))
}

/// The sum of the first `n` samples of a pixel.
pub open spec fn pixel_sum<H: Hitable>(
    camera: Camera,
    world: &H,
    x: nat,
    y: nat,
    width: nat,
    height: nat,
    n: nat,
    samples: Seq<Binary32>,
) -> (Vec3, Seq<Binary32>)
    decreases n,
{
    if n == 0 {
        (Vec3::origin(), samples)
    } else {
        let before = pixel_sum(camera, world, x, y, width, height, (n - 1) as nat, samples);
        let next = sample_colour(camera, world, x, y, width, height, before.1);
        (before.0.plus(next.0), next.1)
    }
}

/// The bytes of a colour: each channel times 255.999, cut to a byte.
pub open spec fn colour_bytes(c: Vec3) -> Seq<u8> {
    let scaled = c.scaled(Binary32 { bits: SCALE });
    seq![scaled.x.octet(), scaled.y.octet(), scaled.z.octet()]
}

/// The three bytes of pixel `(x, y)`: the average of `count` samples.
pub open spec fn pixel_bytes<H: Hitable>(
    camera: Camera,
    world: &H,
    x: nat,
    y: nat,
    width: nat,
    height: nat,
    count: nat,
    samples: Seq<Binary32>,
) -> (Seq<u8>, Seq<Binary32>) {
    let total = pixel_sum(camera, world, x, y, width, height, count, samples);
    (colour_bytes(total.0.shrunk(Binary32::of_integer(count))), total.1)
}

/// The bytes of the first `upto` pixels of row `y`, from the left.
pub open spec fn row_bytes<H: Hitable>(
    camera: Camera,
    world: &H,
    y: nat,
    width: nat,
    height: nat,
    count: nat,
    upto: nat,
    samples: Seq<Binary32>,
) -> (Seq<u8>, Seq<Binary32>)
    decreases upto,
{
    if upto == 0 {
        (Seq::empty(), samples)
    } else {
        let before = row_bytes(camera, world, y, width, height, count, (upto - 1) as nat, samples);
        let next = pixel_bytes(
            camera,
            world,
            (upto - 1) as nat,
            y,
            width,
            height,
            count,
            before.1,
        );
        (before.0 + next.0, next.1)
    }
}

/// The bytes of the first `rows` rows of the image, from the top: the row
/// written `i`-th is row `height - 1 - i` of the window.
pub open spec fn image_bytes<H: Hitable>(
    camera: Camera,
    world: &H,
    width: nat,
    height: nat,
    count: nat,
    rows: nat,
    samples: Seq<Binary32>,
) -> (Seq<u8>, Seq<Binary32>)
    decreases rows,
{
    if rows == 0 {
        (Seq::empty(), samples)
    } else {
        let before = image_bytes(camera, world, width, height, count, (rows - 1) as nat, samples);
        let next = row_bytes(
            camera,
            world,
            (height - rows) as nat,
            width,
            height,
            count,
            width,
            before.1,
        );
        (before.0 + next.0, next.1)
    }
}

/// A pixel takes its samples from the front of the supply.
pub proof fn lemma_pixel_draws<H: Hitable>(
    camera: Camera,
    world: &H,
    x: nat,
    y: nat,
    width: nat,
    height: nat,
    n: nat,
    samples: Seq<Binary32>,
)
    ensures
        drawn_from(pixel_sum(camera, world, x, y, width, height, n, samples).1, samples),
        pixel_bytes(camera, world, x, y, width, height, n, samples).0.len() == 3,
    decreases n,
{
    lemma_drawn_rest(samples);
    if n > 0 {
        let before = pixel_sum(camera, world, x, y, width, height, (n - 1) as nat, samples);
        lemma_pixel_draws(camera, world, x, y, width, height, (n - 1) as nat, samples);
        let u = Binary32::of_integer(x).sum(first(before.1)).quotient(Binary32::of_integer(width));
        let v = Binary32::of_integer(y).sum(first(rest(before.1))).quotient(
            Binary32::of_integer(height),
        );
        let after = rest(rest(before.1));
        lemma_drawn_rest(before.1);
        lemma_drawn_rest(rest(before.1));
        lemma_drawn_chain(after, rest(before.1), before.1);
        lemma_radiance_draws(world, camera.ray_through(u, v), 0, after);
        lemma_drawn_chain(radiance(world, camera.ray_through(u, v), 0, after).1, after, before.1);
        lemma_drawn_chain(
            radiance(world, camera.ray_through(u, v), 0, after).1,
            before.1,
            samples,
        );
    }
}

/// A row holds three bytes for each of its pixels, and takes its samples
/// from the front of the supply.
pub proof fn lemma_row_draws<H: Hitable>(
    camera: Camera,
    world: &H,
    y: nat,
    width: nat,
    height: nat,
    count: nat,
    upto: nat,
    samples: Seq<Binary32>,
)
    ensures
        drawn_from(row_bytes(camera, world, y, width, height, count, upto, samples).1, samples),
    decreases upto,
{
    lemma_drawn_rest(samples);
    if upto > 0 {
        let before = row_bytes(camera, world, y, width, height, count, (upto - 1) as nat, samples);
        lemma_row_draws(camera, world, y, width, height, count, (upto - 1) as nat, samples);
        lemma_pixel_draws(camera, world, (upto - 1) as nat, y, width, height, count, before.1);
        lemma_drawn_chain(
            pixel_bytes(camera, world, (upto - 1) as nat, y, width, height, count, before.1).1,
            before.1,
            samples,
        );
    }
}

/// An image takes its samples from the front of the supply.
pub proof fn lemma_image_draws<H: Hitable>(
    camera: Camera,
    world: &H,
    width: nat,
    height: nat,
    count: nat,
    rows: nat,
    samples: Seq<Binary32>,
)
    ensures
        drawn_from(image_bytes(camera, world, width, height, count, rows, samples).1, samples),
    decreases rows,
{
    lemma_drawn_rest(samples);
    if rows > 0 {
        let before = image_bytes(camera, world, width, height, count, (rows - 1) as nat, samples);
        lemma_image_draws(camera, world, width, height, count, (rows - 1) as nat, samples);
        lemma_row_draws(
            camera,
            world,
            (height - rows) as nat,
            width,
            height,
            count,
            width,
            before.1,
        );
        lemma_drawn_chain(
            row_bytes(
                camera,
                world,
                (height - rows) as nat,
                width,
                height,
                count,
                width,
                before.1,
            ).1,
            before.1,
            samples,
        );
    }
}

/// A row holds three bytes for each of its pixels.
pub proof fn lemma_row_length<H: Hitable>(
    camera: Camera,
    world: &H,
    y: nat,
    width: nat,
    height: nat,
    count: nat,
    upto: nat,
    samples: Seq<Binary32>,
)
    ensures
        row_bytes(camera, world, y, width, height, count, upto, samples).0.len() == 3 * upto,
    decreases upto,
{
    if upto > 0 {
        lemma_row_length(camera, world, y, width, height, count, (upto - 1) as nat, samples);
    }
}

/// An image holds three bytes for each pixel of each row.
pub proof fn lemma_image_length<H: Hitable>(
    camera: Camera,
    world: &H,
    width: nat,
    height: nat,
    count: nat,
    rows: nat,
    samples: Seq<Binary32>,
)
    ensures
        image_bytes(camera, world, width, height, count, rows, samples).0.len() == 3 * width
            * rows,
    decreases rows,
{
    if rows > 0 {
        let before = image_bytes(camera, world, width, height, count, (rows - 1) as nat, samples);
        lemma_image_length(camera, world, width, height, count, (rows - 1) as nat, samples);
        lemma_row_length(
            camera,
            world,
            (height - rows) as nat,
            width,
            height,
            count,
            width,
            before.1,
        );
        assert(3 * width * (rows - 1) + 3 * width == 3 * width * rows) by (nonlinear_arith);
    } else {
        assert(3 * width * rows == 0) by (nonlinear_arith)
            requires
                rows == 0,
        ;
    }
}

/// The first pixels of a row do not depend on how far the row goes on.
pub proof fn lemma_row_prefix<H: Hitable>(
    camera: Camera,
    world: &H,
    y: nat,
    width: nat,
    height: nat,
    count: nat,
    a: nat,
    b: nat,
    samples: Seq<Binary32>,
)
    requires
        a <= b,
    ensures
        row_bytes(camera, world, y, width, height, count, a, samples).0 == row_bytes(
            camera,
            world,
            y,
            width,
            height,
            count,
            b,
            samples,
        ).0.subrange(0, (3 * a) as int),
    decreases b - a,
{
    let short = row_bytes(camera, world, y, width, height, count, a, samples).0;
    let long = row_bytes(camera, world, y, width, height, count, b, samples).0;
    lemma_row_length(camera, world, y, width, height, count, a, samples);
    lemma_row_length(camera, world, y, width, height, count, b, samples);
    if a == b {
        assert(long.subrange(0, (3 * a) as int) =~= long);
    } else {
        let before = row_bytes(camera, world, y, width, height, count, (b - 1) as nat, samples);
        lemma_row_prefix(camera, world, y, width, height, count, a, (b - 1) as nat, samples);
        lemma_row_length(camera, world, y, width, height, count, (b - 1) as nat, samples);
        assert(long.subrange(0, (3 * a) as int) =~= before.0.subrange(0, (3 * a) as int));
    }
}

/// The first rows of an image do not depend on how far the image goes on.
pub proof fn lemma_image_prefix<H: Hitable>(
    camera: Camera,
    world: &H,
    width: nat,
    height: nat,
    count: nat,
    a: nat,
    b: nat,
    samples: Seq<Binary32>,
)
    requires
        a <= b,
    ensures
        image_bytes(camera, world, width, height, count, a, samples).0 == image_bytes(
            camera,
            world,
            width,
            height,
            count,
            b,
            samples,
        ).0.subrange(0, (3 * width * a) as int),
    decreases b - a,
{
    let long = image_bytes(camera, world, width, height, count, b, samples).0;
    lemma_image_length(camera, world, width, height, count, a, samples);
    lemma_image_length(camera, world, width, height, count, b, samples);
    if a == b {
        assert(long.subrange(0, (3 * width * a) as int) =~= long);
    } else {
        let before = image_bytes(camera, world, width, height, count, (b - 1) as nat, samples);
        lemma_image_prefix(camera, world, width, height, count, a, (b - 1) as nat, samples);
        lemma_image_length(camera, world, width, height, count, (b - 1) as nat, samples);
        assert(3 * width * a <= 3 * width * (b - 1)) by (nonlinear_arith)
            requires
                a <= b - 1,
        ;
        assert(long.subrange(0, (3 * width * a) as int) =~= before.0.subrange(0, (3 * width * a) as int));
    }
}

/// The supply as it stands when pixel `x` of the row written `i`-th is begun.
pub open spec fn samples_before<H: Hitable>(
    camera: Camera,
    world: &H,
    width: nat,
    height: nat,
    count: nat,
    i: nat,
    x: nat,
    samples: Seq<Binary32>,
) -> Seq<Binary32> {
    row_bytes(
        camera,
        world,
        (height - 1 - i) as nat,
        width,
        height,
        count,
        x,
        image_bytes(camera, world, width, height, count, i, samples).1,
    ).1
}

/// The image is laid out row by row from the top and pixel by pixel from the
/// left: pixel `x` of window row `height - 1 - i` stands at byte
/// `3 * (i * width + x)`.
pub proof fn lemma_image_layout<H: Hitable>(
    camera: Camera,
    world: &H,
    width: nat,
    height: nat,
    count: nat,
    samples: Seq<Binary32>,
    i: nat,
    x: nat,
)
    requires
        i < height,
        x < width,
    ensures
        3 * (i * width + x) + 3 <= image_bytes(
            camera,
            world,
            width,
            height,
            count,
            height,
            samples,
        ).0.len(),
        image_bytes(camera, world, width, height, count, height, samples).0.subrange(
            (3 * (i * width + x)) as int,
            (3 * (i * width + x) + 3) as int,
        ) == pixel_bytes(
            camera,
            world,
            x,
            (height - 1 - i) as nat,
            width,
            height,
            count,
            samples_before(camera, world, width, height, count, i, x, samples),
        ).0,
{
    let y = (height - 1 - i) as nat;
    let image = image_bytes(camera, world, width, height, count, height, samples).0;
    let above = image_bytes(camera, world, width, height, count, i, samples);
    let through = image_bytes(camera, world, width, height, count, i + 1, samples).0;
    let row = row_bytes(camera, world, y, width, height, count, width, above.1).0;
    let left = row_bytes(camera, world, y, width, height, count, x, above.1);
    let through_x = row_bytes(camera, world, y, width, height, count, x + 1, above.1).0;
    let px = pixel_bytes(camera, world, x, y, width, height, count, left.1).0;
    let start = (3 * (i * width + x)) as int;
    lemma_image_length(camera, world, width, height, count, height, samples);
    lemma_image_length(camera, world, width, height, count, i, samples);
    lemma_image_length(camera, world, width, height, count, i + 1, samples);
    lemma_row_length(camera, world, y, width, height, count, width, above.1);
    lemma_row_length(camera, world, y, width, height, count, x, above.1);
    lemma_row_length(camera, world, y, width, height, count, x + 1, above.1);
    lemma_pixel_draws(camera, world, x, y, width, height, count, left.1);
    lemma_image_prefix(camera, world, width, height, count, i + 1, height, samples);
    lemma_row_prefix(camera, world, y, width, height, count, x + 1, width, above.1);
    assert(3 * width * i == 3 * (i * width) && 3 * width * (i + 1) == 3 * (i * width) + 3 * width
        && 3 * width * (i + 1) <= 3 * width * height) by (nonlinear_arith)
        requires
            i + 1 <= height,
    ;
    assert(through == above.0 + row);
    assert(through_x == left.0 + px);
    assert(image.subrange(start, start + 3) =~= px) by {
        assert forall|j: int| 0 <= j < 3 implies image[start + j] == px[j] by {
            assert(image[start + j] == through[start + j]);
            assert(through[start + j] == row[3 * x + j]);
            assert(row[3 * x + j] == through_x[3 * x + j]);
            assert(through_x[3 * x + j] == px[j]);
        }
    }
}

/// The same scene and the same samples give the same image.
pub proof fn lemma_render_repeatable<H: Hitable>(
    camera: Camera,
    world: &H,
    width: nat,
    height: nat,
    count: nat,
    first_run: Seq<Binary32>,
    second_run: Seq<Binary32>,
)
    requires
        first_run == second_run,
    ensures
        image_bytes(camera, world, width, height, count, height, first_run) == image_bytes(
            camera,
            world,
            width,
            height,
            count,
            height,
            second_run,
        ),
{
}

/// Renders pixel `(x, y)`, counted from the lower left corner of the window.
pub fn pixel<H: Hitable>(
    camera: &Camera,
    world: &H,
    x: u32,
    y: u32,
    width: u32,
    height: u32,
    count: u32,
    sampler: &mut Sampler,
) -> (r: (u8, u8, u8))
    ensures
        seq![r.0, r.1, r.2] == pixel_bytes(
            *camera,
            world,
            x as nat,
            y as nat,
            width as nat,
            height as nat,
            count as nat,
            old(sampler)@,
        ).0,
        final(sampler)@ == pixel_bytes(
            *camera,
            world,
            x as nat,
            y as nat,
            width as nat,
            height as nat,
            count as nat,
            old(sampler)@,
        ).1,
        drawn_from(final(sampler)@, old(sampler)@),
{
    proof {
        lemma_pixel_draws(
            *camera,
            world,
            x as nat,
            y as nat,
            width as nat,
            height as nat,
            count as nat,
            sampler@,
        );
    }
    let mut total: Vec3 = Vec3::default();
    let mut s: u32 = 0;
    while s < count
        invariant
            s <= count,
            total == pixel_sum(
                *camera,
                world,
                x as nat,
                y as nat,
                width as nat,
                height as nat,
                s as nat,
                old(sampler)@,
            ).0,
            sampler@ == pixel_sum(
                *camera,
                world,
                x as nat,
                y as nat,
                width as nat,
                height as nat,
                s as nat,
                old(sampler)@,
            ).1,
        decreases count - s,
    {
        let u: Binary32 = Binary32::from_u32(x).add(sampler.draw()).div(Binary32::from_u32(width));
        let v: Binary32 = Binary32::from_u32(y).add(sampler.draw()).div(
            Binary32::from_u32(height),
        );
        let ray = camera.get_ray(u, v);
        total.add_assign(color(ray, world, 0, sampler));
        s = s + 1;
    }
    total.div_assign(Binary32::from_u32(count));
    total.scale_assign(Binary32 { bits: SCALE });
    (total.x().to_u8(), total.y().to_u8(), total.z().to_u8())
}

/// Renders the whole image, top row first.
pub fn render<H: Hitable>(
    camera: &Camera,
    world: &H,
    width: u32,
    height: u32,
    count: u32,
    sampler: &mut Sampler,
) -> (pixels: Vec<u8>)
    ensures
        pixels@ == image_bytes(
            *camera,
            world,
            width as nat,
            height as nat,
            count as nat,
            height as nat,
            old(sampler)@,
        ).0,
        final(sampler)@ == image_bytes(
            *camera,
            world,
            width as nat,
            height as nat,
            count as nat,
            height as nat,
            old(sampler)@,
        ).1,
        pixels@.len() == 3 * width * height,
        drawn_from(final(sampler)@, old(sampler)@),
{
    proof {
        lemma_image_draws(
            *camera,
            world,
            width as nat,
            height as nat,
            count as nat,
            height as nat,
            sampler@,
        );
    }
    let mut pixels: Vec<u8> = Vec::new();
    let mut rows: u32 = 0;
    while rows < height
        invariant
            rows <= height,
            pixels@ == image_bytes(
                *camera,
                world,
                width as nat,
                height as nat,
                count as nat,
                rows as nat,
                old(sampler)@,
            ).0,
            sampler@ == image_bytes(
                *camera,
                world,
                width as nat,
                height as nat,
                count as nat,
                rows as nat,
                old(sampler)@,
            ).1,
        decreases height - rows,
    {
        let y: u32 = height - 1 - rows;
        let ghost above = pixels@;
        let ghost start = sampler@;
        let mut x: u32 = 0;
        while x < width
            invariant
                x <= width,
                pixels@ == above + row_bytes(
                    *camera,
                    world,
                    y as nat,
                    width as nat,
                    height as nat,
                    count as nat,
                    x as nat,
                    start,
                ).0,
                sampler@ == row_bytes(
                    *camera,
                    world,
                    y as nat,
                    width as nat,
                    height as nat,
                    count as nat,
                    x as nat,
                    start,
                ).1,
            decreases width - x,
        {
            let ghost row = row_bytes(
                *camera,
                world,
                y as nat,
                width as nat,
                height as nat,
                count as nat,
                x as nat,
                start,
            ).0;
            let (red, green, blue) = pixel(camera, world, x, y, width, height, count, sampler);
            pixels.push(red);
            pixels.push(green);
            pixels.push(blue);
            proof {
                assert(pixels@ =~= above + (row + seq![red, green, blue]));
            }
            x = x + 1;
        }
        rows = rows + 1;
    }
    proof {
        lemma_image_length(
            *camera,
            world,
            width as nat,
            height as nat,
            count as nat,
            height as nat,
            old(sampler)@,
        );
    }
    pixels
}

} // verus!
