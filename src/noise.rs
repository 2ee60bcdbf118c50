use vstd::prelude::*;

use crate::color::Color;
use crate::image::RgbImage;

verus! {

/// Squared distance between two colours, channel by channel.
pub open spec fn distance(a: [u8; 3], b: [u8; 3]) -> int {
    (a[0] - b[0]) * (a[0] - b[0]) + (a[1] - b[1]) * (a[1] - b[1]) + (a[2] - b[2]) * (a[2] - b[2])
}

/// The palette colour nearest to `p`; of equally near ones, the first in palette order.
pub open spec fn is_nearest(p: [u8; 3], c: Color) -> bool {
    &&& forall|j: u8| j < 7 ==> distance(p, c.rgb_spec()) <= distance(p, (#[trigger] Color::of_index(j))->Some_0.rgb_spec())
    &&& forall|j: u8| j < c.index() ==> distance(p, c.rgb_spec()) < distance(p, (#[trigger] Color::of_index(j))->Some_0.rgb_spec())
}

/// A channel moved by the noise value, kept within `0..=255`.
pub open spec fn shift_channel(v: u8, n: u8) -> u8 {
    let s = v - n + 128;
    if s < 0 {
        0
    } else if s > 255 {
        255
    } else {
        s as u8
    }
}

/// A pixel moved by the noise value at its place.
pub open spec fn shift(p: [u8; 3], n: [u8; 3]) -> Seq<u8> {
    seq![shift_channel(p[0], n[0]), shift_channel(p[1], n[1]), shift_channel(p[2], n[2])]
}

/// Whether an image's pixel list matches its size.
pub open spec fn well_sized(image: &RgbImage) -> bool {
    image.pixels@.len() == image.width * image.height
}

/// The image after dithering with a noise texture: each pixel that the texture covers is
/// moved by the noise at the same row and column, then replaced by its nearest palette colour;
/// pixels beyond the texture stay as they were.
pub open spec fn dithered(image: Seq<[u8; 3]>, width: int, noise: &RgbImage, k: int, out: [u8; 3]) -> bool {
    let y = k / width;
    let x = k % width;
    if y < noise.height && x < noise.width {
        exists|c: Color|
            is_nearest(
                {
                    let s = shift(image[k], noise.pixels@[y * noise.width + x]);
                    [s[0], s[1], s[2]]
                },
                c,
            ) && out == c.rgb_spec()
    } else {
        out == image[k]
    }
}

fn squared(a: u8, b: u8) -> (r: u32)
    ensures
        r == (a - b) * (a - b),
        r <= 65025,
{
    let d: u32 = if a >= b {
        (a - b) as u32
    } else {
        (b - a) as u32
    };
    assert(d * d == (a - b) * (a - b)) by (nonlinear_arith)
        requires
            d == a - b || d == b - a,
    ;
    assert(d * d <= 255 * 255) by (nonlinear_arith)
        requires
            0 <= d <= 255,
    ;
    d * d
}

fn distance_exec(a: [u8; 3], b: [u8; 3]) -> (r: u32)
    ensures
        r == distance(a, b),
{
    squared(a[0], b[0]) + squared(a[1], b[1]) + squared(a[2], b[2])
}

/// The palette colour nearest to `p`; of equally near ones, the first in palette order.
pub fn nearest(p: [u8; 3]) -> (c: Color)
    ensures
        is_nearest(p, c),
{
    let mut best: Color = Color::White;
    let mut best_d: u32 = distance_exec(p, Color::White.rgb());
    let mut j: u8 = 1;
    while j < 7
        invariant
            1 <= j <= 7,
            best.index() < j,
            best_d == distance(p, best.rgb_spec()),
            forall|i: u8| i < j ==> best_d <= distance(p, (#[trigger] Color::of_index(i))->Some_0.rgb_spec()),
            forall|i: u8| i < best.index() ==> best_d < distance(p, (#[trigger] Color::of_index(i))->Some_0.rgb_spec()),
        decreases 7 - j,
    {
        let c = match Color::try_from(j) {
            Ok(c) => c,
            Err(_) => {
                assert(false);
                Color::White
            },
        };
        let d = distance_exec(p, c.rgb());
        if d < best_d {
            best = c;
            best_d = d;
        }
        j = j + 1;
    }
    best
}

/// Moves each channel of `p` by the noise value `n`: `p - n + 128`, kept within `0..=255`.
fn shift_exec(p: [u8; 3], n: [u8; 3]) -> (r: [u8; 3])
    ensures
        r@ == shift(p, n),
{
    let mut out: [u8; 3] = [0u8; 3];
    let mut c: usize = 0;
    while c < 3
        invariant
            0 <= c <= 3,
            forall|i: int| 0 <= i < c ==> out@[i] == shift_channel(p@[i], n@[i]),
        decreases 3 - c,
    {
        let offset: i16 = p[c] as i16 - n[c] as i16 + 128;
        out[c] = if offset < 0 {
            0
        } else if offset > 255 {
            255
        } else {
            offset as u8
        };
        c = c + 1;
    }
    assert(out@ =~= shift(p, n));
    out
}

/// Dithers `image` to the palette with a blue-noise texture: each pixel that the texture
/// covers is moved by the noise at the same row and column, then replaced by its nearest
/// palette colour. Pixels beyond the texture stay as they were.
pub fn blue_noise(image: &mut RgbImage, noise: &RgbImage)
    requires
        well_sized(old(image)),
        well_sized(noise),
    ensures
        final(image).width == old(image).width,
        final(image).height == old(image).height,
        final(image).pixels@.len() == old(image).pixels@.len(),
        forall|k: int|
            0 <= k < old(image).pixels@.len() ==> dithered(
                old(image).pixels@,
                old(image).width as int,
                noise,
                k,
                #[trigger] final(image).pixels@[k],
            ),
{
    let ghost start = image.pixels@;
    if image.width == 0 {
        assert(start.len() == 0) by (nonlinear_arith)
            requires
                start.len() == image.width * image.height,
                image.width == 0,
        ;
        return;
    }
    let w = image.width as usize;
    let h = image.height as usize;
    let nw = noise.width as usize;
    let rows: usize = if image.height < noise.height { h } else { noise.height as usize };
    let cols: usize = if image.width < noise.width { w } else { nw };
    let _ = image.pixels.len();
    let _ = noise.pixels.len();
    let mut y: usize = 0;
    while y < rows
        invariant
            start.len() == w * h,
            start.len() <= usize::MAX,
            noise.pixels@.len() <= usize::MAX,
            image.pixels@.len() == start.len(),
            image.width == w,
            image.height == h,
            well_sized(noise),
            nw == noise.width,
            rows <= h && rows <= noise.height,
            cols <= w && cols <= nw,
            rows == h || rows == noise.height,
            cols == w || cols == nw,
            0 <= y <= rows,
            w > 0,
            forall|k: int|
                0 <= k < start.len() && k / (w as int) < y ==> dithered(start, w as int, noise, k, #[trigger] image.pixels@[k]),
            forall|k: int|
                0 <= k < start.len() && k / (w as int) >= y ==> #[trigger] image.pixels@[k] == start[k],
        decreases rows - y,
    {
        let mut x: usize = 0;
        while x < cols
            invariant
                start.len() == w * h,
                start.len() <= usize::MAX,
                noise.pixels@.len() <= usize::MAX,
                image.pixels@.len() == start.len(),
                image.width == w,
                image.height == h,
                well_sized(noise),
                nw == noise.width,
                rows <= h && rows <= noise.height,
                cols <= w && cols <= nw,
                rows == h || rows == noise.height,
                cols == w || cols == nw,
                0 <= y < rows,
                0 <= x <= cols,
                w > 0,
                forall|k: int|
                    0 <= k < start.len() && (k / (w as int) < y || (k / (w as int) == y && k % (w as int) < x)) ==> dithered(start, w as int, noise, k, #[trigger] image.pixels@[k]),
                forall|k: int|
                    0 <= k < start.len() && !(k / (w as int) < y || (k / (w as int) == y && k % (w as int) < x)) ==> #[trigger] image.pixels@[k] == start[k],
            decreases cols - x,
        {
            proof {
                assert(y * w + x < w * h) by (nonlinear_arith)
                    requires
                        y < h,
                        x < w,
                ;
                assert(y * nw + x < nw * noise.height) by (nonlinear_arith)
                    requires
                        y < noise.height,
                        x < nw,
                ;
            }
            let k: usize = y * w + x;
            let j: usize = y * nw + x;
            let p = image.pixels[k];
            let s = shift_exec(p, noise.pixels[j]);
            let c = nearest(s);
            image.pixels.set(k, c.rgb());
            proof {
                let ki = k as int;
                let wi = w as int;
                vstd::arithmetic::div_mod::lemma_fundamental_div_mod_converse(
                    ki,
                    wi,
                    y as int,
                    x as int,
                );
                let t = shift(start[ki], noise.pixels@[y * noise.width + x]);
                assert(s =~= [t[0], t[1], t[2]]);
                assert(is_nearest([t[0], t[1], t[2]], c));
                assert(dithered(start, wi, noise, ki, image.pixels@[ki]));
                assert forall|k2: int|
                    0 <= k2 < start.len() && #[trigger] (k2 / wi) == y && k2 % wi == x implies k2 == ki by {
                    vstd::arithmetic::div_mod::lemma_fundamental_div_mod(k2, wi);
                    assert(wi * (y as int) == (y as int) * wi) by (nonlinear_arith);
                }
            }
            x = x + 1;
        }
        proof {
            assert forall|k: int|
                0 <= k < start.len() && k / (w as int) < y + 1 implies dithered(start, w as int, noise, k, #[trigger] image.pixels@[k]) by {
                if k / (w as int) == y && k % (w as int) >= cols {
                    assert(cols == nw);
                }
            }
        }
        y = y + 1;
    }
    proof {
        assert forall|k: int| 0 <= k < start.len() implies dithered(start, w as int, noise, k, #[trigger] image.pixels@[k]) by {
            let yk = k / (w as int);
            if yk >= rows {
                assert(rows == noise.height) by {
                    if rows == h {
                        assert(k < w * h);
                        let xk = k % (w as int);
                        vstd::arithmetic::div_mod::lemma_fundamental_div_mod(k, w as int);
                        assert(yk < h) by (nonlinear_arith)
                            requires
                                k == w * yk + xk,
                                0 <= xk,
                                k < w * h,
                                w > 0,
                        ;
                    }
                }
            }
        }
    }
}

} // verus!
