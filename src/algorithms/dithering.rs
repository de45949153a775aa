//! Floyd–Steinberg dithering of a whole image against an RGB palette.
use vstd::prelude::*;

use crate::dithering::{apply_error, calutate_error, diffuse};
use crate::pixel::PixelBuffer;
use crate::utils::{closest_color, nearest_index, rgb_seq};

verus! {

/// Share of the error, in sixteenths, passed to the pixel on the right.
pub const RIGHT_WEIGHT: i32 = 7;

/// Share of the error, in sixteenths, passed to the pixel below on the left.
pub const BELOW_LEFT_WEIGHT: i32 = 3;

/// Share of the error, in sixteenths, passed to the pixel below.
pub const BELOW_WEIGHT: i32 = 5;

/// Share of the error, in sixteenths, passed to the pixel below on the right.
pub const BELOW_RIGHT_WEIGHT: i32 = 1;

/// The color channels of a pixel.
pub open spec fn rgb_of(p: [u8; 4]) -> Seq<u8> {
    p@.subrange(0, 3)
}

/// The pixel once its color is replaced by the nearest palette color (black
/// for an empty palette); alpha is kept.
pub open spec fn quantized(pal: Seq<Seq<u8>>, p: [u8; 4]) -> [u8; 4] {
    if pal.len() == 0 {
        [0u8, 0u8, 0u8, p[3]]
    } else {
        let q = pal[nearest_index(pal, rgb_of(p))];
        [q[0], q[1], q[2], p[3]]
    }
}

/// Pixel `p` once `coeff` sixteenths of the error `old - new` are added to it.
pub open spec fn with_error(p: [u8; 4], old: [u8; 4], new: [u8; 4], coeff: int) -> [u8; 4] {
    [
        diffuse(p[0], old[0] - new[0], coeff),
        diffuse(p[1], old[1] - new[1], coeff),
        diffuse(p[2], old[2] - new[2], coeff),
        p[3],
    ]
}

/// Cell `(x, y)` is off the border of a `w` by `h` image, so that all four
/// neighbors that receive error exist.
pub open spec fn interior(x: int, y: int, w: int, h: int) -> bool {
    0 < x < w - 1 && 0 < y < h - 1
}

/// One step of the scan: quantize pixel `idx` and, off the border, pass its
/// error on to the right, below left, below and below right.
pub open spec fn dither_step(px: Seq<[u8; 4]>, w: int, h: int, pal: Seq<Seq<u8>>, idx: int) -> Seq<[u8; 4]> {
    let old = px[idx];
    let new = quantized(pal, old);
    let s0 = px.update(idx, new);
    if interior(idx % w, idx / w, w, h) {
        let s1 = s0.update(idx + 1, with_error(s0[idx + 1], old, new, RIGHT_WEIGHT as int));
        let s2 = s1.update(idx + w - 1, with_error(s1[idx + w - 1], old, new, BELOW_LEFT_WEIGHT as int));
        let s3 = s2.update(idx + w, with_error(s2[idx + w], old, new, BELOW_WEIGHT as int));
        s3.update(idx + w + 1, with_error(s3[idx + w + 1], old, new, BELOW_RIGHT_WEIGHT as int))
    } else {
        s0
    }
}

/// The pixels after the first `n` steps of the row-major scan.
pub open spec fn dither_upto(px: Seq<[u8; 4]>, w: int, h: int, pal: Seq<Seq<u8>>, n: nat) -> Seq<[u8; 4]>
    decreases n,
{
    if n == 0 {
        px
    } else {
        dither_step(dither_upto(px, w, h, pal, (n - 1) as nat), w, h, pal, n - 1)
    }
}

/// The pixels of a `w` by `h` image once the scan has passed every pixel.
pub open spec fn dithered(px: Seq<[u8; 4]>, w: int, h: int, pal: Seq<Seq<u8>>) -> Seq<[u8; 4]> {
    dither_upto(px, w, h, pal, (w * h) as nat)
}

/// The four shares of the error add up to the whole error: nothing is lost or
/// created when it is spread over the neighbors.
pub proof fn lemma_error_conservation(err: int)
    ensures
        err * RIGHT_WEIGHT + err * BELOW_LEFT_WEIGHT + err * BELOW_WEIGHT + err * BELOW_RIGHT_WEIGHT
            == err * 16,
{
    assert(err * 7 + err * 3 + err * 5 + err * 1 == err * 16) by (nonlinear_arith);
}

/// One step of the scan on a pixel off the border writes the quantized pixel
/// and passes 7, 3, 5 and 1 sixteenths of its error to the right, below left,
/// below and below right neighbors; every other pixel stays as it was. On the
/// border only the pixel itself is quantized.
pub proof fn lemma_step_diffusion(px: Seq<[u8; 4]>, w: int, h: int, pal: Seq<Seq<u8>>, idx: int)
    requires
        px.len() == w * h,
        0 <= idx < px.len(),
    ensures
        ({
            let s = dither_step(px, w, h, pal, idx);
            let old = px[idx];
            let new = quantized(pal, old);
            let nb = set![idx + 1, idx + w - 1, idx + w, idx + w + 1];
            &&& s.len() == px.len()
            &&& s[idx] == new
            &&& interior(idx % w, idx / w, w, h) ==> {
                &&& s[idx + 1] == with_error(px[idx + 1], old, new, RIGHT_WEIGHT as int)
                &&& s[idx + w - 1] == with_error(px[idx + w - 1], old, new, BELOW_LEFT_WEIGHT as int)
                &&& s[idx + w] == with_error(px[idx + w], old, new, BELOW_WEIGHT as int)
                &&& s[idx + w + 1] == with_error(px[idx + w + 1], old, new, BELOW_RIGHT_WEIGHT as int)
                &&& forall|k: int| 0 <= k < px.len() && k != idx && !nb.contains(k) ==> #[trigger] s[k] == px[k]
            }
            &&& !interior(idx % w, idx / w, w, h) ==> forall|k: int|
                0 <= k < px.len() && k != idx ==> #[trigger] s[k] == px[k]
        }),
{
    if interior(idx % w, idx / w, w, h) {
        let x = idx % w;
        let y = idx / w;
        vstd::arithmetic::div_mod::lemma_fundamental_div_mod(idx, w);
        crate::pixel::lemma_cell_index(x + 1, y + 1, w, h);
        assert(idx + w + 1 == (y + 1) * w + (x + 1)) by (nonlinear_arith)
            requires
                idx == w * y + x,
        ;
    }
}

fn is_safe_index(x: u32, y: u32, mx: u32, my: u32) -> (r: bool)
    ensures
        r == (0 < x < mx && 0 < y < my),
{
    (x > 0 && x < mx) && (y > 0 && y < my)
}

proof fn lemma_row_major(x: int, y: int, w: int)
    requires
        0 <= x < w,
        0 <= y,
    ensures
        (y * w + x) % w == x,
        (y * w + x) / w == y,
{
    vstd::arithmetic::div_mod::lemma_fundamental_div_mod_converse(y * w + x, w, y, x);
}

/// Dithers the image in place, pixel by pixel in row-major order.
pub(crate) fn dither_in_place(img: &mut PixelBuffer, group: &[[u8; 3]])
    requires
        old(img).wf(),
    ensures
        final(img).width == old(img).width,
        final(img).height == old(img).height,
        final(img).wf(),
        final(img).pixels@ == dithered(
            old(img).pixels@,
            old(img).width as int,
            old(img).height as int,
            rgb_seq(group@),
        ),
{
    let sx = img.width;
    let sy = img.height;
    let ghost w = sx as int;
    let ghost h = sy as int;
    let ghost orig = img.pixels@;
    let ghost pal = rgb_seq(group@);
    let n = img.pixels.len();
    let mut y: u32 = 0;
    while y < sy
        invariant
            img.width == sx,
            img.height == sy,
            w == sx as int,
            h == sy as int,
            n == w * h,
            img.pixels@.len() == n,
            y <= sy,
            pal == rgb_seq(group@),
            img.pixels@ == dither_upto(orig, w, h, pal, (y * w) as nat),
        decreases sy - y,
    {
        let mut x: u32 = 0;
        while x < sx
            invariant
                img.width == sx,
                img.height == sy,
                w == sx as int,
                h == sy as int,
                n == w * h,
                img.pixels@.len() == n,
                y < sy,
                x <= sx,
                pal == rgb_seq(group@),
                img.pixels@ == dither_upto(orig, w, h, pal, (y * w + x) as nat),
            decreases sx - x,
        {
            proof {
                crate::pixel::lemma_cell_index(x as int, y as int, w, h);
                lemma_row_major(x as int, y as int, w);
            }
            let ghost before = img.pixels@;
            let idx: usize = y as usize * sx as usize + x as usize;
            let old_pixel = img.pixels[idx];
            let t: [u8; 3] = [old_pixel[0], old_pixel[1], old_pixel[2]];
            let c = closest_color(group, &t);
            let new_pixel = [c[0], c[1], c[2], old_pixel[3]];
            proof {
                assert(t@ =~= rgb_of(old_pixel));
                if group@.len() > 0 {
                    crate::utils::lemma_nearest_index(pal, t@);
                }
                assert(new_pixel =~= quantized(pal, old_pixel));
            }
            img.pixels.set(idx, new_pixel);
            if is_safe_index(x, y, sx - 1, sy - 1) {
                proof {
                    crate::pixel::lemma_cell_index(x + 1, y + 1, w, h);
                    assert((y + 1) * w == y * w + w) by (nonlinear_arith);
                }
                let error = calutate_error(&old_pixel, &new_pixel);
                let i1 = idx + 1;
                let p = img.pixels[i1];
                let v = apply_error(&error, &p, RIGHT_WEIGHT);
                assert(v =~= with_error(p, old_pixel, new_pixel, RIGHT_WEIGHT as int));
                img.pixels.set(i1, v);
                let i2 = idx + sx as usize - 1;
                let p = img.pixels[i2];
                let v = apply_error(&error, &p, BELOW_LEFT_WEIGHT);
                assert(v =~= with_error(p, old_pixel, new_pixel, BELOW_LEFT_WEIGHT as int));
                img.pixels.set(i2, v);
                let i3 = idx + sx as usize;
                let p = img.pixels[i3];
                let v = apply_error(&error, &p, BELOW_WEIGHT);
                assert(v =~= with_error(p, old_pixel, new_pixel, BELOW_WEIGHT as int));
                img.pixels.set(i3, v);
                let i4 = idx + sx as usize + 1;
                let p = img.pixels[i4];
                let v = apply_error(&error, &p, BELOW_RIGHT_WEIGHT);
                assert(v =~= with_error(p, old_pixel, new_pixel, BELOW_RIGHT_WEIGHT as int));
                img.pixels.set(i4, v);
            }
            proof {
                assert(img.pixels@ =~= dither_step(before, w, h, pal, idx as int));
            }
            x = x + 1;
        }
        proof {
            assert(y * w + w == (y + 1) * w) by (nonlinear_arith);
        }
        y = y + 1;
    }
    proof {
        assert(y * w == w * h) by (nonlinear_arith)
            requires
                y == h,
        ;
    }
}

/// A dithered copy of the image.
pub fn dither_img(img: &PixelBuffer, group: &[[u8; 3]]) -> (r: PixelBuffer)
    requires
        img.wf(),
    ensures
        r.width == img.width,
        r.height == img.height,
        r.wf(),
        r.pixels@ == dithered(img.pixels@, img.width as int, img.height as int, rgb_seq(group@)),
{
    let mut out = img.copy();
    dither_in_place(&mut out, group);
    out
}

} // verus!
