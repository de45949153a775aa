//! Error diffusion helpers over RGBA pixels, and dithering against an RGBA palette.
use vstd::prelude::*;

use crate::algorithms::dithering::{dither_in_place, dithered};
use crate::pixel::PixelBuffer;
use crate::utils::{channel_dist, color_dist, nearest_index, rgb_seq, rgba_seq};

verus! {

/// The value of one channel once `coeff` sixteenths of `err` are added to it:
/// truncated toward zero and held to the range of a byte.
pub open spec fn diffuse(v: u8, err: int, coeff: int) -> u8 {
    let scaled = v * 16 + err * coeff;
    if scaled < 0 {
        0
    } else if scaled / 16 > 255 {
        255
    } else {
        (scaled / 16) as u8
    }
}

/// Quantization error per color channel: the old value less the new one.
pub fn calutate_error(old_pixel: &[u8; 4], new_pixel: &[u8; 4]) -> (r: [i32; 3])
    ensures
        r[0] == old_pixel[0] - new_pixel[0],
        r[1] == old_pixel[1] - new_pixel[1],
        r[2] == old_pixel[2] - new_pixel[2],
{
    [
        old_pixel[0] as i32 - new_pixel[0] as i32,
        old_pixel[1] as i32 - new_pixel[1] as i32,
        old_pixel[2] as i32 - new_pixel[2] as i32,
    ]
}

/// Adds `coeff` sixteenths of the error to each color channel of `pixel`,
/// keeping its alpha.
pub fn apply_error(error: &[i32; 3], pixel: &[u8; 4], coeff: i32) -> (r: [u8; 4])
    requires
        -255 <= error[0] <= 255,
        -255 <= error[1] <= 255,
        -255 <= error[2] <= 255,
        0 <= coeff <= 16,
    ensures
        r[0] == diffuse(pixel[0], error[0] as int, coeff as int),
        r[1] == diffuse(pixel[1], error[1] as int, coeff as int),
        r[2] == diffuse(pixel[2], error[2] as int, coeff as int),
        r[3] == pixel[3],
{
    [
        diffuse_channel(pixel[0], error[0], coeff),
        diffuse_channel(pixel[1], error[1], coeff),
        diffuse_channel(pixel[2], error[2], coeff),
        pixel[3],
    ]
}

fn diffuse_channel(v: u8, err: i32, coeff: i32) -> (r: u8)
    requires
        -255 <= err <= 255,
        0 <= coeff <= 16,
    ensures
        r == diffuse(v, err as int, coeff as int),
{
    assert(-4080 <= err * coeff <= 4080) by (nonlinear_arith)
        requires
            -255 <= err <= 255,
            0 <= coeff <= 16,
    ;
    let scaled: i32 = v as i32 * 16 + err * coeff;
    if scaled < 0 {
        0
    } else if scaled / 16 > 255 {
        255
    } else {
        (scaled / 16) as u8
    }
}

/// Squared Euclidean distance between the color channels of two RGBA pixels.
pub fn rgb_dist(a: &[u8; 4], b: &[u8; 4]) -> (r: i64)
    ensures
        r == color_dist(a@, b@),
        r >= 0,
{
    channel_dist(a[0], a[1], a[2], b[0], b[1], b[2])
}

/// The palette entry nearest to `color` in its color channels (the first one
/// on ties), or all zeros when the palette is empty.
pub fn rgb_closest(color: &[u8; 4], colors: &Vec<[u8; 4]>) -> (r: [u8; 4])
    ensures
        colors@.len() == 0 ==> r@ == seq![0u8, 0u8, 0u8, 0u8],
        colors@.len() > 0 ==> r == colors@[nearest_index(rgba_seq(colors@), color@)],
{
    if colors.len() == 0 {
        let r = [0u8, 0u8, 0u8, 0u8];
        assert(r@ =~= seq![0u8, 0u8, 0u8, 0u8]);
        return r;
    }
    let ghost pal = rgba_seq(colors@);
    let mut best: usize = 0;
    let mut best_dist: i64 = rgb_dist(color, &colors[0]);
    let mut i: usize = 1;
    while i < colors.len()
        invariant
            pal == rgba_seq(colors@),
            1 <= i <= colors@.len(),
            best == crate::utils::nearest_upto(pal, color@, i as int),
            best < i,
            best_dist == color_dist(color@, pal[best as int]),
        decreases colors@.len() - i,
    {
        let d = rgb_dist(color, &colors[i]);
        if d < best_dist {
            best = i;
            best_dist = d;
        }
        i = i + 1;
    }
    colors[best]
}

/// The color channels of an RGBA palette.
pub open spec fn rgb_palette(colors: Seq<[u8; 4]>) -> Seq<[u8; 3]> {
    colors.map_values(|c: [u8; 4]| [c[0], c[1], c[2]])
}

/// Dithers the image in place against the color channels of an RGBA palette;
/// alpha is left as it is.
pub fn dither_img(img: &mut PixelBuffer, colors: &Vec<[u8; 4]>)
    requires
        old(img).wf(),
    ensures
        final(img).width == old(img).width,
        final(img).height == old(img).height,
        final(img).pixels@ == dithered(
            old(img).pixels@,
            old(img).width as int,
            old(img).height as int,
            rgb_seq(rgb_palette(colors@)),
        ),
{
    let mut group: Vec<[u8; 3]> = Vec::with_capacity(colors.len());
    let mut i: usize = 0;
    while i < colors.len()
        invariant
            i <= colors@.len(),
            group@ == rgb_palette(colors@).subrange(0, i as int),
        decreases colors@.len() - i,
    {
        let c = colors[i];
        group.push([c[0], c[1], c[2]]);
        i = i + 1;
        assert(group@ =~= rgb_palette(colors@).subrange(0, i as int));
    }
    assert(group@ =~= rgb_palette(colors@));
    dither_in_place(img, group.as_slice());
}

} // verus!
