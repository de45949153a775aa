//! Color distance, nearest-color search and transparency tests.
use vstd::prelude::*;

use crate::pixel::PixelBuffer;

verus! {

/// Squared Euclidean distance over the red, green and blue channels of two
/// colors, given as their channel sequences (a fourth channel is ignored).
pub open spec fn color_dist(a: Seq<u8>, b: Seq<u8>) -> int {
    (a[0] - b[0]) * (a[0] - b[0]) + (a[1] - b[1]) * (a[1] - b[1]) + (a[2] - b[2]) * (a[2] - b[2])
}

/// The channel sequences of an RGB palette.
pub open spec fn rgb_seq(pal: Seq<[u8; 3]>) -> Seq<Seq<u8>> {
    pal.map_values(|p: [u8; 3]| p@)
}

/// The channel sequences of an RGBA palette.
pub open spec fn rgba_seq(pal: Seq<[u8; 4]>) -> Seq<Seq<u8>> {
    pal.map_values(|p: [u8; 4]| p@)
}

/// `i` is the first of the first `n` entries of `pal` at least as close to `c`
/// as each of them.
pub open spec fn is_nearest_upto(pal: Seq<Seq<u8>>, c: Seq<u8>, i: int, n: int) -> bool {
    &&& 0 <= i < n
    &&& forall|j: int| 0 <= j < n ==> color_dist(c, pal[i]) <= color_dist(c, #[trigger] pal[j])
    &&& forall|j: int| 0 <= j < i ==> color_dist(c, #[trigger] pal[j]) > color_dist(c, pal[i])
}

/// `i` is the index of the palette entry nearest to `c`, the first one on ties.
pub open spec fn is_nearest(pal: Seq<Seq<u8>>, c: Seq<u8>, i: int) -> bool {
    is_nearest_upto(pal, c, i, pal.len() as int)
}

/// The nearest entry among the first `n`, found by a scan in palette order.
pub open spec fn nearest_upto(pal: Seq<Seq<u8>>, c: Seq<u8>, n: int) -> int
    decreases n,
{
    if n <= 1 {
        0
    } else {
        let k = nearest_upto(pal, c, n - 1);
        if color_dist(c, pal[n - 1]) < color_dist(c, pal[k]) {
            n - 1
        } else {
            k
        }
    }
}

/// Index of the palette entry nearest to `c` (first one on ties).
pub open spec fn nearest_index(pal: Seq<Seq<u8>>, c: Seq<u8>) -> int {
    nearest_upto(pal, c, pal.len() as int)
}

/// The scan finds the first nearest entry.
pub proof fn lemma_nearest_upto(pal: Seq<Seq<u8>>, c: Seq<u8>, n: int)
    requires
        1 <= n <= pal.len(),
    ensures
        is_nearest_upto(pal, c, nearest_upto(pal, c, n), n),
    decreases n,
{
    if n > 1 {
        lemma_nearest_upto(pal, c, n - 1);
    }
}

/// The nearest index is the first entry at minimal distance.
pub proof fn lemma_nearest_index(pal: Seq<Seq<u8>>, c: Seq<u8>)
    requires
        pal.len() > 0,
    ensures
        is_nearest(pal, c, nearest_index(pal, c)),
{
    lemma_nearest_upto(pal, c, pal.len() as int);
}

/// A palette that holds the query color exactly: the nearest entry is at
/// distance zero, so it equals the query on its three color channels.
pub proof fn lemma_nearest_exact(pal: Seq<Seq<u8>>, c: Seq<u8>, i: int)
    requires
        0 <= i < pal.len(),
        pal[i] == c,
    ensures
        color_dist(c, pal[nearest_index(pal, c)]) == 0,
        pal[nearest_index(pal, c)][0] == c[0],
        pal[nearest_index(pal, c)][1] == c[1],
        pal[nearest_index(pal, c)][2] == c[2],
{
    lemma_nearest_index(pal, c);
    let k = nearest_index(pal, c);
    assert(color_dist(c, pal[i]) == 0) by (nonlinear_arith)
        requires
            pal[i] == c,
    ;
    assert(color_dist(c, pal[k]) <= 0);
    lemma_dist_zero(c, pal[k]);
}

/// A distance of zero means equal color channels.
pub proof fn lemma_dist_zero(a: Seq<u8>, b: Seq<u8>)
    requires
        color_dist(a, b) <= 0,
    ensures
        a[0] == b[0],
        a[1] == b[1],
        a[2] == b[2],
        color_dist(a, b) == 0,
{
    let dr = a[0] - b[0];
    let dg = a[1] - b[1];
    let db = a[2] - b[2];
    assert(dr * dr >= 0 && dg * dg >= 0 && db * db >= 0) by (nonlinear_arith);
    assert(dr * dr == 0 ==> dr == 0) by (nonlinear_arith);
    assert(dg * dg == 0 ==> dg == 0) by (nonlinear_arith);
    assert(db * db == 0 ==> db == 0) by (nonlinear_arith);
}

/// The distance between two colors does not depend on their order.
pub proof fn lemma_distance_symmetric(a: Seq<u8>, b: Seq<u8>)
    ensures
        color_dist(a, b) == color_dist(b, a),
{
    assert(color_dist(a, b) == color_dist(b, a)) by (nonlinear_arith);
}

/// Squared distance of two channel triples of eight bits, as an `i64`.
pub(crate) fn channel_dist(r1: u8, g1: u8, b1: u8, r2: u8, g2: u8, b2: u8) -> (r: i64)
    ensures
        r == (r1 - r2) * (r1 - r2) + (g1 - g2) * (g1 - g2) + (b1 - b2) * (b1 - b2),
        0 <= r <= 195075,
{
    let dr = r2 as i64 - r1 as i64;
    let dg = g2 as i64 - g1 as i64;
    let db = b2 as i64 - b1 as i64;
    assert(0 <= dr * dr <= 65025) by (nonlinear_arith)
        requires
            -255 <= dr <= 255,
    ;
    assert(0 <= dg * dg <= 65025) by (nonlinear_arith)
        requires
            -255 <= dg <= 255,
    ;
    assert(0 <= db * db <= 65025) by (nonlinear_arith)
        requires
            -255 <= db <= 255,
    ;
    assert((r1 - r2) * (r1 - r2) == dr * dr) by (nonlinear_arith)
        requires
            dr == r2 - r1,
    ;
    assert((g1 - g2) * (g1 - g2) == dg * dg) by (nonlinear_arith)
        requires
            dg == g2 - g1,
    ;
    assert((b1 - b2) * (b1 - b2) == db * db) by (nonlinear_arith)
        requires
            db == b2 - b1,
    ;
    dr * dr + dg * dg + db * db
}

/// Squared Euclidean distance between two RGB colors.
pub fn rgb_distance(a: &[u8; 3], b: &[u8; 3]) -> (r: i64)
    ensures
        r == color_dist(a@, b@),
        r >= 0,
{
    channel_dist(a[0], a[1], a[2], b[0], b[1], b[2])
}

/// Index of the palette entry nearest to `target`; the first one wins ties.
pub fn nearest(target: &[u8; 3], palette: &[[u8; 3]]) -> (r: usize)
    requires
        palette@.len() > 0,
    ensures
        r == nearest_index(rgb_seq(palette@), target@),
        is_nearest(rgb_seq(palette@), target@, r as int),
{
    let ghost pal = rgb_seq(palette@);
    let mut best: usize = 0;
    let mut best_dist: i64 = rgb_distance(target, &palette[0]);
    let mut i: usize = 1;
    while i < palette.len()
        invariant
            pal == rgb_seq(palette@),
            1 <= i <= palette@.len(),
            best == nearest_upto(pal, target@, i as int),
            best < i,
            best_dist == color_dist(target@, pal[best as int]),
        decreases palette@.len() - i,
    {
        let d = rgb_distance(target, &palette[i]);
        if d < best_dist {
            best = i;
            best_dist = d;
        }
        i = i + 1;
    }
    proof {
        lemma_nearest_index(pal, target@);
    }
    best
}

/// The palette color nearest to `target` (the first one on ties), or black
/// when the palette is empty.
pub fn closest_color(available_colors: &[[u8; 3]], target: &[u8; 3]) -> (r: [u8; 3])
    ensures
        available_colors@.len() == 0 ==> r@ == seq![0u8, 0u8, 0u8],
        available_colors@.len() > 0 ==> r == available_colors@[nearest_index(
            rgb_seq(available_colors@),
            target@,
        )],
{
    if available_colors.len() == 0 {
        let r = [0u8, 0u8, 0u8];
        assert(r@ =~= seq![0u8, 0u8, 0u8]);
        r
    } else {
        let i = nearest(target, available_colors);
        available_colors[i]
    }
}

/// Alpha value from which a pixel counts as opaque.
pub const OPACITY_THRESHOLD: u8 = 100;

/// A pixel whose alpha is below the opacity threshold.
pub open spec fn is_transparent_pixel(p: [u8; 4]) -> bool {
    p[3] < OPACITY_THRESHOLD
}

/// Whether a pixel is transparent enough to leave its cell empty.
pub fn pixel_transparent(pixel: &[u8; 4]) -> (r: bool)
    ensures
        r == is_transparent_pixel(*pixel),
{
    pixel[3] < OPACITY_THRESHOLD
}

/// Whether some pixel of the image is not fully opaque.
pub fn img_transparent(image: &PixelBuffer) -> (r: bool)
    ensures
        r == exists|k: int| 0 <= k < image.pixels@.len() && (#[trigger] image.pixels@[k])[3] != 255,
{
    let mut i: usize = 0;
    while i < image.pixels.len()
        invariant
            i <= image.pixels@.len(),
            forall|k: int| 0 <= k < i ==> (#[trigger] image.pixels@[k])[3] == 255,
        decreases image.pixels@.len() - i,
    {
        if image.pixels[i][3] != 255 {
            return true;
        }
        i = i + 1;
    }
    false
}

} // verus!
