//! A catalog of blocks keyed by their average color, and the block mosaic it
//! makes: one sixteen-pixel block per source pixel.
use vstd::prelude::*;

use crate::dithering::rgb_closest;
use crate::mosaic::{canvas_fits, tile_ok, ComposeError};
use crate::paint::{mosaic_pixels, paint_plan, tiles_fit};
use crate::pixel::PixelBuffer;
use crate::utils::{nearest_index, rgba_seq};

verus! {

/// Side, in output pixels, of the block that stands for one source pixel.
pub const BLOCK_SIZE: u32 = 16;

/// What `average_color::calculate_average` returns for an image of this size and
/// these pixels, as red, green and blue.
pub uninterp spec fn sampled_average(pixels: Seq<[u8; 4]>, width: nat, height: nat) -> [u8; 3];

/// The sampler of `calculate_average` meets at least one pixel and cannot
/// overflow its sums.
pub open spec fn can_sample(width: int, height: int) -> bool {
    &&& 1 <= width
    &&& 1 <= height
    &&& (width >= 7 || height >= 6)
    &&& width * height <= 16843009
}

/// Relies on `average_color::calculate_average` on an RGBA image: it always
/// returns a color, which depends on the pixels and the size alone. It panics
/// on an empty side, when no pixel is sampled (the first sample is at (5, 0) on
/// an image at least 7 wide, else at (0, 5)) and when its `u32` sums overflow.
#[verifier::external_body]
fn sampled_color(img: &PixelBuffer) -> (r: Option<[u8; 3]>)
    requires
        img.wf(),
        can_sample(img.width as int, img.height as int),
    ensures
        r == Some(sampled_average(img.pixels@, img.width as nat, img.height as nat)),
{
    let raw: Vec<u8> = img.pixels.iter().flatten().copied().collect();
    let buf = image::RgbaImage::from_raw(img.width, img.height, raw).unwrap();
    let avg = average_color::calculate_average(&image::DynamicImage::ImageRgba8(buf));
    avg.map(|c| [c.r, c.g, c.b])
}

/// Blocks by color: `map` holds the first path seen for each color, `palette`
/// every block's color in load order.
#[derive(Debug, Clone)]
pub struct Blocks {
    pub map: Vec<([u8; 4], String)>,
    pub palette: Vec<[u8; 4]>,
}

/// `c` is a key of the map.
pub open spec fn has_key(map: Seq<([u8; 4], String)>, c: [u8; 4]) -> bool {
    exists|i: int| 0 <= i < map.len() && (#[trigger] map[i]).0 == c
}

/// Index of key `c` in the map.
pub open spec fn key_index(map: Seq<([u8; 4], String)>, c: [u8; 4]) -> int {
    choose|i: int| 0 <= i < map.len() && (#[trigger] map[i]).0 == c
}

/// An opaque pixel of the given color channels.
pub open spec fn opaque(c: [u8; 3]) -> [u8; 4] {
    [c[0], c[1], c[2], 255u8]
}

/// The block of a source pixel: the transparent block (last tile) for a fully
/// transparent pixel, else the block of the palette color nearest to it.
pub open spec fn block_choice(b: Blocks, p: [u8; 4]) -> Option<usize> {
    if p[3] == 0 {
        Some(b.map@.len() as usize)
    } else {
        Some(key_index(b.map@, b.palette@[nearest_index(rgba_seq(b.palette@), p@)]) as usize)
    }
}

/// The blocks of a run of source pixels.
pub open spec fn block_plan_px(b: Blocks, px: Seq<[u8; 4]>) -> Seq<Option<usize>> {
    Seq::new(px.len(), |c: int| block_choice(b, px[c]))
}

/// The blocks of every source pixel, row by row.
pub open spec fn block_plan(b: Blocks, img: PixelBuffer) -> Seq<Option<usize>> {
    block_plan_px(b, img.pixels@)
}

/// A block mosaic of `img` with these tile images can be made.
pub open spec fn block_inputs_ok(b: Blocks, img: PixelBuffer, tiles: Seq<PixelBuffer>) -> bool {
    &&& b.wf()
    &&& b.palette@.len() > 0
    &&& tiles.len() == b.map@.len() + 1
    &&& forall|t: int| 0 <= t < tiles.len() ==> tile_ok(#[trigger] tiles[t], BLOCK_SIZE as int)
    &&& canvas_fits(img.width as int, img.height as int, BLOCK_SIZE as int)
}

/// The error that making a block mosaic of `img` meets, if any.
pub open spec fn block_input_error(b: Blocks, img: PixelBuffer, tiles: Seq<PixelBuffer>) -> Option<ComposeError> {
    if !b.wf() || b.palette@.len() == 0 {
        Some(ComposeError::EmptyCatalog)
    } else if !(tiles.len() == b.map@.len() + 1 && forall|t: int|
        0 <= t < tiles.len() ==> tile_ok(#[trigger] tiles[t], BLOCK_SIZE as int)) {
        Some(ComposeError::TileMismatch)
    } else if !canvas_fits(img.width as int, img.height as int, BLOCK_SIZE as int) {
        Some(ComposeError::CanvasTooLarge)
    } else {
        None
    }
}

impl Blocks {
    /// Keys are distinct, and the keys are exactly the palette's colors.
    pub open spec fn wf(&self) -> bool {
        &&& forall|i: int, j: int|
            0 <= i < j < self.map@.len() ==> (#[trigger] self.map@[i]).0 != (#[trigger] self.map@[j]).0
        &&& forall|i: int| 0 <= i < self.palette@.len() ==> has_key(self.map@, #[trigger] self.palette@[i])
        &&& forall|i: int|
            0 <= i < self.map@.len() ==> self.palette@.contains((#[trigger] self.map@[i]).0)
    }

    /// No block yet.
    pub fn new() -> (r: Blocks)
        ensures
            r.wf(),
            r.map@.len() == 0,
            r.palette@.len() == 0,
    {
        Blocks { map: Vec::new(), palette: Vec::new() }
    }

    /// The index of key `color` in the map, if it is one.
    pub fn find(&self, color: &[u8; 4]) -> (r: Option<usize>)
        ensures
            r is None <==> !has_key(self.map@, *color),
            r matches Some(i) ==> i < self.map@.len() && self.map@[i as int].0 == *color,
    {
        let mut i: usize = 0;
        while i < self.map.len()
            invariant
                i <= self.map@.len(),
                forall|j: int| 0 <= j < i ==> (#[trigger] self.map@[j]).0 != *color,
            decreases self.map@.len() - i,
        {
            let k = self.map[i].0;
            if k[0] == color[0] && k[1] == color[1] && k[2] == color[2] && k[3] == color[3] {
                assert(k =~= *color);
                return Some(i);
            }
            assert(k != *color);
            i = i + 1;
        }
        None
    }

    /// Records a block of average color `avg` read from `path`: its opaque
    /// color joins the palette, and the map keeps the first path per color.
    pub fn insert(&mut self, avg: [u8; 3], path: String)
        requires
            old(self).wf(),
        ensures
            final(self).wf(),
            final(self).palette@ == old(self).palette@.push(opaque(avg)),
            has_key(old(self).map@, opaque(avg)) ==> final(self).map@ == old(self).map@,
            !has_key(old(self).map@, opaque(avg)) ==> final(self).map@ == old(self).map@.push(
                (opaque(avg), path),
            ),
    {
        let rgba: [u8; 4] = [avg[0], avg[1], avg[2], 255];
        assert(rgba =~= opaque(avg));
        let ghost old_map = self.map@;
        let ghost old_pal = self.palette@;
        let found = self.find(&rgba);
        match found {
            Some(_) => {},
            None => {
                self.map.push((rgba, path));
            },
        }
        self.palette.push(rgba);
        proof {
            assert forall|i: int| 0 <= i < self.palette@.len() implies has_key(
                self.map@,
                #[trigger] self.palette@[i],
            ) by {
                if i < old_pal.len() {
                    assert(self.palette@[i] == old_pal[i]);
                    let j = choose|j: int| 0 <= j < old_map.len() && (#[trigger] old_map[j]).0 == old_pal[i];
                    assert(self.map@[j] == old_map[j]);
                } else {
                    match found {
                        Some(j) => {
                            assert(self.map@[j as int].0 == rgba);
                        },
                        None => {
                            assert(self.map@[old_map.len() as int].0 == rgba);
                        },
                    }
                }
            }
            assert forall|i: int| 0 <= i < self.map@.len() implies self.palette@.contains(
                (#[trigger] self.map@[i]).0,
            ) by {
                if i < old_map.len() {
                    assert(self.map@[i] == old_map[i]);
                    let j = choose|j: int| 0 <= j < old_pal.len() && old_pal[j] == old_map[i].0;
                    assert(self.palette@[j] == old_pal[j]);
                } else {
                    assert(self.palette@[old_pal.len() as int] == rgba);
                }
            }
        }
    }

    /// Adds the block read from `path` by its sampled average color; tells
    /// whether the image was large enough to sample.
    pub fn add_block(&mut self, path: String, img: &PixelBuffer) -> (r: bool)
        requires
            old(self).wf(),
            img.wf(),
        ensures
            final(self).wf(),
            r == can_sample(img.width as int, img.height as int),
            !r ==> *final(self) == *old(self),
            r ==> final(self).palette@ == old(self).palette@.push(
                opaque(sampled_average(img.pixels@, img.width as nat, img.height as nat)),
            ),
            r && has_key(old(self).map@, opaque(sampled_average(img.pixels@, img.width as nat, img.height as nat)))
                ==> final(self).map@ == old(self).map@,
            r && !has_key(old(self).map@, opaque(sampled_average(img.pixels@, img.width as nat, img.height as nat)))
                ==> final(self).map@ == old(self).map@.push(
                (opaque(sampled_average(img.pixels@, img.width as nat, img.height as nat)), path),
            ),
    {
        let w = img.width as u64;
        let h = img.height as u64;
        assert(w * h <= 0xffff_ffff * 0xffff_ffffu64) by (nonlinear_arith)
            requires
                w <= 0xffff_ffff,
                h <= 0xffff_ffff,
        ;
        if w == 0 || h == 0 || (w < 7 && h < 6) || w * h > 16843009 {
            return false;
        }
        match sampled_color(img) {
            Some(avg) => {
                self.insert(avg, path);
                true
            },
            None => false,
        }
    }

    /// Whether the keys are distinct and are exactly the palette's colors.
    pub fn is_consistent(&self) -> (r: bool)
        ensures
            r == self.wf(),
    {
        let mut i: usize = 0;
        while i < self.map.len()
            invariant
                i <= self.map@.len(),
                forall|a: int, c: int| 0 <= a < i && a < c < self.map@.len() ==> (#[trigger] self.map@[a]).0 != (
                #[trigger] self.map@[c]).0,
                forall|a: int| 0 <= a < i ==> self.palette@.contains((#[trigger] self.map@[a]).0),
            decreases self.map@.len() - i,
        {
            let key = self.map[i].0;
            let mut j: usize = i + 1;
            while j < self.map.len()
                invariant
                    i < j <= self.map@.len(),
                    key == self.map@[i as int].0,
                    forall|c: int| i < c < j ==> key != (#[trigger] self.map@[c]).0,
                decreases self.map@.len() - j,
            {
                let other = self.map[j].0;
                if other[0] == key[0] && other[1] == key[1] && other[2] == key[2] && other[3] == key[3] {
                    assert(other =~= key);
                    return false;
                }
                assert(other != key);
                j = j + 1;
            }
            let mut q: usize = 0;
            let mut seen = false;
            while q < self.palette.len()
                invariant
                    q <= self.palette@.len(),
                    !seen ==> forall|u: int| 0 <= u < q ==> (#[trigger] self.palette@[u]) != key,
                    seen ==> self.palette@.contains(key),
                decreases self.palette@.len() - q,
            {
                let c = self.palette[q];
                if c[0] == key[0] && c[1] == key[1] && c[2] == key[2] && c[3] == key[3] {
                    assert(c =~= key);
                    seen = true;
                } else {
                    assert(c != key);
                }
                q = q + 1;
            }
            if !seen {
                return false;
            }
            i = i + 1;
        }
        let mut q: usize = 0;
        while q < self.palette.len()
            invariant
                q <= self.palette@.len(),
                forall|u: int| 0 <= u < q ==> has_key(self.map@, #[trigger] self.palette@[u]),
            decreases self.palette@.len() - q,
        {
            if self.find(&self.palette[q]).is_none() {
                return false;
            }
            q = q + 1;
        }
        true
    }

    /// Checks that a block mosaic of `img` with these tile images can be made:
    /// the transparent block is the last tile.
    pub fn check_mosaic(&self, img: &PixelBuffer, tiles: &Vec<PixelBuffer>) -> (r: Result<(), ComposeError>)
        ensures
            r is Ok <==> block_inputs_ok(*self, *img, tiles@),
            r matches Err(e) ==> block_input_error(*self, *img, tiles@) == Some(e),
    {
        if !self.is_consistent() || self.palette.len() == 0 {
            return Err(ComposeError::EmptyCatalog);
        }
        if tiles.len() == 0 || tiles.len() - 1 != self.map.len() {
            return Err(ComposeError::TileMismatch);
        }
        let mut t: usize = 0;
        while t < tiles.len()
            invariant
                t <= tiles@.len(),
                self.wf(),
                self.palette@.len() > 0,
                tiles@.len() == self.map@.len() + 1,
                forall|u: int| 0 <= u < t ==> tile_ok(#[trigger] tiles@[u], BLOCK_SIZE as int),
            decreases tiles@.len() - t,
        {
            let tile = &tiles[t];
            assert(tile.width as u64 * tile.height as u64 <= 0xffff_ffff * 0xffff_ffffu64) by (nonlinear_arith)
                requires
                    tile.width <= 0xffff_ffff,
                    tile.height <= 0xffff_ffff,
            ;
            let area: u64 = tile.width as u64 * tile.height as u64;
            if area != tile.pixels.len() as u64 || tile.width > BLOCK_SIZE || tile.height > BLOCK_SIZE {
                assert(!tile_ok(tiles@[t as int], BLOCK_SIZE as int));
                return Err(ComposeError::TileMismatch);
            }
            t = t + 1;
        }
        let w: u128 = img.width as u128 * BLOCK_SIZE as u128;
        let h: u128 = img.height as u128 * BLOCK_SIZE as u128;
        if w > u32::MAX as u128 || h > u32::MAX as u128 {
            return Err(ComposeError::CanvasTooLarge);
        }
        assert(w * h <= 0xffff_ffff * 0xffff_ffffu128) by (nonlinear_arith)
            requires
                w <= 0xffff_ffff,
                h <= 0xffff_ffff,
        ;
        if w * h > usize::MAX as u128 {
            return Err(ComposeError::CanvasTooLarge);
        }
        Ok(())
    }

    /// The paths by color.
    pub fn map(&self) -> (r: &Vec<([u8; 4], String)>)
        ensures
            r@ == self.map@,
    {
        &self.map
    }

    /// The colors, in load order.
    pub fn palette(&self) -> (r: &Vec<[u8; 4]>)
        ensures
            r@ == self.palette@,
    {
        &self.palette
    }
}

/// Whether some source pixel is fully transparent, so that the transparent
/// block is needed.
pub fn needs_transparent_block(img: &PixelBuffer) -> (r: bool)
    ensures
        r == exists|k: int| 0 <= k < img.pixels@.len() && (#[trigger] img.pixels@[k])[3] == 0,
{
    let mut i: usize = 0;
    while i < img.pixels.len()
        invariant
            i <= img.pixels@.len(),
            forall|k: int| 0 <= k < i ==> (#[trigger] img.pixels@[k])[3] != 0,
        decreases img.pixels@.len() - i,
    {
        if img.pixels[i][3] == 0 {
            return true;
        }
        i = i + 1;
    }
    false
}

/// Turns every source pixel into a block: the transparent block for a fully
/// transparent pixel, else the block of the palette color nearest to it.
/// `tiles[i]` is the image of map entry `i`; the last tile is the transparent block.
pub fn minecrafify_img(img: &PixelBuffer, blocks: &Blocks, tiles: &Vec<PixelBuffer>) -> (r: PixelBuffer)
    requires
        img.wf(),
        blocks.wf(),
        blocks.palette@.len() > 0,
        tiles@.len() == blocks.map@.len() + 1,
        tiles_fit(tiles@, BLOCK_SIZE as int),
        crate::mosaic::canvas_fits(img.width as int, img.height as int, BLOCK_SIZE as int),
    ensures
        r.wf(),
        r.width == img.width * BLOCK_SIZE,
        r.height == img.height * BLOCK_SIZE,
        r.pixels@ == mosaic_pixels(block_plan(*blocks, *img), tiles@, img.width as int, img.height as int, BLOCK_SIZE as int),
{
    let n = img.pixels.len();
    let mut plan: Vec<Option<usize>> = Vec::with_capacity(n);
    let mut c: usize = 0;
    while c < n
        invariant
            c <= n,
            n == img.pixels@.len(),
            blocks.wf(),
            blocks.palette@.len() > 0,
            plan@ == block_plan(*blocks, *img).subrange(0, c as int),
            forall|j: int| 0 <= j < c ==> (#[trigger] plan@[j] matches Some(t) ==> t < tiles@.len()),
            tiles@.len() == blocks.map@.len() + 1,
        decreases n - c,
    {
        let pixel = img.pixels[c];
        if pixel[3] == 0 {
            plan.push(Some(blocks.map.len()));
        } else {
            let closest = rgb_closest(&pixel, &blocks.palette);
            proof {
                crate::utils::lemma_nearest_index(rgba_seq(blocks.palette@), pixel@);
                let k = nearest_index(rgba_seq(blocks.palette@), pixel@);
                assert(has_key(blocks.map@, blocks.palette@[k]));
            }
            match blocks.find(&closest) {
                Some(i) => {
                    proof {
                        let k = key_index(blocks.map@, closest);
                        assert(blocks.map@[k].0 == closest);
                        if k != i {
                            if k < i {
                                assert(blocks.map@[k].0 != blocks.map@[i as int].0);
                            } else {
                                assert(blocks.map@[i as int].0 != blocks.map@[k].0);
                            }
                        }
                    }
                    plan.push(Some(i));
                },
                None => {
                    plan.push(None);
                },
            }
        }
        c = c + 1;
        assert(plan@ =~= block_plan(*blocks, *img).subrange(0, c as int));
    }
    assert(plan@ =~= block_plan(*blocks, *img));
    paint_plan(img.width, img.height, BLOCK_SIZE, &plan, tiles)
}

} // verus!
