//! Decoded RGBA images and the one drawing operation the engine needs: laying
//! a tile over a canvas.
use vstd::prelude::*;

verus! {

/// A fully transparent black pixel.
pub open spec fn clear_pixel() -> [u8; 4] {
    [0u8, 0u8, 0u8, 0u8]
}

/// A `width` by `height` grid of RGBA samples, stored row by row.
#[derive(Debug, Clone)]
pub struct PixelBuffer {
    pub width: u32,
    pub height: u32,
    pub pixels: Vec<[u8; 4]>,
}

impl PixelBuffer {
    /// The sample vector holds exactly one pixel per grid cell.
    pub open spec fn wf(&self) -> bool {
        self.pixels@.len() == self.width as int * self.height as int
    }

    /// The pixel in column `x` of row `y`.
    pub open spec fn at(&self, x: int, y: int) -> [u8; 4] {
        self.pixels@[y * self.width + x]
    }

    /// A fully transparent canvas of the given size.
    pub fn new(width: u32, height: u32) -> (r: PixelBuffer)
        requires
            width as int * height as int <= usize::MAX,
        ensures
            r.wf(),
            r.width == width,
            r.height == height,
            forall|k: int| 0 <= k < r.pixels@.len() ==> #[trigger] r.pixels@[k] == clear_pixel(),
    {
        let n: usize = width as usize * height as usize;
        let mut pixels: Vec<[u8; 4]> = Vec::with_capacity(n);
        let mut i: usize = 0;
        while i < n
            invariant
                i <= n,
                pixels@.len() == i,
                forall|k: int| 0 <= k < i ==> #[trigger] pixels@[k] == clear_pixel(),
            decreases n - i,
        {
            pixels.push([0u8, 0u8, 0u8, 0u8]);
            i = i + 1;
        }
        PixelBuffer { width, height, pixels }
    }

    /// Width and height.
    pub fn dimensions(&self) -> (r: (u32, u32))
        ensures
            r == (self.width, self.height),
    {
        (self.width, self.height)
    }

    /// The pixel in column `x` of row `y`.
    pub fn get_pixel(&self, x: u32, y: u32) -> (r: [u8; 4])
        requires
            self.wf(),
            x < self.width,
            y < self.height,
        ensures
            r == self.at(x as int, y as int),
    {
        let n = self.pixels.len();
        proof {
            lemma_cell_index(x as int, y as int, self.width as int, self.height as int);
        }
        self.pixels[y as usize * self.width as usize + x as usize]
    }

    /// A buffer with the same size and samples.
    pub fn copy(&self) -> (r: PixelBuffer)
        ensures
            r.width == self.width,
            r.height == self.height,
            r.pixels@ == self.pixels@,
    {
        let mut pixels: Vec<[u8; 4]> = Vec::with_capacity(self.pixels.len());
        let mut i: usize = 0;
        while i < self.pixels.len()
            invariant
                i <= self.pixels@.len(),
                pixels@ == self.pixels@.subrange(0, i as int),
            decreases self.pixels@.len() - i,
        {
            pixels.push(self.pixels[i]);
            i = i + 1;
            assert(pixels@ =~= self.pixels@.subrange(0, i as int));
        }
        assert(pixels@ =~= self.pixels@);
        PixelBuffer { width: self.width, height: self.height, pixels }
    }
}

/// Cell `(x, y)` of a `w` by `h` grid lies inside its row-major storage.
pub proof fn lemma_cell_index(x: int, y: int, w: int, h: int)
    requires
        0 <= x < w,
        0 <= y < h,
    ensures
        0 <= y * w + x < w * h,
{
    assert(0 <= y * w + x < w * h) by (nonlinear_arith)
        requires
            0 <= x < w,
            0 <= y < h,
    ;
}

/// What `Rgba::<u8>::blend` makes of a bottom pixel with a top pixel laid over it.
pub uninterp spec fn blend_of(bottom: [u8; 4], top: [u8; 4]) -> [u8; 4];

/// A bottom pixel with a top pixel laid over it: kept under a fully
/// transparent top pixel, replaced by a fully opaque one, blended otherwise.
pub open spec fn blended(bottom: [u8; 4], top: [u8; 4]) -> [u8; 4] {
    if top[3] == 0 {
        bottom
    } else if top[3] == 255 {
        top
    } else {
        blend_of(bottom, top)
    }
}

/// Pixel `k` of `canvas` lies under `tile` laid with its top left corner at `(x, y)`.
pub open spec fn covers(canvas: PixelBuffer, tile: PixelBuffer, x: int, y: int, k: int) -> bool {
    let col = k % (canvas.width as int);
    let row = k / (canvas.width as int);
    x <= col < x + tile.width && y <= row < y + tile.height
}

/// The tile pixel that lies over pixel `k` of `canvas`.
pub open spec fn tile_pixel_over(canvas: PixelBuffer, tile: PixelBuffer, x: int, y: int, k: int) -> [u8; 4] {
    tile.at(k % (canvas.width as int) - x, k / (canvas.width as int) - y)
}

/// Relies on `image::imageops::overlay` over two `RgbaImage`s: it clips the top
/// image to the bottom one and blends each covered bottom pixel with the top
/// pixel over it (`Rgba::blend`, which keeps the bottom pixel under a fully
/// transparent top pixel and takes a fully opaque top pixel as it is); no other
/// pixel is written and the size stays.
#[verifier::external_body]
pub(crate) fn overlay(canvas: &mut PixelBuffer, tile: &PixelBuffer, x: u32, y: u32)
    requires
        old(canvas).wf(),
        tile.wf(),
    ensures
        final(canvas).width == old(canvas).width,
        final(canvas).height == old(canvas).height,
        final(canvas).pixels@.len() == old(canvas).pixels@.len(),
        forall|k: int|
            0 <= k < old(canvas).pixels@.len() ==> #[trigger] final(canvas).pixels@[k] == if covers(
                *old(canvas),
                *tile,
                x as int,
                y as int,
                k,
            ) {
                if tile_pixel_over(*old(canvas), *tile, x as int, y as int, k)[3] == 0 {
                    old(canvas).pixels@[k]
                } else if tile_pixel_over(*old(canvas), *tile, x as int, y as int, k)[3] == 255 {
                    tile_pixel_over(*old(canvas), *tile, x as int, y as int, k)
                } else {
                    blend_of(old(canvas).pixels@[k], tile_pixel_over(*old(canvas), *tile, x as int, y as int, k))
                }
            } else {
                old(canvas).pixels@[k]
            },
{
    let raw: Vec<u8> = canvas.pixels.iter().flatten().copied().collect();
    let mut bottom = image::RgbaImage::from_raw(canvas.width, canvas.height, raw).unwrap();
    let raw: Vec<u8> = tile.pixels.iter().flatten().copied().collect();
    let top = image::RgbaImage::from_raw(tile.width, tile.height, raw).unwrap();
    image::imageops::overlay(&mut bottom, &top, x as i64, y as i64);
    canvas.pixels = bottom.pixels().map(|p| p.0).collect();
}

} // verus!
