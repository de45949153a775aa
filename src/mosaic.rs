//! The tile catalog and the compositor that turns an image into a mosaic.
use vstd::prelude::*;

use crate::algorithms::dithering::{dither_img, dithered, rgb_of};
use crate::paint::{mosaic_pixels, paint_plan, tiles_fit};
use crate::pixel::PixelBuffer;
use crate::utils::{img_transparent, is_transparent_pixel, nearest, nearest_index, pixel_transparent, rgb_seq};

verus! {

/// A candidate tile: where its image comes from and its representative color.
#[derive(Debug, Clone)]
pub struct Piece {
    pub src: String,
    pub average_color: [u8; 3],
}

impl Piece {
    /// Where the tile's image comes from.
    pub fn src(&self) -> (r: &String)
        ensures
            r@ == self.src@,
    {
        &self.src
    }

    /// The tile's representative color.
    pub fn average_color(&self) -> (r: [u8; 3])
        ensures
            r == self.average_color,
    {
        self.average_color
    }
}

/// Why a mosaic could not be composed.
#[derive(Debug, Clone, Copy, PartialEq, Eq, Structural)]
pub enum ComposeError {
    /// The catalog holds no piece.
    EmptyCatalog,
    /// The tile images do not match the pieces one for one, or one of them is
    /// malformed or larger than a cell.
    TileMismatch,
    /// The output canvas would not fit in memory.
    CanvasTooLarge,
    /// No worker to compose with.
    NoWorkers,
}

/// A catalog of pieces and the size, in output pixels, of the cell that stands
/// for one source pixel.
#[derive(Debug, Clone)]
pub struct MosaicMaker {
    pub pieces: Vec<Piece>,
    pub piece_size: u32,
}

/// The cell of a source pixel: empty when it is transparent, else the index of
/// the piece whose color is nearest.
pub open spec fn choice(pal: Seq<[u8; 3]>, p: [u8; 4]) -> Option<usize> {
    if is_transparent_pixel(p) {
        None
    } else {
        Some(nearest_index(rgb_seq(pal), rgb_of(p)) as usize)
    }
}

/// The cells for source rows `y0` to `y1` of an image `width` pixels wide.
pub open spec fn plan_of(pal: Seq<[u8; 3]>, src: Seq<[u8; 4]>, width: int, y0: int, y1: int) -> Seq<
    Option<usize>,
> {
    Seq::new(((y1 - y0) * width) as nat, |c: int| choice(pal, src[y0 * width + c]))
}

/// The canvas for source rows `y0` to `y1`.
pub open spec fn band_pixels(
    pal: Seq<[u8; 3]>,
    src: Seq<[u8; 4]>,
    tiles: Seq<PixelBuffer>,
    width: int,
    size: int,
    y0: int,
    y1: int,
) -> Seq<[u8; 4]> {
    mosaic_pixels(plan_of(pal, src, width, y0, y1), tiles, width, y1 - y0, size)
}

/// The source pixels that cells are chosen from: dithered against the palette
/// first when asked.
pub open spec fn prepared_pixels(pal: Seq<[u8; 3]>, image: PixelBuffer, dithering: bool) -> Seq<[u8; 4]> {
    if dithering {
        dithered(image.pixels@, image.width as int, image.height as int, rgb_seq(pal))
    } else {
        image.pixels@
    }
}

/// The canvas of `width * size` by `rows * size` pixels can be allocated.
pub open spec fn canvas_fits(width: int, rows: int, size: int) -> bool {
    width * size <= u32::MAX && rows * size <= u32::MAX && (width * size) * (rows * size) <= usize::MAX
}

/// A tile image is well formed and fits in a cell.
pub open spec fn tile_ok(t: PixelBuffer, size: int) -> bool {
    t.wf() && t.width <= size && t.height <= size
}

proof fn lemma_mul_bound(a: int, b: int, m: int)
    requires
        0 <= a <= m,
        0 <= b <= m,
    ensures
        0 <= a * b <= m * m,
{
    assert(0 <= a * b <= m * m) by (nonlinear_arith)
        requires
            0 <= a <= m,
            0 <= b <= m,
    ;
}

impl MosaicMaker {
    /// The representative colors of the pieces, in load order.
    pub open spec fn palette_view(&self) -> Seq<[u8; 3]> {
        self.pieces@.map_values(|p: Piece| p.average_color)
    }

    /// The piece whose color is nearest to `target`; the first one on ties.
    pub fn closest_piece_to_color(&self, target: &[u8; 3]) -> (r: &Piece)
        requires
            self.pieces@.len() > 0,
        ensures
            *r == self.pieces@[nearest_index(rgb_seq(self.palette_view()), target@)],
    {
        let ghost pal = rgb_seq(self.palette_view());
        let mut best: usize = 0;
        let mut best_dist: i64 = crate::utils::rgb_distance(target, &self.pieces[0].average_color);
        let mut i: usize = 1;
        while i < self.pieces.len()
            invariant
                pal == rgb_seq(self.palette_view()),
                1 <= i <= self.pieces@.len(),
                best == crate::utils::nearest_upto(pal, target@, i as int),
                best < i,
                best_dist == crate::utils::color_dist(target@, pal[best as int]),
            decreases self.pieces@.len() - i,
        {
            let d = crate::utils::rgb_distance(target, &self.pieces[i].average_color);
            if d < best_dist {
                best = i;
                best_dist = d;
            }
            i = i + 1;
        }
        &self.pieces[best]
    }

    /// An empty catalog with the given cell size.
    pub fn new(piece_size: u32) -> (r: Self)
        ensures
            r.pieces@.len() == 0,
            r.piece_size == piece_size,
    {
        MosaicMaker { pieces: Vec::new(), piece_size }
    }

    /// Whether a tile image may join the catalog: always when transparency is
    /// allowed, else only when every pixel is fully opaque.
    pub fn admits_piece(img: &PixelBuffer, allow_transparency: bool) -> (r: bool)
        ensures
            r == (allow_transparency || forall|k: int|
                0 <= k < img.pixels@.len() ==> (#[trigger] img.pixels@[k])[3] == 255),
    {
        allow_transparency || !img_transparent(img)
    }

    /// Adds a piece when the strategy found a representative color for it;
    /// tells whether it did.
    pub fn add_piece(&mut self, src: String, average_color: Option<[u8; 3]>) -> (r: bool)
        ensures
            r == average_color is Some,
            final(self).piece_size == old(self).piece_size,
            average_color is None ==> final(self).pieces@ == old(self).pieces@,
            average_color matches Some(c) ==> final(self).pieces@ == old(self).pieces@.push(
                Piece { src, average_color: c },
            ),
    {
        match average_color {
            Some(c) => {
                self.pieces.push(Piece { src, average_color: c });
                true
            },
            None => false,
        }
    }

    /// Removes every piece.
    pub fn clear_pieces(&mut self)
        ensures
            final(self).pieces@.len() == 0,
            final(self).piece_size == old(self).piece_size,
    {
        self.pieces.clear();
    }

    /// The cell size.
    pub fn pieces_size(&self) -> (r: u32)
        ensures
            r == self.piece_size,
    {
        self.piece_size
    }

    /// Sets the cell size.
    pub fn set_piece_size(&mut self, piece_size: u32)
        ensures
            final(self).piece_size == piece_size,
            final(self).pieces@ == old(self).pieces@,
    {
        self.piece_size = piece_size;
    }

    /// The pieces, in load order.
    pub fn pieces(&self) -> (r: &Vec<Piece>)
        ensures
            r@ == self.pieces@,
    {
        &self.pieces
    }

    /// The representative colors of the pieces, in load order.
    pub fn palette(&self) -> (r: Vec<[u8; 3]>)
        ensures
            r@ == self.palette_view(),
    {
        let mut r: Vec<[u8; 3]> = Vec::with_capacity(self.pieces.len());
        let mut i: usize = 0;
        while i < self.pieces.len()
            invariant
                i <= self.pieces@.len(),
                r@ == self.palette_view().subrange(0, i as int),
            decreases self.pieces@.len() - i,
        {
            r.push(self.pieces[i].average_color);
            i = i + 1;
            assert(r@ =~= self.palette_view().subrange(0, i as int));
        }
        assert(r@ =~= self.palette_view());
        r
    }

    /// The tile images match the pieces one for one and each fits in a cell.
    pub open spec fn tiles_match(&self, tiles: Seq<PixelBuffer>) -> bool {
        tiles.len() == self.pieces@.len() && forall|t: int|
            0 <= t < tiles.len() ==> tile_ok(#[trigger] tiles[t], self.piece_size as int)
    }

    /// A mosaic of `image` with these tiles can be composed.
    pub open spec fn inputs_ok(&self, image: PixelBuffer, tiles: Seq<PixelBuffer>) -> bool {
        &&& self.pieces@.len() > 0
        &&& self.tiles_match(tiles)
        &&& canvas_fits(image.width as int, image.height as int, self.piece_size as int)
    }

    /// The error that composing `image` with these tiles meets, if any.
    pub open spec fn input_error(&self, image: PixelBuffer, tiles: Seq<PixelBuffer>) -> Option<ComposeError> {
        if self.pieces@.len() == 0 {
            Some(ComposeError::EmptyCatalog)
        } else if !self.tiles_match(tiles) {
            Some(ComposeError::TileMismatch)
        } else if !canvas_fits(image.width as int, image.height as int, self.piece_size as int) {
            Some(ComposeError::CanvasTooLarge)
        } else {
            None
        }
    }

    /// Checks that a mosaic of `image` with these tiles can be composed.
    pub fn validate(&self, image: &PixelBuffer, tiles: &Vec<PixelBuffer>) -> (r: Result<(), ComposeError>)
        ensures
            r is Ok <==> self.inputs_ok(*image, tiles@),
            r matches Err(e) ==> self.input_error(*image, tiles@) == Some(e),
    {
        if self.pieces.len() == 0 {
            return Err(ComposeError::EmptyCatalog);
        }
        if tiles.len() != self.pieces.len() {
            return Err(ComposeError::TileMismatch);
        }
        let size = self.piece_size;
        let mut t: usize = 0;
        while t < tiles.len()
            invariant
                t <= tiles@.len(),
                self.pieces@.len() > 0,
                tiles@.len() == self.pieces@.len(),
                size == self.piece_size,
                forall|u: int| 0 <= u < t ==> tile_ok(#[trigger] tiles@[u], size as int),
            decreases tiles@.len() - t,
        {
            let tile = &tiles[t];
            proof {
                lemma_mul_bound(tile.width as int, tile.height as int, u32::MAX as int);
            }
            let area: u64 = tile.width as u64 * tile.height as u64;
            if area != tile.pixels.len() as u64 || tile.width > size || tile.height > size {
                assert(!tile_ok(tiles@[t as int], size as int));
                return Err(ComposeError::TileMismatch);
            }
            t = t + 1;
        }
        proof {
            lemma_mul_bound(image.width as int, size as int, u32::MAX as int);
            lemma_mul_bound(image.height as int, size as int, u32::MAX as int);
        }
        let w: u128 = image.width as u128 * size as u128;
        let h: u128 = image.height as u128 * size as u128;
        if w > u32::MAX as u128 || h > u32::MAX as u128 {
            return Err(ComposeError::CanvasTooLarge);
        }
        proof {
            lemma_mul_bound(w as int, h as int, u32::MAX as int);
        }
        if w * h > usize::MAX as u128 {
            return Err(ComposeError::CanvasTooLarge);
        }
        Ok(())
    }

    /// The cells for source rows `y0` to `y1`.
    fn plan_rows(&self, source: &PixelBuffer, pal: &Vec<[u8; 3]>, y0: u32, y1: u32) -> (r: Vec<Option<usize>>)
        requires
            pal@ == self.palette_view(),
            pal@.len() > 0,
            source.wf(),
            y0 <= y1 <= source.height,
        ensures
            r@ == plan_of(pal@, source.pixels@, source.width as int, y0 as int, y1 as int),
    {
        let w = source.width;
        let len = source.pixels.len();
        proof {
            assert(y1 * w <= len && (y1 - y0) * w <= y1 * w && y0 * w + (y1 - y0) * w == y1 * w) by (nonlinear_arith)
                requires
                    y0 <= y1 <= source.height,
                    len == w * source.height,
                    w >= 0,
            ;
        }
        let n: usize = (y1 - y0) as usize * w as usize;
        let base: usize = y0 as usize * w as usize;
        let mut plan: Vec<Option<usize>> = Vec::with_capacity(n);
        let mut c: usize = 0;
        while c < n
            invariant
                c <= n,
                n == (y1 - y0) * w,
                base == y0 * w,
                base + n <= len,
                len == source.pixels@.len(),
                pal@.len() > 0,
                plan@ == plan_of(pal@, source.pixels@, w as int, y0 as int, y1 as int).subrange(0, c as int),
            decreases n - c,
        {
            let p = source.pixels[base + c];
            if pixel_transparent(&p) {
                plan.push(None);
            } else {
                let rgb: [u8; 3] = [p[0], p[1], p[2]];
                assert(rgb@ =~= rgb_of(p));
                let i = nearest(&rgb, pal.as_slice());
                plan.push(Some(i));
            }
            c = c + 1;
            assert(plan@ =~= plan_of(pal@, source.pixels@, w as int, y0 as int, y1 as int).subrange(0, c as int));
        }
        assert(plan@ =~= plan_of(pal@, source.pixels@, w as int, y0 as int, y1 as int));
        plan
    }

    /// Composes the canvas for source rows `y0` to `y1`: each opaque source
    /// pixel gets the tile of the piece nearest to its color; transparent ones
    /// stay empty.
    pub fn compose_band(&self, source: &PixelBuffer, tiles: &Vec<PixelBuffer>, y0: u32, y1: u32) -> (r:
        PixelBuffer)
        requires
            self.pieces@.len() > 0,
            self.tiles_match(tiles@),
            source.wf(),
            y0 <= y1 <= source.height,
            canvas_fits(source.width as int, y1 - y0, self.piece_size as int),
        ensures
            r.wf(),
            r.width == source.width * self.piece_size,
            r.height == (y1 - y0) * self.piece_size,
            r.pixels@ == band_pixels(
                self.palette_view(),
                source.pixels@,
                tiles@,
                source.width as int,
                self.piece_size as int,
                y0 as int,
                y1 as int,
            ),
    {
        let pal = self.palette();
        let plan = self.plan_rows(source, &pal, y0, y1);
        proof {
            assert forall|c: int| 0 <= c < plan@.len() implies (#[trigger] plan@[c] matches Some(t) ==> t
                < tiles@.len()) by {
                if !is_transparent_pixel(source.pixels@[y0 * source.width + c]) {
                    crate::utils::lemma_nearest_index(
                        rgb_seq(pal@),
                        rgb_of(source.pixels@[y0 * source.width + c]),
                    );
                }
            }
            assert(tiles_fit(tiles@, self.piece_size as int));
        }
        paint_plan(source.width, y1 - y0, self.piece_size, &plan, tiles)
    }

    /// The source pixels that cells are chosen from: the image itself, or the
    /// image dithered against the palette.
    pub fn prepare(&self, image: &PixelBuffer, dithering: bool) -> (r: PixelBuffer)
        requires
            image.wf(),
        ensures
            r.wf(),
            r.width == image.width,
            r.height == image.height,
            r.pixels@ == prepared_pixels(self.palette_view(), *image, dithering),
    {
        if dithering {
            let pal = self.palette();
            dither_img(image, pal.as_slice())
        } else {
            image.copy()
        }
    }

    /// Composes the mosaic of `image`: dithered first when asked, then every
    /// opaque pixel replaced by the tile of its nearest piece. `tiles[i]` is the
    /// image of piece `i`.
    pub fn compose(&self, image: &PixelBuffer, dithering: bool, tiles: &Vec<PixelBuffer>) -> (r: Result<
        PixelBuffer,
        ComposeError,
    >)
        requires
            image.wf(),
        ensures
            r is Ok <==> self.inputs_ok(*image, tiles@),
            r matches Err(e) ==> self.input_error(*image, tiles@) == Some(e),
            r matches Ok(canvas) ==> {
                &&& canvas.wf()
                &&& canvas.width == image.width * self.piece_size
                &&& canvas.height == image.height * self.piece_size
                &&& canvas.pixels@ == band_pixels(
                    self.palette_view(),
                    prepared_pixels(self.palette_view(), *image, dithering),
                    tiles@,
                    image.width as int,
                    self.piece_size as int,
                    0,
                    image.height as int,
                )
            },
    {
        match self.validate(image, tiles) {
            Err(e) => Err(e),
            Ok(()) => {
                let source = self.prepare(image, dithering);
                Ok(self.compose_band(&source, tiles, 0, source.height))
            },
        }
    }
}

} // verus!
