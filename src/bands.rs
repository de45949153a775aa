//! Splitting a composition into horizontal bands and putting the bands' canvases
//! back together.
use vstd::prelude::*;

use crate::minecraftify::{block_plan, block_plan_px, Blocks, BLOCK_SIZE};
use crate::mosaic::{band_pixels, plan_of, ComposeError};
use crate::paint::{cell_of, lemma_pixel_cell, mosaic_pixels, mosaic_px, px_col, px_row};
use crate::pixel::PixelBuffer;

verus! {

/// `bands` cuts the rows `0..height` into contiguous, ordered, non-overlapping
/// ranges `[start, end)` that leave no row out.
pub open spec fn is_partition(bands: Seq<(u32, u32)>, height: int) -> bool {
    &&& bands.len() > 0
    &&& bands[0].0 == 0
    &&& bands[bands.len() - 1].1 == height
    &&& forall|i: int| 0 <= i < bands.len() ==> (#[trigger] bands[i]).0 <= bands[i].1
    &&& forall|i: int| 0 <= i < bands.len() - 1 ==> (#[trigger] bands[i]).1 == bands[i + 1].0
}

/// The pixels of the canvases in `outs`, one after the other.
pub open spec fn concat_pixels(outs: Seq<PixelBuffer>) -> Seq<[u8; 4]>
    decreases outs.len(),
{
    if outs.len() == 0 {
        Seq::empty()
    } else {
        concat_pixels(outs.drop_last()) + outs.last().pixels@
    }
}

/// The summed height of the canvases in `outs`.
pub open spec fn total_height(outs: Seq<PixelBuffer>) -> int
    decreases outs.len(),
{
    if outs.len() == 0 {
        0
    } else {
        total_height(outs.drop_last()) + outs.last().height
    }
}

/// Cuts `height` rows into `workers` bands whose sizes differ by at most one,
/// the larger ones first.
pub fn band_bounds(height: u32, workers: usize) -> (r: Result<Vec<(u32, u32)>, ComposeError>)
    ensures
        workers == 0 <==> r is Err,
        r matches Err(e) ==> e == ComposeError::NoWorkers,
        r matches Ok(b) ==> {
            &&& b@.len() == workers
            &&& is_partition(b@, height as int)
            &&& forall|i: int|
                0 <= i < b@.len() ==> (#[trigger] b@[i]).1 - b@[i].0 == (height as int) / (workers as int) + if i
                    < (height as int) % (workers as int) {
                    1int
                } else {
                    0int
                }
        },
{
    if workers == 0 {
        return Err(ComposeError::NoWorkers);
    }
    let n: u64 = workers as u64;
    let base: u64 = height as u64 / n;
    let rem: u64 = height as u64 % n;
    proof {
        vstd::arithmetic::div_mod::lemma_fundamental_div_mod(height as int, n as int);
    }
    let mut bands: Vec<(u32, u32)> = Vec::with_capacity(workers);
    let mut start: u64 = 0;
    let mut i: usize = 0;
    while i < workers
        invariant
            n == workers,
            n > 0,
            base == (height as int) / (n as int),
            rem == (height as int) % (n as int),
            height == n * base + rem,
            0 <= rem < n,
            i <= workers,
            bands@.len() == i,
            start == i * base + if i < rem {
                i as int
            } else {
                rem as int
            },
            i > 0 ==> bands@[i - 1].1 == start,
            i == 0 ==> start == 0,
            bands@.len() > 0 ==> bands@[0].0 == 0,
            forall|j: int|
                0 <= j < i ==> (#[trigger] bands@[j]).1 - bands@[j].0 == base + if j < rem {
                    1int
                } else {
                    0int
                },
            forall|j: int| 0 <= j < i ==> (#[trigger] bands@[j]).0 <= bands@[j].1,
            forall|j: int| 0 <= j < i - 1 ==> (#[trigger] bands@[j]).1 == bands@[j + 1].0,
        decreases workers - i,
    {
        let extra: u64 = if (i as u64) < rem {
            1
        } else {
            0
        };
        proof {
            let ii = i as int;
            let m = if ii + 1 < rem { ii + 1 } else { rem as int };
            assert((ii + 1) * base + m <= n * base + rem) by (nonlinear_arith)
                requires
                    ii + 1 <= n,
                    base >= 0,
                    m <= rem,
            ;
            assert((ii + 1) * base == ii * base + base) by (nonlinear_arith);
        }
        let end: u64 = start + base + extra;
        bands.push((start as u32, end as u32));
        start = end;
        i = i + 1;
    }
    proof {
        assert(start == n * base + rem);
    }
    Ok(bands)
}

/// The concatenated pixels hold one row of `width` pixels per row of height.
proof fn lemma_concat_len(outs: Seq<PixelBuffer>, width: int)
    requires
        forall|i: int| 0 <= i < outs.len() ==> (#[trigger] outs[i]).wf() && outs[i].width == width,
    ensures
        concat_pixels(outs).len() == width * total_height(outs),
        total_height(outs) >= 0,
    decreases outs.len(),
{
    if outs.len() > 0 {
        let init = outs.drop_last();
        assert forall|i: int| 0 <= i < init.len() implies (#[trigger] init[i]).wf() && init[i].width == width by {
            assert(init[i] == outs[i]);
        }
        lemma_concat_len(init, width);
        let h = outs.last().height as int;
        let t = total_height(init);
        assert(width * t + width * h == width * (t + h)) by (nonlinear_arith);
    }
}

/// Puts band canvases of one width on top of each other, in order.
pub fn stack_bands(width: u32, bands: &Vec<PixelBuffer>) -> (r: PixelBuffer)
    requires
        forall|i: int| 0 <= i < bands@.len() ==> (#[trigger] bands@[i]).wf() && bands@[i].width == width,
        total_height(bands@) <= u32::MAX,
        width * total_height(bands@) <= usize::MAX,
    ensures
        r.wf(),
        r.width == width,
        r.height == total_height(bands@),
        r.pixels@ == concat_pixels(bands@),
{
    let mut pixels: Vec<[u8; 4]> = Vec::new();
    let mut height: u32 = 0;
    let mut i: usize = 0;
    proof {
        lemma_concat_len(bands@, width as int);
        assert(bands@.take(0) =~= Seq::<PixelBuffer>::empty());
    }
    while i < bands.len()
        invariant
            i <= bands@.len(),
            forall|j: int| 0 <= j < bands@.len() ==> (#[trigger] bands@[j]).wf() && bands@[j].width == width,
            total_height(bands@) <= u32::MAX,
            width * total_height(bands@) <= usize::MAX,
            pixels@ == concat_pixels(bands@.take(i as int)),
            height == total_height(bands@.take(i as int)),
        decreases bands@.len() - i,
    {
        let band = &bands[i];
        let ghost before = pixels@;
        proof {
            lemma_prefix_height(bands@, i as int + 1);
            assert(bands@.take(i as int + 1).drop_last() =~= bands@.take(i as int));
            let pre = bands@.take(i as int + 1);
            assert forall|j: int| 0 <= j < pre.len() implies (#[trigger] pre[j]).wf() && pre[j].width == width by {
                assert(pre[j] == bands@[j]);
            }
            lemma_concat_len(pre, width as int);
            lemma_concat_len(bands@.take(i as int), width as int);
            assert(width * total_height(pre) <= width * total_height(bands@)) by (nonlinear_arith)
                requires
                    total_height(pre) <= total_height(bands@),
                    width >= 0,
            ;
        }
        let mut k: usize = 0;
        while k < band.pixels.len()
            invariant
                k <= band.pixels@.len(),
                pixels@ == before + band.pixels@.subrange(0, k as int),
                before.len() + band.pixels@.len() <= usize::MAX,
            decreases band.pixels@.len() - k,
        {
            pixels.push(band.pixels[k]);
            k = k + 1;
            assert(pixels@ =~= before + band.pixels@.subrange(0, k as int));
        }
        assert(band.pixels@.subrange(0, k as int) =~= band.pixels@);
        height = height + band.height;
        i = i + 1;
    }
    proof {
        assert(bands@.take(i as int) =~= bands@);
        lemma_concat_len(bands@, width as int);
    }
    PixelBuffer { width, height, pixels }
}

/// A prefix of the canvases is no taller than all of them.
proof fn lemma_prefix_height(outs: Seq<PixelBuffer>, n: int)
    requires
        0 <= n <= outs.len(),
    ensures
        0 <= total_height(outs.take(n)) <= total_height(outs),
    decreases outs.len(),
{
    if n == outs.len() {
        assert(outs.take(n) =~= outs);
        lemma_height_nonneg(outs);
    } else {
        lemma_prefix_height(outs.drop_last(), n);
        assert(outs.drop_last().take(n) =~= outs.take(n));
    }
}

proof fn lemma_height_nonneg(outs: Seq<PixelBuffer>)
    ensures
        total_height(outs) >= 0,
    decreases outs.len(),
{
    if outs.len() > 0 {
        lemma_height_nonneg(outs.drop_last());
    }
}

/// Two grids of one width, painted apart and stacked, give the grid of the two
/// plans one after the other.
pub proof fn lemma_mosaic_split(
    p1: Seq<Option<usize>>,
    p2: Seq<Option<usize>>,
    tiles: Seq<PixelBuffer>,
    cols: int,
    r1: int,
    r2: int,
    size: int,
)
    requires
        cols >= 0,
        r1 >= 0,
        r2 >= 0,
        size >= 0,
        p1.len() == cols * r1,
        p2.len() == cols * r2,
    ensures
        mosaic_pixels(p1, tiles, cols, r1, size) + mosaic_pixels(p2, tiles, cols, r2, size) == mosaic_pixels(
            p1 + p2,
            tiles,
            cols,
            r1 + r2,
            size,
        ),
{
    let a = mosaic_pixels(p1, tiles, cols, r1, size);
    let b = mosaic_pixels(p2, tiles, cols, r2, size);
    let p = p1 + p2;
    let whole = mosaic_pixels(p, tiles, cols, r1 + r2, size);
    let ws = cols * size;
    assert(ws >= 0 && r1 * size >= 0 && r2 * size >= 0) by (nonlinear_arith)
        requires
            cols >= 0,
            size >= 0,
            r1 >= 0,
            r2 >= 0,
            ws == cols * size,
    ;
    assert(ws * (r1 * size) >= 0 && ws * (r2 * size) >= 0) by (nonlinear_arith)
        requires
            ws >= 0,
            r1 * size >= 0,
            r2 * size >= 0,
    ;
    assert(ws * (r1 * size) + ws * (r2 * size) == ws * ((r1 + r2) * size)) by (nonlinear_arith);
    let n1 = ws * (r1 * size);
    assert(a.len() == n1);
    assert(whole.len() == a.len() + b.len());
    if cols > 0 && size > 0 {
        assert forall|k: int| 0 <= k < whole.len() implies #[trigger] whole[k] == (a + b)[k] by {
            lemma_pixel_cell(k, cols, r1 + r2, size);
            let col = px_col(k, cols, size);
            let row = px_row(k, cols, size);
            let cell = cell_of(k, cols, size);
            if k < n1 {
                lemma_pixel_cell(k, cols, r1, size);
                assert(p[cell] == p1[cell]);
            } else {
                let k2 = k - n1;
                assert(row >= r1 * size) by (nonlinear_arith)
                    requires
                        row * ws + col == k,
                        k >= ws * (r1 * size),
                        0 <= col < ws,
                ;
                assert(k2 == (row - r1 * size) * ws + col) by (nonlinear_arith)
                    requires
                        row * ws + col == k,
                        k2 == k - ws * (r1 * size),
                ;
                vstd::arithmetic::div_mod::lemma_fundamental_div_mod_converse(k2, ws, row - r1 * size, col);
                vstd::arithmetic::div_mod::lemma_fundamental_div_mod(row, size);
                assert(row - r1 * size == (row / size - r1) * size + row % size) by (nonlinear_arith)
                    requires
                        row == size * (row / size) + row % size,
                ;
                vstd::arithmetic::div_mod::lemma_mod_bound(row, size);
                vstd::arithmetic::div_mod::lemma_fundamental_div_mod_converse(
                    row - r1 * size,
                    size,
                    row / size - r1,
                    row % size,
                );
                lemma_pixel_cell(k2, cols, r2, size);
                let cell2 = cell_of(k2, cols, size);
                assert(cell2 == cell - cols * r1) by (nonlinear_arith)
                    requires
                        cell2 == (row / size - r1) * cols + col / size,
                        cell == (row / size) * cols + col / size,
                ;
                assert(p[cell] == p2[cell2]);
                assert(mosaic_px(p2, tiles, cols, size, k2) == mosaic_px(p, tiles, cols, size, k));
            }
        }
        assert(whole =~= a + b);
    } else {
        assert(ws == 0) by (nonlinear_arith)
            requires
                ws == cols * size,
                cols == 0 || size == 0,
        ;
        assert(b.len() == 0) by (nonlinear_arith)
            requires
                ws == 0,
                b.len() == ws * (r2 * size),
        ;
        assert(whole =~= a + b);
    }
}

/// Two adjacent bands, composed apart and stacked, give the canvas of the band
/// that covers both.
pub proof fn lemma_band_split(
    pal: Seq<[u8; 3]>,
    src: Seq<[u8; 4]>,
    tiles: Seq<PixelBuffer>,
    width: int,
    size: int,
    y0: int,
    y1: int,
    y2: int,
)
    requires
        0 <= y0 <= y1 <= y2,
        width >= 0,
        size >= 0,
    ensures
        band_pixels(pal, src, tiles, width, size, y0, y1) + band_pixels(pal, src, tiles, width, size, y1, y2)
            == band_pixels(pal, src, tiles, width, size, y0, y2),
{
    let p01 = plan_of(pal, src, width, y0, y1);
    let p12 = plan_of(pal, src, width, y1, y2);
    let p02 = plan_of(pal, src, width, y0, y2);
    let d = y1 - y0;
    assert((y1 - y0) * width >= 0 && (y2 - y1) * width >= 0) by (nonlinear_arith)
        requires
            0 <= y0 <= y1 <= y2,
            width >= 0,
    ;
    assert((y1 - y0) * width + (y2 - y1) * width == (y2 - y0) * width) by (nonlinear_arith);
    assert forall|c: int| 0 <= c < p02.len() implies #[trigger] p02[c] == (p01 + p12)[c] by {
        if c >= p01.len() {
            assert(y1 * width + (c - d * width) == y0 * width + c) by (nonlinear_arith)
                requires
                    d == y1 - y0,
            ;
        }
    }
    assert(p02 =~= p01 + p12);
    assert((y1 - y0) * width == width * d && (y2 - y1) * width == width * (y2 - y1)) by (nonlinear_arith)
        requires
            d == y1 - y0,
    ;
    assert(p01.len() == width * d);
    assert(p12.len() == width * (y2 - y1));
    lemma_mosaic_split(p01, p12, tiles, width, d, y2 - y1, size);
}

/// The bands' canvases stacked in order, when each band was composed from
/// the same source.
pub open spec fn stacked_bands(
    pal: Seq<[u8; 3]>,
    src: Seq<[u8; 4]>,
    tiles: Seq<PixelBuffer>,
    width: int,
    size: int,
    bands: Seq<(u32, u32)>,
) -> Seq<[u8; 4]>
    decreases bands.len(),
{
    if bands.len() == 0 {
        Seq::empty()
    } else {
        stacked_bands(pal, src, tiles, width, size, bands.drop_last()) + band_pixels(
            pal,
            src,
            tiles,
            width,
            size,
            bands.last().0 as int,
            bands.last().1 as int,
        )
    }
}

proof fn lemma_stacked_prefix(
    pal: Seq<[u8; 3]>,
    src: Seq<[u8; 4]>,
    tiles: Seq<PixelBuffer>,
    width: int,
    size: int,
    bands: Seq<(u32, u32)>,
)
    requires
        bands.len() > 0,
        bands[0].0 == 0,
        forall|i: int| 0 <= i < bands.len() ==> (#[trigger] bands[i]).0 <= bands[i].1,
        forall|i: int| 0 <= i < bands.len() - 1 ==> (#[trigger] bands[i]).1 == bands[i + 1].0,
        width >= 0,
        size >= 0,
    ensures
        stacked_bands(pal, src, tiles, width, size, bands) == band_pixels(
            pal,
            src,
            tiles,
            width,
            size,
            0,
            bands.last().1 as int,
        ),
    decreases bands.len(),
{
    if bands.len() == 1 {
        assert(bands.drop_last() =~= Seq::<(u32, u32)>::empty());
        assert(stacked_bands(pal, src, tiles, width, size, bands.drop_last()) =~= Seq::<[u8; 4]>::empty());
        assert(Seq::<[u8; 4]>::empty() + band_pixels(pal, src, tiles, width, size, 0, bands.last().1 as int)
            =~= band_pixels(pal, src, tiles, width, size, 0, bands.last().1 as int));
    } else {
        let init = bands.drop_last();
        assert forall|i: int| 0 <= i < init.len() implies (#[trigger] init[i]).0 <= init[i].1 by {
            assert(init[i] == bands[i]);
        }
        assert forall|i: int| 0 <= i < init.len() - 1 implies (#[trigger] init[i]).1 == init[i + 1].0 by {
            assert(init[i] == bands[i]);
            assert(init[i + 1] == bands[i + 1]);
        }
        lemma_stacked_prefix(pal, src, tiles, width, size, init);
        let n = bands.len() - 1;
        assert(bands[n - 1].1 == bands[n].0);
        assert(bands[n - 1].0 <= bands[n - 1].1);
        lemma_band_split(
            pal,
            src,
            tiles,
            width,
            size,
            0,
            bands[n].0 as int,
            bands[n].1 as int,
        );
    }
}

/// Composition does not depend on how many workers share it: for any cut of
/// the rows into bands, the canvases composed band by band, stacked in order,
/// are exactly the canvas composed in one piece.
pub proof fn lemma_worker_count_invariance(
    pal: Seq<[u8; 3]>,
    src: Seq<[u8; 4]>,
    tiles: Seq<PixelBuffer>,
    width: int,
    size: int,
    height: int,
    bands: Seq<(u32, u32)>,
    outs: Seq<PixelBuffer>,
)
    requires
        width >= 0,
        size >= 0,
        is_partition(bands, height),
        outs.len() == bands.len(),
        forall|i: int|
            0 <= i < bands.len() ==> (#[trigger] outs[i]).pixels@ == band_pixels(
                pal,
                src,
                tiles,
                width,
                size,
                bands[i].0 as int,
                bands[i].1 as int,
            ),
    ensures
        concat_pixels(outs) == band_pixels(pal, src, tiles, width, size, 0, height),
{
    lemma_concat_stacked(pal, src, tiles, width, size, bands, outs);
    lemma_stacked_prefix(pal, src, tiles, width, size, bands);
}

proof fn lemma_concat_stacked(
    pal: Seq<[u8; 3]>,
    src: Seq<[u8; 4]>,
    tiles: Seq<PixelBuffer>,
    width: int,
    size: int,
    bands: Seq<(u32, u32)>,
    outs: Seq<PixelBuffer>,
)
    requires
        outs.len() == bands.len(),
        forall|i: int|
            0 <= i < bands.len() ==> (#[trigger] outs[i]).pixels@ == band_pixels(
                pal,
                src,
                tiles,
                width,
                size,
                bands[i].0 as int,
                bands[i].1 as int,
            ),
    ensures
        concat_pixels(outs) == stacked_bands(pal, src, tiles, width, size, bands),
    decreases bands.len(),
{
    if bands.len() > 0 {
        let bi = bands.drop_last();
        let oi = outs.drop_last();
        assert forall|i: int| 0 <= i < bi.len() implies (#[trigger] oi[i]).pixels@ == band_pixels(
            pal,
            src,
            tiles,
            width,
            size,
            bi[i].0 as int,
            bi[i].1 as int,
        ) by {
            assert(oi[i] == outs[i]);
            assert(bi[i] == bands[i]);
        }
        lemma_concat_stacked(pal, src, tiles, width, size, bi, oi);
        assert(outs.last() == outs[outs.len() - 1]);
    }
}

/// The block mosaic does not depend on how many workers share it: when the
/// source rows are cut into consecutive slices of one width and each slice is
/// turned into blocks apart, the slices' canvases stacked in order are exactly
/// the block canvas of all the rows at once.
pub proof fn lemma_block_worker_invariance(
    blocks: Blocks,
    tiles: Seq<PixelBuffer>,
    width: int,
    slices: Seq<PixelBuffer>,
    outs: Seq<PixelBuffer>,
)
    requires
        width >= 0,
        forall|i: int| 0 <= i < slices.len() ==> (#[trigger] slices[i]).wf() && slices[i].width == width,
        outs.len() == slices.len(),
        forall|i: int|
            0 <= i < slices.len() ==> (#[trigger] outs[i]).pixels@ == mosaic_pixels(
                block_plan(blocks, slices[i]),
                tiles,
                width,
                slices[i].height as int,
                BLOCK_SIZE as int,
            ),
    ensures
        concat_pixels(outs) == mosaic_pixels(
            block_plan_px(blocks, concat_pixels(slices)),
            tiles,
            width,
            total_height(slices),
            BLOCK_SIZE as int,
        ),
    decreases slices.len(),
{
    let size = BLOCK_SIZE as int;
    if slices.len() == 0 {
        assert(block_plan_px(blocks, concat_pixels(slices)).len() == 0);
        assert(width * size * (0 * size) == 0) by (nonlinear_arith);
        assert(mosaic_pixels(block_plan_px(blocks, concat_pixels(slices)), tiles, width, 0, size)
            =~= Seq::<[u8; 4]>::empty());
    } else {
        let si = slices.drop_last();
        let oi = outs.drop_last();
        assert forall|i: int| 0 <= i < si.len() implies (#[trigger] si[i]).wf() && si[i].width == width by {
            assert(si[i] == slices[i]);
        }
        assert forall|i: int| 0 <= i < si.len() implies (#[trigger] oi[i]).pixels@ == mosaic_pixels(
            block_plan(blocks, si[i]),
            tiles,
            width,
            si[i].height as int,
            size,
        ) by {
            assert(si[i] == slices[i]);
            assert(oi[i] == outs[i]);
        }
        lemma_block_worker_invariance(blocks, tiles, width, si, oi);
        lemma_concat_len(si, width);
        let last = slices.last();
        assert(last == slices[slices.len() - 1]);
        assert(outs.last() == outs[outs.len() - 1]);
        let p1 = block_plan_px(blocks, concat_pixels(si));
        let p2 = block_plan(blocks, last);
        assert(p1.len() == width * total_height(si));
        assert(p2.len() == width * last.height) by (nonlinear_arith)
            requires
                p2.len() == last.pixels@.len(),
                last.pixels@.len() == last.width * last.height,
                last.width == width,
        ;
        lemma_mosaic_split(p1, p2, tiles, width, total_height(si), last.height as int, size);
        assert(p1 + p2 =~= block_plan_px(blocks, concat_pixels(slices)));
    }
}

} // verus!
