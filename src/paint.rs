//! Laying tiles out on a canvas, one tile per cell of a grid.
use vstd::prelude::*;

use crate::pixel::{blended, clear_pixel, covers, lemma_cell_index, overlay, tile_pixel_over, PixelBuffer};

verus! {

/// Column of canvas pixel `k` on a canvas `cols * size` pixels wide.
pub open spec fn px_col(k: int, cols: int, size: int) -> int {
    k % (cols * size)
}

/// Row of canvas pixel `k` on a canvas `cols * size` pixels wide.
pub open spec fn px_row(k: int, cols: int, size: int) -> int {
    k / (cols * size)
}

/// The grid cell (row-major index) that canvas pixel `k` belongs to.
pub open spec fn cell_of(k: int, cols: int, size: int) -> int {
    (px_row(k, cols, size) / size) * cols + px_col(k, cols, size) / size
}

/// Pixel `k` of the canvas of a grid with `cols` cells per row and cells of
/// `size` by `size` pixels, where cell `c` shows tile `plan[c]` laid over a
/// transparent background from its top left corner, or nothing. Opaque tile
/// pixels show as they are.
pub open spec fn mosaic_px(plan: Seq<Option<usize>>, tiles: Seq<PixelBuffer>, cols: int, size: int, k: int) -> [u8; 4] {
    let a = px_col(k, cols, size) % size;
    let b = px_row(k, cols, size) % size;
    match plan[cell_of(k, cols, size)] {
        Some(t) => {
            let tile = tiles[t as int];
            if a < tile.width && b < tile.height {
                blended(clear_pixel(), tile.at(a, b))
            } else {
                clear_pixel()
            }
        },
        None => clear_pixel(),
    }
}

/// The canvas of a grid: one pixel per canvas position, as `mosaic_px` says.
pub open spec fn mosaic_pixels(
    plan: Seq<Option<usize>>,
    tiles: Seq<PixelBuffer>,
    cols: int,
    rows: int,
    size: int,
) -> Seq<[u8; 4]> {
    Seq::new((cols * size * (rows * size)) as nat, |k: int| mosaic_px(plan, tiles, cols, size, k))
}

/// Every tile is a well-formed image that fits in one cell.
pub open spec fn tiles_fit(tiles: Seq<PixelBuffer>, size: int) -> bool {
    forall|t: int| 0 <= t < tiles.len() ==> (#[trigger] tiles[t]).wf() && tiles[t].width <= size
        && tiles[t].height <= size
}

/// Every cell of the plan names an existing tile or none.
pub open spec fn plan_valid(plan: Seq<Option<usize>>, n_tiles: int) -> bool {
    forall|c: int| 0 <= c < plan.len() ==> (#[trigger] plan[c] matches Some(t) ==> t < n_tiles)
}

/// `v` lies in the cell of index `q` along one axis exactly when it divides to `q`.
proof fn lemma_axis(v: int, q: int, size: int)
    requires
        size > 0,
        q * size <= v < q * size + size,
    ensures
        v / size == q,
        v % size == v - q * size,
{
    vstd::arithmetic::div_mod::lemma_fundamental_div_mod_converse(v, size, q, v - q * size);
}

/// The coordinates of a canvas pixel and of its cell are in range.
pub proof fn lemma_pixel_cell(k: int, cols: int, rows: int, size: int)
    requires
        cols > 0,
        size > 0,
        0 <= k < cols * size * (rows * size),
    ensures
        0 <= px_col(k, cols, size) < cols * size,
        0 <= px_row(k, cols, size) < rows * size,
        0 <= px_col(k, cols, size) / size < cols,
        0 <= px_row(k, cols, size) / size < rows,
        0 <= cell_of(k, cols, size) < cols * rows,
        px_row(k, cols, size) * (cols * size) + px_col(k, cols, size) == k,
{
    let w = cols * size;
    assert(w > 0) by (nonlinear_arith)
        requires
            w == cols * size,
            cols > 0,
            size > 0,
    ;
    vstd::arithmetic::div_mod::lemma_fundamental_div_mod(k, w);
    let col = k % w;
    let row = k / w;
    vstd::arithmetic::div_mod::lemma_div_pos_is_pos(k, w);
    vstd::arithmetic::div_mod::lemma_multiply_divide_lt(k, w, rows * size);
    assert(col < size * cols) by (nonlinear_arith)
        requires
            col < w,
            w == cols * size,
    ;
    vstd::arithmetic::div_mod::lemma_multiply_divide_lt(col, size, cols);
    assert(row < size * rows) by (nonlinear_arith)
        requires
            row < rows * size,
    ;
    vstd::arithmetic::div_mod::lemma_multiply_divide_lt(row, size, rows);
    vstd::arithmetic::div_mod::lemma_div_pos_is_pos(col, size);
    vstd::arithmetic::div_mod::lemma_div_pos_is_pos(row, size);
    lemma_cell_index(col / size, row / size, cols, rows);
    assert(row * w + col == k) by (nonlinear_arith)
        requires
            k == w * row + col,
    ;
}

/// Paints a grid of `cols` by `rows` cells of `size` pixels: cell `c` gets tile
/// `plan[c]` laid over a transparent canvas, or stays transparent.
pub fn paint_plan(cols: u32, rows: u32, size: u32, plan: &Vec<Option<usize>>, tiles: &Vec<PixelBuffer>) -> (r:
    PixelBuffer)
    requires
        plan@.len() == cols * rows,
        plan_valid(plan@, tiles@.len() as int),
        tiles_fit(tiles@, size as int),
        cols * size <= u32::MAX,
        rows * size <= u32::MAX,
        (cols * size) * (rows * size) <= usize::MAX,
    ensures
        r.wf(),
        r.width == cols * size,
        r.height == rows * size,
        r.pixels@ == mosaic_pixels(plan@, tiles@, cols as int, rows as int, size as int),
{
    let width: u32 = cols * size;
    let height: u32 = rows * size;
    let mut canvas = PixelBuffer::new(width, height);
    let ghost n = canvas.pixels@.len() as int;
    let ghost c = cols as int;
    let ghost s = size as int;
    let n_cells = plan.len();
    let mut cy: u32 = 0;
    while cy < rows
        invariant
            n_cells == cols * rows,
            canvas.wf(),
            canvas.width == width,
            canvas.height == height,
            width == cols * size,
            height == rows * size,
            n == width * height,
            c == cols,
            s == size,
            canvas.pixels@.len() == n,
            cy <= rows,
            plan@.len() == cols * rows,
            plan_valid(plan@, tiles@.len() as int),
            tiles_fit(tiles@, size as int),
            forall|k: int|
                0 <= k < n ==> #[trigger] canvas.pixels@[k] == if cell_of(k, c, s) < cy * c {
                    mosaic_px(plan@, tiles@, c, s, k)
                } else {
                    clear_pixel()
                },
        decreases rows - cy,
    {
        let mut cx: u32 = 0;
        while cx < cols
            invariant
                n_cells == cols * rows,
                canvas.wf(),
                canvas.width == width,
                canvas.height == height,
                width == cols * size,
                height == rows * size,
                n == width * height,
                c == cols,
                s == size,
                canvas.pixels@.len() == n,
                cy < rows,
                cx <= cols,
                plan@.len() == cols * rows,
                plan_valid(plan@, tiles@.len() as int),
                tiles_fit(tiles@, size as int),
                forall|k: int|
                    0 <= k < n ==> #[trigger] canvas.pixels@[k] == if cell_of(k, c, s) < cy * c + cx {
                        mosaic_px(plan@, tiles@, c, s, k)
                    } else {
                        clear_pixel()
                    },
            decreases cols - cx,
        {
            proof {
                lemma_cell_index(cx as int, cy as int, c, rows as int);
                assert(cx * s <= (c - 1) * s && cy * s <= (rows - 1) * s) by (nonlinear_arith)
                    requires
                        cx < c,
                        cy < rows,
                        s >= 0,
                ;
                assert((c - 1) * s <= c * s && (rows - 1) * s <= rows * s) by (nonlinear_arith)
                    requires
                        s >= 0,
                ;
            }
            let cell: usize = cy as usize * cols as usize + cx as usize;
            let ghost before = canvas.pixels@;
            let ghost cur = cell as int;
            match plan[cell] {
                Some(t) => {
                    let x: u32 = cx * size;
                    let y: u32 = cy * size;
                    let ghost old_canvas = canvas;
                    let tile = &tiles[t];
                    overlay(&mut canvas, tile, x, y);
                    proof {
                        assert forall|k: int| 0 <= k < n implies #[trigger] canvas.pixels@[k] == if cell_of(
                            k,
                            c,
                            s,
                        ) < cur + 1 {
                            mosaic_px(plan@, tiles@, c, s, k)
                        } else {
                            clear_pixel()
                        } by {
                            if s == 0 {
                                assert(width == 0);
                            }
                            lemma_pixel_cell(k, c, rows as int, s);
                            let col = px_col(k, c, s);
                            let row = px_row(k, c, s);
                            let tw = tile.width as int;
                            let th = tile.height as int;
                            if covers(old_canvas, *tile, x as int, y as int, k) {
                                lemma_axis(col, cx as int, s);
                                lemma_axis(row, cy as int, s);
                                assert(cell_of(k, c, s) == cur);
                                assert(tile_pixel_over(old_canvas, *tile, x as int, y as int, k) == tile.at(
                                    col % s,
                                    row % s,
                                ));
                            } else if cell_of(k, c, s) == cur {
                                lemma_cell_unique(row / s, col / s, cy as int, cx as int, c);
                                vstd::arithmetic::div_mod::lemma_fundamental_div_mod(col, s);
                                vstd::arithmetic::div_mod::lemma_fundamental_div_mod(row, s);
                                assert(s * (cx as int) == x && s * (cy as int) == y) by (nonlinear_arith)
                                    requires
                                        x == cx * s,
                                        y == cy * s,
                                ;
                            }
                        }
                    }
                },
                None => {
                    proof {
                        assert forall|k: int| 0 <= k < n implies #[trigger] canvas.pixels@[k] == if cell_of(
                            k,
                            c,
                            s,
                        ) < cur + 1 {
                            mosaic_px(plan@, tiles@, c, s, k)
                        } else {
                            clear_pixel()
                        } by {
                            if s == 0 {
                                assert(width == 0);
                            }
                            lemma_pixel_cell(k, c, rows as int, s);
                        }
                    }
                },
            }
            cx = cx + 1;
        }
        proof {
            assert(cy * c + c == (cy + 1) * c) by (nonlinear_arith);
        }
        cy = cy + 1;
    }
    proof {
        assert(cy * c == c * rows) by (nonlinear_arith)
            requires
                cy == rows,
        ;
        assert forall|k: int| 0 <= k < n implies #[trigger] canvas.pixels@[k] == mosaic_px(plan@, tiles@, c, s, k) by {
            if s == 0 {
                assert(width == 0);
            }
            lemma_pixel_cell(k, c, rows as int, s);
        }
        assert(canvas.pixels@ =~= mosaic_pixels(plan@, tiles@, cols as int, rows as int, size as int));
    }
    canvas
}

/// Row-major cell indices determine their row and column.
proof fn lemma_cell_unique(r1: int, c1: int, r2: int, c2: int, cols: int)
    requires
        0 <= c1 < cols,
        0 <= c2 < cols,
        0 <= r1,
        0 <= r2,
        r1 * cols + c1 == r2 * cols + c2,
    ensures
        r1 == r2,
        c1 == c2,
{
    vstd::arithmetic::div_mod::lemma_fundamental_div_mod_converse(r1 * cols + c1, cols, r1, c1);
    vstd::arithmetic::div_mod::lemma_fundamental_div_mod_converse(r2 * cols + c2, cols, r2, c2);
}

/// A cell showing tile `t` shows each fully opaque pixel of the tile exactly,
/// at the same offset from the cell's top left corner.
pub proof fn lemma_opaque_tile_pixel(
    plan: Seq<Option<usize>>,
    tiles: Seq<PixelBuffer>,
    cols: int,
    size: int,
    k: int,
    t: usize,
)
    requires
        plan[cell_of(k, cols, size)] == Some(t),
        px_col(k, cols, size) % size < tiles[t as int].width,
        px_row(k, cols, size) % size < tiles[t as int].height,
        tiles[t as int].at(px_col(k, cols, size) % size, px_row(k, cols, size) % size)[3] == 255,
    ensures
        mosaic_px(plan, tiles, cols, size, k) == tiles[t as int].at(
            px_col(k, cols, size) % size,
            px_row(k, cols, size) % size,
        ),
{
}

} // verus!
