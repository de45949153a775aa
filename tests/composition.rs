use mosaic::bands::{band_bounds, stack_bands};
use mosaic::minecraftify::{minecrafify_img, needs_transparent_block, Blocks};
use mosaic::mosaic::{ComposeError, MosaicMaker};
use mosaic::pixel::PixelBuffer;

fn image(width: u32, height: u32, pixels: Vec<[u8; 4]>) -> PixelBuffer {
    assert_eq!(pixels.len(), (width * height) as usize);
    PixelBuffer { width, height, pixels }
}

fn solid(width: u32, height: u32, p: [u8; 4]) -> PixelBuffer {
    image(width, height, vec![p; (width * height) as usize])
}

/// A tile whose pixels all differ, so that a misplaced copy shows.
fn pattern(size: u32, seed: u8) -> PixelBuffer {
    let mut px = Vec::new();
    for i in 0..size * size {
        px.push([seed, (i % 251) as u8, (i / 7) as u8, 255]);
    }
    image(size, size, px)
}

fn black_white_maker(size: u32) -> (MosaicMaker, Vec<PixelBuffer>) {
    let mut maker = MosaicMaker::new(size);
    assert!(maker.add_piece("a.png".to_string(), Some([0, 0, 0])));
    assert!(maker.add_piece("b.png".to_string(), Some([255, 255, 255])));
    (maker, vec![pattern(size, 1), pattern(size, 2)])
}

fn cell(canvas: &PixelBuffer, size: u32, cx: u32, cy: u32) -> Vec<[u8; 4]> {
    let mut out = Vec::new();
    for y in cy * size..(cy + 1) * size {
        for x in cx * size..(cx + 1) * size {
            out.push(canvas.pixels[(y * canvas.width + x) as usize]);
        }
    }
    out
}

#[test]
fn two_by_two_source_gives_32_by_32_canvas() {
    let (maker, tiles) = black_white_maker(16);
    let src = image(2, 2, vec![[0, 0, 0, 255], [255, 255, 255, 255], [3, 4, 5, 255], [90, 10, 200, 255]]);
    let out = maker.compose(&src, false, &tiles).unwrap();
    assert_eq!((out.width, out.height), (32, 32));
    assert_eq!(out.pixels.len(), 32 * 32);
    let dithered = maker.compose(&src, true, &tiles).unwrap();
    assert_eq!((dithered.width, dithered.height), (32, 32));
}

#[test]
fn canvas_size_is_source_size_times_tile_size() {
    let (maker, tiles) = black_white_maker(3);
    let src = solid(5, 2, [10, 10, 10, 255]);
    let out = maker.compose(&src, false, &tiles).unwrap();
    assert_eq!((out.width, out.height), (15, 6));
}

#[test]
fn dark_pixel_gets_black_piece_tile() {
    let (maker, tiles) = black_white_maker(4);
    let src = image(2, 1, vec![[10, 10, 10, 255], [250, 240, 255, 255]]);
    let out = maker.compose(&src, false, &tiles).unwrap();
    assert_eq!(cell(&out, 4, 0, 0), tiles[0].pixels);
    assert_eq!(cell(&out, 4, 1, 0), tiles[1].pixels);
    let piece = maker.closest_piece_to_color(&[10, 10, 10]);
    assert_eq!(piece.src(), "a.png");
}

#[test]
fn transparent_source_pixel_leaves_cell_empty() {
    let (maker, tiles) = black_white_maker(2);
    let src = image(2, 1, vec![[10, 10, 10, 99], [10, 10, 10, 100]]);
    let out = maker.compose(&src, false, &tiles).unwrap();
    assert_eq!(cell(&out, 2, 0, 0), vec![[0, 0, 0, 0]; 4]);
    assert_eq!(cell(&out, 2, 1, 0), tiles[0].pixels);
}

#[test]
fn small_tile_fills_top_left_of_cell() {
    let mut maker = MosaicMaker::new(3);
    maker.add_piece("p".to_string(), Some([1, 2, 3]));
    let tiles = vec![solid(2, 1, [7, 8, 9, 255])];
    let out = maker.compose(&solid(1, 1, [1, 2, 3, 255]), false, &tiles).unwrap();
    let z = [0, 0, 0, 0];
    let t = [7, 8, 9, 255];
    assert_eq!(out.pixels, vec![t, t, z, z, z, z, z, z, z]);
}

#[test]
fn half_transparent_tile_pixel_is_blended() {
    let mut maker = MosaicMaker::new(1);
    maker.add_piece("p".to_string(), Some([1, 2, 3]));
    let tiles = vec![solid(1, 1, [200, 100, 50, 0])];
    let out = maker.compose(&solid(1, 1, [1, 2, 3, 255]), false, &tiles).unwrap();
    // a fully transparent tile pixel leaves the canvas as it was
    assert_eq!(out.pixels, vec![[0, 0, 0, 0]]);
}

#[test]
fn empty_catalog_is_an_error() {
    let maker = MosaicMaker::new(16);
    let src = solid(2, 2, [1, 1, 1, 255]);
    assert_eq!(maker.compose(&src, false, &vec![]).unwrap_err(), ComposeError::EmptyCatalog);
    assert_eq!(maker.compose(&src, true, &vec![]).unwrap_err(), ComposeError::EmptyCatalog);
}

#[test]
fn tiles_must_match_pieces() {
    let (maker, mut tiles) = black_white_maker(4);
    let src = solid(1, 1, [1, 1, 1, 255]);
    assert_eq!(maker.compose(&src, false, &tiles[..1].to_vec()).unwrap_err(), ComposeError::TileMismatch);
    tiles[1] = solid(5, 4, [1, 1, 1, 255]);
    assert_eq!(maker.compose(&src, false, &tiles).unwrap_err(), ComposeError::TileMismatch);
    tiles[1] = PixelBuffer { width: 2, height: 2, pixels: vec![[0, 0, 0, 0]; 3] };
    assert_eq!(maker.compose(&src, false, &tiles).unwrap_err(), ComposeError::TileMismatch);
}

#[test]
fn oversized_canvas_is_an_error() {
    let mut maker = MosaicMaker::new(70000);
    maker.add_piece("p".to_string(), Some([1, 2, 3]));
    let tiles = vec![solid(1, 1, [1, 1, 1, 255])];
    let src = image(70000, 0, vec![]);
    assert_eq!(maker.compose(&src, false, &tiles).unwrap_err(), ComposeError::CanvasTooLarge);
}

#[test]
fn catalog_without_transparent_tiles_keeps_one_piece() {
    let mut maker = MosaicMaker::new(2);
    let opaque = solid(2, 2, [10, 20, 30, 255]);
    let mut partial = solid(2, 2, [10, 20, 30, 255]);
    partial.pixels[3] = [10, 20, 30, 128];
    for (name, img) in [("opaque.png", &opaque), ("partial.png", &partial)] {
        if MosaicMaker::admits_piece(img, false) {
            let color = mosaic::algorithms::histogram::HistogramAlgorithm::new().average_color(img);
            maker.add_piece(name.to_string(), color);
        }
    }
    assert_eq!(maker.pieces().len(), 1);
    assert_eq!(maker.pieces()[0].src(), "opaque.png");
    assert!(MosaicMaker::admits_piece(&partial, true));
}

#[test]
fn catalog_accessors() {
    let mut maker = MosaicMaker::new(8);
    assert_eq!(maker.pieces_size(), 8);
    maker.set_piece_size(12);
    assert_eq!(maker.pieces_size(), 12);
    assert!(!maker.add_piece("none".to_string(), None));
    maker.add_piece("x".to_string(), Some([4, 5, 6]));
    assert_eq!(maker.palette(), vec![[4, 5, 6]]);
    assert_eq!(maker.pieces()[0].average_color(), [4, 5, 6]);
    maker.clear_pieces();
    assert!(maker.pieces().is_empty());
    assert_eq!(maker.pieces_size(), 12);
}

#[test]
fn bands_partition_rows() {
    assert_eq!(band_bounds(10, 3).unwrap(), vec![(0, 4), (4, 7), (7, 10)]);
    assert_eq!(band_bounds(2, 4).unwrap(), vec![(0, 1), (1, 2), (2, 2), (2, 2)]);
    assert_eq!(band_bounds(5, 1).unwrap(), vec![(0, 5)]);
    assert_eq!(band_bounds(5, 0).unwrap_err(), ComposeError::NoWorkers);
}

fn compose_in_bands(maker: &MosaicMaker, src: &PixelBuffer, dither: bool, tiles: &Vec<PixelBuffer>, workers: usize) -> PixelBuffer {
    let source = maker.prepare(src, dither);
    let mut outs = Vec::new();
    for (y0, y1) in band_bounds(source.height, workers).unwrap() {
        outs.push(maker.compose_band(&source, tiles, y0, y1));
    }
    stack_bands(source.width * maker.pieces_size(), &outs)
}

#[test]
fn worker_count_does_not_change_the_canvas() {
    let (mut maker, mut tiles) = black_white_maker(3);
    maker.add_piece("c.png".to_string(), Some([128, 0, 0]));
    tiles.push(pattern(3, 3));
    let mut px = Vec::new();
    for i in 0..7u32 * 5 {
        px.push([(i * 37 % 256) as u8, (i * 11 % 256) as u8, (i * 5 % 256) as u8, if i % 9 == 0 { 50 } else { 255 }]);
    }
    let src = image(7, 5, px);
    for dither in [false, true] {
        let whole = maker.compose(&src, dither, &tiles).unwrap();
        for workers in [1, 2, 3, 5, 8] {
            let banded = compose_in_bands(&maker, &src, dither, &tiles, workers);
            assert_eq!((banded.width, banded.height), (whole.width, whole.height));
            assert_eq!(banded.pixels, whole.pixels);
        }
    }
}

#[test]
fn block_sampling_reads_one_pixel_of_a_narrow_strip() {
    // On a 7 by 1 strip the sampler reads pixel (5, 0) alone.
    let mut px = vec![[0u8, 0, 0, 255]; 7];
    px[5] = [10, 20, 30, 255];
    let strip = image(7, 1, px);
    let mut blocks = Blocks::new();
    assert!(blocks.add_block("stone.png".to_string(), &strip));
    assert_eq!(blocks.palette(), &vec![[10, 20, 30, 255]]);
    assert!(!blocks.add_block("tiny.png".to_string(), &solid(2, 2, [1, 1, 1, 255])));
    assert_eq!(blocks.palette().len(), 1);
}

#[test]
fn blocks_keep_first_path_per_color() {
    let mut blocks = Blocks::new();
    blocks.insert([1, 2, 3], "first".to_string());
    blocks.insert([1, 2, 3], "second".to_string());
    blocks.insert([9, 9, 9], "third".to_string());
    assert_eq!(blocks.palette(), &vec![[1, 2, 3, 255], [1, 2, 3, 255], [9, 9, 9, 255]]);
    assert_eq!(blocks.map().len(), 2);
    assert_eq!(blocks.map()[0].1, "first");
    assert_eq!(blocks.find(&[9, 9, 9, 255]), Some(1));
    assert_eq!(blocks.find(&[9, 9, 9, 0]), None);
}

#[test]
fn block_mosaic_uses_sixteen_pixel_blocks() {
    let mut blocks = Blocks::new();
    blocks.insert([0, 0, 0], "dark".to_string());
    blocks.insert([250, 250, 250], "light".to_string());
    let tiles = vec![pattern(16, 1), pattern(16, 2), solid(16, 16, [0, 0, 0, 0])];
    let src = image(3, 1, vec![[240, 240, 240, 255], [5, 5, 5, 255], [5, 5, 5, 0]]);
    let out = minecrafify_img(&src, &blocks, &tiles);
    assert_eq!((out.width, out.height), (48, 16));
    assert_eq!(cell(&out, 16, 0, 0), tiles[1].pixels);
    assert_eq!(cell(&out, 16, 1, 0), tiles[0].pixels);
    assert_eq!(cell(&out, 16, 2, 0), vec![[0, 0, 0, 0]; 256]);
}

#[test]
fn block_mosaic_inputs_are_checked() {
    let mut blocks = Blocks::new();
    let src = solid(2, 2, [5, 5, 5, 255]);
    let tiles = vec![pattern(16, 1), solid(16, 16, [0, 0, 0, 0])];
    assert_eq!(blocks.check_mosaic(&src, &tiles).unwrap_err(), ComposeError::EmptyCatalog);
    blocks.insert([0, 0, 0], "dark".to_string());
    assert_eq!(blocks.check_mosaic(&src, &tiles), Ok(()));
    assert_eq!(blocks.check_mosaic(&src, &tiles[..1].to_vec()).unwrap_err(), ComposeError::TileMismatch);
    let big = vec![pattern(17, 1), solid(16, 16, [0, 0, 0, 0])];
    assert_eq!(blocks.check_mosaic(&src, &big).unwrap_err(), ComposeError::TileMismatch);
    let huge = image(300_000_000, 0, vec![]);
    assert_eq!(blocks.check_mosaic(&huge, &tiles).unwrap_err(), ComposeError::CanvasTooLarge);
}

#[test]
fn inconsistent_blocks_are_refused() {
    let mut blocks = Blocks::new();
    blocks.insert([1, 2, 3], "a".to_string());
    assert!(blocks.is_consistent());
    blocks.map.push(([1, 2, 3, 255], "b".to_string()));
    assert!(!blocks.is_consistent());
    let mut other = Blocks::new();
    other.palette.push([9, 9, 9, 255]);
    assert!(!other.is_consistent());
    let src = solid(1, 1, [5, 5, 5, 255]);
    let tiles = vec![pattern(16, 1), pattern(16, 2), solid(16, 16, [0, 0, 0, 0])];
    assert_eq!(blocks.check_mosaic(&src, &tiles).unwrap_err(), ComposeError::EmptyCatalog);
}

#[test]
fn transparent_block_needed_only_for_clear_pixels() {
    assert!(!needs_transparent_block(&image(2, 1, vec![[1, 1, 1, 1], [0, 0, 0, 255]])));
    assert!(needs_transparent_block(&image(2, 1, vec![[1, 1, 1, 1], [9, 9, 9, 0]])));
}
