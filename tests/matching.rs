use mosaic::algorithms::dithering::{dither_img, BELOW_LEFT_WEIGHT, BELOW_RIGHT_WEIGHT, BELOW_WEIGHT, RIGHT_WEIGHT};
use mosaic::algorithms::histogram::HistogramAlgorithm;
use mosaic::algorithms::CliAlgorithms;
use mosaic::dithering::{apply_error, calutate_error, rgb_closest, rgb_dist};
use mosaic::pixel::PixelBuffer;
use mosaic::utils::{closest_color, img_transparent, nearest, pixel_transparent, rgb_distance};

fn image(width: u32, height: u32, pixels: Vec<[u8; 4]>) -> PixelBuffer {
    assert_eq!(pixels.len(), (width * height) as usize);
    PixelBuffer { width, height, pixels }
}

#[test]
fn nearest_finds_exact_color() {
    let palette = [[200, 10, 10], [10, 200, 10], [10, 10, 200], [90, 90, 90]];
    for (i, c) in palette.iter().enumerate() {
        let r = nearest(c, &palette);
        assert_eq!(r, i);
        assert_eq!(rgb_distance(c, &palette[r]), 0);
    }
}

#[test]
fn nearest_prefers_first_on_ties() {
    let palette = [[0, 0, 0], [20, 0, 0], [0, 0, 0]];
    assert_eq!(nearest(&[10, 0, 0], &palette), 0);
    assert_eq!(nearest(&[0, 0, 0], &palette), 0);
    assert_eq!(nearest(&[19, 0, 0], &palette), 1);
}

#[test]
fn distance_is_squared_euclidean_and_symmetric() {
    let a = [1, 2, 3];
    let b = [4, 6, 3];
    assert_eq!(rgb_distance(&a, &b), 25);
    assert_eq!(rgb_distance(&b, &a), 25);
    let w = [255, 255, 255];
    let k = [0, 0, 0];
    assert_eq!(rgb_distance(&w, &k), 195075);
    assert_eq!(rgb_distance(&k, &w), rgb_distance(&w, &k));
    assert_eq!(rgb_dist(&[1, 2, 3, 0], &[4, 6, 3, 255]), 25);
    assert_eq!(rgb_dist(&[4, 6, 3, 9], &[1, 2, 3, 7]), 25);
}

#[test]
fn closest_color_of_empty_palette_is_black() {
    assert_eq!(closest_color(&[], &[40, 50, 60]), [0, 0, 0]);
    assert_eq!(closest_color(&[[1, 1, 1], [50, 50, 50]], &[40, 50, 60]), [50, 50, 50]);
    assert_eq!(rgb_closest(&[40, 50, 60, 255], &vec![]), [0, 0, 0, 0]);
    assert_eq!(rgb_closest(&[40, 50, 60, 255], &vec![[1, 1, 1, 9], [50, 50, 50, 7]]), [50, 50, 50, 7]);
}

#[test]
fn transparency_tests() {
    assert!(pixel_transparent(&[0, 0, 0, 99]));
    assert!(!pixel_transparent(&[0, 0, 0, 100]));
    let opaque = image(2, 1, vec![[1, 2, 3, 255], [4, 5, 6, 255]]);
    let partial = image(2, 1, vec![[1, 2, 3, 255], [4, 5, 6, 254]]);
    assert!(!img_transparent(&opaque));
    assert!(img_transparent(&partial));
}

#[test]
fn error_shares_add_up_to_the_whole() {
    assert_eq!(RIGHT_WEIGHT + BELOW_LEFT_WEIGHT + BELOW_WEIGHT + BELOW_RIGHT_WEIGHT, 16);
    let err = calutate_error(&[200, 100, 0, 255], &[120, 132, 0, 255]);
    assert_eq!(err, [80, -32, 0]);
    // spread over four neighbors starting at 0, each gets err * w / 16
    let parts: Vec<[u8; 4]> = [RIGHT_WEIGHT, BELOW_LEFT_WEIGHT, BELOW_WEIGHT, BELOW_RIGHT_WEIGHT]
        .iter()
        .map(|w| apply_error(&err, &[0, 64, 0, 9], *w))
        .collect();
    assert_eq!(parts[0], [35, 50, 0, 9]);
    assert_eq!(parts[1], [15, 58, 0, 9]);
    assert_eq!(parts[2], [25, 54, 0, 9]);
    assert_eq!(parts[3], [5, 62, 0, 9]);
    let red: u32 = parts.iter().map(|p| p[0] as u32).sum();
    assert_eq!(red, 80);
}

#[test]
fn apply_error_clamps_to_a_byte() {
    assert_eq!(apply_error(&[255, -255, 16], &[250, 3, 0, 1], 16), [255, 0, 16, 1]);
    assert_eq!(apply_error(&[-17, 0, 0], &[0, 0, 0, 1], 1), [0, 0, 0, 1]);
}

#[test]
fn dither_quantizes_border_pixels_without_diffusion() {
    let img = image(2, 2, vec![[10, 10, 10, 255], [250, 250, 250, 7], [120, 120, 120, 255], [140, 140, 140, 0]]);
    let out = dither_img(&img, &[[0, 0, 0], [255, 255, 255]]);
    assert_eq!((out.width, out.height), (2, 2));
    assert_eq!(
        out.pixels,
        vec![[0, 0, 0, 255], [255, 255, 255, 7], [0, 0, 0, 255], [255, 255, 255, 0]]
    );
}

#[test]
fn dither_diffuses_from_interior_pixel() {
    // 3 by 3: only the center pixel is off the border.
    let mut px = vec![[0u8, 0, 0, 255]; 9];
    px[4] = [100, 100, 100, 255];
    let img = image(3, 3, px);
    let out = dither_img(&img, &[[0, 0, 0], [255, 255, 255], [64, 64, 64]]);
    // center quantizes to 64, error 36: right +15, below left +6, below +11, below right +2,
    // then those pixels quantize to the nearest of 0, 64, 255.
    assert_eq!(out.pixels[4], [64, 64, 64, 255]);
    assert_eq!(out.pixels[5], [0, 0, 0, 255]);
    assert_eq!(out.pixels[6], [0, 0, 0, 255]);
    assert_eq!(out.pixels[7], [0, 0, 0, 255]);
    assert_eq!(out.pixels[8], [0, 0, 0, 255]);
    // the source is left as it was
    assert_eq!(img.pixels[4], [100, 100, 100, 255]);
}

#[test]
fn dither_carries_error_into_later_pixels() {
    // 3 by 3, center 40 (nearest 64, error -24), right neighbor 40 becomes 29.5, kept as 29 -> 0.
    let mut px = vec![[0u8, 0, 0, 255]; 9];
    px[4] = [40, 40, 40, 255];
    px[5] = [40, 40, 40, 255];
    px[7] = [40, 40, 40, 255];
    let img = image(3, 3, px);
    let out = dither_img(&img, &[[0, 0, 0], [64, 64, 64]]);
    assert_eq!(out.pixels[4], [64, 64, 64, 255]);
    assert_eq!(out.pixels[5], [0, 0, 0, 255]);
    // below: 40 + (-24 * 5 / 16 = -7.5) = 32.5 -> 32, nearest of 0 and 64 is 0 (first wins at 32)
    assert_eq!(out.pixels[7], [0, 0, 0, 255]);
}

#[test]
fn histogram_picks_most_frequent_color() {
    let img = image(
        3,
        2,
        vec![[1, 1, 1, 255], [2, 2, 2, 255], [3, 3, 3, 255], [2, 2, 2, 255], [1, 1, 1, 100], [2, 2, 2, 255]],
    );
    assert_eq!(HistogramAlgorithm::new().average_color(&img), Some([2, 2, 2]));
}

#[test]
fn histogram_counts_opaque_pixels_only() {
    let img = image(3, 1, vec![[1, 2, 3, 255], [4, 5, 6, 0], [4, 5, 6, 0]]);
    assert_eq!(HistogramAlgorithm::new().average_color(&img), Some([1, 2, 3]));
    // a pixel just under the opacity threshold does not count either
    let img = image(3, 1, vec![[7, 7, 7, 99], [7, 7, 7, 99], [8, 8, 8, 100]]);
    assert_eq!(HistogramAlgorithm::new().average_color(&img), Some([8, 8, 8]));
}

#[test]
fn histogram_of_fully_transparent_tile_counts_every_pixel() {
    let img = image(3, 1, vec![[1, 2, 3, 0], [4, 5, 6, 10], [4, 5, 6, 0]]);
    assert_eq!(HistogramAlgorithm::new().average_color(&img), Some([4, 5, 6]));
}

#[test]
fn histogram_breaks_ties_by_first_seen() {
    let img = image(2, 2, vec![[9, 9, 9, 255], [5, 5, 5, 255], [5, 5, 5, 255], [9, 9, 9, 255]]);
    assert_eq!(HistogramAlgorithm::new().average_color(&img), Some([9, 9, 9]));
    let empty = image(0, 0, vec![]);
    assert_eq!(HistogramAlgorithm::new().average_color(&empty), None);
}

#[test]
fn algorithm_names() {
    assert_eq!(CliAlgorithms::Kmeans.name(), "Kmeans");
    assert_eq!(CliAlgorithms::Histogram.name(), "Histogram");
}
