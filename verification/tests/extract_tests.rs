use astrometry::bitmatrix::BitMatrix;
use astrometry::extract::{
    calculate_noise, extract_sources, find_objects, flux_above, is_peak, median_smooth, Image,
};

#[test]
fn bitmatrix_bits() {
    let mut m = BitMatrix::new(10, 3);
    assert!(!m.get(7, 2));
    m.set(7, 2, true);
    assert!(m.get(7, 2));
    assert!(!m.get(6, 2));
    assert!(!m.get(7, 1));
    // setting false never clears
    m.set(7, 2, false);
    assert!(m.get(7, 2));
    // cell 0 packs into the high bit of byte 0
    let mut m2 = BitMatrix::new(8, 1);
    m2.set(0, 0, true);
    assert_eq!(m2.data()[0], 0x80);
    m2.set(7, 0, true);
    assert_eq!(m2.data()[0], 0x81);
    assert_eq!(m2.data().len(), 1);
}

fn uniform_image(width: usize, height: usize, value: u8) -> Image {
    Image { width, height, pixels: vec![value; width * height] }
}

#[test]
fn threshold_is_exact() {
    // flux clears the threshold exactly when flux^2 * n >= 64 * s2
    assert!(flux_above(8, 1, 1));
    assert!(!flux_above(7, 1, 1));
    assert!(flux_above(0, 0, 0)); // no samples: everything clears
    assert!(flux_above(255, 65025, 64));
    assert!(!flux_above(254, 65025, 64));
}

#[test]
fn single_bright_pixel_found() {
    let mut img = uniform_image(16, 9, 0);
    img.pixels[5 * 16 + 11] = 100;
    // threshold 8 * sqrt(1 / 1) = 8
    let objs = find_objects(&img, 1, 1);
    assert_eq!(objs.len(), 1);
    let o = &objs[0];
    assert_eq!((o.x, o.y, o.width, o.height), (11, 5, 1, 1));
    // half-pixel centroid: the box center
    assert_eq!((o.center_x2, o.center_y2), (2 * 11 + 1, 2 * 5 + 1));
}

#[test]
fn blob_bounding_box() {
    let mut img = uniform_image(20, 20, 0);
    // a diagonally connected component
    for (x, y) in [(4, 4), (5, 4), (6, 5), (5, 5)] {
        img.pixels[y * 20 + x] = 50;
    }
    let objs = find_objects(&img, 1, 1);
    assert_eq!(objs.len(), 1);
    let o = &objs[0];
    assert_eq!((o.x, o.y, o.width, o.height), (4, 4, 3, 2));
}

#[test]
fn uniform_image_is_one_component() {
    // A uniform image has zero noise, so the threshold is zero and every
    // pixel clears it: the whole frame floods into a single object. (A zero
    // threshold can exceed no flux, so nothing is ever excluded.)
    let img = uniform_image(12, 7, 0);
    let (s2, n) = calculate_noise(&img);
    assert_eq!(s2, 0);
    let objs = find_objects(&img, s2, n);
    assert_eq!(objs.len(), 1);
    assert_eq!((objs[0].x, objs[0].y, objs[0].width, objs[0].height), (0, 0, 12, 7));
}

#[test]
fn noise_statistics_count_grid_samples() {
    // a 21x11 image has grid points at x in {0,10,20}, y in {0,10}
    let mut img = uniform_image(21, 11, 10);
    img.pixels[0] = 20; // the corner sample differs from its neighbors
    let (s2, n) = calculate_noise(&img);
    // neighbors in bounds: corner (0,0) has 3, (10,0) 5, (20,0) 3,
    // (0,10) 3, (10,10) 5, (20,10) 3; total 22 differences
    assert_eq!(n, 22);
    // the (0,0) sample contributes 3 differences of -10; samples (10,0) had
    //0 diffs against it (offset 10 is out of its +/-5 reach)
    assert_eq!(s2, 3 * 100);
}

#[test]
fn median_smooth_flattens_background() {
    // a lone bright pixel vanishes under the median and survives subtraction
    let img = Image { width: 5, height: 1, pixels: vec![0, 0, 255, 0, 0] };
    let out = median_smooth(&img, 1);
    assert_eq!(out.pixels[2], 255);
    assert_eq!(out.pixels[1], 0);
    // a uniform image flattens to all zeros
    let img = uniform_image(9, 9, 77);
    let out = median_smooth(&img, 2);
    assert!(out.pixels.iter().all(|&p| p == 0));
}

#[test]
fn is_peak_checks_neighbors() {
    let grid = vec![vec![1u8, 2, 1], vec![2, 9, 2], vec![1, 2, 1]];
    assert!(is_peak(&grid, 1, 1));
    assert!(!is_peak(&grid, 0, 0));
    // a corner with no greater neighbor is a peak
    let grid2 = vec![vec![9u8, 2], vec![2, 1]];
    assert!(is_peak(&grid2, 0, 0));
}

#[test]
fn gaussian_source_detected() {
    // a 512x512 frame with background noise of about one gray level and one
    // Gaussian star of sigma 2 at (100.5, 200.5)
    let w = 512usize;
    let h = 512usize;
    let mut pixels = vec![0u8; w * h];
    let mut seed: u64 = 0x243F6A8885A308D3;
    for y in 0..h {
        for x in 0..w {
            seed = seed.wrapping_mul(6364136223846793005).wrapping_add(1442695040888963407);
            let noise = ((seed >> 33) % 3) as f64; // 0, 1, or 2
            let dx = x as f64 - 100.5;
            let dy = y as f64 - 200.5;
            let star = 200.0 * (-(dx * dx + dy * dy) / 8.0).exp();
            let v = 10.0 + noise + star;
            pixels[y * w + x] = if v > 255.0 { 255 } else { v as u8 };
        }
    }
    let img = Image { width: w, height: h, pixels };
    let objs = extract_sources(&img);
    assert_eq!(objs.len(), 1);
    let o = &objs[0];
    assert!(o.x <= 100 && 100 < o.x + o.width);
    assert!(o.y <= 200 && 200 < o.y + o.height);
}
