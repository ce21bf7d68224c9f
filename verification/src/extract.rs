//! Star source extraction from grayscale images: background flattening by
//! median filter, grid-sampled noise estimation, exact thresholding, and
//! 8-connected component search producing bounding boxes with half-pixel
//! centroids.
//!
//! The threshold of the pipeline is eight times the square root of the noise
//! estimate sigma^2 = s2 / n. No floating point is needed: a flux f clears
//! the threshold exactly when f*f*n >= 64*s2, and that is how every
//! comparison here is decided.

use vstd::prelude::*;

use crate::bitmatrix::BitMatrix;

verus! {

/// Sampling radius of the noise estimator; the sample grid strides twice
/// this far.
pub const NOISE_SAMPLE_RADIUS: usize = 5;

/// An 8-bit grayscale image, row-major.
pub struct Image {
    pub width: usize,
    pub height: usize,
    pub pixels: Vec<u8>,
}

impl Image {
    /// The pixel buffer matches the dimensions and the pixel count leaves
    /// room for the visited matrix's byte rounding.
    pub open spec fn wf(self) -> bool {
        &&& self.pixels@.len() == self.width * self.height
        &&& self.width * self.height <= usize::MAX - 7
    }

    /// The flux of the pixel at (x, y).
    pub open spec fn px(self, x: int, y: int) -> int {
        pixel_at(self.width as int, self.pixels@, x, y)
    }
}

/// The flux of pixel (x, y) of a row-major buffer of the given width.
pub open spec fn pixel_at(w: int, ps: Seq<u8>, x: int, y: int) -> int {
    ps[y * w + x] as int
}

/// Saturating subtraction on bytes.
pub open spec fn sat_sub(a: u8, b: u8) -> u8 {
    if a < b {
        0u8
    } else {
        (a - b) as u8
    }
}

/// The per-pixel saturating difference of two equal-length buffers.
pub open spec fn subtracted(pixels: Seq<u8>, med: Seq<u8>) -> Seq<u8> {
    Seq::new(pixels.len(), |i: int| sat_sub(pixels[i], med[i]))
}

/// What imageproc's median filter returns for a given image and square
/// radius; a pure function of its arguments.
pub uninterp spec fn median_filtered(width: usize, height: usize, pixels: Seq<u8>, radius: u32) -> Seq<u8>;

/// Relies on imageproc::filter::median_filter: the result has the same
/// dimensions as the input and depends on the input image and radii alone.
/// The radius bound keeps the filter's own u32 kernel-size product
/// (2r+1)*(2r+1) and its histogram counts in range.
#[verifier::external_body]
fn median_filter_raw(width: usize, height: usize, pixels: &Vec<u8>, radius: u32) -> (r: Vec<u8>)
    requires
        pixels@.len() == width * height,
        width + radius < 0x40000000,
        height + radius < 0x40000000,
        radius <= 16383,
    ensures
        r@ == median_filtered(width, height, pixels@, radius),
        r@.len() == pixels@.len(),
{
    let img = image::GrayImage::from_raw(width as u32, height as u32, pixels.clone()).unwrap();
    imageproc::filter::median_filter(&img, radius, radius).into_raw()
}

/// Subtracts the median-filtered copy of the image from the image itself,
/// pixel by pixel and clamped at zero: the background-flattened image.
pub fn median_smooth(img: &Image, radius: u32) -> (r: Image)
    requires
        img.wf(),
        img.width + radius < 0x40000000,
        img.height + radius < 0x40000000,
        radius <= 16383,
    ensures
        r.wf(),
        r.width == img.width,
        r.height == img.height,
        r.pixels@ == subtracted(
            img.pixels@,
            median_filtered(img.width, img.height, img.pixels@, radius),
        ),
{
    let med = median_filter_raw(img.width, img.height, &img.pixels, radius);
    let n = img.pixels.len();
    let mut out: Vec<u8> = Vec::new();
    let mut i: usize = 0;
    while i < n
        invariant
            i <= n,
            n == img.pixels@.len(),
            med@.len() == n,
            out@.len() == i,
            forall|j: int| 0 <= j < i ==> out@[j] == sat_sub(img.pixels@[j], med@[j]),
        decreases n - i,
    {
        let a = img.pixels[i];
        let b = med[i];
        out.push(if a < b {
            0
        } else {
            a - b
        });
        i = i + 1;
    }
    proof {
        assert(out@ =~= subtracted(
            img.pixels@,
            median_filtered(img.width, img.height, img.pixels@, radius),
        ));
    }
    Image { width: img.width, height: img.height, pixels: out }
}

/// The k-th of the eight neighbor directions sampled around a grid point.
pub open spec fn noff(k: int) -> (int, int) {
    if k == 0 {
        (-1, -1)
    } else if k == 1 {
        (-1, 0)
    } else if k == 2 {
        (-1, 1)
    } else if k == 3 {
        (0, -1)
    } else if k == 4 {
        (0, 1)
    } else if k == 5 {
        (1, -1)
    } else if k == 6 {
        (1, 0)
    } else {
        (1, 1)
    }
}

/// Sum of squared flux differences and sample count over the first k
/// in-bounds neighbors of the grid point (sx, sy).
pub open spec fn cell_stats(w: int, h: int, ps: Seq<u8>, sx: int, sy: int, k: int) -> (int, int)
    decreases k,
{
    if k <= 0 {
        (0, 0)
    } else {
        let prev = cell_stats(w, h, ps, sx, sy, k - 1);
        let o = noff(k - 1);
        let nx = sx + 5 * o.0;
        let ny = sy + 5 * o.1;
        if 0 <= nx < w && 0 <= ny < h {
            let d = pixel_at(w, ps, nx, ny) - pixel_at(w, ps, sx, sy);
            (prev.0 + d * d, prev.1 + 1)
        } else {
            prev
        }
    }
}

/// Stats accumulated over the first j grid rows of the column at sx.
pub open spec fn col_stats(w: int, h: int, ps: Seq<u8>, sx: int, j: int) -> (int, int)
    decreases j,
{
    if j <= 0 {
        (0, 0)
    } else {
        let prev = col_stats(w, h, ps, sx, j - 1);
        let c = cell_stats(w, h, ps, sx, 10 * (j - 1), 8);
        (prev.0 + c.0, prev.1 + c.1)
    }
}

/// Stats accumulated over the first i grid columns.
pub open spec fn grid_stats(w: int, h: int, ps: Seq<u8>, i: int) -> (int, int)
    decreases i,
{
    if i <= 0 {
        (0, 0)
    } else {
        let prev = grid_stats(w, h, ps, i - 1);
        let c = col_stats(w, h, ps, 10 * (i - 1), grid_rows(h));
        (prev.0 + c.0, prev.1 + c.1)
    }
}

/// Number of grid columns: sample x-coordinates 0, 10, ... below the width.
pub open spec fn grid_cols(w: int) -> int {
    (w + 9) / 10
}

/// Number of grid rows.
pub open spec fn grid_rows(h: int) -> int {
    (h + 9) / 10
}

/// The noise statistics of an image: the sum of squared flux differences
/// between each grid point and its eight neighbors at radius five, and the
/// number of differences taken. The estimate sigma^2 is their quotient (the
/// mean is not subtracted).
pub open spec fn noise_stats(w: int, h: int, ps: Seq<u8>) -> (int, int) {
    grid_stats(w, h, ps, grid_cols(w))
}

pub proof fn lemma_cell_stats_bounds(w: int, h: int, ps: Seq<u8>, sx: int, sy: int, k: int)
    requires
        0 <= k <= 8,
    ensures
        0 <= cell_stats(w, h, ps, sx, sy, k).1 <= k,
        0 <= cell_stats(w, h, ps, sx, sy, k).0 <= 65025 * cell_stats(w, h, ps, sx, sy, k).1,
    decreases k,
{
    if k > 0 {
        lemma_cell_stats_bounds(w, h, ps, sx, sy, k - 1);
        let o = noff(k - 1);
        let nx = sx + 5 * o.0;
        let ny = sy + 5 * o.1;
        if 0 <= nx < w && 0 <= ny < h {
            let d = pixel_at(w, ps, nx, ny) - pixel_at(w, ps, sx, sy);
            assert(0 <= d * d <= 65025) by (nonlinear_arith)
                requires
                    -255 <= d <= 255,
            ;
        }
    }
}

pub proof fn lemma_col_stats_bounds(w: int, h: int, ps: Seq<u8>, sx: int, j: int)
    requires
        0 <= j,
    ensures
        0 <= col_stats(w, h, ps, sx, j).1 <= 8 * j,
        0 <= col_stats(w, h, ps, sx, j).0 <= 65025 * col_stats(w, h, ps, sx, j).1,
    decreases j,
{
    if j > 0 {
        lemma_col_stats_bounds(w, h, ps, sx, j - 1);
        lemma_cell_stats_bounds(w, h, ps, sx, 10 * (j - 1), 8);
    }
}

pub proof fn lemma_grid_stats_bounds(w: int, h: int, ps: Seq<u8>, i: int)
    requires
        0 <= i,
        0 <= grid_rows(h),
    ensures
        0 <= grid_stats(w, h, ps, i).1 <= 8 * i * grid_rows(h),
        0 <= grid_stats(w, h, ps, i).0 <= 65025 * grid_stats(w, h, ps, i).1,
    decreases i,
{
    if i > 0 {
        lemma_grid_stats_bounds(w, h, ps, i - 1);
        lemma_col_stats_bounds(w, h, ps, 10 * (i - 1), grid_rows(h));
        assert(8 * (i - 1) * grid_rows(h) + 8 * grid_rows(h) == 8 * i * grid_rows(h))
            by (nonlinear_arith);
    }
}

/// Estimates the image noise: samples a grid of stride ten, takes the eight
/// neighbors at radius five around each grid point, and accumulates the
/// squared flux differences. Returns the sum and the sample count.
pub fn calculate_noise(img: &Image) -> (r: (u64, u64))
    requires
        img.wf(),
        img.width <= 1000000,
        img.height <= 1000000,
    ensures
        r.0 == noise_stats(img.width as int, img.height as int, img.pixels@).0,
        r.1 == noise_stats(img.width as int, img.height as int, img.pixels@).1,
{
    let ghost gw = img.width as int;
    let ghost gh = img.height as int;
    let ghost gps = img.pixels@;
    let nx = (img.width + 9) / 10;
    let ny = (img.height + 9) / 10;
    let mut s2: u64 = 0;
    let mut n: u64 = 0;
    let mut ii: usize = 0;
    proof {
        lemma_grid_stats_bounds(gw, gh, gps, 0);
    }
    while ii < nx
        invariant
            ii <= nx,
            nx == grid_cols(gw),
            ny == grid_rows(gh),
            img.wf(),
            gw == img.width as int,
            gh == img.height as int,
            gps == img.pixels@,
            img.width <= 1000000,
            img.height <= 1000000,
            s2 == grid_stats(gw, gh, gps, ii as int).0,
            n == grid_stats(gw, gh, gps, ii as int).1,
        decreases nx - ii,
    {
        let sx = 10 * ii;
        assert(sx < img.width);
        let mut jj: usize = 0;
        let mut cs2: u64 = 0;
        let mut cn: u64 = 0;
        while jj < ny
            invariant
                jj <= ny,
                ny == grid_rows(gh),
                img.wf(),
                gw == img.width as int,
                gh == img.height as int,
                gps == img.pixels@,
                img.width <= 1000000,
                img.height <= 1000000,
                sx == 10 * ii,
                sx < img.width,
                cs2 == col_stats(gw, gh, gps, sx as int, jj as int).0,
                cn == col_stats(gw, gh, gps, sx as int, jj as int).1,
            decreases ny - jj,
        {
            let sy = 10 * jj;
            assert(sy < img.height);
            proof {
                assert(sy * img.width + sx < img.width * img.height) by (nonlinear_arith)
                    requires
                        sx < img.width,
                        sy < img.height,
                ;
            }
            let center = img.pixels[sy * img.width + sx];
            let mut k: usize = 0;
            let mut es2: u64 = 0;
            let mut en: u64 = 0;
            while k < 8
                invariant
                    k <= 8,
                    img.wf(),
                    gw == img.width as int,
                    gh == img.height as int,
                    gps == img.pixels@,
                    img.width <= 1000000,
                    img.height <= 1000000,
                    sx < img.width,
                    sy < img.height,
                    sy == 10 * jj,
                    sx == 10 * ii,
                    center == img.px(sx as int, sy as int),
                    es2 == cell_stats(gw, gh, gps, sx as int, sy as int, k as int).0,
                    en == cell_stats(gw, gh, gps, sx as int, sy as int, k as int).1,
                decreases 8 - k,
            {
                proof {
                    lemma_cell_stats_bounds(gw, gh, gps, sx as int, sy as int, k as int);
                }
                let (dx, dy): (i64, i64) = if k == 0 {
                    (-1, -1)
                } else if k == 1 {
                    (-1, 0)
                } else if k == 2 {
                    (-1, 1)
                } else if k == 3 {
                    (0, -1)
                } else if k == 4 {
                    (0, 1)
                } else if k == 5 {
                    (1, -1)
                } else if k == 6 {
                    (1, 0)
                } else {
                    (1, 1)
                };
                let nxp = sx as i64 + 5 * dx;
                let nyp = sy as i64 + 5 * dy;
                if 0 <= nxp && nxp < img.width as i64 && 0 <= nyp && nyp < img.height as i64 {
                    let ux = nxp as usize;
                    let uy = nyp as usize;
                    proof {
                        assert(uy * img.width + ux < img.width * img.height) by (nonlinear_arith)
                            requires
                                ux < img.width,
                                uy < img.height,
                        ;
                    }
                    let flux = img.pixels[uy * img.width + ux];
                    let d = flux as i64 - center as i64;
                    proof {
                        assert(0 <= d * d <= 65025) by (nonlinear_arith)
                            requires
                                -255 <= d <= 255,
                        ;
                        lemma_cell_stats_bounds(gw, gh, gps, sx as int, sy as int, k as int);
                    }
                    let dd = (d * d) as u64;
                    es2 = es2 + dd;
                    en = en + 1;
                }
                k = k + 1;
            }
            proof {
                lemma_col_stats_bounds(gw, gh, gps, sx as int, jj + 1);
            }
            cs2 = cs2 + es2;
            cn = cn + en;
            jj = jj + 1;
        }
        proof {
            lemma_grid_stats_bounds(gw, gh, gps, ii + 1);
            assert(8 * (ii + 1) * grid_rows(gh) <= 80001600008) by (nonlinear_arith)
                requires
                    0 < ii + 1 <= 100001,
                    0 <= grid_rows(gh) <= 100001,
            ;
        }
        s2 = s2 + cs2;
        n = n + cn;
        ii = ii + 1;
    }
    (s2, n)
}

/// Whether a flux clears the detection threshold 8 * sqrt(s2 / n): decided
/// exactly as flux^2 * n >= 64 * s2. With no samples (n == 0) every flux
/// clears it, matching the original pipeline's comparison against an
/// undefined threshold.
pub open spec fn above_threshold(flux: u8, s2: int, n: int) -> bool {
    (flux as int) * (flux as int) * n >= 64 * s2
}

/// Exact threshold test for one flux value.
pub fn flux_above(flux: u8, s2: u64, n: u64) -> (r: bool)
    requires
        s2 <= 0x20000000000000,
        n <= 0x10000000000,
    ensures
        r == above_threshold(flux, s2 as int, n as int),
{
    let f = flux as u64;
    proof {
        assert(f * f <= 65025 && f * f * n <= 65025 * 0x10000000000 && f * f * n == (flux as int)
            * (flux as int) * (n as int)) by (nonlinear_arith)
            requires
                f == flux as int,
                f <= 255,
                n <= 0x10000000000,
        ;
    }
    f * f * n >= 64 * s2
}

/// One detected source: bounding box origin and size in pixels, centroid in
/// half-pixel units (twice the coordinate, so the box center is exact).
pub struct DetectedObject {
    pub x: usize,
    pub y: usize,
    pub width: usize,
    pub height: usize,
    /// Twice the centroid x-coordinate.
    pub center_x2: usize,
    /// Twice the centroid y-coordinate.
    pub center_y2: usize,
}

/// The object invariants over an image of the given dimensions: a box of at
/// least one pixel each way, inside the image, with the centroid inside the
/// box.
pub open spec fn object_wf(o: DetectedObject, width: int, height: int) -> bool {
    &&& o.width >= 1
    &&& o.height >= 1
    &&& o.x + o.width <= width
    &&& o.y + o.height <= height
    &&& 2 * o.x <= o.center_x2 <= 2 * (o.x + o.width)
    &&& 2 * o.y <= o.center_y2 <= 2 * (o.y + o.height)
}

/// Number of unvisited cells.
pub open spec fn unvisited(s: Seq<bool>) -> nat
    decreases s.len(),
{
    if s.len() == 0 {
        0
    } else {
        unvisited(s.drop_last()) + if s.last() {
            0nat
        } else {
            1nat
        }
    }
}

proof fn lemma_unvisited_update(s: Seq<bool>, i: int)
    requires
        0 <= i < s.len(),
        !s[i],
    ensures
        unvisited(s.update(i, true)) == unvisited(s) - 1,
    decreases s.len(),
{
    if i == s.len() - 1 {
        assert(s.update(i, true).drop_last() =~= s.drop_last());
    } else {
        assert(s.update(i, true).drop_last() =~= s.drop_last().update(i, true));
        lemma_unvisited_update(s.drop_last(), i);
    }
}

/// Row-major pixel indices are in range and injective in the coordinates.
proof fn lemma_pixel_index(w: int, h: int, px_: int, py_: int, qx: int, qy: int)
    by (nonlinear_arith)
    requires
        0 <= px_ < w,
        0 <= py_ < h,
        0 <= qx < w,
        0 <= qy < h,
    ensures
        0 <= py_ * w + px_ < w * h,
        py_ * w + px_ == qy * w + qx ==> px_ == qx && py_ == qy,
{
}

/// The pixel (px, py) is an entry of the work queue.
pub open spec fn in_queue(q: Seq<(usize, usize)>, px_: int, py_: int) -> bool {
    exists|qi: int| 0 <= qi < q.len() && (#[trigger] q[qi]).0 == px_ && q[qi].1 == py_
}

/// The object's bounding box holds the pixel (px, py).
pub open spec fn object_contains(o: DetectedObject, px_: int, py_: int) -> bool {
    o.x <= px_ < o.x + o.width && o.y <= py_ < o.y + o.height
}

/// Whether the pixel at (x, y) clears the threshold, over a raw buffer.
pub open spec fn pixel_above(w: int, ps: Seq<u8>, s2: int, n: int, x: int, y: int) -> bool {
    pixel_at(w, ps, x, y) * pixel_at(w, ps, x, y) * n >= 64 * s2
}

/// Grows one connected component from the seed (x, y): pixels connected to
/// the seed through 8-neighborhood whose flux clears the threshold are
/// collected; every pixel touched is marked visited so no later search
/// revisits it (a pixel is marked when it is enqueued). Returns the bounding
/// box of the collected pixels with its half-pixel box center, or None
/// exactly when the seed itself is below the threshold. The box is tight:
/// each of its four edges carries a threshold-clearing pixel, every
/// threshold-clearing pixel this call marks lies inside it, and so does the
/// seed.
#[verifier::rlimit(80)]
pub fn find_object(
    img: &Image,
    x: usize,
    y: usize,
    s2: u64,
    n: u64,
    visited: &mut BitMatrix,
) -> (r: Option<DetectedObject>)
    requires
        img.wf(),
        img.width <= 1000000,
        img.height <= 1000000,
        x < img.width,
        y < img.height,
        s2 <= 0x20000000000000,
        n <= 0x10000000000,
        old(visited).wf(),
        old(visited).spec_width() == img.width,
        old(visited).spec_height() == img.height,
    ensures
        final(visited).wf(),
        final(visited).spec_width() == img.width,
        final(visited).spec_height() == img.height,
        final(visited)@.len() == old(visited)@.len(),
        forall|i: int| 0 <= i < old(visited)@.len() && old(visited)@[i] ==> final(visited)@[i],
        final(visited)@[y * img.width + x],
        r is Some <==> above_threshold(img.pixels@[y * img.width + x], s2 as int, n as int),
        r matches Some(o) ==> object_wf(o, img.width as int, img.height as int) && o.x <= x < o.x
            + o.width && o.y <= y < o.y + o.height,
        r matches Some(o) ==> o.center_x2 == 2 * o.x + o.width && o.center_y2 == 2 * o.y
            + o.height,
        forall|px_: int, py_: int|
            0 <= px_ < img.width && 0 <= py_ < img.height && !old(visited)@[py_ * img.width + px_]
                && final(visited)@[py_ * img.width + px_] && #[trigger] pixel_above(
                img.width as int,
                img.pixels@,
                s2 as int,
                n as int,
                px_,
                py_,
            ) ==> r is Some && object_contains(r.unwrap(), px_, py_),
        r matches Some(o) ==> exists|py_: int|
            o.y <= py_ < o.y + o.height && #[trigger] pixel_above(
                img.width as int,
                img.pixels@,
                s2 as int,
                n as int,
                o.x as int,
                py_,
            ),
        r matches Some(o) ==> exists|py_: int|
            o.y <= py_ < o.y + o.height && #[trigger] pixel_above(
                img.width as int,
                img.pixels@,
                s2 as int,
                n as int,
                o.x + o.width - 1,
                py_,
            ),
        r matches Some(o) ==> exists|px_: int|
            o.x <= px_ < o.x + o.width && #[trigger] pixel_above(
                img.width as int,
                img.pixels@,
                s2 as int,
                n as int,
                px_,
                o.y as int,
            ),
        r matches Some(o) ==> exists|px_: int|
            o.x <= px_ < o.x + o.width && #[trigger] pixel_above(
                img.width as int,
                img.pixels@,
                s2 as int,
                n as int,
                px_,
                o.y + o.height - 1,
            ),
{
    let ghost w = img.width as int;
    let ghost ps = img.pixels@;
    let mut queue: Vec<(usize, usize)> = Vec::new();
    let mut found = false;
    let mut min_x: usize = x;
    let mut max_x: usize = x;
    let mut min_y: usize = y;
    let mut max_y: usize = y;
    // the column/row of a threshold-clearing pixel on each box edge
    let ghost mut wl: int = 0;
    let ghost mut wr: int = 0;
    let ghost mut wt: int = 0;
    let ghost mut wb: int = 0;
    proof {
        assert(y * img.width + x < img.width * img.height) by (nonlinear_arith)
            requires
                x < img.width,
                y < img.height,
        ;
        old(visited).lemma_len();
    }
    if !visited.get(x, y) {
        visited.set(x, y, true);
    }
    queue.push((x, y));
    proof {
        assert forall|px_: int, py_: int|
            0 <= px_ < img.width && 0 <= py_ < img.height && !old(visited)@[py_ * img.width + px_]
                && visited@[py_ * img.width + px_] && #[trigger] pixel_above(
                w,
                ps,
                s2 as int,
                n as int,
                px_,
                py_,
            ) implies in_queue(queue@, px_, py_) by {
            lemma_pixel_index(w, img.height as int, px_, py_, x as int, y as int);
            if px_ == x && py_ == y {
                assert((#[trigger] queue@[0]).0 == px_ && queue@[0].1 == py_);
            }
        }
    }

    while queue.len() > 0
        invariant
            img.wf(),
            w == img.width as int,
            ps == img.pixels@,
            img.width <= 1000000,
            img.height <= 1000000,
            s2 <= 0x20000000000000,
            n <= 0x10000000000,
            visited.wf(),
            visited.spec_width() == img.width,
            visited.spec_height() == img.height,
            visited@.len() == old(visited)@.len(),
            visited@.len() == img.width * img.height,
            forall|i: int| 0 <= i < old(visited)@.len() && old(visited)@[i] ==> visited@[i],
            y * img.width + x < visited@.len(),
            visited@[y * img.width + x],
            forall|qi: int|
                0 <= qi < queue@.len() ==> (#[trigger] queue@[qi]).0 < img.width && queue@[qi].1
                    < img.height,
            forall|qi: int|
                0 <= qi < queue@.len() ==> (#[trigger] queue@[qi]).1 * img.width + queue@[qi].0
                    < visited@.len() && visited@[queue@[qi].1 * img.width + queue@[qi].0],
            forall|qi: int, qj: int|
                0 <= qi < qj < queue@.len() ==> queue@[qi] != queue@[qj],
            x < img.width,
            y < img.height,
            min_x <= x <= max_x < img.width,
            min_y <= y <= max_y < img.height,
            found ==> above_threshold(img.pixels@[y * img.width + x], s2 as int, n as int),
            found ==> pixel_above(w, ps, s2 as int, n as int, min_x as int, wl) && min_y <= wl
                <= max_y,
            found ==> pixel_above(w, ps, s2 as int, n as int, max_x as int, wr) && min_y <= wr
                <= max_y,
            found ==> pixel_above(w, ps, s2 as int, n as int, wt, min_y as int) && min_x <= wt
                <= max_x,
            found ==> pixel_above(w, ps, s2 as int, n as int, wb, max_y as int) && min_x <= wb
                <= max_x,
            !found ==> min_x == x && max_x == x && min_y == y && max_y == y,
            !found ==> queue@.len() == 0 || (queue@.len() == 1 && queue@[0] == (x, y)),
            !found && queue@.len() == 0 ==> !above_threshold(
                img.pixels@[y * img.width + x],
                s2 as int,
                n as int,
            ),
            forall|px_: int, py_: int|
                0 <= px_ < img.width && 0 <= py_ < img.height && !old(visited)@[py_ * img.width
                    + px_] && visited@[py_ * img.width + px_] && #[trigger] pixel_above(
                    w,
                    ps,
                    s2 as int,
                    n as int,
                    px_,
                    py_,
                ) ==> in_queue(queue@, px_, py_) || (found && min_x <= px_ <= max_x && min_y <= py_
                    <= max_y),
        decreases unvisited(visited@), queue@.len(),
    {
        let ghost pre_queue = queue@;
        let (cx, cy) = queue.pop().unwrap();
        let ghost pre_unvisited = unvisited(visited@);
        let ghost pre_qlen = queue@.len();
        proof {
            assert(cy * img.width + cx < img.width * img.height) by (nonlinear_arith)
                requires
                    cx < img.width,
                    cy < img.height,
            ;
        }
        let flux = img.pixels[cy * img.width + cx];
        if !flux_above(flux, s2, n) {
            proof {
                assert forall|px_: int, py_: int|
                    0 <= px_ < img.width && 0 <= py_ < img.height && !old(visited)@[py_ * img.width
                        + px_] && visited@[py_ * img.width + px_] && #[trigger] pixel_above(
                        w,
                        ps,
                        s2 as int,
                        n as int,
                        px_,
                        py_,
                    ) implies in_queue(queue@, px_, py_) || (found && min_x <= px_ <= max_x
                    && min_y <= py_ <= max_y) by {
                    lemma_pixel_index(w, img.height as int, px_, py_, cx as int, cy as int);
                    if in_queue(pre_queue, px_, py_) {
                        let qi = choose|qi: int|
                            0 <= qi < pre_queue.len() && (#[trigger] pre_queue[qi]).0 == px_
                                && pre_queue[qi].1 == py_;
                        if qi < pre_queue.len() - 1 {
                            assert(queue@[qi].0 == px_ && queue@[qi].1 == py_);
                        }
                    }
                }
            }
            continue;
        }
        if !found {
            found = true;
            min_x = cx;
            max_x = cx;
            min_y = cy;
            max_y = cy;
            proof {
                wl = cy as int;
                wr = cy as int;
                wt = cx as int;
                wb = cx as int;
            }
        } else {
            if cx < min_x {
                min_x = cx;
                proof {
                    wl = cy as int;
                }
            }
            if cx > max_x {
                max_x = cx;
                proof {
                    wr = cy as int;
                }
            }
            if cy < min_y {
                min_y = cy;
                proof {
                    wt = cx as int;
                }
            }
            if cy > max_y {
                max_y = cy;
                proof {
                    wb = cx as int;
                }
            }
        }
        proof {
            assert(pixel_above(w, ps, s2 as int, n as int, cx as int, cy as int));
            assert forall|px_: int, py_: int|
                0 <= px_ < img.width && 0 <= py_ < img.height && !old(visited)@[py_ * img.width
                    + px_] && visited@[py_ * img.width + px_] && #[trigger] pixel_above(
                    w,
                    ps,
                    s2 as int,
                    n as int,
                    px_,
                    py_,
                ) implies in_queue(queue@, px_, py_) || (min_x <= px_ <= max_x && min_y <= py_
                <= max_y) by {
                lemma_pixel_index(w, img.height as int, px_, py_, cx as int, cy as int);
                if in_queue(pre_queue, px_, py_) {
                    let qi = choose|qi: int|
                        0 <= qi < pre_queue.len() && (#[trigger] pre_queue[qi]).0 == px_
                            && pre_queue[qi].1 == py_;
                    if qi < pre_queue.len() - 1 {
                        assert(queue@[qi].0 == px_ && queue@[qi].1 == py_);
                    }
                }
            }
        }
        let mut k: usize = 0;
        while k < 8
            invariant
                k <= 8,
                img.wf(),
                w == img.width as int,
                ps == img.pixels@,
                img.width <= 1000000,
                img.height <= 1000000,
                s2 <= 0x20000000000000,
                n <= 0x10000000000,
                visited.wf(),
                visited.spec_width() == img.width,
                visited.spec_height() == img.height,
                visited@.len() == old(visited)@.len(),
                visited@.len() == img.width * img.height,
                forall|i: int| 0 <= i < old(visited)@.len() && old(visited)@[i] ==> visited@[i],
                y * img.width + x < visited@.len(),
                visited@[y * img.width + x],
                forall|qi: int|
                    0 <= qi < queue@.len() ==> (#[trigger] queue@[qi]).0 < img.width
                        && queue@[qi].1 < img.height,
                forall|qi: int|
                    0 <= qi < queue@.len() ==> (#[trigger] queue@[qi]).1 * img.width + queue@[qi].0
                        < visited@.len() && visited@[queue@[qi].1 * img.width + queue@[qi].0],
                forall|qi: int, qj: int|
                    0 <= qi < qj < queue@.len() ==> queue@[qi] != queue@[qj],
                cx < img.width,
                cy < img.height,
                x < img.width,
                y < img.height,
                min_x <= x <= max_x < img.width,
                min_y <= y <= max_y < img.height,
                min_x <= cx <= max_x,
                min_y <= cy <= max_y,
                found,
                above_threshold(img.pixels@[y * img.width + x], s2 as int, n as int),
                pixel_above(w, ps, s2 as int, n as int, min_x as int, wl) && min_y <= wl <= max_y,
                pixel_above(w, ps, s2 as int, n as int, max_x as int, wr) && min_y <= wr <= max_y,
                pixel_above(w, ps, s2 as int, n as int, wt, min_y as int) && min_x <= wt <= max_x,
                pixel_above(w, ps, s2 as int, n as int, wb, max_y as int) && min_x <= wb <= max_x,
                queue@.len() >= pre_qlen,
                unvisited(visited@) + (queue@.len() - pre_qlen) <= pre_unvisited,
                forall|px_: int, py_: int|
                    0 <= px_ < img.width && 0 <= py_ < img.height && !old(visited)@[py_ * img.width
                        + px_] && visited@[py_ * img.width + px_] && #[trigger] pixel_above(
                        w,
                        ps,
                        s2 as int,
                        n as int,
                        px_,
                        py_,
                    ) ==> in_queue(queue@, px_, py_) || (min_x <= px_ <= max_x && min_y <= py_
                        <= max_y),
            decreases 8 - k,
        {
            let (dx, dy): (i64, i64) = if k == 0 {
                (-1, -1)
            } else if k == 1 {
                (-1, 0)
            } else if k == 2 {
                (-1, 1)
            } else if k == 3 {
                (0, -1)
            } else if k == 4 {
                (0, 1)
            } else if k == 5 {
                (1, -1)
            } else if k == 6 {
                (1, 0)
            } else {
                (1, 1)
            };
            let nxp = cx as i64 + dx;
            let nyp = cy as i64 + dy;
            if 0 <= nxp && nxp < img.width as i64 && 0 <= nyp && nyp < img.height as i64 {
                let ux = nxp as usize;
                let uy = nyp as usize;
                if !visited.get(ux, uy) {
                    proof {
                        assert(uy * img.width as int + ux < img.width * img.height)
                            by (nonlinear_arith)
                            requires
                                ux < img.width,
                                uy < img.height,
                        ;
                        visited.lemma_len();
                        lemma_unvisited_update(visited@, uy * img.width as int + ux);
                    }
                    let ghost mid_queue = queue@;
                    visited.set(ux, uy, true);
                    queue.push((ux, uy));
                    proof {
                        assert((#[trigger] queue@[queue@.len() - 1]).0 == ux && queue@[queue@.len()
                            - 1].1 == uy);
                        assert forall|px_: int, py_: int|
                            0 <= px_ < img.width && 0 <= py_ < img.height && !old(visited)@[py_
                                * img.width + px_] && visited@[py_ * img.width + px_]
                                && #[trigger] pixel_above(
                                w,
                                ps,
                                s2 as int,
                                n as int,
                                px_,
                                py_,
                            ) implies in_queue(queue@, px_, py_) || (min_x <= px_ <= max_x && min_y
                            <= py_ <= max_y) by {
                            lemma_pixel_index(w, img.height as int, px_, py_, ux as int, uy as int);
                            if px_ == ux && py_ == uy {
                                assert(in_queue(queue@, px_, py_));
                            } else if in_queue(mid_queue, px_, py_) {
                                let qi = choose|qi: int|
                                    0 <= qi < mid_queue.len() && (#[trigger] mid_queue[qi]).0 == px_
                                        && mid_queue[qi].1 == py_;
                                assert((#[trigger] queue@[qi]).0 == px_ && queue@[qi].1 == py_);
                            }
                        }
                    }
                }
            }
            k = k + 1;
        }
    }

    if !found {
        return None;
    }
    let obj_width = max_x - min_x + 1;
    let obj_height = max_y - min_y + 1;
    let o = DetectedObject {
        x: min_x,
        y: min_y,
        width: obj_width,
        height: obj_height,
        center_x2: 2 * min_x + obj_width,
        center_y2: 2 * min_y + obj_height,
    };
    proof {
        assert(o.y <= wl < o.y + o.height && pixel_above(w, ps, s2 as int, n as int, o.x as int, wl));
        assert(o.y <= wr < o.y + o.height && pixel_above(
            w,
            ps,
            s2 as int,
            n as int,
            o.x + o.width - 1,
            wr,
        ));
        assert(o.x <= wt < o.x + o.width && pixel_above(w, ps, s2 as int, n as int, wt, o.y as int));
        assert(o.x <= wb < o.x + o.width && pixel_above(
            w,
            ps,
            s2 as int,
            n as int,
            wb,
            o.y + o.height - 1,
        ));
        assert(exists|py_: int|
            o.y <= py_ < o.y + o.height && #[trigger] pixel_above(
                img.width as int,
                img.pixels@,
                s2 as int,
                n as int,
                o.x as int,
                py_,
            ));
        assert(exists|py_: int|
            o.y <= py_ < o.y + o.height && #[trigger] pixel_above(
                img.width as int,
                img.pixels@,
                s2 as int,
                n as int,
                o.x + o.width - 1,
                py_,
            ));
        assert(exists|px_: int|
            o.x <= px_ < o.x + o.width && #[trigger] pixel_above(
                img.width as int,
                img.pixels@,
                s2 as int,
                n as int,
                px_,
                o.y as int,
            ));
        assert(exists|px_: int|
            o.x <= px_ < o.x + o.width && #[trigger] pixel_above(
                img.width as int,
                img.pixels@,
                s2 as int,
                n as int,
                px_,
                o.y + o.height - 1,
            ));
    }
    Some(o)
}

/// Some returned object's box holds the pixel (px, py).
pub open spec fn covered(objs: Seq<DetectedObject>, px_: int, py_: int) -> bool {
    exists|i: int| 0 <= i < objs.len() && object_contains(#[trigger] objs[i], px_, py_)
}

/// The object's box holds a pixel that clears the threshold.
pub open spec fn object_witnessed(w: int, ps: Seq<u8>, s2: int, n: int, o: DetectedObject) -> bool {
    exists|px_: int, py_: int|
        o.x <= px_ < o.x + o.width && o.y <= py_ < o.y + o.height && #[trigger] pixel_above(
            w,
            ps,
            s2,
            n,
            px_,
            py_,
        )
}

/// Scans the whole image and grows one component from every yet unvisited
/// pixel that clears the threshold. Every returned object satisfies the
/// object invariants and its box holds a pixel above the threshold; every
/// pixel above the threshold lies in some returned object's box (so nothing
/// is returned exactly when no pixel clears the threshold); and at most one
/// object is returned per pixel scanned.
#[verifier::rlimit(80)]
pub fn find_objects(img: &Image, s2: u64, n: u64) -> (objs: Vec<DetectedObject>)
    requires
        img.wf(),
        img.width <= 1000000,
        img.height <= 1000000,
        s2 <= 0x20000000000000,
        n <= 0x10000000000,
    ensures
        objs@.len() <= img.width * img.height,
        forall|i: int|
            0 <= i < objs@.len() ==> object_wf(
                #[trigger] objs@[i],
                img.width as int,
                img.height as int,
            ),
        forall|i: int|
            0 <= i < objs@.len() ==> object_witnessed(
                img.width as int,
                img.pixels@,
                s2 as int,
                n as int,
                #[trigger] objs@[i],
            ),
        forall|px_: int, py_: int|
            0 <= px_ < img.width && 0 <= py_ < img.height && #[trigger] pixel_above(
                img.width as int,
                img.pixels@,
                s2 as int,
                n as int,
                px_,
                py_,
            ) ==> covered(objs@, px_, py_),
        (forall|x: int, y: int|
            0 <= x < img.width && 0 <= y < img.height ==> !pixel_above(
                img.width as int,
                img.pixels@,
                s2 as int,
                n as int,
                x,
                y,
            )) ==> objs@.len() == 0,
{
    let ghost w = img.width as int;
    let ghost h = img.height as int;
    let ghost ps = img.pixels@;
    let mut visited = BitMatrix::new(img.width, img.height);
    let mut objs: Vec<DetectedObject> = Vec::new();
    proof {
        assert forall|px_: int, py_: int| 0 <= px_ < w && 0 <= py_ < h implies !(
        #[trigger] visited@[py_ * w + px_]) by {
            lemma_pixel_index(w, h, px_, py_, px_, py_);
        }
    }
    let mut x: usize = 0;
    while x < img.width
        invariant
            img.wf(),
            w == img.width as int,
            h == img.height as int,
            ps == img.pixels@,
            img.width <= 1000000,
            img.height <= 1000000,
            s2 <= 0x20000000000000,
            n <= 0x10000000000,
            x <= img.width,
            visited.wf(),
            visited.spec_width() == img.width,
            visited.spec_height() == img.height,
            visited@.len() == img.width * img.height,
            objs@.len() <= x * h,
            forall|px_: int, py_: int|
                0 <= px_ < x && 0 <= py_ < h ==> #[trigger] visited@[py_ * w + px_],
            forall|px_: int, py_: int|
                0 <= px_ < w && 0 <= py_ < h && #[trigger] visited@[py_ * w + px_]
                    && pixel_above(w, ps, s2 as int, n as int, px_, py_) ==> covered(
                    objs@,
                    px_,
                    py_,
                ),
            forall|i: int|
                0 <= i < objs@.len() ==> object_wf(#[trigger] objs@[i], w, h),
            forall|i: int|
                0 <= i < objs@.len() ==> object_witnessed(
                    w,
                    ps,
                    s2 as int,
                    n as int,
                    #[trigger] objs@[i],
                ),
        decreases img.width - x,
    {
        let mut y: usize = 0;
        while y < img.height
            invariant
                img.wf(),
                w == img.width as int,
                h == img.height as int,
                ps == img.pixels@,
                img.width <= 1000000,
                img.height <= 1000000,
                s2 <= 0x20000000000000,
                n <= 0x10000000000,
                x < img.width,
                y <= img.height,
                visited.wf(),
                visited.spec_width() == img.width,
                visited.spec_height() == img.height,
                visited@.len() == img.width * img.height,
                objs@.len() <= x * h + y,
                forall|px_: int, py_: int|
                    0 <= px_ < x && 0 <= py_ < h ==> #[trigger] visited@[py_ * w + px_],
                forall|py_: int| 0 <= py_ < y ==> #[trigger] visited@[py_ * w + x],
                forall|px_: int, py_: int|
                    0 <= px_ < w && 0 <= py_ < h && #[trigger] visited@[py_ * w + px_]
                        && pixel_above(w, ps, s2 as int, n as int, px_, py_) ==> covered(
                        objs@,
                        px_,
                        py_,
                    ),
                forall|i: int|
                    0 <= i < objs@.len() ==> object_wf(#[trigger] objs@[i], w, h),
                forall|i: int|
                    0 <= i < objs@.len() ==> object_witnessed(
                        w,
                        ps,
                        s2 as int,
                        n as int,
                        #[trigger] objs@[i],
                    ),
            decreases img.height - y,
        {
            proof {
                lemma_pixel_index(w, h, x as int, y as int, x as int, y as int);
            }
            if !visited.get(x, y) {
                visited.set(x, y, true);
                proof {
                    assert forall|px_: int, py_: int|
                        0 <= px_ < w && 0 <= py_ < h && #[trigger] visited@[py_ * w + px_]
                            && pixel_above(w, ps, s2 as int, n as int, px_, py_) && !(px_ == x
                            && py_ == y) implies covered(objs@, px_, py_) by {
                        lemma_pixel_index(w, h, px_, py_, x as int, y as int);
                    }
                }
                let flux = img.pixels[y * img.width + x];
                if flux_above(flux, s2, n) {
                    let ghost pre_call = visited@;
                    let ghost pre_objs = objs@;
                    match find_object(img, x, y, s2, n, &mut visited) {
                        Some(o) => {
                            objs.push(o);
                            proof {
                                assert(pixel_above(w, ps, s2 as int, n as int, x as int, y as int));
                                assert(objs@[objs@.len() - 1] == o);
                                assert(object_contains(o, x as int, y as int));
                                assert forall|i: int| 0 <= i < objs@.len() implies object_witnessed(
                                    w,
                                    ps,
                                    s2 as int,
                                    n as int,
                                    #[trigger] objs@[i],
                                ) by {
                                    if i < pre_objs.len() {
                                        assert(objs@[i] == pre_objs[i]);
                                    } else {
                                        assert(objs@[i] == o);
                                        assert(o.x <= x as int && (x as int) < o.x + o.width
                                            && o.y <= y as int && (y as int) < o.y + o.height
                                            && pixel_above(
                                            w,
                                            ps,
                                            s2 as int,
                                            n as int,
                                            x as int,
                                            y as int,
                                        ));
                                    }
                                }
                                assert forall|px_: int, py_: int|
                                    0 <= px_ < w && 0 <= py_ < h && #[trigger] visited@[py_ * w
                                        + px_] && pixel_above(
                                        w,
                                        ps,
                                        s2 as int,
                                        n as int,
                                        px_,
                                        py_,
                                    ) implies covered(objs@, px_, py_) by {
                                    lemma_pixel_index(w, h, px_, py_, x as int, y as int);
                                    if pre_call[py_ * w + px_] {
                                        if px_ == x && py_ == y {
                                            assert(object_contains(
                                                objs@[objs@.len() - 1],
                                                px_,
                                                py_,
                                            ));
                                        } else {
                                            assert(covered(pre_objs, px_, py_));
                                            let i = choose|i: int|
                                                0 <= i < pre_objs.len() && object_contains(
                                                    #[trigger] pre_objs[i],
                                                    px_,
                                                    py_,
                                                );
                                            assert(object_contains(objs@[i], px_, py_));
                                        }
                                    } else {
                                        assert(object_contains(objs@[objs@.len() - 1], px_, py_));
                                    }
                                }
                            }
                        },
                        None => {},
                    }
                }
            }
            proof {
                assert(visited@[y * w + x]);
                assert forall|px_: int, py_: int|
                    0 <= px_ < x && 0 <= py_ < h implies #[trigger] visited@[py_ * w + px_] by {
                    lemma_pixel_index(w, h, px_, py_, x as int, y as int);
                }
                assert forall|py_: int| 0 <= py_ < y + 1 implies #[trigger] visited@[py_ * w
                    + x] by {
                    lemma_pixel_index(w, h, x as int, py_, x as int, y as int);
                }
            }
            y = y + 1;
        }
        x = x + 1;
        proof {
            assert(x * h == (x - 1) * h + h) by (nonlinear_arith);
        }
    }
    proof {
        assert(objs@.len() <= img.width * h) by (nonlinear_arith)
            requires
                objs@.len() <= img.width as int * h,
        ;
        assert forall|px_: int, py_: int|
            0 <= px_ < img.width && 0 <= py_ < img.height && #[trigger] pixel_above(
                img.width as int,
                img.pixels@,
                s2 as int,
                n as int,
                px_,
                py_,
            ) implies covered(objs@, px_, py_) by {
            lemma_pixel_index(w, h, px_, py_, px_, py_);
            assert(visited@[py_ * w + px_]);
            assert(pixel_above(w, ps, s2 as int, n as int, px_, py_));
        }
        if objs@.len() > 0 {
            assert(object_witnessed(w, ps, s2 as int, n as int, objs@[0]));
            let (px_, py_) = choose|px_: int, py_: int|
                objs@[0].x <= px_ < objs@[0].x + objs@[0].width && objs@[0].y <= py_ < objs@[0].y
                    + objs@[0].height && #[trigger] pixel_above(w, ps, s2 as int, n as int, px_, py_);
            assert(pixel_above(img.width as int, img.pixels@, s2 as int, n as int, px_, py_));
            assert(0 <= px_ < img.width && 0 <= py_ < img.height);
        }
    }
    objs
}

/// Whether cell (x, y) of a rectangular grid strictly exceeds all eight of
/// its in-bounds neighbors.
pub open spec fn neighbor_below(g: Seq<Seq<u8>>, x: int, y: int, k: int) -> bool {
    let nx = x + noff(k).0;
    let ny = y + noff(k).1;
    !(0 <= nx < g[0].len() && 0 <= ny < g.len()) || g[ny][nx] < g[y][x]
}

pub open spec fn peak_at(g: Seq<Seq<u8>>, x: int, y: int) -> bool {
    forall|k: int| 0 <= k < 8 ==> #[trigger] neighbor_below(g, x, y, k)
}

/// Tests whether the pixel at (x, y) of a rectangular grid is a strict local
/// maximum over its 8-neighborhood.
pub fn is_peak(pixels: &Vec<Vec<u8>>, x: usize, y: usize) -> (r: bool)
    requires
        0 < pixels@.len() <= 1000000,
        forall|row: int|
            0 <= row < pixels@.len() ==> (#[trigger] pixels@[row])@.len() == pixels@[0]@.len(),
        0 < pixels@[0]@.len() <= 1000000,
        x < pixels@[0]@.len(),
        y < pixels@.len(),
    ensures
        r == peak_at(pixels@.map_values(|row: Vec<u8>| row@), x as int, y as int),
{
    let ghost g = pixels@.map_values(|row: Vec<u8>| row@);
    let center = pixels[y][x];
    let mut k: usize = 0;
    while k < 8
        invariant
            k <= 8,
            g == pixels@.map_values(|row: Vec<u8>| row@),
            0 < pixels@.len() <= 1000000,
            forall|row: int|
                0 <= row < pixels@.len() ==> (#[trigger] pixels@[row])@.len() == pixels@[0]@.len(),
            0 < pixels@[0]@.len() <= 1000000,
            x < pixels@[0]@.len(),
            y < pixels@.len(),
            center == g[y as int][x as int],
            forall|kk: int| 0 <= kk < k ==> #[trigger] neighbor_below(g, x as int, y as int, kk),
        decreases 8 - k,
    {
        let (dx, dy): (i64, i64) = if k == 0 {
            (-1, -1)
        } else if k == 1 {
            (-1, 0)
        } else if k == 2 {
            (-1, 1)
        } else if k == 3 {
            (0, -1)
        } else if k == 4 {
            (0, 1)
        } else if k == 5 {
            (1, -1)
        } else if k == 6 {
            (1, 0)
        } else {
            (1, 1)
        };
        let nxp = x as i64 + dx;
        let nyp = y as i64 + dy;
        assert(noff(k as int) == (dx as int, dy as int));
        if 0 <= nxp && nxp < pixels[0].len() as i64 && 0 <= nyp && nyp < pixels.len() as i64 {
            if pixels[nyp as usize][nxp as usize] >= center {
                assert(!neighbor_below(g, x as int, y as int, k as int));
                return false;
            }
        }
        k = k + 1;
    }
    true
}

/// The full extraction pipeline on an in-memory grayscale image: flatten the
/// background with a median filter of radius 100, estimate the noise of the
/// flattened image, and collect the connected components above eight times
/// the noise. Every object's box is inside the image, at least one pixel
/// wide and tall, holds its half-pixel centroid, and holds a pixel of the
/// flattened image that clears the threshold; every flattened pixel that
/// clears the threshold lies in some object's box, so a flattened image with
/// no such pixel yields no objects.
pub fn extract_sources(img: &Image) -> (objs: Vec<DetectedObject>)
    requires
        img.wf(),
        img.width <= 1000000,
        img.height <= 1000000,
    ensures
        objs@.len() <= img.width * img.height,
        ({
            let sub = subtracted(
                img.pixels@,
                median_filtered(img.width, img.height, img.pixels@, 100),
            );
            let st = noise_stats(img.width as int, img.height as int, sub);
            &&& forall|i: int|
                0 <= i < objs@.len() ==> object_wf(
                    #[trigger] objs@[i],
                    img.width as int,
                    img.height as int,
                )
            &&& forall|i: int|
                0 <= i < objs@.len() ==> object_witnessed(
                    img.width as int,
                    sub,
                    st.0,
                    st.1,
                    #[trigger] objs@[i],
                )
            &&& forall|px_: int, py_: int|
                0 <= px_ < img.width && 0 <= py_ < img.height && #[trigger] pixel_above(
                    img.width as int,
                    sub,
                    st.0,
                    st.1,
                    px_,
                    py_,
                ) ==> covered(objs@, px_, py_)
            &&& (forall|x: int, y: int|
                0 <= x < img.width && 0 <= y < img.height ==> !pixel_above(
                    img.width as int,
                    sub,
                    st.0,
                    st.1,
                    x,
                    y,
                )) ==> objs@.len() == 0
        }),
{
    let smoothed = median_smooth(img, 100);
    let (s2, n) = calculate_noise(&smoothed);
    proof {
        lemma_grid_stats_bounds(
            smoothed.width as int,
            smoothed.height as int,
            smoothed.pixels@,
            grid_cols(smoothed.width as int),
        );
        assert(8 * grid_cols(smoothed.width as int) * grid_rows(smoothed.height as int)
            <= 80000000000) by (nonlinear_arith)
            requires
                0 <= grid_cols(smoothed.width as int) <= 100000,
                0 <= grid_rows(smoothed.height as int) <= 100000,
        ;
    }
    find_objects(&smoothed, s2, n)
}

} // verus!
