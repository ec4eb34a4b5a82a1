//! Cutting a raster into horizontal bands, one per worker.
//!
//! A raster of `height` rows is shared among `workers` workers in bands of
//! `ceil(height / workers)` rows each. The last band takes the rows that are
//! left, so it may be shorter than the others but never empty; when there are
//! fewer rows than workers, there are fewer bands than workers.

use vstd::arithmetic::div_mod::{
    lemma_fundamental_div_mod,
    lemma_fundamental_div_mod_converse,
    lemma_mod_pos_bound,
};
use vstd::prelude::*;
use crate::raster::pixel_index;

verus! {

/// A run of whole rows of the raster: `rows` rows, the first of which is row
/// `top`.
#[derive(Clone, Copy, Debug, PartialEq, Eq, Structural)]
pub struct Band {
    pub top: usize,
    pub rows: usize,
}

impl Band {
    /// Whether `row` is one of the band's rows.
    pub open spec fn covers(self, row: int) -> bool {
        self.top <= row < self.top + self.rows
    }

    /// The number of pixels of the band in a raster of the given width.
    pub open spec fn area(self, width: int) -> int {
        self.rows * width
    }

    /// The place of the band's first pixel in the buffer of a raster of the
    /// given width.
    pub open spec fn start(self, width: int) -> int {
        self.top * width
    }

    /// Computes the place of the band's first pixel in the buffer of the
    /// whole raster.
    pub fn offset(&self, width: usize) -> (offset: usize)
        requires
            self.start(width as int) <= usize::MAX,
        ensures
            offset == self.start(width as int),
    {
        self.top * width
    }

    /// Computes the number of pixels of the band, which is the length of its
    /// part of the buffer.
    pub fn length(&self, width: usize) -> (length: usize)
        requires
            self.area(width as int) <= usize::MAX,
        ensures
            length == self.area(width as int),
    {
        self.rows * width
    }

    /// The band's own geometry: the width of the raster, and the band's rows.
    pub fn bords(&self, width: usize) -> (bords: (usize, usize))
        ensures
            bords == (width, self.rows),
    {
        (width, self.rows)
    }
}

/// The rows given to each band but the last: `height / workers`, rounded up.
pub open spec fn band_height(height: int, workers: int) -> int {
    (height + workers - 1) / workers
}

/// The number of bands: as many bands of `band_height` rows as it takes to
/// hold `height` rows.
pub open spec fn band_count(height: int, workers: int) -> int {
    let per = band_height(height, workers);
    if per <= 0 {
        0
    } else {
        (height + per - 1) / per
    }
}

/// The first row of band `k`.
pub open spec fn band_top(height: int, workers: int, k: int) -> int {
    k * band_height(height, workers)
}

/// The number of rows of band `k`: a full band, or what is left of the raster
/// below the band's first row if that is less.
pub open spec fn band_rows(height: int, workers: int, k: int) -> int {
    let per = band_height(height, workers);
    let left = height - k * per;
    if left < per {
        left
    } else {
        per
    }
}

/// The bands of a raster of `height` rows shared among `workers` workers,
/// from the top of the raster down.
pub open spec fn band_plan(height: usize, workers: usize) -> Seq<Band> {
    Seq::new(
        band_count(height as int, workers as int) as nat,
        |k: int|
            Band {
                top: band_top(height as int, workers as int, k) as usize,
                rows: band_rows(height as int, workers as int, k) as usize,
            },
    )
}

/// Rounding a quotient up: `q = (h + d - 1) / d` is the number with
/// `(q - 1) * d < h <= q * d`.
proof fn lemma_round_up(h: int, d: int)
    requires
        h >= 0,
        d >= 1,
    ensures
        ((h + d - 1) / d - 1) * d < h <= ((h + d - 1) / d) * d,
{
    let x = h + d - 1;
    let c = x / d;
    lemma_fundamental_div_mod(x, d);
    lemma_mod_pos_bound(x, d);
    assert(d * c == c * d) by (nonlinear_arith);
    assert((c - 1) * d == c * d - d) by (nonlinear_arith);
}

/// A raster with rows has bands of at least one row, and at least one band.
proof fn lemma_bands_exist(height: int, workers: int)
    requires
        height >= 1,
        workers >= 1,
    ensures
        band_height(height, workers) >= 1,
        band_count(height, workers) >= 1,
{
    lemma_round_up(height, workers);
    let per = band_height(height, workers);
    if per <= 0 {
        assert(per * workers <= 0) by (nonlinear_arith)
            requires
                per <= 0,
                workers >= 1,
        ;
    }
    lemma_round_up(height, per);
    let count = band_count(height, workers);
    if count <= 0 {
        assert(count * per <= 0) by (nonlinear_arith)
            requires
                count <= 0,
                per >= 1,
        ;
    }
}

/// Band `k` lies in the plan exactly when its first row lies in the raster.
proof fn lemma_band_in_plan(height: int, workers: int, k: int)
    requires
        height >= 0,
        workers >= 1,
        k >= 0,
    ensures
        k < band_count(height, workers) <==> band_top(height, workers, k) < height,
        k < band_count(height, workers) ==> 1 <= band_rows(height, workers, k) <= band_height(
            height,
            workers,
        ),
        k < band_count(height, workers) ==> band_top(height, workers, k) + band_rows(
            height,
            workers,
            k,
        ) <= height,
{
    let per = band_height(height, workers);
    let count = band_count(height, workers);
    if height == 0 {
        lemma_round_up(height, workers);
        assert(per * workers >= 0 && (per - 1) * workers < 0);
        if per >= 1 {
            assert((per - 1) * workers >= 0) by (nonlinear_arith)
                requires
                    per >= 1,
                    workers >= 1,
            ;
        }
        if per < 0 {
            assert(per * workers < 0) by (nonlinear_arith)
                requires
                    per < 0,
                    workers >= 1,
            ;
        }
        assert(per == 0);
        assert(k * per == 0) by (nonlinear_arith)
            requires
                per == 0,
        ;
    } else {
        lemma_bands_exist(height, workers);
        lemma_round_up(height, per);
        if k < count {
            assert(k * per <= (count - 1) * per) by (nonlinear_arith)
                requires
                    k <= count - 1,
                    per >= 1,
            ;
        } else {
            assert(k * per >= count * per) by (nonlinear_arith)
                requires
                    k >= count,
                    per >= 1,
            ;
        }
    }
}

/// Computes the rows given to each band but the last.
pub fn rows_per_band(height: usize, workers: usize) -> (per: usize)
    requires
        workers >= 1,
    ensures
        per == band_height(height as int, workers as int),
        per <= height,
{
    let whole = height / workers;
    let left = height % workers;
    proof {
        let h = height as int;
        let w = workers as int;
        lemma_fundamental_div_mod(h, w);
        lemma_mod_pos_bound(h, w);
        assert(w * (h / w) == (h / w) * w) by (nonlinear_arith);
        assert((h / w) * w >= h / w) by (nonlinear_arith)
            requires
                h / w >= 0,
                w >= 1,
        ;
        if left == 0 {
            lemma_fundamental_div_mod_converse(h + w - 1, w, h / w, w - 1);
        } else {
            assert((h / w + 1) * w == (h / w) * w + w) by (nonlinear_arith);
            lemma_fundamental_div_mod_converse(h + w - 1, w, h / w + 1, left - 1);
        }
    }
    if left == 0 {
        whole
    } else {
        whole + 1
    }
}

/// Cuts a raster of `height` rows into the bands of its plan, from the top
/// down. A raster without rows has no bands.
pub fn partition(height: usize, workers: usize) -> (bands: Vec<Band>)
    requires
        workers >= 1,
    ensures
        bands@ == band_plan(height, workers),
{
    let per = rows_per_band(height, workers);
    let mut bands: Vec<Band> = Vec::new();
    let mut top: usize = 0;
    proof {
        lemma_band_in_plan(height as int, workers as int, 0);
    }
    while top < height
        invariant
            workers >= 1,
            per == band_height(height as int, workers as int),
            top <= height,
            top < height ==> top == band_top(height as int, workers as int, bands@.len() as int),
            top == height ==> bands@.len() == band_count(height as int, workers as int),
            bands@.len() <= band_count(height as int, workers as int),
            forall|k: int|
                0 <= k < bands@.len() ==> #[trigger] bands@[k] == band_plan(height, workers)[k],
        decreases height - top,
    {
        let ghost k = bands@.len() as int;
        proof {
            lemma_band_in_plan(height as int, workers as int, k);
            lemma_band_in_plan(height as int, workers as int, k + 1);
            assert((k + 1) * per == k * per + per) by (nonlinear_arith);
        }
        let left = height - top;
        let rows = if left < per {
            left
        } else {
            per
        };
        bands.push(Band { top, rows });
        top = top + rows;
    }
    assert(bands@ =~= band_plan(height, workers));
    bands
}

/// Whether some band holds `row`.
pub open spec fn covered(bands: Seq<Band>, row: int) -> bool {
    exists|k: int| 0 <= k < bands.len() && #[trigger] bands[k].covers(row)
}

/// Whether the bands tile a raster of `height` rows: the rows that some band
/// holds are the rows of the raster, and no row is held by two bands.
pub open spec fn tiles(bands: Seq<Band>, height: int) -> bool {
    &&& forall|row: int| 0 <= row < height <==> #[trigger] covered(bands, row)
    &&& forall|j: int, k: int, row: int|
        0 <= j < bands.len() && 0 <= k < bands.len() && #[trigger] bands[j].covers(row)
            && #[trigger] bands[k].covers(row) ==> j == k
}

/// The number of pixels in all the bands together, in a raster of the given
/// width.
pub open spec fn total_area(bands: Seq<Band>, width: int) -> int
    decreases bands.len(),
{
    if bands.len() == 0 {
        0
    } else {
        total_area(bands.drop_last(), width) + bands.last().area(width)
    }
}

/// The plan holds at most one band per worker, and at least one band if the
/// raster has rows. Every band has at least one row; every band but the last
/// has `band_height` rows, and the last has no more. The first band begins
/// with the raster, each other band begins where the one before it ends, and
/// the last band ends with the raster.
pub proof fn lemma_plan_shape(height: usize, workers: usize)
    requires
        workers >= 1,
    ensures
        band_plan(height, workers).len() <= workers,
        height >= 1 ==> band_plan(height, workers).len() >= 1,
        forall|k: int|
            0 <= k < band_plan(height, workers).len() ==> 1 <= (#[trigger] band_plan(
                height,
                workers,
            )[k]).rows <= band_height(height as int, workers as int),
        forall|k: int|
            0 <= k < band_plan(height, workers).len() - 1 ==> (#[trigger] band_plan(
                height,
                workers,
            )[k]).rows == band_height(height as int, workers as int),
        forall|k: int|
            0 <= k < band_plan(height, workers).len() - 1 ==> band_plan(height, workers)[k
                + 1].top == (#[trigger] band_plan(height, workers)[k]).top + band_plan(
                height,
                workers,
            )[k].rows,
        band_plan(height, workers).len() >= 1 ==> band_plan(height, workers).first().top == 0
            && band_plan(height, workers).last().top + band_plan(height, workers).last().rows
            == height,
{
    let h = height as int;
    let w = workers as int;
    let plan = band_plan(height, workers);
    let per = band_height(h, w);
    let count = band_count(h, w);
    lemma_band_in_plan(h, w, 0);
    if height >= 1 {
        lemma_bands_exist(h, w);
        lemma_round_up(h, w);
        lemma_round_up(h, per);
        if count > w {
            assert((count - 1) * per >= w * per) by (nonlinear_arith)
                requires
                    count - 1 >= w,
                    per >= 1,
            ;
            assert(w * per == per * w) by (nonlinear_arith);
        }
        lemma_band_in_plan(h, w, count - 1);
        lemma_band_in_plan(h, w, count);
        assert(count * per == (count - 1) * per + per) by (nonlinear_arith);
    }
    assert forall|k: int| 0 <= k < plan.len() implies 1 <= (#[trigger] plan[k]).rows <= per by {
        lemma_band_in_plan(h, w, k);
    }
    assert forall|k: int| 0 <= k < plan.len() - 1 implies (#[trigger] plan[k]).rows == per
        && plan[k + 1].top == plan[k].top + plan[k].rows by {
        lemma_band_in_plan(h, w, k);
        lemma_band_in_plan(h, w, k + 1);
        assert((k + 1) * per == k * per + per) by (nonlinear_arith);
    }
}

/// The band of the plan that holds `row`.
pub open spec fn band_of_row(height: int, workers: int, row: int) -> int {
    row / band_height(height, workers)
}

/// A row of the raster lies in the band that `band_of_row` names.
proof fn lemma_band_of_row(height: usize, workers: usize, row: int)
    requires
        workers >= 1,
        0 <= row < height,
    ensures
        0 <= band_of_row(height as int, workers as int, row) < band_plan(height, workers).len(),
        band_plan(height, workers)[band_of_row(height as int, workers as int, row)].covers(row),
{
    let h = height as int;
    let w = workers as int;
    let per = band_height(h, w);
    let k = row / per;
    lemma_bands_exist(h, w);
    lemma_fundamental_div_mod(row, per);
    lemma_mod_pos_bound(row, per);
    assert(per * k == k * per) by (nonlinear_arith);
    if k < 0 {
        assert(k * per <= -per) by (nonlinear_arith)
            requires
                k <= -1,
                per >= 1,
        ;
    }
    lemma_band_in_plan(h, w, k);
}

/// The bands of the plan tile the raster, whether or not the height is a
/// multiple of the number of workers: every row of the raster lies in one
/// band and in no other, and no band holds a row outside the raster.
pub proof fn lemma_plan_tiles(height: usize, workers: usize)
    requires
        workers >= 1,
    ensures
        tiles(band_plan(height, workers), height as int),
{
    let h = height as int;
    let w = workers as int;
    let plan = band_plan(height, workers);
    let per = band_height(h, w);
    assert forall|row: int| 0 <= row < h implies #[trigger] covered(plan, row) by {
        lemma_band_of_row(height, workers, row);
        assert(plan[band_of_row(h, w, row)].covers(row));
    }
    assert forall|row: int| #[trigger] covered(plan, row) implies 0 <= row < h by {
        let k = choose|k: int| 0 <= k < plan.len() && #[trigger] plan[k].covers(row);
        lemma_band_in_plan(h, w, k);
    }
    assert forall|j: int, k: int, row: int|
        0 <= j < plan.len() && 0 <= k < plan.len() && #[trigger] plan[j].covers(row)
            && #[trigger] plan[k].covers(row) implies j == k by {
        lemma_band_in_plan(h, w, j);
        lemma_band_in_plan(h, w, k);
        if j < k {
            assert(k * per >= (j + 1) * per) by (nonlinear_arith)
                requires
                    k >= j + 1,
                    per >= 1,
            ;
            assert((j + 1) * per == j * per + per) by (nonlinear_arith);
        } else if k < j {
            assert(j * per >= (k + 1) * per) by (nonlinear_arith)
                requires
                    j >= k + 1,
                    per >= 1,
            ;
            assert((k + 1) * per == k * per + per) by (nonlinear_arith);
        }
    }
}

/// The first `n` bands of the plan hold, together, all the pixels of the rows
/// above the place where band `n` begins or, once the plan is complete, all
/// the pixels of the raster.
proof fn lemma_prefix_area(height: usize, workers: usize, width: int, n: int)
    requires
        workers >= 1,
        0 <= n <= band_plan(height, workers).len(),
    ensures
        total_area(band_plan(height, workers).subrange(0, n), width) == (if n == band_plan(
            height,
            workers,
        ).len() {
            height as int
        } else {
            band_top(height as int, workers as int, n)
        }) * width,
    decreases n,
{
    let h = height as int;
    let w = workers as int;
    let plan = band_plan(height, workers);
    let per = band_height(h, w);
    let prefix = plan.subrange(0, n);
    if n == 0 {
        lemma_band_in_plan(h, w, 0);
        assert(0 * per == 0) by (nonlinear_arith);
        assert(0 * width == 0) by (nonlinear_arith);
    } else {
        lemma_prefix_area(height, workers, width, n - 1);
        assert(prefix.drop_last() =~= plan.subrange(0, n - 1));
        assert(prefix.last() == plan[n - 1]);
        lemma_band_in_plan(h, w, n - 1);
        lemma_band_in_plan(h, w, n);
        assert(n * per == (n - 1) * per + per) by (nonlinear_arith);
        let before = band_top(h, w, n - 1);
        let rows = band_rows(h, w, n - 1);
        assert((before + rows) * width == before * width + rows * width) by (nonlinear_arith);
    }
}

/// The bands of the plan hold, together, as many pixels as the raster has:
/// its width times its height, for any number of workers.
pub proof fn lemma_plan_area(bords: (usize, usize), workers: usize)
    requires
        workers >= 1,
    ensures
        total_area(band_plan(bords.1, workers), bords.0 as int) == bords.0 * bords.1,
{
    let plan = band_plan(bords.1, workers);
    lemma_prefix_area(bords.1, workers, bords.0 as int, plan.len() as int);
    assert(plan.subrange(0, plan.len() as int) =~= plan);
    assert(bords.1 * bords.0 == bords.0 * bords.1) by (nonlinear_arith);
}

/// A band's part of the buffer lies inside the buffer of the raster, and a
/// pixel has the same place in it, counted from the band's first pixel, as it
/// has in the buffer of the whole raster.
pub proof fn lemma_band_pixel_place(bords: (usize, usize), band: Band, col: int, row: int)
    requires
        band.top + band.rows <= bords.1,
        0 <= col < bords.0,
        0 <= row < band.rows,
    ensures
        0 <= band.start(bords.0 as int),
        band.start(bords.0 as int) + band.area(bords.0 as int) <= bords.0 * bords.1,
        0 <= pixel_index(bords.0 as int, col, row) < band.area(bords.0 as int),
        band.start(bords.0 as int) + pixel_index(bords.0 as int, col, row) == pixel_index(
            bords.0 as int,
            col,
            band.top + row,
        ),
{
    let width = bords.0 as int;
    let top = band.top as int;
    let rows = band.rows as int;
    crate::raster::lemma_pixel_index_in_buffer(width, rows, col, row);
    assert(rows * width == width * rows) by (nonlinear_arith);
    assert(top * width >= 0) by (nonlinear_arith)
        requires
            top >= 0,
            width >= 0,
    ;
    assert((top + rows) * width == top * width + rows * width) by (nonlinear_arith);
    assert((top + rows) * width <= bords.1 * width) by (nonlinear_arith)
        requires
            top + rows <= bords.1,
            width >= 0,
    ;
    assert(bords.1 * width == width * bords.1) by (nonlinear_arith);
    assert((top + row) * width == top * width + row * width) by (nonlinear_arith);
}

/// Cutting the raster into bands moves no pixel, however many workers there
/// are: the row of a pixel lies in band `band_of_row` of the plan and in no
/// other, and the pixel's place in that band's part of the buffer, counted
/// from where the part starts, is its place in the buffer of the whole raster.
pub proof fn lemma_plan_keeps_places(bords: (usize, usize), workers: usize, col: int, row: int)
    requires
        workers >= 1,
        0 <= col < bords.0,
        0 <= row < bords.1,
    ensures
        ({
            let plan = band_plan(bords.1, workers);
            let k = band_of_row(bords.1 as int, workers as int, row);
            &&& 0 <= k < plan.len()
            &&& plan[k].covers(row)
            &&& forall|j: int| 0 <= j < plan.len() && #[trigger] plan[j].covers(row) ==> j == k
            &&& plan[k].start(bords.0 as int) + pixel_index(
                bords.0 as int,
                col,
                row - plan[k].top,
            ) == pixel_index(bords.0 as int, col, row)
            &&& 0 <= pixel_index(bords.0 as int, col, row - plan[k].top) < plan[k].area(
                bords.0 as int,
            )
        }),
{
    let plan = band_plan(bords.1, workers);
    let k = band_of_row(bords.1 as int, workers as int, row);
    lemma_band_of_row(bords.1, workers, row);
    lemma_plan_tiles(bords.1, workers);
    lemma_band_in_plan(bords.1 as int, workers as int, k);
    lemma_band_pixel_place(bords, plan[k], col, row - plan[k].top);
}

/// Whether `mapper` accepts the two corners of `band` in the geometry and
/// viewport of the whole raster.
pub open spec fn can_derive<P, M>(
    mapper: M,
    bords: (usize, usize),
    band: Band,
    upper_left: P,
    lower_right: P,
) -> bool where M: Fn((usize, usize), (usize, usize), P, P) -> P {
    &&& mapper.requires((bords, (0usize, band.top), upper_left, lower_right))
    &&& mapper.requires(
        (bords, (bords.0, (band.top + band.rows) as usize), upper_left, lower_right),
    )
}

/// Whether `corners` is a viewport of `band`: its upper-left corner is a
/// point that `mapper` gave, in the geometry and viewport of the whole
/// raster, for column 0 of the band's first row, and its lower-right corner
/// one that it gave for the column just past the last one, in the row just
/// past the band's last.
pub open spec fn is_band_viewport<P, M>(
    mapper: M,
    bords: (usize, usize),
    band: Band,
    upper_left: P,
    lower_right: P,
    corners: (P, P),
) -> bool where M: Fn((usize, usize), (usize, usize), P, P) -> P {
    &&& mapper.ensures((bords, (0usize, band.top), upper_left, lower_right), corners.0)
    &&& mapper.ensures(
        (bords, (bords.0, (band.top + band.rows) as usize), upper_left, lower_right),
        corners.1,
    )
}

/// Derives the viewport of a band from the viewport of the whole raster.
///
/// The two corners are mapped with the geometry and viewport of the whole
/// raster, so that bands that meet in the raster meet in the plane.
pub fn band_viewport<P, M>(
    bords: (usize, usize),
    band: Band,
    upper_left: P,
    lower_right: P,
    mapper: M,
) -> (corners: (P, P)) where P: Copy, M: Fn((usize, usize), (usize, usize), P, P) -> P
    requires
        band.top + band.rows <= bords.1,
        can_derive(mapper, bords, band, upper_left, lower_right),
    ensures
        is_band_viewport(mapper, bords, band, upper_left, lower_right, corners),
{
    let band_upper_left = mapper(bords, (0, band.top), upper_left, lower_right);
    let band_lower_right = mapper(bords, (bords.0, band.top + band.rows), upper_left, lower_right);
    (band_upper_left, band_lower_right)
}

} // verus!
