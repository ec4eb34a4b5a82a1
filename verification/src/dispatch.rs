//! Rendering a whole raster band by band.
//!
//! The raster is cut into the bands of its plan, the buffer is cut into the
//! parts that belong to them, each band gets the viewport derived for it, and
//! each part is filled by the band renderer. The parts do not overlap, so the
//! bands can be filled in any order or side by side; here they are filled one
//! after another, from the top down.

use vstd::prelude::*;
use crate::bands::{
    band_of_row,
    band_plan,
    band_viewport,
    can_derive,
    is_band_viewport,
    lemma_band_pixel_place,
    lemma_plan_keeps_places,
    lemma_plan_shape,
    partition,
};
use crate::raster::{
    can_paint,
    lemma_pixel_index_in_buffer,
    paints,
    pixel_index,
    render,
    ITERATION_LIMIT,
};

verus! {

/// Whether `intensity` is what pixel `(col, row)` of the whole raster gets
/// when the raster is rendered in the bands of the plan for `workers`
/// workers: what the band renderer paints at the pixel's place within its
/// band, for a viewport derived for that band.
pub open spec fn paints_in_band<P, M, E>(
    mapper: M,
    evaluator: E,
    bords: (usize, usize),
    workers: usize,
    upper_left: P,
    lower_right: P,
    col: usize,
    row: usize,
    intensity: u8,
) -> bool where
    M: Fn((usize, usize), (usize, usize), P, P) -> P,
    E: Fn(P, u32) -> Option<u32>,
 {
    let band = band_plan(bords.1, workers)[band_of_row(
        bords.1 as int,
        workers as int,
        row as int,
    )];
    exists|corners: (P, P)|
        #![trigger is_band_viewport(mapper, bords, band, upper_left, lower_right, corners)]
        is_band_viewport(mapper, bords, band, upper_left, lower_right, corners) && paints(
            mapper,
            evaluator,
            (bords.0, band.rows),
            corners.0,
            corners.1,
            col,
            (row - band.top) as usize,
            intensity,
        )
}

/// Whether `mapper` and `evaluator` can be called for every band of the
/// plan: the mapper accepts the two corners of each band, and with any
/// viewport derived for a band the two can be called for every pixel of the
/// band.
pub open spec fn can_dispatch<P, M, E>(
    mapper: M,
    evaluator: E,
    bords: (usize, usize),
    workers: usize,
    upper_left: P,
    lower_right: P,
) -> bool where
    M: Fn((usize, usize), (usize, usize), P, P) -> P,
    E: Fn(P, u32) -> Option<u32>,
 {
    &&& forall|k: int|
        0 <= k < band_plan(bords.1, workers).len() ==> can_derive(
            mapper,
            bords,
            #[trigger] band_plan(bords.1, workers)[k],
            upper_left,
            lower_right,
        )
    &&& forall|k: int, corners: (P, P)|
        0 <= k < band_plan(bords.1, workers).len() && #[trigger] is_band_viewport(
            mapper,
            bords,
            band_plan(bords.1, workers)[k],
            upper_left,
            lower_right,
            corners,
        ) ==> can_paint(
            mapper,
            evaluator,
            (bords.0, band_plan(bords.1, workers)[k].rows),
            corners.0,
            corners.1,
        )
}

/// Fills the buffer of a whole raster of `bords.0` columns and `bords.1`
/// rows, whose viewport has the corners `upper_left` and `lower_right`, in
/// the bands of the plan for `workers` workers.
///
/// Each band is rendered into its own part of the buffer, with its own
/// geometry and the viewport derived for it. Every pixel of the raster is
/// written, at its row-major place in the buffer, and the length of the
/// buffer is kept.
pub fn render_bands<P, M, E>(
    pixels: &mut [u8],
    bords: (usize, usize),
    workers: usize,
    upper_left: P,
    lower_right: P,
    mapper: M,
    evaluator: E,
) where
    P: Copy,
    M: Fn((usize, usize), (usize, usize), P, P) -> P,
    E: Fn(P, u32) -> Option<u32>,

    requires
        old(pixels)@.len() == bords.0 * bords.1,
        workers >= 1,
        can_dispatch(mapper, evaluator, bords, workers, upper_left, lower_right),
    ensures
        final(pixels)@.len() == old(pixels)@.len(),
        forall|col: usize, row: usize|
            col < bords.0 && row < bords.1 ==> paints_in_band(
                mapper,
                evaluator,
                bords,
                workers,
                upper_left,
                lower_right,
                col,
                row,
                #[trigger] final(pixels)@[pixel_index(bords.0 as int, col as int, row as int)],
            ),
{
    let plan = partition(bords.1, workers);
    let ghost whole = final(pixels)@;
    let ghost width = bords.0 as int;
    let mut rest: &mut [u8] = pixels;
    let ghost mut done: Seq<u8> = Seq::empty();
    let mut top: usize = 0;
    let mut k: usize = 0;
    proof {
        lemma_band_in_buffer(bords, workers, 0);
        assert(0 * width == 0) by (nonlinear_arith);
    }
    while k < plan.len()
        invariant
            workers >= 1,
            can_dispatch(mapper, evaluator, bords, workers, upper_left, lower_right),
            width == bords.0,
            plan@ == band_plan(bords.1, workers),
            k <= plan.len(),
            top <= bords.1,
            k < plan.len() ==> top == plan@[k as int].top,
            k == plan.len() ==> top == bords.1,
            whole == done + final(rest)@,
            done.len() == top * width,
            done.len() + rest@.len() == bords.0 * bords.1,
            painted_above(
                mapper,
                evaluator,
                bords,
                workers,
                upper_left,
                lower_right,
                top as int,
                done,
            ),
        decreases plan.len() - k,
    {
        let band = plan[k];
        let available = rest.len();
        proof {
            lemma_band_in_buffer(bords, workers, k as int);
            lemma_band_in_buffer(bords, workers, k + 1);
            assert(band.rows * bords.0 == bords.0 * band.rows) by (nonlinear_arith);
            assert(band.area(width) <= available);
        }
        let length = band.length(bords.0);
        let (head, tail) = rest.split_at_mut(length);
        let corners = band_viewport(bords, band, upper_left, lower_right, &mapper);
        proof {
            let planned = band_plan(bords.1, workers)[k as int];
            assert(is_band_viewport(mapper, bords, planned, upper_left, lower_right, corners));
            assert(can_paint(mapper, evaluator, (bords.0, planned.rows), corners.0, corners.1));
        }
        render(head, band.bords(bords.0), corners.0, corners.1, &mapper, &evaluator);
        proof {
            lemma_band_painted(
                mapper,
                evaluator,
                bords,
                workers,
                upper_left,
                lower_right,
                k as int,
                corners,
                done,
                head@,
            );
            done = done + head@;
        }
        rest = tail;
        top = top + band.rows;
        k += 1;
    }
    proof {
        assert(bords.1 * width == bords.0 * bords.1) by (nonlinear_arith)
            requires
                width == bords.0,
        ;
        assert(whole =~= done);
    }
}

/// Whether the pixels of the rows above `top` have in `done` what rendering
/// in bands gives them.
spec fn painted_above<P, M, E>(
    mapper: M,
    evaluator: E,
    bords: (usize, usize),
    workers: usize,
    upper_left: P,
    lower_right: P,
    top: int,
    done: Seq<u8>,
) -> bool where
    M: Fn((usize, usize), (usize, usize), P, P) -> P,
    E: Fn(P, u32) -> Option<u32>,
 {
    forall|col: usize, row: usize|
        col < bords.0 && row < top ==> paints_in_band(
            mapper,
            evaluator,
            bords,
            workers,
            upper_left,
            lower_right,
            col,
            row,
            #[trigger] done[pixel_index(bords.0 as int, col as int, row as int)],
        )
}

/// Band `k` of the plan and its part of the buffer lie inside the raster and
/// its buffer, and the band ends where the next one begins, or with the
/// raster if it is the last. Where `k` is the number of bands, the raster is
/// used up.
proof fn lemma_band_in_buffer(bords: (usize, usize), workers: usize, k: int)
    requires
        workers >= 1,
        0 <= k <= band_plan(bords.1, workers).len(),
    ensures
        ({
            let plan = band_plan(bords.1, workers);
            &&& k < plan.len() ==> {
                &&& plan[k].top + plan[k].rows <= bords.1
                &&& 0 <= plan[k].start(bords.0 as int)
                &&& 0 <= plan[k].area(bords.0 as int)
                &&& plan[k].start(bords.0 as int) + plan[k].area(bords.0 as int) <= bords.0
                    * bords.1
                &&& plan[k].start(bords.0 as int) + plan[k].area(bords.0 as int) == (plan[k].top
                    + plan[k].rows) * bords.0
            }
            &&& k == 0 && k < plan.len() ==> plan[k].top == 0
            &&& k == 0 && k == plan.len() ==> bords.1 == 0
            &&& 0 < k < plan.len() ==> plan[k].top == plan[k - 1].top + plan[k - 1].rows
            &&& 0 < k == plan.len() ==> bords.1 == plan[k - 1].top + plan[k - 1].rows
        }),
{
    let plan = band_plan(bords.1, workers);
    lemma_plan_shape(bords.1, workers);
    crate::bands::lemma_plan_tiles(bords.1, workers);
    if k < plan.len() {
        let band = plan[k];
        assert(band.covers(band.top + band.rows - 1));
        assert(crate::bands::covered(plan, band.top + band.rows - 1));
        let width = bords.0 as int;
        let top = band.top as int;
        let rows = band.rows as int;
        assert(top * width >= 0 && rows * width >= 0) by (nonlinear_arith)
            requires
                top >= 0,
                rows >= 0,
                width >= 0,
        ;
        assert((top + rows) * width == top * width + rows * width) by (nonlinear_arith);
        assert((top + rows) * width <= bords.1 * width) by (nonlinear_arith)
            requires
                top + rows <= bords.1,
                width >= 0,
        ;
        assert(bords.1 * width == width * bords.1) by (nonlinear_arith);
    }
    if 0 < k < plan.len() {
        assert(plan[k - 1 + 1].top == plan[k - 1].top + plan[k - 1].rows);
    }
}

/// Once band `k` has been rendered into its part of the buffer, the pixels
/// above the end of the band have what rendering in bands gives them, if
/// those above its beginning had.
proof fn lemma_band_painted<P, M, E>(
    mapper: M,
    evaluator: E,
    bords: (usize, usize),
    workers: usize,
    upper_left: P,
    lower_right: P,
    k: int,
    corners: (P, P),
    before: Seq<u8>,
    part: Seq<u8>,
) where M: Fn((usize, usize), (usize, usize), P, P) -> P, E: Fn(P, u32) -> Option<u32>
    requires
        workers >= 1,
        0 <= k < band_plan(bords.1, workers).len(),
        before.len() == band_plan(bords.1, workers)[k].start(bords.0 as int),
        part.len() == band_plan(bords.1, workers)[k].area(bords.0 as int),
        painted_above(
            mapper,
            evaluator,
            bords,
            workers,
            upper_left,
            lower_right,
            band_plan(bords.1, workers)[k].top as int,
            before,
        ),
        is_band_viewport(
            mapper,
            bords,
            band_plan(bords.1, workers)[k],
            upper_left,
            lower_right,
            corners,
        ),
        forall|col: usize, row: usize|
            col < bords.0 && row < band_plan(bords.1, workers)[k].rows ==> paints(
                mapper,
                evaluator,
                (bords.0, band_plan(bords.1, workers)[k].rows),
                corners.0,
                corners.1,
                col,
                row,
                #[trigger] part[pixel_index(bords.0 as int, col as int, row as int)],
            ),
    ensures
        painted_above(
            mapper,
            evaluator,
            bords,
            workers,
            upper_left,
            lower_right,
            band_plan(bords.1, workers)[k].top + band_plan(bords.1, workers)[k].rows,
            before + part,
        ),
{
    let plan = band_plan(bords.1, workers);
    let band = plan[k];
    let width = bords.0 as int;
    let done = before + part;
    lemma_band_in_buffer(bords, workers, k);
    assert forall|col: usize, row: usize|
        col < bords.0 && row < band.top + band.rows implies paints_in_band(
        mapper,
        evaluator,
        bords,
        workers,
        upper_left,
        lower_right,
        col,
        row,
        #[trigger] done[pixel_index(width, col as int, row as int)],
    ) by {
        if row < band.top {
            lemma_pixel_index_in_buffer(width, band.top as int, col as int, row as int);
            assert(band.top * width == width * band.top) by (nonlinear_arith);
            assert(done[pixel_index(width, col as int, row as int)] == before[pixel_index(
                width,
                col as int,
                row as int,
            )]);
        } else {
            let local = (row - band.top) as usize;
            lemma_plan_keeps_places(bords, workers, col as int, row as int);
            lemma_band_pixel_place(bords, band, col as int, local as int);
            assert(band_of_row(bords.1 as int, workers as int, row as int) == k) by {
                assert(plan[k].covers(row as int));
            }
            assert(done[pixel_index(width, col as int, row as int)] == part[pixel_index(
                width,
                col as int,
                local as int,
            )]);
            assert(paints(
                mapper,
                evaluator,
                (bords.0, band.rows),
                corners.0,
                corners.1,
                col,
                local,
                part[pixel_index(width, col as int, local as int)],
            ));
        }
    }
}

/// Whether `mapper` is exact on the bands of the plan: a point that it gives
/// for a pixel of a band, in the band's geometry and a viewport derived for
/// the band, is a point that it gives for the same pixel in the geometry and
/// viewport of the whole raster.
pub open spec fn maps_bands_exactly<P, M>(
    mapper: M,
    bords: (usize, usize),
    workers: usize,
    upper_left: P,
    lower_right: P,
) -> bool where M: Fn((usize, usize), (usize, usize), P, P) -> P {
    forall|k: int, corners: (P, P), col: usize, row: usize, point: P|
        0 <= k < band_plan(bords.1, workers).len() && is_band_viewport(
            mapper,
            bords,
            band_plan(bords.1, workers)[k],
            upper_left,
            lower_right,
            corners,
        ) && col < bords.0 && row < band_plan(bords.1, workers)[k].rows && #[trigger] mapper.ensures(
            ((bords.0, band_plan(bords.1, workers)[k].rows), (col, row), corners.0, corners.1),
            point,
        ) ==> mapper.ensures(
            (
                bords,
                (col, (band_plan(bords.1, workers)[k].top + row) as usize),
                upper_left,
                lower_right,
            ),
            point,
        )
}

/// With a mapper that is exact on the bands, the number of workers does not
/// show in the picture: what rendering in bands gives a pixel is what
/// rendering the whole raster as one band, with its own viewport, paints
/// there.
pub proof fn lemma_bands_paint_as_whole<P, M, E>(
    mapper: M,
    evaluator: E,
    bords: (usize, usize),
    workers: usize,
    upper_left: P,
    lower_right: P,
    col: usize,
    row: usize,
    intensity: u8,
) where M: Fn((usize, usize), (usize, usize), P, P) -> P, E: Fn(P, u32) -> Option<u32>
    requires
        workers >= 1,
        col < bords.0,
        row < bords.1,
        maps_bands_exactly(mapper, bords, workers, upper_left, lower_right),
        paints_in_band(
            mapper,
            evaluator,
            bords,
            workers,
            upper_left,
            lower_right,
            col,
            row,
            intensity,
        ),
    ensures
        paints(mapper, evaluator, bords, upper_left, lower_right, col, row, intensity),
{
    let plan = band_plan(bords.1, workers);
    let k = band_of_row(bords.1 as int, workers as int, row as int);
    let band = plan[k];
    lemma_plan_keeps_places(bords, workers, col as int, row as int);
    let local = (row - band.top) as usize;
    let corners = choose|corners: (P, P)|
        #![trigger is_band_viewport(mapper, bords, band, upper_left, lower_right, corners)]
        is_band_viewport(mapper, bords, band, upper_left, lower_right, corners) && paints(
            mapper,
            evaluator,
            (bords.0, band.rows),
            corners.0,
            corners.1,
            col,
            local,
            intensity,
        );
    let band_bords = (bords.0, band.rows);
    let (point, verdict) = choose|point: P, verdict: Option<u32>|
        #![trigger mapper.ensures((band_bords, (col, local), corners.0, corners.1), point), evaluator.ensures((point, ITERATION_LIMIT), verdict)]
        mapper.ensures((band_bords, (col, local), corners.0, corners.1), point)
            && evaluator.ensures((point, ITERATION_LIMIT), verdict) && intensity
            == crate::raster::shade_of(verdict);
    assert(mapper.ensures(
        ((bords.0, plan[k].rows), (col, local), corners.0, corners.1),
        point,
    ));
    assert((band.top + local) as usize == row);
    assert(mapper.ensures((bords, (col, row), upper_left, lower_right), point));
}

} // verus!
