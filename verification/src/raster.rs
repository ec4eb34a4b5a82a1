//! Filling one band of the raster: pixel addresses, intensities and the
//! renderer itself.

use vstd::prelude::*;

verus! {

/// The number of iterations the evaluator is given for every pixel.
pub const ITERATION_LIMIT: u32 = 255;

/// The intensity painted for what the evaluator found: black for a point
/// that stayed bounded, and the brighter the sooner the point escaped. An
/// iteration count beyond one byte is reduced to its low byte first.
pub open spec fn shade_of(verdict: Option<u32>) -> u8 {
    match verdict {
        None => 0u8,
        Some(i) => (255 - i % 256) as u8,
    }
}

/// Computes the intensity of a pixel from the evaluator's verdict.
pub fn shade(verdict: Option<u32>) -> (intensity: u8)
    ensures
        intensity == shade_of(verdict),
{
    match verdict {
        None => 0,
        Some(i) => 255 - (i % 256) as u8,
    }
}

/// The place of pixel `(col, row)` in a row-major buffer of the given width.
pub open spec fn pixel_index(width: int, col: int, row: int) -> int {
    row * width + col
}

/// Every pixel of a raster has a place inside a buffer of `width * height`
/// elements.
pub proof fn lemma_pixel_index_in_buffer(width: int, height: int, col: int, row: int)
    requires
        0 <= col < width,
        0 <= row < height,
    ensures
        0 <= pixel_index(width, col, row) < width * height,
{
    assert(row * width >= 0) by (nonlinear_arith)
        requires
            row >= 0,
            width >= 0,
    ;
    assert((row + 1) * width <= height * width) by (nonlinear_arith)
        requires
            row + 1 <= height,
            width >= 0,
    ;
    assert((row + 1) * width == row * width + width) by (nonlinear_arith);
    assert(height * width == width * height) by (nonlinear_arith);
}

/// Two pixels of a raster share a place in the buffer only if they are the
/// same pixel.
pub proof fn lemma_pixel_index_injective(width: int, col1: int, row1: int, col2: int, row2: int)
    requires
        0 <= col1 < width,
        0 <= col2 < width,
        pixel_index(width, col1, row1) == pixel_index(width, col2, row2),
    ensures
        col1 == col2,
        row1 == row2,
{
    if row1 < row2 {
        assert(row2 * width >= (row1 + 1) * width) by (nonlinear_arith)
            requires
                row2 >= row1 + 1,
                width >= 0,
        ;
        assert((row1 + 1) * width == row1 * width + width) by (nonlinear_arith);
    } else if row2 < row1 {
        assert(row1 * width >= (row2 + 1) * width) by (nonlinear_arith)
            requires
                row1 >= row2 + 1,
                width >= 0,
        ;
        assert((row2 + 1) * width == row2 * width + width) by (nonlinear_arith);
    }
}

/// Computes the place of pixel `(col, row)` in a row-major buffer that holds
/// `bords.0` columns and `bords.1` rows.
pub fn pixel_offset(bords: (usize, usize), col: usize, row: usize) -> (offset: usize)
    requires
        col < bords.0,
        row < bords.1,
        bords.0 * bords.1 <= usize::MAX,
    ensures
        offset == pixel_index(bords.0 as int, col as int, row as int),
        offset < bords.0 * bords.1,
{
    proof {
        lemma_pixel_index_in_buffer(bords.0 as int, bords.1 as int, col as int, row as int);
        assert(row * bords.0 >= 0) by (nonlinear_arith)
            requires
                row >= 0,
                bords.0 >= 0,
        ;
    }
    row * bords.0 + col
}

/// Whether `intensity` is what the renderer paints at pixel `(col, row)` of a
/// band: the shade of a verdict that `evaluator` gave, within the iteration
/// limit, for a point that `mapper` gave for the pixel in the band's own
/// geometry and viewport.
pub open spec fn paints<P, M, E>(
    mapper: M,
    evaluator: E,
    bords: (usize, usize),
    upper_left: P,
    lower_right: P,
    col: usize,
    row: usize,
    intensity: u8,
) -> bool where
    M: Fn((usize, usize), (usize, usize), P, P) -> P,
    E: Fn(P, u32) -> Option<u32>,
 {
    exists|point: P, verdict: Option<u32>|
        #![trigger mapper.ensures((bords, (col, row), upper_left, lower_right), point), evaluator.ensures((point, ITERATION_LIMIT), verdict)]
        mapper.ensures((bords, (col, row), upper_left, lower_right), point)
            && evaluator.ensures((point, ITERATION_LIMIT), verdict)
            && intensity == shade_of(verdict)
}

/// Whether `mapper` and `evaluator` can be called for every pixel of a band:
/// the mapper accepts each pixel, and the evaluator accepts each point the
/// mapper may give together with the iteration limit.
pub open spec fn can_paint<P, M, E>(
    mapper: M,
    evaluator: E,
    bords: (usize, usize),
    upper_left: P,
    lower_right: P,
) -> bool where
    M: Fn((usize, usize), (usize, usize), P, P) -> P,
    E: Fn(P, u32) -> Option<u32>,
 {
    &&& forall|col: usize, row: usize|
        col < bords.0 && row < bords.1 ==> #[trigger] mapper.requires(
            (bords, (col, row), upper_left, lower_right),
        )
    &&& forall|col: usize, row: usize, point: P|
        col < bords.0 && row < bords.1 && #[trigger] mapper.ensures(
            (bords, (col, row), upper_left, lower_right),
            point,
        ) ==> evaluator.requires((point, ITERATION_LIMIT))
}

/// Fills the buffer of one band, of `bords.0` columns and `bords.1` rows,
/// whose viewport has the corners `upper_left` and `lower_right`.
///
/// Every pixel is mapped to its point with the band's own geometry and
/// viewport, the point is evaluated within the iteration limit, and the shade
/// of the verdict is written at the pixel's row-major place. The length of
/// the buffer is kept.
pub fn render<P, M, E>(
    pixels: &mut [u8],
    bords: (usize, usize),
    upper_left: P,
    lower_right: P,
    mapper: M,
    evaluator: E,
) where
    P: Copy,
    M: Fn((usize, usize), (usize, usize), P, P) -> P,
    E: Fn(P, u32) -> Option<u32>,

    requires
        old(pixels)@.len() == bords.0 * bords.1,
        can_paint(mapper, evaluator, bords, upper_left, lower_right),
    ensures
        final(pixels)@.len() == old(pixels)@.len(),
        forall|col: usize, row: usize|
            col < bords.0 && row < bords.1 ==> paints(
                mapper,
                evaluator,
                bords,
                upper_left,
                lower_right,
                col,
                row,
                #[trigger] final(pixels)@[pixel_index(bords.0 as int, col as int, row as int)],
            ),
{
    let length = pixels.len();
    let mut row: usize = 0;
    while row < bords.1
        invariant
            length == bords.0 * bords.1,
            pixels@.len() == bords.0 * bords.1,
            pixels@.len() == old(pixels)@.len(),
            row <= bords.1,
            can_paint(mapper, evaluator, bords, upper_left, lower_right),
            forall|c: usize, r: usize|
                c < bords.0 && r < row ==> paints(
                    mapper,
                    evaluator,
                    bords,
                    upper_left,
                    lower_right,
                    c,
                    r,
                    #[trigger] pixels@[pixel_index(bords.0 as int, c as int, r as int)],
                ),
        decreases bords.1 - row,
    {
        let mut col: usize = 0;
        while col < bords.0
            invariant
                length == bords.0 * bords.1,
                pixels@.len() == bords.0 * bords.1,
                pixels@.len() == old(pixels)@.len(),
                row < bords.1,
                col <= bords.0,
                can_paint(mapper, evaluator, bords, upper_left, lower_right),
                forall|c: usize, r: usize|
                    c < bords.0 && (r < row || (r == row && c < col)) ==> paints(
                        mapper,
                        evaluator,
                        bords,
                        upper_left,
                        lower_right,
                        c,
                        r,
                        #[trigger] pixels@[pixel_index(bords.0 as int, c as int, r as int)],
                    ),
            decreases bords.0 - col,
        {
            let point = mapper(bords, (col, row), upper_left, lower_right);
            let verdict = evaluator(point, ITERATION_LIMIT);
            let offset = pixel_offset(bords, col, row);
            let ghost before = pixels@;
            pixels[offset] = shade(verdict);
            proof {
                assert forall|c: usize, r: usize|
                    c < bords.0 && (r < row || (r == row && c < col + 1)) implies paints(
                    mapper,
                    evaluator,
                    bords,
                    upper_left,
                    lower_right,
                    c,
                    r,
                    #[trigger] pixels@[pixel_index(bords.0 as int, c as int, r as int)],
                ) by {
                    if c == col && r == row {
                    } else {
                        if pixel_index(bords.0 as int, c as int, r as int) == offset {
                            lemma_pixel_index_injective(
                                bords.0 as int,
                                c as int,
                                r as int,
                                col as int,
                                row as int,
                            );
                        }
                        lemma_pixel_index_in_buffer(
                            bords.0 as int,
                            bords.1 as int,
                            c as int,
                            r as int,
                        );
                        assert(pixels@[pixel_index(bords.0 as int, c as int, r as int)]
                            == before[pixel_index(bords.0 as int, c as int, r as int)]);
                    }
                }
            }
            col += 1;
        }
        row += 1;
    }
}

} // verus!
