use mandelbrot::raster::{pixel_offset, render, shade, ITERATION_LIMIT};

#[test]
fn shade_of_a_bounded_point_is_black() {
    assert_eq!(shade(None), 0);
}

#[test]
fn shade_fades_with_the_escape_iteration() {
    assert_eq!(shade(Some(0)), 255);
    assert_eq!(shade(Some(1)), 254);
    assert_eq!(shade(Some(3)), 252);
    assert_eq!(shade(Some(127)), 128);
    assert_eq!(shade(Some(254)), 1);
}

#[test]
fn shade_tells_an_immediate_escape_from_no_escape() {
    assert_ne!(shade(Some(0)), shade(None));
    for i in 0..255 {
        assert_ne!(shade(Some(i)), shade(None));
        assert_eq!(shade(Some(i)) as u32, 255 - i);
    }
}

#[test]
fn shade_keeps_the_low_byte_of_a_large_iteration() {
    assert_eq!(shade(Some(255)), 0);
    assert_eq!(shade(Some(256)), 255);
    assert_eq!(shade(Some(257)), 254);
    assert_eq!(shade(Some(u32::MAX)), 0);
}

#[test]
fn iteration_limit_is_one_byte() {
    assert_eq!(ITERATION_LIMIT, 255);
}

#[test]
fn pixel_offset_is_row_major() {
    assert_eq!(pixel_offset((4, 3), 0, 0), 0);
    assert_eq!(pixel_offset((4, 3), 3, 0), 3);
    assert_eq!(pixel_offset((4, 3), 0, 1), 4);
    assert_eq!(pixel_offset((4, 3), 1, 2), 9);
    assert_eq!(pixel_offset((4, 3), 3, 2), 11);
    assert_eq!(pixel_offset((1000, 750), 25, 75), 75025);
}

#[test]
fn pixel_offset_visits_every_place_once() {
    let bords = (7, 5);
    let mut seen = vec![0u32; 35];
    for row in 0..5 {
        for col in 0..7 {
            seen[pixel_offset(bords, col, row)] += 1;
        }
    }
    assert!(seen.iter().all(|&n| n == 1));
}

#[test]
fn render_writes_each_pixel_at_its_place() {
    let mut pixels = vec![7u8; 12];
    render(
        &mut pixels,
        (4, 3),
        0u32,
        0u32,
        |_bords, pixel: (usize, usize), _ul, _lr| (10 * pixel.1 + pixel.0) as u32,
        |point, _limit| Some(point),
    );
    assert_eq!(
        pixels,
        vec![255, 254, 253, 252, 245, 244, 243, 242, 235, 234, 233, 232]
    );
}

#[test]
fn render_hands_the_band_geometry_and_viewport_to_the_mapper() {
    let mut pixels = vec![0u8; 6];
    render(
        &mut pixels,
        (3, 2),
        (1u32, 2u32),
        (3u32, 4u32),
        |bords: (usize, usize), _pixel, ul: (u32, u32), lr: (u32, u32)| {
            assert_eq!(bords, (3, 2));
            assert_eq!(ul, (1, 2));
            assert_eq!(lr, (3, 4));
            ul
        },
        |point: (u32, u32), _limit| Some(point.0 + point.1),
    );
    assert_eq!(pixels, vec![252; 6]);
}

#[test]
fn render_evaluates_within_the_iteration_limit() {
    let mut pixels = vec![0u8; 4];
    render(
        &mut pixels,
        (2, 2),
        0u8,
        0u8,
        |_bords, _pixel, ul, _lr| ul,
        |_point, limit| {
            assert_eq!(limit, 255);
            Some(limit - 1)
        },
    );
    assert_eq!(pixels, vec![1; 4]);
}

#[test]
fn render_paints_bounded_points_black() {
    let mut pixels = vec![9u8; 6];
    render(
        &mut pixels,
        (2, 3),
        0usize,
        0usize,
        |_bords, pixel: (usize, usize), _ul, _lr| pixel.0 + pixel.1,
        |point, _limit| if point % 2 == 0 { None } else { Some(0) },
    );
    assert_eq!(pixels, vec![0, 255, 255, 0, 0, 255]);
}

#[test]
fn render_of_an_empty_band_writes_nothing() {
    let mut none: Vec<u8> = Vec::new();
    render(&mut none, (0, 0), 0u8, 0u8, |_b, _p, ul, _lr| ul, |_p, _l| Some(0));
    assert!(none.is_empty());
    render(&mut none, (5, 0), 0u8, 0u8, |_b, _p, ul, _lr| ul, |_p, _l| Some(0));
    assert!(none.is_empty());
    render(&mut none, (0, 5), 0u8, 0u8, |_b, _p, ul, _lr| ul, |_p, _l| Some(0));
    assert!(none.is_empty());
}

#[test]
fn render_fills_a_single_row_and_a_single_column() {
    let mut row = vec![0u8; 5];
    render(
        &mut row,
        (5, 1),
        0u32,
        0u32,
        |_b, pixel: (usize, usize), _ul, _lr| (pixel.0 + 100 * pixel.1) as u32,
        |point, _limit| Some(point),
    );
    assert_eq!(row, vec![255, 254, 253, 252, 251]);
    let mut column = vec![0u8; 5];
    render(
        &mut column,
        (1, 5),
        0u32,
        0u32,
        |_b, pixel: (usize, usize), _ul, _lr| (pixel.0 + 10 * pixel.1) as u32,
        |point, _limit| Some(point),
    );
    assert_eq!(column, vec![255, 245, 235, 225, 215]);
}
