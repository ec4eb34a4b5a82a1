use mandelbrot::bands::{band_viewport, partition};
use mandelbrot::dispatch::render_bands;
use mandelbrot::escape::escape_time;
use mandelbrot::raster::render;

type Point = (f64, f64);

fn pixel_to_point(bords: (usize, usize), pixel: (usize, usize), ul: Point, lr: Point) -> Point {
    let (width, height) = (lr.0 - ul.0, ul.1 - lr.1);
    (
        ul.0 + pixel.0 as f64 * width / bords.0 as f64,
        ul.1 - pixel.1 as f64 * height / bords.1 as f64,
    )
}

fn escape(c: Point, limit: u32) -> Option<u32> {
    escape_time(
        c,
        limit,
        (0.0, 0.0),
        |z: Point, c: Point| (z.0 * z.0 - z.1 * z.1 + c.0, 2.0 * z.0 * z.1 + c.1),
        |z: Point| z.0 * z.0 + z.1 * z.1 > 4.0,
    )
}

fn picture(bords: (usize, usize), workers: usize, ul: Point, lr: Point) -> Vec<u8> {
    let mut pixels = vec![0u8; bords.0 * bords.1];
    render_bands(&mut pixels, bords, workers, ul, lr, pixel_to_point, escape);
    pixels
}

type Cell = (i64, i64);

fn pixel_to_cell(bords: (usize, usize), pixel: (usize, usize), ul: Cell, lr: Cell) -> Cell {
    let (width, height) = (lr.0 - ul.0, ul.1 - lr.1);
    (
        ul.0 + pixel.0 as i64 * width / bords.0 as i64,
        ul.1 - pixel.1 as i64 * height / bords.1 as i64,
    )
}

fn escape_of_cell(cell: Cell, limit: u32) -> Option<u32> {
    let c = (
        -1.20 + cell.0 as f64 * 0.20 / 1000.0,
        0.20 + cell.1 as f64 * 0.15 / 750.0,
    );
    escape(c, limit)
}

fn picture_on_cells(workers: usize) -> Vec<u8> {
    let mut pixels = vec![0u8; 750_000];
    render_bands(
        &mut pixels,
        (1000, 750),
        workers,
        (0, 750),
        (1000, 0),
        pixel_to_cell,
        escape_of_cell,
    );
    pixels
}

#[test]
fn worker_count_does_not_change_the_picture() {
    let one = picture_on_cells(1);
    assert_eq!(one.len(), 750_000);
    assert!(one.iter().any(|&p| p == 0));
    assert!(one.iter().any(|&p| p != 0));
    for workers in [2, 7, 32, 750, 1000] {
        assert!(picture_on_cells(workers) == one, "{} workers", workers);
    }
}

#[test]
fn one_band_is_the_whole_raster() {
    let mut whole = vec![0u8; 750_000];
    render(
        &mut whole,
        (1000, 750),
        (0, 750),
        (1000, 0),
        pixel_to_cell,
        escape_of_cell,
    );
    assert!(picture_on_cells(1) == whole);
    assert!(picture_on_cells(32) == whole);
}

#[test]
fn worker_count_does_not_change_an_exactly_mapped_picture() {
    let bords = (64, 48);
    let (ul, lr) = ((-2.0, 1.5), (2.0, -1.5));
    let mut whole = vec![0u8; 64 * 48];
    render(&mut whole, bords, ul, lr, pixel_to_point, escape);
    assert_eq!(whole[0], 255);
    assert_eq!(whole[24 * 64 + 32], 0);
    for workers in 1..=50 {
        assert_eq!(picture(bords, workers, ul, lr), whole, "{} workers", workers);
    }
}

#[test]
fn bands_are_rendered_as_a_worker_would_render_them() {
    let bords = (100, 75);
    let (ul, lr) = ((-1.20, 0.35), (-1.0, 0.20));
    let mut by_hand = vec![0u8; 7500];
    let mut rest = &mut by_hand[..];
    for band in partition(bords.1, 32) {
        let (part, tail) = rest.split_at_mut(band.length(bords.0));
        rest = tail;
        let (band_ul, band_lr) = band_viewport(bords, band, ul, lr, pixel_to_point);
        render(part, band.bords(bords.0), band_ul, band_lr, pixel_to_point, escape);
    }
    assert!(rest.is_empty());
    assert_eq!(picture(bords, 32, ul, lr), by_hand);
}

#[test]
fn render_bands_writes_every_pixel_of_every_band() {
    let bords = (5usize, 11usize);
    for workers in 1..15usize {
        let mut pixels = vec![0u8; 55];
        render_bands(
            &mut pixels,
            bords,
            workers,
            (0usize, 0usize),
            (0usize, 11usize),
            |b: (usize, usize), pixel: (usize, usize), ul: (usize, usize), lr: (usize, usize)| {
                (pixel.0, ul.1 + pixel.1 * (lr.1 - ul.1) / b.1)
            },
            |point: (usize, usize), _limit| Some((10 * point.1 + point.0) as u32),
        );
        for row in 0..11 {
            for col in 0..5 {
                assert_eq!(pixels[row * 5 + col] as usize, 255 - (10 * row + col));
            }
        }
    }
}

#[test]
fn render_bands_gives_each_band_its_own_geometry_and_viewport() {
    let bords = (3usize, 10usize);
    let mut pixels = vec![0u8; 30];
    render_bands(
        &mut pixels,
        bords,
        3,
        (0usize, 0usize),
        (0usize, 0usize),
        |b: (usize, usize), pixel: (usize, usize), _ul, _lr| {
            if b == (3, 10) {
                (pixel.1, 0)
            } else {
                (b.1, pixel.1)
            }
        },
        |point: (usize, usize), _limit| Some((10 * point.0 + point.1) as u32),
    );
    let rows: Vec<u8> = pixels.chunks(3).map(|row| 255 - row[0]).collect();
    assert_eq!(rows, vec![40, 41, 42, 43, 40, 41, 42, 43, 20, 21]);
    for row in pixels.chunks(3) {
        assert!(row[0] == row[1] && row[1] == row[2]);
    }
}

#[test]
fn render_bands_of_an_empty_raster_writes_nothing() {
    let mut none: Vec<u8> = Vec::new();
    render_bands(&mut none, (0, 0), 4, 0u8, 0u8, |_b, _p, ul, _lr| ul, |_p, _l| None);
    render_bands(&mut none, (9, 0), 4, 0u8, 0u8, |_b, _p, ul, _lr| ul, |_p, _l| None);
    render_bands(&mut none, (0, 9), 4, 0u8, 0u8, |_b, _p, ul, _lr| ul, |_p, _l| None);
    assert!(none.is_empty());
}

#[test]
fn render_bands_with_more_workers_than_rows() {
    let (ul, lr) = ((-2.0, 1.0), (1.0, -1.0));
    let few = picture((16, 4), 4, ul, lr);
    assert_eq!(picture((16, 4), 32, ul, lr), few);
    assert_eq!(picture((16, 4), 5, ul, lr), few);
}
