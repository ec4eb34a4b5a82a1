use mandelbrot::escape::escape_time;

fn square_plus(z: (f64, f64), c: (f64, f64)) -> (f64, f64) {
    (z.0 * z.0 - z.1 * z.1 + c.0, 2.0 * z.0 * z.1 + c.1)
}

fn left_the_disc(z: (f64, f64)) -> bool {
    z.0 * z.0 + z.1 * z.1 > 4.0
}

fn escape(c: (f64, f64), limit: u32) -> Option<u32> {
    escape_time(c, limit, (0.0, 0.0), square_plus, left_the_disc)
}

#[test]
fn origin_never_escapes() {
    for limit in [1, 2, 10, 255, 10_000] {
        assert_eq!(escape((0.0, 0.0), limit), None);
    }
}

#[test]
fn first_iterate_outside_the_disc_escapes_at_once() {
    assert_eq!(escape((3.0, 0.0), 255), Some(0));
    assert_eq!(escape((0.0, -2.5), 255), Some(0));
    assert_eq!(escape((2.0, 2.0), 1), Some(0));
    assert_eq!(escape((-1.5, 1.5), 255), Some(0));
}

#[test]
fn point_on_the_circle_escapes_one_step_later() {
    assert_eq!(escape((2.0, 0.0), 255), Some(1));
    assert_eq!(escape((2.0, 0.0), 2), Some(1));
    assert_eq!(escape((2.0, 0.0), 1), None);
}

#[test]
fn points_of_the_set_never_escape() {
    assert_eq!(escape((-1.0, 0.0), 255), None);
    assert_eq!(escape((-2.0, 0.0), 255), None);
    assert_eq!(escape((0.25, 0.0), 255), None);
    assert_eq!(escape((0.0, 1.0), 255), None);
}

#[test]
fn escape_is_counted_from_zero() {
    assert_eq!(escape((1.0, 0.0), 255), Some(2));
    assert_eq!(escape((1.0, 1.0), 255), Some(1));
    assert_eq!(escape((0.5, 0.0), 255), Some(4));
}

#[test]
fn escape_beyond_the_limit_is_not_seen() {
    assert_eq!(escape((0.5, 0.0), 5), Some(4));
    assert_eq!(escape((0.5, 0.0), 4), None);
    assert_eq!(escape((1.0, 0.0), 2), None);
}

#[test]
fn no_step_is_taken_without_a_limit() {
    assert_eq!(escape((3.0, 0.0), 0), None);
    assert_eq!(escape((0.0, 0.0), 0), None);
}

#[test]
fn escape_is_always_below_the_limit() {
    for limit in 0..20u32 {
        for k in 0..60 {
            let c = (-2.0 + k as f64 * 0.05, 0.3);
            if let Some(i) = escape(c, limit) {
                assert!(i < limit);
            }
        }
    }
}

#[test]
fn escape_time_counts_the_steps_taken() {
    let verdict = escape_time(1u32, 100, 0u32, |z, c| z + c, |z| z > 7);
    assert_eq!(verdict, Some(7));
    let verdict = escape_time(1u32, 7, 0u32, |z, c| z + c, |z| z > 7);
    assert_eq!(verdict, None);
    let verdict = escape_time(1u32, 8, 0u32, |z, c| z + c, |z| z > 7);
    assert_eq!(verdict, Some(7));
}

#[test]
fn escape_time_starts_at_the_origin_given() {
    let verdict = escape_time(1u32, 100, 5u32, |z, c| z + c, |z| z > 7);
    assert_eq!(verdict, Some(2));
    let verdict = escape_time(0u32, 100, 5u32, |z, c| z + c, |z| z > 7);
    assert_eq!(verdict, None);
}

#[test]
fn escape_time_tests_the_term_after_each_step() {
    let verdict = escape_time(0u32, 10, 9u32, |z, _c| z / 2, |z| z > 7);
    assert_eq!(verdict, None);
    let verdict = escape_time(3u32, 10, 0u32, |z, c| z + c, |z| z >= 3);
    assert_eq!(verdict, Some(0));
}
