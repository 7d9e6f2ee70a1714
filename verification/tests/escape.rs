use mandelbrot::escape::escape_time;

fn mandelbrot_escape(c: (f64, f64), limit: usize) -> Option<usize> {
    escape_time(
        (0.0f64, 0.0f64),
        limit,
        |z: &(f64, f64)| z.0 * z.0 + z.1 * z.1 > 4.0,
        |z: (f64, f64)| (z.0 * z.0 - z.1 * z.1 + c.0, 2.0 * z.0 * z.1 + c.1),
    )
}

#[test]
fn the_origin_never_escapes() {
    for limit in 1..300 {
        assert_eq!(mandelbrot_escape((0.0, 0.0), limit), None);
    }
}

#[test]
fn no_escape_without_iterations() {
    assert_eq!(mandelbrot_escape((0.0, 0.0), 0), None);
    assert_eq!(mandelbrot_escape((100.0, 100.0), 0), None);
}

#[test]
fn points_far_from_the_set_escape_after_one_step() {
    // The start is the origin, which is within: the first test cannot
    // succeed, and the second sees the point itself.
    assert_eq!(mandelbrot_escape((3.0, 0.0), 255), Some(1));
    assert_eq!(mandelbrot_escape((0.0, -2.5), 255), Some(1));
    assert_eq!(mandelbrot_escape((2.0, 2.0), 255), Some(1));
    assert_eq!(mandelbrot_escape((3.0, 0.0), 1), None);
    assert_eq!(mandelbrot_escape((3.0, 0.0), 2), Some(1));
}

#[test]
fn points_at_distance_two() {
    // 0, 2, 6: the squared magnitude 4 does not exceed 4, 36 does.
    assert_eq!(mandelbrot_escape((2.0, 0.0), 255), Some(2));
    assert_eq!(mandelbrot_escape((2.0, 0.0), 2), None);
    assert_eq!(mandelbrot_escape((2.0, 0.0), 3), Some(2));
    // 0, -2, 2, 2, ...: stays at distance two.
    assert_eq!(mandelbrot_escape((-2.0, 0.0), 255), None);
}

#[test]
fn known_escape_times() {
    // 0, 1, 2, 5
    assert_eq!(mandelbrot_escape((1.0, 0.0), 255), Some(3));
    // 0, i, -1 + i, -i, -1 + i, ...
    assert_eq!(mandelbrot_escape((0.0, 1.0), 255), None);
    // 0, -1, 0, -1, ...
    assert_eq!(mandelbrot_escape((-1.0, 0.0), 255), None);
    // 0, 0.5, 0.75, 1.0625, 1.62890625, 3.1533..., then beyond 2
    assert_eq!(mandelbrot_escape((0.5, 0.0), 255), Some(5));
}

#[test]
fn escape_time_counts_steps_before_the_first_escape() {
    let count_to = |bound: u32, limit: usize| {
        escape_time(0u32, limit, |z: &u32| *z >= bound, |z: u32| z + 1)
    };
    assert_eq!(count_to(0, 10), Some(0));
    assert_eq!(count_to(1, 10), Some(1));
    assert_eq!(count_to(9, 10), Some(9));
    assert_eq!(count_to(10, 10), None);
    assert_eq!(count_to(11, 10), None);
    assert_eq!(count_to(0, 0), None);
}

#[test]
fn escape_time_tests_before_it_steps() {
    // A step that would overflow is never taken once the state has escaped.
    let r = escape_time(u8::MAX, 5, |z: &u8| *z == u8::MAX, |z: u8| z + 1);
    assert_eq!(r, Some(0));
}

#[test]
fn a_fixed_point_within_never_escapes() {
    for limit in 0..50 {
        assert_eq!(escape_time(7u32, limit, |z: &u32| *z > 100, |z: u32| z), None);
    }
}
