use mandelbrot::{kernel, Coord, Point, ONE};

#[test]
fn case0() -> () {
    let point: Point = kernel(1024, &Coord::<i64> { x: 2 * ONE, y: 0 });
    assert_eq!(true, point.is_diverged);
    assert_eq!(2, point.iter);
}

#[test]
fn case1() -> () {
    let point: Point = kernel(1024, &Coord::<i64> { x: 0, y: 0 });
    assert_eq!(false, point.is_diverged);
    assert_eq!(1024, point.iter);
}

#[test]
fn case2() -> () {
    let point: Point = kernel(1024, &Coord::<i64> { x: -2 * ONE, y: 0 });
    assert_eq!(false, point.is_diverged);
    assert_eq!(1024, point.iter);
}

#[test]
fn far_points_escape_at_once() {
    for (x, y) in [(3 * ONE, 0), (0, -3 * ONE), (2 * ONE, 2 * ONE), (-ONE * 5, ONE), (i64::MIN, i64::MAX)] {
        let point = kernel(1024, &Coord { x, y });
        assert_eq!(point, Point { is_diverged: true, iter: 1 });
    }
}

#[test]
fn origin_is_interior_for_every_cap() {
    for cap in [1u32, 2, 7, 1024, 4096] {
        let point = kernel(cap, &Coord { x: 0, y: 0 });
        assert_eq!(point, Point { is_diverged: false, iter: cap });
    }
}

#[test]
fn zero_cap_reports_interior_at_zero() {
    let point = kernel(0, &Coord { x: 3 * ONE, y: 0 });
    assert_eq!(point, Point { is_diverged: false, iter: 0 });
}

#[test]
fn point_on_imaginary_axis() {
    // i: 0 -> i -> -1 + i -> -i -> -1 + i ... stays bounded
    let point = kernel(500, &Coord { x: 0, y: ONE });
    assert_eq!(point, Point { is_diverged: false, iter: 500 });
    // 1: 0 -> 1 -> 2 -> 5
    let point = kernel(500, &Coord { x: ONE, y: 0 });
    assert_eq!(point, Point { is_diverged: true, iter: 3 });
}

#[test]
fn fractional_point_escapes_late() {
    // 0.5: 0.5, 0.75, 1.0625, 1.62890625, 3.153..., 10.44...
    let point = kernel(1024, &Coord { x: ONE / 2, y: 0 });
    assert_eq!(point, Point { is_diverged: true, iter: 5 });
}
