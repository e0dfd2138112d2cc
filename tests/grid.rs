use mandelbrot::{execute, kernel, Coord, Point, SolveError, ONE};

fn fx(v: f64) -> i64 {
    (v * ONE as f64) as i64
}

fn buffer(n: usize) -> Vec<Point> {
    vec![Point { is_diverged: false, iter: 0 }; n]
}

#[test]
fn domain_inside_the_set_finds_no_structure() {
    let resols = Coord { x: 16usize, y: 8usize };
    let mut lengths = Coord { x: fx(0.01), y: fx(0.005) };
    let mut center = Coord { x: 0, y: 0 };
    let mut points = buffer(128);
    let r = execute(256, fx(0.75), &resols, &mut lengths, &mut center, &mut points);
    assert_eq!(r, Err(SolveError::NoStructureFound));
    assert_eq!(center, Coord { x: 0, y: 0 });
    assert_eq!(lengths, Coord { x: fx(0.01), y: fx(0.005) });
    assert!(points.iter().all(|p| !p.is_diverged && p.iter == 256));
}

#[test]
fn domain_outside_the_set_finds_no_structure() {
    let resols = Coord { x: 16usize, y: 8usize };
    let mut lengths = Coord { x: fx(1.0), y: fx(0.5) };
    let mut center = Coord { x: fx(10.0), y: fx(10.0) };
    let mut points = buffer(128);
    let r = execute(256, fx(0.75), &resols, &mut lengths, &mut center, &mut points);
    assert_eq!(r, Err(SolveError::NoStructureFound));
    assert!(points.iter().all(|p| p.is_diverged && p.iter == 1));
}

#[test]
fn domain_on_the_boundary_is_recentred_and_shrunk() {
    let resols = Coord { x: 16usize, y: 8usize };
    let factor = fx(0.75);
    let start = Coord { x: fx(1.0), y: fx(0.5) };
    let mut lengths = start;
    let mut center = Coord { x: fx(-0.75), y: 0 };
    let mut points = buffer(200);
    let r = execute(256, factor, &resols, &mut lengths, &mut center, &mut points);
    let extrema = r.unwrap();
    assert!(1 <= extrema[0] && extrema[0] <= extrema[1] && extrema[1] <= 256);
    assert_eq!(lengths.x, ((start.x as i128 * factor as i128) / ONE as i128) as i64);
    assert_eq!(lengths.y, ((start.y as i128 * factor as i128) / ONE as i128) as i64);
    assert_ne!(center, Coord { x: fx(-0.75), y: 0 });
    // the grid holds the kernel's result for every pixel, row-major
    let dx = start.x / 16;
    let dy = start.y / 8;
    let corner = Coord { x: fx(-0.75) - (16 * dx) / 2, y: -((8 * dy) / 2) };
    let mut lo = u32::MAX;
    let mut hi = 0;
    for j in 0..8usize {
        for i in 0..16usize {
            let p = kernel(256, &Coord { x: corner.x + i as i64 * dx, y: corner.y + j as i64 * dy });
            assert_eq!(points[j * 16 + i], p);
            lo = lo.min(p.iter);
            hi = hi.max(p.iter);
        }
    }
    assert_eq!(extrema, [lo, hi]);
    // the rest of the buffer is untouched
    assert!(points[128..].iter().all(|p| *p == Point { is_diverged: false, iter: 0 }));
}

#[test]
fn proposed_centre_is_reproducible() {
    let resols = Coord { x: 12usize, y: 10usize };
    let mut first = None;
    for _ in 0..3 {
        let mut lengths = Coord { x: fx(0.8), y: fx(0.6) };
        let mut center = Coord { x: fx(-0.1), y: fx(0.75) };
        let mut points = buffer(120);
        let r = execute(300, fx(0.925), &resols, &mut lengths, &mut center, &mut points);
        assert!(r.is_ok());
        match first {
            None => first = Some((center, lengths, r)),
            Some(f) => assert_eq!(f, (center, lengths, r)),
        }
    }
}

#[test]
fn invalid_configurations_are_rejected() {
    let good_resols = Coord { x: 4usize, y: 4usize };
    let cases: Vec<(u32, i64, Coord<usize>, Coord<i64>, usize)> = vec![
        (0, fx(0.75), good_resols, Coord { x: fx(1.0), y: fx(1.0) }, 16),
        (64, 0, good_resols, Coord { x: fx(1.0), y: fx(1.0) }, 16),
        (64, ONE + 1, good_resols, Coord { x: fx(1.0), y: fx(1.0) }, 16),
        (64, fx(0.75), Coord { x: 0, y: 4 }, Coord { x: fx(1.0), y: fx(1.0) }, 16),
        (64, fx(0.75), good_resols, Coord { x: 0, y: fx(1.0) }, 16),
        (64, fx(0.75), good_resols, Coord { x: fx(1.0), y: -1 }, 16),
        (64, fx(0.75), good_resols, Coord { x: fx(1.0), y: fx(1.0) }, 15),
        (64, fx(0.75), Coord { x: usize::MAX, y: 2 }, Coord { x: fx(1.0), y: fx(1.0) }, 16),
        (64, fx(0.75), good_resols, Coord { x: fx(17.0), y: fx(1.0) }, 16),
    ];
    for (max_iter, factor, resols, start, n) in cases {
        let mut lengths = start;
        let mut center = Coord { x: fx(-0.75), y: 0 };
        let mut points = buffer(n);
        let r = execute(max_iter, factor, &resols, &mut lengths, &mut center, &mut points);
        assert_eq!(r, Err(SolveError::InvalidConfiguration));
        assert_eq!(lengths, start);
        assert_eq!(center, Coord { x: fx(-0.75), y: 0 });
        assert!(points.iter().all(|p| *p == Point { is_diverged: false, iter: 0 }));
    }
}

#[test]
fn one_pixel_grid_always_agrees() {
    let resols = Coord { x: 1usize, y: 1usize };
    let mut lengths = Coord { x: fx(1.0), y: fx(1.0) };
    let mut center = Coord { x: fx(-0.75), y: 0 };
    let mut points = buffer(1);
    let r = execute(64, fx(0.75), &resols, &mut lengths, &mut center, &mut points);
    assert_eq!(r, Err(SolveError::NoStructureFound));
}
