use mandelbrot::navigator::{Outcome, Tier, FACTOR_BATCH, LENGTH_MIN};
use mandelbrot::{decide_colormap, ColorMap, Coord, Mandelbrot, SolveError, ONE};

fn fx(v: f64) -> i64 {
    (v * ONE as f64) as i64
}

#[test]
fn colormap_follows_the_draw() {
    assert_eq!(decide_colormap(0), ColorMap::Magma);
    assert_eq!(decide_colormap(ONE - 1), ColorMap::Magma);
    assert_eq!(decide_colormap(ONE), ColorMap::Viridis);
    assert_eq!(decide_colormap(fx(2.5)), ColorMap::Inferno);
    assert_eq!(decide_colormap(fx(3.99)), ColorMap::Cividis);
    assert_eq!(decide_colormap(4 * ONE), ColorMap::Turbo);
    assert_eq!(decide_colormap(fx(4.9)), ColorMap::Turbo);
}

#[test]
fn new_allocates_for_the_high_resolution() {
    let (m, first) = Mandelbrot::new(
        Coord { x: 32, y: 16 },
        Coord { x: 16, y: 8 },
        FACTOR_BATCH,
        Coord { x: fx(3.5), y: fx(1.75) },
        fx(1.5),
        Coord { x: fx(-0.75), y: fx(0.1) },
    );
    assert_eq!(m.points.len(), 512);
    assert_eq!(m.colormap, ColorMap::Viridis);
    assert_eq!(m.initial_lengths, Coord { x: fx(3.5), y: fx(1.75) });
    // the first step ran on the low resolution and shrank the domain
    let o = first.unwrap();
    assert_eq!(o.tier, Tier::Searching);
    let sx = ((fx(3.5) as i128 * FACTOR_BATCH as i128) / ONE as i128) as i64;
    let sy = ((fx(1.75) as i128 * FACTOR_BATCH as i128) / ONE as i128) as i64;
    assert_eq!(m.lengths, Coord { x: sx, y: sy });
    assert_ne!(m.center, Coord { x: fx(-0.75), y: fx(0.1) });
    // beyond the low-resolution grid the buffer is still fresh
    assert!(m.points[128..].iter().all(|p| !p.is_diverged && p.iter == 0));
}

#[test]
fn successful_steps_shrink_by_the_factor() {
    let (mut m, _first) = Mandelbrot::new(
        Coord { x: 32, y: 16 },
        Coord { x: 16, y: 8 },
        FACTOR_BATCH,
        Coord { x: fx(3.5), y: fx(1.75) },
        0,
        Coord { x: fx(-0.75), y: fx(0.1) },
    );
    let mut steps = 0;
    for _ in 0..6 {
        let before = m.lengths;
        match m.execute() {
            Ok(o) => {
                steps += 1;
                assert_eq!(o.tier, Tier::Searching);
                assert!(o.extrema[0] >= 1 && o.extrema[0] <= o.extrema[1] && o.extrema[1] <= 1024);
                let sx = ((before.x as i128 * FACTOR_BATCH as i128) / ONE as i128) as i64;
                let sy = ((before.y as i128 * FACTOR_BATCH as i128) / ONE as i128) as i64;
                assert_eq!(m.lengths, Coord { x: sx, y: sy });
                assert!(m.lengths.x < before.x && m.lengths.y < before.y);
            }
            Err(e) => {
                assert_eq!(e, SolveError::NoStructureFound);
                assert_eq!(m.lengths, before);
                m.reset(0, Coord { x: fx(-0.75), y: fx(0.1) });
            }
        }
    }
    assert!(steps > 0);
}

#[test]
fn tier_turns_final_below_the_threshold_and_stays() {
    let (mut m, _first) = Mandelbrot::new(
        Coord { x: 8, y: 8 },
        Coord { x: 4, y: 4 },
        FACTOR_BATCH,
        Coord { x: LENGTH_MIN / 2, y: LENGTH_MIN / 2 },
        0,
        Coord { x: 0, y: 0 },
    );
    assert_eq!(m.tier(), Some(Tier::Finalizing));
    m.lengths = Coord { x: 10 * LENGTH_MIN, y: 10 * LENGTH_MIN };
    assert_eq!(m.tier(), Some(Tier::Searching));
    m.lengths = Coord { x: LENGTH_MIN, y: LENGTH_MIN / 2 };
    for _ in 0..5 {
        assert_eq!(m.tier(), Some(Tier::Finalizing));
        m.lengths.x = m.lengths.x * 3 / 4;
        m.lengths.y = m.lengths.y * 3 / 4;
    }
}

#[test]
fn final_step_uses_the_high_resolution() {
    let (mut m, _first) = Mandelbrot::new(
        Coord { x: 8, y: 8 },
        Coord { x: 4, y: 4 },
        FACTOR_BATCH,
        Coord { x: LENGTH_MIN / 2, y: LENGTH_MIN / 2 },
        0,
        Coord { x: 0, y: 0 },
    );
    // deep inside the set: the whole window is interior
    assert_eq!(m.execute(), Err(SolveError::NoStructureFound));
    assert!(m.points.iter().all(|p| !p.is_diverged && p.iter == 4096));
}

#[test]
fn extents_out_of_range_are_rejected() {
    let (mut m, _first) = Mandelbrot::new(
        Coord { x: 8, y: 8 },
        Coord { x: 4, y: 4 },
        FACTOR_BATCH,
        Coord { x: 0, y: ONE },
        0,
        Coord { x: 0, y: 0 },
    );
    assert_eq!(m.tier(), None);
    let r: Result<Outcome, SolveError> = m.execute();
    assert_eq!(r, Err(SolveError::InvalidConfiguration));
}

#[test]
fn constructor_is_deterministic() {
    let make = || {
        Mandelbrot::new(
            Coord { x: 20, y: 10 },
            Coord { x: 10, y: 5 },
            FACTOR_BATCH,
            Coord { x: fx(3.5), y: fx(1.75) },
            fx(3.2),
            Coord { x: fx(-0.5), y: fx(0.4) },
        )
    };
    let (a, ra) = make();
    let (b, rb) = make();
    assert_eq!(ra, rb);
    assert_eq!(a.center, b.center);
    assert_eq!(a.lengths, b.lengths);
    assert_eq!(a.points, b.points);
    assert_eq!(a.colormap, ColorMap::Cividis);
}

#[test]
fn retry_keeps_the_zoom_and_moves_the_centre() {
    let (mut m, _first) = Mandelbrot::new(
        Coord { x: 8, y: 8 },
        Coord { x: 4, y: 4 },
        FACTOR_BATCH,
        Coord { x: fx(0.001), y: fx(0.001) },
        0,
        Coord { x: 0, y: 0 },
    );
    // the window around the origin is all interior: nothing moved
    assert_eq!(m.lengths, Coord { x: fx(0.001), y: fx(0.001) });
    assert_eq!(m.center, Coord { x: 0, y: 0 });
    m.retry(Coord { x: fx(0.25), y: fx(0.5) });
    assert_eq!(m.center, Coord { x: fx(0.25), y: fx(0.5) });
    assert_eq!(m.lengths, Coord { x: fx(0.001), y: fx(0.001) });
    assert_eq!(m.colormap, ColorMap::Magma);
    assert_eq!(m.points.len(), 64);
}
