//! The zoom state machine: owns the domain and the grid buffer, and runs one
//! grid evaluation per step at the resolution of the current tier.
use crate::fixed::ONE;
use crate::grid::{
    all_diverged, all_interior, chosen_quadrant, deltas_of, execute, frame, in_grid, Frame, is_max_iter, is_min_iter,
    pixel_point, proposed_center, shrink, shrink_lengths, valid_config, SolveError, LIMIT,
};
use crate::mandelbrot::{Coord, Point};
use vstd::prelude::*;

verus! {

/// Extent below which the final, high-resolution tier is used (about 2.2e-12).
pub const LENGTH_MIN: i64 = 160000;

/// Initial extent of the domain's diagonal (4.0).
pub const LENGTH_MAX: i64 = 288230376151711744;

/// Iteration cap while searching at low resolution.
pub const MAX_ITER_LOW: u32 = 1024;

/// Iteration cap of the final, high-resolution tier.
pub const MAX_ITER_HIGH: u32 = 4096;

/// Shrink factor of an interactive driver (0.925).
pub const FACTOR_INTERACTIVE: i64 = 66653274485083344;

/// Shrink factor of a batch driver (0.75).
pub const FACTOR_BATCH: i64 = 54043195528445952;

/// Colour maps that an image can be drawn with.
#[derive(Clone, Copy, Debug, PartialEq, Eq)]
pub enum ColorMap {
    Magma,
    Viridis,
    Inferno,
    Cividis,
    Turbo,
}

/// The colour map for a uniform draw in `[0, 5)` (fixed point): one map
/// for each unit interval.
pub open spec fn colormap_of(draw: int) -> ColorMap {
    if draw < ONE as int {
        ColorMap::Magma
    } else if draw < 2 * ONE as int {
        ColorMap::Viridis
    } else if draw < 3 * ONE as int {
        ColorMap::Inferno
    } else if draw < 4 * ONE as int {
        ColorMap::Cividis
    } else {
        ColorMap::Turbo
    }
}

/// Picks a colour map from a random draw in `[0, 5)`, in fixed point.
pub fn decide_colormap(draw: i64) -> (r: ColorMap)
    ensures
        r == colormap_of(draw as int),
{
    if draw < ONE {
        ColorMap::Magma
    } else if draw < 2 * ONE {
        ColorMap::Viridis
    } else if draw < 3 * ONE {
        ColorMap::Inferno
    } else if draw < 4 * ONE {
        ColorMap::Cividis
    } else {
        ColorMap::Turbo
    }
}

/// Resolution tier of a step.
#[derive(Clone, Copy, Debug, PartialEq, Eq)]
pub enum Tier {
    /// low resolution, small iteration cap
    Searching,
    /// high resolution, large iteration cap
    Finalizing,
}

/// Squared magnitude of a pair of extents.
pub open spec fn magnitude2(l: Coord<i64>) -> int {
    l.x * l.x + l.y * l.y
}

/// The step from extents `l` is final: the shrunk diagonal falls below
/// `LENGTH_MIN`.
pub open spec fn finalizing(l: Coord<i64>, factor: int) -> bool {
    magnitude2(shrink_lengths(l, factor)) < LENGTH_MIN * LENGTH_MIN
}

/// The tier of a step from extents `l`.
pub open spec fn tier_of(l: Coord<i64>, factor: int) -> Tier {
    if finalizing(l, factor) {
        Tier::Finalizing
    } else {
        Tier::Searching
    }
}

/// Resolution of the step from extents `l`: high on the final tier.
pub open spec fn step_sizes(l: Coord<i64>, factor: int, high: Coord<usize>, low: Coord<usize>) -> Coord<usize> {
    if finalizing(l, factor) {
        high
    } else {
        low
    }
}

/// Iteration cap of the step from extents `l`: large on the final tier.
pub open spec fn step_cap(l: Coord<i64>, factor: int) -> u32 {
    if finalizing(l, factor) {
        MAX_ITER_HIGH
    } else {
        MAX_ITER_LOW
    }
}

/// The grid that the step from extents `l` around `center` evaluates.
pub open spec fn step_frame(
    factor: int,
    l: Coord<i64>,
    center: Coord<i64>,
    high: Coord<usize>,
    low: Coord<usize>,
) -> Frame {
    let sizes = step_sizes(l, factor, high, low);
    frame(step_cap(l, factor), sizes, deltas_of(l, sizes), center)
}

/// What one zoom step does: from the domain `(lengths, center)` and the grid
/// `points` to `(new_lengths, new_center, new_points)` and the result `r`.
pub open spec fn step_post(
    factor: i64,
    lengths: Coord<i64>,
    center: Coord<i64>,
    high: Coord<usize>,
    low: Coord<usize>,
    points: Seq<Point>,
    new_lengths: Coord<i64>,
    new_center: Coord<i64>,
    new_points: Seq<Point>,
    r: Result<Outcome, SolveError>,
) -> bool {
    let sizes = step_sizes(lengths, factor as int, high, low);
    let cap = step_cap(lengths, factor as int);
    &&& new_points.len() == points.len()
    &&& r is Err ==> new_lengths == lengths && new_center == center
    &&& r matches Ok(o) ==> {
        &&& o.tier == tier_of(lengths, factor as int)
        &&& new_lengths == shrink_lengths(lengths, factor as int)
    }
    &&& if valid_config(cap, factor, sizes, lengths, center, points.len()) {
        &&& (r == Err::<Outcome, SolveError>(SolveError::NoStructureFound)) == (all_diverged(
            step_frame(factor as int, lengths, center, high, low),
        ) || all_interior(step_frame(factor as int, lengths, center, high, low)))
        &&& r != Err::<Outcome, SolveError>(SolveError::InvalidConfiguration)
        &&& forall|i: int, j: int| #[trigger] in_grid(step_frame(factor as int, lengths, center, high, low), i, j)
            ==> new_points[j * sizes.x + i] == pixel_point(step_frame(factor as int, lengths, center, high, low), i, j)
        &&& forall|k: int| sizes.x * sizes.y <= k < points.len() ==> #[trigger] new_points[k] == points[k]
        &&& r matches Ok(o) ==> {
            &&& new_center == proposed_center(
                center,
                sizes,
                deltas_of(lengths, sizes),
                factor as int,
                chosen_quadrant(step_frame(factor as int, lengths, center, high, low)),
            )
            &&& is_min_iter(step_frame(factor as int, lengths, center, high, low), o.extrema[0] as int)
            &&& is_max_iter(step_frame(factor as int, lengths, center, high, low), o.extrema[1] as int)
            &&& 1 <= o.extrema[0] <= o.extrema[1] <= cap
        }
    } else {
        &&& r == Err::<Outcome, SolveError>(SolveError::InvalidConfiguration)
        &&& new_points == points
    }
}

/// Result of a successful step.
#[derive(Clone, Copy, Debug, PartialEq, Eq)]
pub struct Outcome {
    /// smallest and largest escape time of the grid
    pub extrema: [u32; 2],
    /// the tier the step ran at
    pub tier: Tier,
}

/// Navigation state: the domain, the two resolutions and the reused grid.
pub struct Mandelbrot {
    /// colour map of the image
    pub colormap: ColorMap,
    /// shrink factor applied by each successful step
    pub factor: i64,
    /// extents a fresh search starts from
    pub initial_lengths: Coord<i64>,
    /// current extents of the domain
    pub lengths: Coord<i64>,
    /// high resolution (final tier)
    pub canvas_sizes_h: Coord<usize>,
    /// low resolution (search tier)
    pub canvas_sizes_l: Coord<usize>,
    /// current centre of the domain
    pub center: Coord<i64>,
    /// escape results, row-major, sized for the high resolution
    pub points: Vec<Point>,
}

impl Mandelbrot {
    /// Initialisation: allocates the grid for the high resolution, starts a
    /// search from `center` with extents `lengths`, and takes the first step.
    pub fn new(
        canvas_sizes_h: Coord<usize>,
        canvas_sizes_l: Coord<usize>,
        factor: i64,
        lengths: Coord<i64>,
        colormap_draw: i64,
        center: Coord<i64>,
    ) -> (r: (Mandelbrot, Result<Outcome, SolveError>))
        requires
            canvas_sizes_h.x * canvas_sizes_h.y <= usize::MAX,
        ensures
            r.0.canvas_sizes_h == canvas_sizes_h,
            r.0.canvas_sizes_l == canvas_sizes_l,
            r.0.factor == factor,
            r.0.initial_lengths == lengths,
            r.0.colormap == colormap_of(colormap_draw as int),
            step_post(
                factor,
                lengths,
                center,
                canvas_sizes_h,
                canvas_sizes_l,
                Seq::new((canvas_sizes_h.x * canvas_sizes_h.y) as nat, |k: int| Point { is_diverged: false, iter: 0 }),
                r.0.lengths,
                r.0.center,
                r.0.points@,
                r.1,
            ),
    {
        // buffer to store pixel information, allocated for the higher resolution
        let total: usize = canvas_sizes_h.x * canvas_sizes_h.y;
        let mut points: Vec<Point> = Vec::new();
        let mut k: usize = 0;
        while k < total
            invariant
                k <= total,
                points@.len() == k,
                forall|m: int| 0 <= m < k ==> #[trigger] points@[m] == (Point { is_diverged: false, iter: 0 }),
            decreases total - k,
        {
            points.push(Point { is_diverged: false, iter: 0 });
            k = k + 1;
        }
        assert(points@ =~= Seq::new(total as nat, |k: int| Point { is_diverged: false, iter: 0 }));
        let mut mandelbrot = Mandelbrot {
            colormap: ColorMap::Cividis,
            factor,
            initial_lengths: lengths,
            lengths,
            canvas_sizes_h,
            canvas_sizes_l,
            center: Coord { x: 0, y: 0 },
            points,
        };
        mandelbrot.reset(colormap_draw, center);
        let first: Result<Outcome, SolveError> = mandelbrot.execute();
        (mandelbrot, first)
    }

    /// Starts a new search from `center` with the initial extents and a new
    /// colour map; the grid and the configuration are kept.
    pub fn reset(&mut self, colormap_draw: i64, center: Coord<i64>)
        ensures
            final(self).colormap == colormap_of(colormap_draw as int),
            final(self).lengths == old(self).initial_lengths,
            final(self).center == center,
            final(self).initial_lengths == old(self).initial_lengths,
            final(self).factor == old(self).factor,
            final(self).canvas_sizes_h == old(self).canvas_sizes_h,
            final(self).canvas_sizes_l == old(self).canvas_sizes_l,
            final(self).points == old(self).points,
    {
        self.colormap = decide_colormap(colormap_draw);
        self.lengths = self.initial_lengths;
        self.center = center;
    }

    /// Retries the search at the same zoom from another centre: only the
    /// centre changes.
    pub fn retry(&mut self, center: Coord<i64>)
        ensures
            final(self).center == center,
            final(self).lengths == old(self).lengths,
            final(self).colormap == old(self).colormap,
            final(self).initial_lengths == old(self).initial_lengths,
            final(self).factor == old(self).factor,
            final(self).canvas_sizes_h == old(self).canvas_sizes_h,
            final(self).canvas_sizes_l == old(self).canvas_sizes_l,
            final(self).points == old(self).points,
    {
        self.center = center;
    }

    /// The tier of the next step, or `None` when the extents are out of range.
    pub fn tier(&self) -> (r: Option<Tier>)
        ensures
            (0 < self.lengths.x <= LIMIT && 0 < self.lengths.y <= LIMIT && 0 <= self.factor <= ONE) ==> r
                == Some(tier_of(self.lengths, self.factor as int)),
            !(0 < self.lengths.x <= LIMIT && 0 < self.lengths.y <= LIMIT && 0 <= self.factor <= ONE) ==> r
                is None,
    {
        if !(0 < self.lengths.x && self.lengths.x <= LIMIT && 0 < self.lengths.y && self.lengths.y <= LIMIT
            && 0 <= self.factor && self.factor <= ONE) {
            return None;
        }
        let sx: i64 = crate::grid::shrink_value(self.lengths.x, self.factor);
        let sy: i64 = crate::grid::shrink_value(self.lengths.y, self.factor);
        assert(0 <= sx * sx <= LIMIT * LIMIT && 0 <= sy * sy <= LIMIT * LIMIT) by (nonlinear_arith)
            requires
                0 <= sx <= LIMIT,
                0 <= sy <= LIMIT,
        ;
        let m: i128 = sx as i128 * sx as i128 + sy as i128 * sy as i128;
        if m < LENGTH_MIN as i128 * LENGTH_MIN as i128 {
            Some(Tier::Finalizing)
        } else {
            Some(Tier::Searching)
        }
    }

    /// One step of the zoom: evaluates the grid of the current tier, then
    /// re-centres and shrinks the domain. On `NoStructureFound` the domain is
    /// left as it was: the caller picks another centre with `retry`.
    pub fn execute(&mut self) -> (r: Result<Outcome, SolveError>)
        ensures
            final(self).factor == old(self).factor,
            final(self).initial_lengths == old(self).initial_lengths,
            final(self).canvas_sizes_h == old(self).canvas_sizes_h,
            final(self).canvas_sizes_l == old(self).canvas_sizes_l,
            final(self).colormap == old(self).colormap,
            step_post(
                old(self).factor,
                old(self).lengths,
                old(self).center,
                old(self).canvas_sizes_h,
                old(self).canvas_sizes_l,
                old(self).points@,
                final(self).lengths,
                final(self).center,
                final(self).points@,
                r,
            ),
    {
        let tier: Tier = match self.tier() {
            Some(t) => t,
            None => {
                return Err(SolveError::InvalidConfiguration);
            },
        };
        let done: bool = matches!(tier, Tier::Finalizing);
        let max_iter: u32 = if done { MAX_ITER_HIGH } else { MAX_ITER_LOW };
        let canvas_sizes: Coord<usize> = if done { self.canvas_sizes_h } else { self.canvas_sizes_l };
        match execute(max_iter, self.factor, &canvas_sizes, &mut self.lengths, &mut self.center, &mut self.points) {
            Ok(extrema) => Ok(Outcome { extrema, tier }),
            Err(e) => Err(e),
        }
    }
}

/// A successful step with a factor below one strictly shrinks both extents
/// (each by the factor, rounded down) and so the diagonal; and once a step
/// is final, the step after it is final too: the tier never goes back.
pub proof fn lemma_zoom_monotone(lengths: Coord<i64>, factor: int)
    requires
        0 < lengths.x <= LIMIT,
        0 < lengths.y <= LIMIT,
        0 < factor < ONE,
    ensures
        ({
            let next = shrink_lengths(lengths, factor);
            &&& 0 <= next.x < lengths.x
            &&& 0 <= next.y < lengths.y
            &&& magnitude2(next) < magnitude2(lengths)
            &&& finalizing(lengths, factor) ==> finalizing(next, factor)
        }),
{
    let next = shrink_lengths(lengths, factor);
    lemma_shrink_below(lengths.x as int, factor);
    lemma_shrink_below(lengths.y as int, factor);
    assert(magnitude2(next) < magnitude2(lengths)) by (nonlinear_arith)
        requires
            0 <= next.x < lengths.x,
            0 <= next.y < lengths.y,
    ;
    let after = shrink_lengths(next, factor);
    let now = shrink_lengths(lengths, factor);
    lemma_shrink_monotone(next.x as int, lengths.x as int, factor);
    lemma_shrink_monotone(next.y as int, lengths.y as int, factor);
    assert(magnitude2(after) <= magnitude2(now)) by (nonlinear_arith)
        requires
            0 <= after.x <= now.x,
            0 <= after.y <= now.y,
    ;
}

proof fn lemma_shrink_below(v: int, factor: int)
    requires
        0 < v <= LIMIT,
        0 < factor < ONE,
    ensures
        0 <= shrink(v, factor) < v,
        shrink(v, factor) as i64 == shrink(v, factor),
{
    assert(0 <= v * factor < v * ONE) by (nonlinear_arith)
        requires
            0 < v,
            0 < factor < ONE,
    ;
    vstd::arithmetic::div_mod::lemma_multiply_divide_lt(v * factor, ONE as int, v);
    vstd::arithmetic::div_mod::lemma_div_pos_is_pos(v * factor, ONE as int);
}

proof fn lemma_shrink_monotone(a: int, b: int, factor: int)
    requires
        0 <= a <= b <= LIMIT,
        0 < factor < ONE,
    ensures
        0 <= shrink(a, factor) <= shrink(b, factor),
        shrink(a, factor) as i64 == shrink(a, factor),
        shrink(b, factor) as i64 == shrink(b, factor),
{
    assert(0 <= a * factor <= b * factor <= b * ONE) by (nonlinear_arith)
        requires
            0 <= a <= b,
            0 < factor < ONE,
    ;
    vstd::arithmetic::div_mod::lemma_div_is_ordered(a * factor, b * factor, ONE as int);
    vstd::arithmetic::div_mod::lemma_div_pos_is_pos(a * factor, ONE as int);
    vstd::arithmetic::div_mod::lemma_multiply_divide_le(b * factor, ONE as int, b);
}

} // verus!
