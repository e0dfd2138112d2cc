//! The grid solver: classifies every pixel of a domain, votes per quadrant
//! and proposes a new centre near the fractal boundary.
use crate::fixed::{trunc_div, ONE};
use crate::mandelbrot::{complex_of, escape_point, kernel, lemma_escape_range, Coord, Point};
use vstd::arithmetic::div_mod::lemma_multiply_divide_le;
use vstd::prelude::*;

verus! {

/// Largest magnitude accepted for a centre component, a half-extent or the
/// span of a grid (16.0): every pixel then stays well inside `i64`.
pub const LIMIT: i64 = 1152921504606846976;

/// Why a grid evaluation proposed no new domain.
#[derive(Clone, Copy, Debug, PartialEq, Eq)]
pub enum SolveError {
    /// Every pixel diverged, or every pixel stayed inside: no boundary is visible.
    NoStructureFound,
    /// A cap of zero, a factor outside `(0, 1]`, an empty resolution, a grid
    /// buffer too small, or a domain out of range.
    InvalidConfiguration,
}

/// What fixes every pixel of one grid evaluation.
#[derive(Clone, Copy, Debug, PartialEq, Eq)]
pub struct Frame {
    /// iteration cap of the kernel
    pub max_iter: u32,
    /// pixels in each direction
    pub resols: Coord<usize>,
    /// lower-left corner of the visible window
    pub corner: Coord<i64>,
    /// distance between neighbouring pixels
    pub deltas: Coord<i64>,
}

/// `center + sign * factor * resol * delta / 2`, the product rounded down.
pub open spec fn bound(sign: int, resol: int, center: int, delta: int, factor: int) -> int {
    center + sign * ((factor * (resol * delta)) / (2 * ONE as int))
}

/// The frame seen from `center` with the given spacing.
pub open spec fn frame(max_iter: u32, resols: Coord<usize>, deltas: Coord<i64>, center: Coord<i64>) -> Frame {
    Frame {
        max_iter,
        resols,
        corner: Coord {
            x: bound(-1, resols.x as int, center.x as int, deltas.x as int, ONE as int) as i64,
            y: bound(-1, resols.y as int, center.y as int, deltas.y as int, ONE as int) as i64,
        },
        deltas,
    }
}

/// The complex number at pixel `(i, j)`.
pub open spec fn pixel(f: Frame, i: int, j: int) -> Coord<i64> {
    Coord { x: (f.corner.x + i * f.deltas.x) as i64, y: (f.corner.y + j * f.deltas.y) as i64 }
}

/// The kernel's result at pixel `(i, j)`.
pub open spec fn pixel_point(f: Frame, i: int, j: int) -> Point {
    escape_point(f.max_iter, pixel(f, i, j))
}

/// `(i, j)` is a pixel of the frame.
pub open spec fn in_grid(f: Frame, i: int, j: int) -> bool {
    0 <= i < f.resols.x && 0 <= j < f.resols.y
}

/// Quadrant of pixel `(i, j)`: 0 lower-left, 1 lower-right, 2 upper-left, 3 upper-right.
pub open spec fn quadrant(r: Coord<usize>, i: int, j: int) -> int {
    (if j < r.y as int / 2 { 0int } else { 2int }) + (if i < r.x as int / 2 { 0int } else { 1int })
}

/// `+1` for a diverged point, `-1` for an interior one.
pub open spec fn sign_of(p: Point) -> int {
    if p.is_diverged { 1 } else { -1 }
}

/// Vote of quadrant `q` over the first `n` pixels of row `j`.
pub open spec fn row_vote(f: Frame, q: int, j: int, n: int) -> int
    decreases n,
{
    if n <= 0 {
        0
    } else {
        row_vote(f, q, j, n - 1) + if quadrant(f.resols, n - 1, j) == q {
            sign_of(pixel_point(f, n - 1, j))
        } else {
            0
        }
    }
}

/// Vote of quadrant `q` over the first `m` rows.
pub open spec fn vote(f: Frame, q: int, m: int) -> int
    decreases m,
{
    if m <= 0 {
        0
    } else {
        vote(f, q, m - 1) + row_vote(f, q, m - 1, f.resols.x as int)
    }
}

/// Vote of quadrant `q` over the whole grid.
pub open spec fn grid_vote(f: Frame, q: int) -> int {
    vote(f, q, f.resols.y as int)
}

/// Every pixel of the frame escaped.
pub open spec fn all_diverged(f: Frame) -> bool {
    forall|i: int, j: int| #[trigger] in_grid(f, i, j) ==> pixel_point(f, i, j).is_diverged
}

/// No pixel of the frame escaped.
pub open spec fn all_interior(f: Frame) -> bool {
    forall|i: int, j: int| #[trigger] in_grid(f, i, j) ==> !pixel_point(f, i, j).is_diverged
}

/// Magnitude of a vote.
pub open spec fn abs(v: int) -> int {
    if v < 0 { -v } else { v }
}

/// The first of four votes with the smallest magnitude.
pub open spec fn pick(v0: int, v1: int, v2: int, v3: int) -> int {
    if abs(v0) <= abs(v1) && abs(v0) <= abs(v2) && abs(v0) <= abs(v3) {
        0
    } else if abs(v1) <= abs(v2) && abs(v1) <= abs(v3) {
        1
    } else if abs(v2) <= abs(v3) {
        2
    } else {
        3
    }
}

/// The most balanced quadrant of the grid.
pub open spec fn chosen_quadrant(f: Frame) -> int {
    pick(grid_vote(f, 0), grid_vote(f, 1), grid_vote(f, 2), grid_vote(f, 3))
}

/// Scales of the two opposite corners of the box anchored toward quadrant `q`:
/// `(lower x, lower y, upper x, upper y)`.
pub open spec fn scales(q: int, factor: int) -> (int, int, int, int) {
    if q == 0 {
        (ONE as int, ONE as int, factor, factor)
    } else if q == 1 {
        (factor, ONE as int, ONE as int, factor)
    } else if q == 2 {
        (ONE as int, factor, factor, ONE as int)
    } else {
        (factor, factor, ONE as int, ONE as int)
    }
}

/// The midpoint of the box anchored toward quadrant `q`.
pub open spec fn proposed_center(
    center: Coord<i64>,
    resols: Coord<usize>,
    deltas: Coord<i64>,
    factor: int,
    q: int,
) -> Coord<i64> {
    let s = scales(q, factor);
    let x0 = bound(-1, resols.x as int, center.x as int, deltas.x as int, s.0);
    let y0 = bound(-1, resols.y as int, center.y as int, deltas.y as int, s.1);
    let x1 = bound(1, resols.x as int, center.x as int, deltas.x as int, s.2);
    let y1 = bound(1, resols.y as int, center.y as int, deltas.y as int, s.3);
    Coord { x: trunc_div(x0 + x1, 2) as i64, y: trunc_div(y0 + y1, 2) as i64 }
}

/// The same domain, factor and quadrant always give the same proposed centre.
pub proof fn lemma_proposed_center_reproducible(
    c1: Coord<i64>,
    c2: Coord<i64>,
    r1: Coord<usize>,
    r2: Coord<usize>,
    d1: Coord<i64>,
    d2: Coord<i64>,
    f1: int,
    f2: int,
    q1: int,
    q2: int,
)
    requires
        c1 == c2,
        r1 == r2,
        d1 == d2,
        f1 == f2,
        q1 == q2,
    ensures
        proposed_center(c1, r1, d1, f1, q1) == proposed_center(c2, r2, d2, f2, q2),
{
}

/// Computes one side of a window: `center + sign * factor * resol * delta / 2`.
///
/// * `sign`   - side of interest: lower (-1) or upper (+1)
/// * `resol`  - number of pixels in the direction
/// * `center` - centre of the domain in the direction
/// * `delta`  - inter-pixel distance
/// * `factor` - retraction factor, in fixed point
fn get_bound(sign: i64, resol: usize, center: i64, delta: i64, factor: i64) -> (r: i64)
    requires
        sign == 1 || sign == -1,
        0 <= delta,
        resol * delta <= LIMIT,
        0 <= factor <= ONE,
        -LIMIT <= center <= LIMIT,
    ensures
        r == bound(sign as int, resol as int, center as int, delta as int, factor as int),
        -LIMIT - LIMIT / 2 <= r <= LIMIT + LIMIT / 2,
{
    let span: i128 = resol as i128 * delta as i128;
    assert(0 <= factor * span <= ONE * LIMIT) by (nonlinear_arith)
        requires
            0 <= factor <= ONE,
            0 <= span <= LIMIT,
    ;
    let scaled: i128 = factor as i128 * span;
    let half: i128 = scaled / (2 * ONE as i128);
    proof {
        lemma_multiply_divide_le(scaled as int, 2 * ONE as int, LIMIT / 2);
    }
    (center as i128 + sign as i128 * half) as i64
}


/// Inputs on which `solve` can work: a positive cap, a factor in `(0, 1]`,
/// a non-empty grid that fits the buffer and spans at most `LIMIT`.
pub open spec fn solvable(
    max_iter: u32,
    factor: i64,
    deltas: Coord<i64>,
    resols: Coord<usize>,
    center: Coord<i64>,
    len: nat,
) -> bool {
    &&& max_iter >= 1
    &&& 0 < factor <= ONE
    &&& resols.x >= 1 && resols.y >= 1
    &&& resols.x * resols.y <= len
    &&& 0 <= deltas.x && 0 <= deltas.y
    &&& resols.x * deltas.x <= LIMIT && resols.y * deltas.y <= LIMIT
    &&& -LIMIT <= center.x <= LIMIT && -LIMIT <= center.y <= LIMIT
}

/// Pixel `(a, b)` comes before pixel `(i, j)` in row-major order.
pub open spec fn visited(a: int, b: int, i: int, j: int) -> bool {
    b < j || (b == j && a < i)
}

/// Every pixel of quadrant `q` visited before `(i, j)` has divergence status `diverged`.
pub open spec fn quadrant_all(f: Frame, q: int, i: int, j: int, diverged: bool) -> bool {
    forall|a: int, b: int|
        #![trigger pixel_point(f, a, b)]
        in_grid(f, a, b) && visited(a, b, i, j) && quadrant(f.resols, a, b) == q
            ==> pixel_point(f, a, b).is_diverged == diverged
}

/// `m` is the smallest escape time of the grid.
pub open spec fn is_min_iter(f: Frame, m: int) -> bool {
    &&& forall|a: int, b: int| #[trigger] in_grid(f, a, b) ==> m <= pixel_point(f, a, b).iter
    &&& exists|a: int, b: int| #[trigger] in_grid(f, a, b) && pixel_point(f, a, b).iter == m
}

/// `m` is the largest escape time of the grid.
pub open spec fn is_max_iter(f: Frame, m: int) -> bool {
    &&& forall|a: int, b: int| #[trigger] in_grid(f, a, b) ==> pixel_point(f, a, b).iter <= m
    &&& exists|a: int, b: int| #[trigger] in_grid(f, a, b) && pixel_point(f, a, b).iter == m
}

proof fn lemma_row_major(a: int, b: int, i: int, j: int, rx: int)
    requires
        0 <= a < rx,
        0 <= b,
        0 <= i <= rx,
        visited(a, b, i, j),
    ensures
        b * rx + a < j * rx + i,
        0 <= b * rx + a,
{
    assert(0 <= b * rx) by (nonlinear_arith)
        requires
            0 <= b,
            0 <= rx,
    ;
    if b < j {
        assert(b * rx + rx <= j * rx) by (nonlinear_arith)
            requires
                b < j,
                0 <= rx,
        ;
    }
}

proof fn lemma_step_le(j: int, r: int, d: int)
    requires
        0 <= j <= r,
        0 <= d,
    ensures
        0 <= j * d <= r * d,
{
    assert(0 <= j * d <= r * d) by (nonlinear_arith)
        requires
            0 <= j <= r,
            0 <= d,
    ;
}

proof fn lemma_index_in_grid(i: int, j: int, rx: int, ry: int)
    requires
        0 <= i < rx,
        0 <= j < ry,
    ensures
        0 <= j * rx + i < rx * ry,
        j * rx + rx == (j + 1) * rx,
{
    assert(0 <= j * rx + i < rx * ry) by (nonlinear_arith)
        requires
            0 <= i < rx,
            0 <= j < ry,
    ;
    assert(j * rx + rx == (j + 1) * rx) by (nonlinear_arith);
}

proof fn lemma_points_step(
    f: Frame,
    before: Seq<Point>,
    after: Seq<Point>,
    i: int,
    j: int,
    p: Point,
)
    requires
        0 <= i < f.resols.x,
        0 <= j < f.resols.y,
        j * f.resols.x + i < before.len(),
        after == before.update(j * f.resols.x + i, p),
        p == pixel_point(f, i, j),
        forall|a: int, b: int|
            #[trigger] in_grid(f, a, b) && visited(a, b, i, j) ==> before[b * f.resols.x + a] == pixel_point(f, a, b),
    ensures
        forall|a: int, b: int|
            #[trigger] in_grid(f, a, b) && visited(a, b, i + 1, j) ==> after[b * f.resols.x + a] == pixel_point(f, a, b),
{
    assert forall|a: int, b: int|
        #[trigger] in_grid(f, a, b) && visited(a, b, i + 1, j) implies after[b * f.resols.x + a] == pixel_point(f, a, b) by {
        if visited(a, b, i, j) {
            lemma_row_major(a, b, i, j, f.resols.x as int);
        }
    }
}

proof fn lemma_quadrant_step(f: Frame, qq: int, i: int, j: int, d: bool)
    requires
        0 <= i < f.resols.x,
        0 <= j < f.resols.y,
    ensures
        quadrant_all(f, qq, i + 1, j, d) == (quadrant_all(f, qq, i, j, d) && (quadrant(f.resols, i, j) == qq
            ==> pixel_point(f, i, j).is_diverged == d)),
{
    if quadrant_all(f, qq, i + 1, j, d) {
        assert(visited(i, j, i + 1, j));
    }
}

proof fn lemma_row_end(f: Frame, q: int, j: int, d: bool)
    requires
        0 <= j < f.resols.y,
    ensures
        quadrant_all(f, q, f.resols.x as int, j, d) == quadrant_all(f, q, 0, j + 1, d),
{
    if quadrant_all(f, q, f.resols.x as int, j, d) {
        assert forall|a: int, b: int|
            #![trigger pixel_point(f, a, b)]
            in_grid(f, a, b) && visited(a, b, 0, j + 1) && quadrant(f.resols, a, b) == q
                implies pixel_point(f, a, b).is_diverged == d by {
            assert(visited(a, b, f.resols.x as int, j));
        }
    }
}

proof fn lemma_uniform(f: Frame, all: bool, d: bool)
    requires
        all == (forall|q: int| 0 <= q < 4 ==> #[trigger] quadrant_all(f, q, 0, f.resols.y as int, d)),
    ensures
        all == (forall|a: int, b: int| #[trigger] in_grid(f, a, b) ==> pixel_point(f, a, b).is_diverged == d),
{
    if all {
        assert forall|a: int, b: int| #[trigger] in_grid(f, a, b) implies pixel_point(f, a, b).is_diverged == d by {
            let qq = quadrant(f.resols, a, b);
            assert(quadrant_all(f, qq, 0, f.resols.y as int, d));
            assert(visited(a, b, 0, f.resols.y as int));
        }
    }
    if forall|a: int, b: int| #[trigger] in_grid(f, a, b) ==> pixel_point(f, a, b).is_diverged == d {
        assert forall|qq: int| 0 <= qq < 4 implies #[trigger] quadrant_all(f, qq, 0, f.resols.y as int, d) by {}
    }
}

proof fn lemma_tally_step(
    f: Frame,
    vals0: [i128; 4],
    mins0: [i128; 4],
    maxs0: [i128; 4],
    vals: [i128; 4],
    mins: [i128; 4],
    maxs: [i128; 4],
    q: int,
    i: int,
    j: int,
    n: int,
)
    requires
        0 <= i < f.resols.x,
        0 <= j < f.resols.y,
        q == quadrant(f.resols, i, j),
        0 <= q < 4,
        0 <= n < usize::MAX,
        vals@ == vals0@.update(q, (vals0[q] + sign_of(pixel_point(f, i, j))) as i128),
        mins@ == mins0@.update(q, (mins0[q] - 1) as i128),
        maxs@ == maxs0@.update(q, (maxs0[q] + 1) as i128),
        forall|qq: int|
            0 <= qq < 4 ==> {
                &&& mins0[qq] == -maxs0[qq]
                &&& -maxs0[qq] <= vals0[qq] <= maxs0[qq]
                &&& 0 <= maxs0[qq] <= n
                &&& vals0[qq] == vote(f, qq, j) + row_vote(f, qq, j, i)
                &&& (vals0[qq] == maxs0[qq]) == quadrant_all(f, qq, i, j, true)
                &&& (vals0[qq] == mins0[qq]) == quadrant_all(f, qq, i, j, false)
            },
    ensures
        forall|qq: int|
            0 <= qq < 4 ==> {
                &&& mins[qq] == -maxs[qq]
                &&& -maxs[qq] <= vals[qq] <= maxs[qq]
                &&& 0 <= maxs[qq] <= n + 1
                &&& vals[qq] == vote(f, qq, j) + row_vote(f, qq, j, i + 1)
                &&& (vals[qq] == maxs[qq]) == quadrant_all(f, qq, i + 1, j, true)
                &&& (vals[qq] == mins[qq]) == quadrant_all(f, qq, i + 1, j, false)
            },
{
    assert forall|qq: int| 0 <= qq < 4 implies {
        &&& mins[qq] == -maxs[qq]
        &&& -maxs[qq] <= vals[qq] <= maxs[qq]
        &&& 0 <= maxs[qq] <= n + 1
        &&& vals[qq] == vote(f, qq, j) + row_vote(f, qq, j, i + 1)
        &&& (vals[qq] == maxs[qq]) == quadrant_all(f, qq, i + 1, j, true)
        &&& (vals[qq] == mins[qq]) == quadrant_all(f, qq, i + 1, j, false)
    } by {
        assert(vals[qq] == vals@[qq] && maxs[qq] == maxs@[qq] && mins[qq] == mins@[qq]);
        assert(vals0[qq] == vals0@[qq] && maxs0[qq] == maxs0@[qq] && mins0[qq] == mins0@[qq]);
        assert(row_vote(f, qq, j, i + 1) == row_vote(f, qq, j, i) + if quadrant(f.resols, i, j) == qq {
            sign_of(pixel_point(f, i, j))
        } else {
            0
        });
        lemma_quadrant_step(f, qq, i, j, true);
        lemma_quadrant_step(f, qq, i, j, false);
    }
}

/// Evaluates every pixel of the window around `center`, writes the results
/// row by row into `points`, and re-centres toward the most balanced quadrant.
///
/// * `deltas` - the inter-pixel distances
/// * `resols` - the number of pixels in each direction
#[verifier::rlimit(100)]
pub fn solve(
    max_iter: u32,
    factor: i64,
    deltas: &Coord<i64>,
    resols: &Coord<usize>,
    center: &mut Coord<i64>,
    points: &mut Vec<Point>,
) -> (r: Result<[u32; 2], SolveError>)
    requires
        solvable(max_iter, factor, *deltas, *resols, *old(center), old(points)@.len()),
    ensures
        ({
            let f = frame(max_iter, *resols, *deltas, *old(center));
            &&& final(points)@.len() == old(points)@.len()
            &&& forall|i: int, j: int| #[trigger] in_grid(f, i, j)
                ==> final(points)@[j * resols.x + i] == pixel_point(f, i, j)
            &&& forall|k: int| resols.x * resols.y <= k < old(points)@.len()
                ==> #[trigger] final(points)@[k] == old(points)@[k]
            &&& (r == Err::<[u32; 2], SolveError>(SolveError::NoStructureFound)) == (all_diverged(f) || all_interior(f))
            &&& r != Err::<[u32; 2], SolveError>(SolveError::InvalidConfiguration)
            &&& r is Err ==> *final(center) == *old(center)
            &&& r matches Ok(e) ==> {
                &&& *final(center) == proposed_center(*old(center), *resols, *deltas, factor as int, chosen_quadrant(f))
                &&& is_min_iter(f, e[0] as int)
                &&& is_max_iter(f, e[1] as int)
                &&& 1 <= e[0] <= e[1] <= max_iter
            }
        }),
{
    let ghost f = frame(max_iter, *resols, *deltas, *center);
    let ghost old_points = points@;
    let rx: usize = resols.x;
    let ry: usize = resols.y;
    // lower-left corner
    let corner: Coord<i64> = Coord {
        x: get_bound(-1, rx, center.x, deltas.x, ONE),
        y: get_bound(-1, ry, center.y, deltas.y, ONE),
    };
    // minimum / maximum number of iterations
    let mut lo: u32 = u32::MAX;
    let mut hi: u32 = u32::MIN;
    let ghost mut wlo: (int, int) = (0, 0);
    let ghost mut whi: (int, int) = (0, 0);
    // per-quadrant votes and their extreme values
    let mut vals: [i128; 4] = [0; 4];
    let mut mins: [i128; 4] = [0; 4];
    let mut maxs: [i128; 4] = [0; 4];
    let mut n: usize = 0;
    let mut j: usize = 0;
    let len: usize = points.len();
    while j < ry
        invariant
            f == frame(max_iter, *resols, *deltas, *center),
            solvable(max_iter, factor, *deltas, *resols, *center, old_points.len()),
            corner == f.corner,
            -LIMIT - LIMIT / 2 <= corner.x <= LIMIT + LIMIT / 2,
            -LIMIT - LIMIT / 2 <= corner.y <= LIMIT + LIMIT / 2,
            rx == resols.x,
            ry == resols.y,
            0 <= j <= ry,
            n == j * rx,
            n <= rx * ry,
            points@.len() == old_points.len(),
            old_points.len() == len,
            forall|k: int| n <= k < old_points.len() ==> #[trigger] points@[k] == old_points[k],
            forall|a: int, b: int|
                #[trigger] in_grid(f, a, b) && visited(a, b, 0, j as int) ==> points@[b * rx + a] == pixel_point(f, a, b),
            forall|q: int|
                0 <= q < 4 ==> {
                    &&& mins[q] == -maxs[q]
                    &&& -maxs[q] <= vals[q] <= maxs[q]
                    &&& 0 <= maxs[q] <= n
                    &&& vals[q] == vote(f, q, j as int)
                    &&& (vals[q] == maxs[q]) == quadrant_all(f, q, 0, j as int, true)
                    &&& (vals[q] == mins[q]) == quadrant_all(f, q, 0, j as int, false)
                },
            n > 0 ==> {
                &&& in_grid(f, wlo.0, wlo.1)
                &&& pixel_point(f, wlo.0, wlo.1).iter == lo
                &&& in_grid(f, whi.0, whi.1)
                &&& pixel_point(f, whi.0, whi.1).iter == hi
            },
            forall|a: int, b: int|
                #[trigger] in_grid(f, a, b) && visited(a, b, 0, j as int)
                    ==> lo <= pixel_point(f, a, b).iter <= hi,
        decreases ry - j,
    {
        proof {
            lemma_step_le(j as int, ry as int, deltas.y as int);
        }
        let y: i64 = (corner.y as i128 + j as i128 * deltas.y as i128) as i64;
        let mut i: usize = 0;
        while i < rx
            invariant
                f == frame(max_iter, *resols, *deltas, *center),
                solvable(max_iter, factor, *deltas, *resols, *center, old_points.len()),
                corner == f.corner,
                -LIMIT - LIMIT / 2 <= corner.x <= LIMIT + LIMIT / 2,
                rx == resols.x,
                ry == resols.y,
                0 <= j < ry,
                0 <= i <= rx,
                y == corner.y + j * deltas.y,
                n == j * rx + i,
                n <= rx * ry,
                points@.len() == old_points.len(),
                old_points.len() == len,
            old_points.len() == len,
                forall|k: int| n <= k < old_points.len() ==> #[trigger] points@[k] == old_points[k],
                forall|a: int, b: int|
                    #[trigger] in_grid(f, a, b) && visited(a, b, i as int, j as int) ==> points@[b * rx + a]
                        == pixel_point(f, a, b),
                forall|q: int|
                    0 <= q < 4 ==> {
                        &&& mins[q] == -maxs[q]
                        &&& -maxs[q] <= vals[q] <= maxs[q]
                        &&& 0 <= maxs[q] <= n
                        &&& vals[q] == vote(f, q, j as int) + row_vote(f, q, j as int, i as int)
                        &&& (vals[q] == maxs[q]) == quadrant_all(f, q, i as int, j as int, true)
                        &&& (vals[q] == mins[q]) == quadrant_all(f, q, i as int, j as int, false)
                    },
                n > 0 ==> {
                    &&& in_grid(f, wlo.0, wlo.1)
                    &&& pixel_point(f, wlo.0, wlo.1).iter == lo
                    &&& in_grid(f, whi.0, whi.1)
                    &&& pixel_point(f, whi.0, whi.1).iter == hi
                },
                forall|a: int, b: int|
                    #[trigger] in_grid(f, a, b) && visited(a, b, i as int, j as int)
                        ==> lo <= pixel_point(f, a, b).iter <= hi,
            decreases rx - i,
        {
            proof {
                lemma_step_le(i as int, rx as int, deltas.x as int);
                lemma_index_in_grid(i as int, j as int, rx as int, ry as int);
            }
            let x: i64 = (corner.x as i128 + i as i128 * deltas.x as i128) as i64;
            let ii: usize = if i < rx / 2 { 0 } else { 1 };
            let jj: usize = if j < ry / 2 { 0 } else { 1 };
            let q: usize = jj * 2 + ii;
            assert(q == quadrant(f.resols, i as int, j as int));
            let p: Point = kernel(max_iter, &Coord { x, y });
            assert(p == pixel_point(f, i as int, j as int));
            let ghost lo0 = lo;
            let ghost hi0 = hi;
            if p.iter < lo || n == 0 {
                proof {
                    wlo = (i as int, j as int);
                }
            }
            if p.iter > hi || n == 0 {
                proof {
                    whi = (i as int, j as int);
                }
            }
            if n == 0 {
                lo = p.iter;
                hi = p.iter;
            } else {
                lo = if p.iter < lo { p.iter } else { lo };
                hi = if p.iter > hi { p.iter } else { hi };
            }
            let val: i128 = if p.is_diverged { 1 } else { -1 };
            let ghost vals0 = vals;
            let ghost maxs0 = maxs;
            let ghost mins0 = mins;
            vals.set(q, vals[q] + val);
            mins.set(q, mins[q] - 1);
            maxs.set(q, maxs[q] + 1);
            let ghost before = points@;
            points.set(n, p);
            proof {
                lemma_points_step(f, before, points@, i as int, j as int, p);
                lemma_tally_step(f, vals0, mins0, maxs0, vals, mins, maxs, q as int, i as int, j as int, n as int);
                assert forall|a: int, b: int|
                    #[trigger] in_grid(f, a, b) && visited(a, b, i + 1, j as int)
                        implies lo <= pixel_point(f, a, b).iter <= hi by {
                    if visited(a, b, i as int, j as int) {
                        lemma_row_major(a, b, i as int, j as int, rx as int);
                        assert(lo0 <= pixel_point(f, a, b).iter <= hi0);
                    }
                }
            }
            i = i + 1;
            n = n + 1;
        }
        proof {
            lemma_index_in_grid(0, j as int, rx as int, ry as int);
            assert forall|q: int| 0 <= q < 4 implies {
                &&& vals[q] == vote(f, q, j + 1)
                &&& (vals[q] == maxs[q]) == quadrant_all(f, q, 0, j + 1, true)
                &&& (vals[q] == mins[q]) == quadrant_all(f, q, 0, j + 1, false)
            } by {
                lemma_row_end(f, q, j as int, true);
                lemma_row_end(f, q, j as int, false);
            }
            assert forall|a: int, b: int|
                #[trigger] in_grid(f, a, b) && visited(a, b, 0, j + 1)
                    implies lo <= pixel_point(f, a, b).iter <= hi && points@[b * rx + a] == pixel_point(f, a, b) by {
                assert(visited(a, b, rx as int, j as int));
            }
        }
        j = j + 1;
    }
    // no structure inside the domain: every pixel agrees
    let all_out: bool = vals[0] == maxs[0] && vals[1] == maxs[1] && vals[2] == maxs[2] && vals[3] == maxs[3];
    let all_in: bool = vals[0] == mins[0] && vals[1] == mins[1] && vals[2] == mins[2] && vals[3] == mins[3];
    proof {
        assert(all_out == (forall|q: int| 0 <= q < 4 ==> #[trigger] quadrant_all(f, q, 0, ry as int, true)));
        assert(all_in == (forall|q: int| 0 <= q < 4 ==> #[trigger] quadrant_all(f, q, 0, ry as int, false)));
        lemma_uniform(f, all_out, true);
        lemma_uniform(f, all_in, false);
        assert forall|a: int, b: int| #[trigger] in_grid(f, a, b) implies visited(a, b, 0, ry as int) by {}
    }
    if all_out || all_in {
        return Err(SolveError::NoStructureFound);
    }
    let index: usize = pick_quadrant(&vals);
    let sngl: i64 = ONE;
    let fctr: i64 = factor;
    let conditions: [[i64; 4]; 4] = [
        [sngl, sngl, fctr, fctr],
        [fctr, sngl, sngl, fctr],
        [sngl, fctr, fctr, sngl],
        [fctr, fctr, sngl, sngl],
    ];
    let sc: [i64; 4] = conditions[index];
    let x0: i64 = get_bound(-1, rx, center.x, deltas.x, sc[0]);
    let y0: i64 = get_bound(-1, ry, center.y, deltas.y, sc[1]);
    let x1: i64 = get_bound(1, rx, center.x, deltas.x, sc[2]);
    let y1: i64 = get_bound(1, ry, center.y, deltas.y, sc[3]);
    center.x = half(x0 + x1);
    center.y = half(y0 + y1);
    proof {
        assert(in_grid(f, wlo.0, wlo.1));
        assert(in_grid(f, whi.0, whi.1));
        lemma_extrema_range(f, lo as int, hi as int);
    }
    Ok([lo, hi])
}

/// Half of `n`, rounded toward zero.
fn half(n: i64) -> (r: i64)
    requires
        n > i64::MIN,
    ensures
        r == trunc_div(n as int, 2),
{
    if n >= 0 {
        n / 2
    } else {
        -((-n) / 2)
    }
}

/// Index of the first vote with the smallest magnitude.
fn pick_quadrant(vals: &[i128; 4]) -> (r: usize)
    requires
        forall|q: int| 0 <= q < 4 ==> i128::MIN < #[trigger] vals[q],
    ensures
        r as int == pick(vals[0] as int, vals[1] as int, vals[2] as int, vals[3] as int),
        r < 4,
{
    let a0: i128 = if vals[0] < 0 { -vals[0] } else { vals[0] };
    let a1: i128 = if vals[1] < 0 { -vals[1] } else { vals[1] };
    let a2: i128 = if vals[2] < 0 { -vals[2] } else { vals[2] };
    let a3: i128 = if vals[3] < 0 { -vals[3] } else { vals[3] };
    if a0 <= a1 && a0 <= a2 && a0 <= a3 {
        0
    } else if a1 <= a2 && a1 <= a3 {
        1
    } else if a2 <= a3 {
        2
    } else {
        3
    }
}


/// Escape times found on a grid lie in `[1, cap]`, the smallest first.
pub proof fn lemma_extrema_range(f: Frame, lo: int, hi: int)
    requires
        f.max_iter >= 1,
        is_min_iter(f, lo),
        is_max_iter(f, hi),
    ensures
        1 <= lo <= hi <= f.max_iter,
{
    let (a, b) = choose|a: int, b: int| #[trigger] in_grid(f, a, b) && pixel_point(f, a, b).iter == lo;
    let (c, d) = choose|c: int, d: int| #[trigger] in_grid(f, c, d) && pixel_point(f, c, d).iter == hi;
    lemma_escape_range(f.max_iter as nat, complex_of(pixel(f, a, b)));
    lemma_escape_range(f.max_iter as nat, complex_of(pixel(f, c, d)));
}

/// The grid's pixels all share divergence status `d` exactly when the
/// first `rx * ry` entries of a buffer holding them, row-major, all do.
pub proof fn lemma_uniform_buffer(f: Frame, pts: Seq<Point>, d: bool)
    requires
        f.resols.x >= 1,
        f.resols.y >= 1,
        f.resols.x * f.resols.y <= pts.len(),
        forall|i: int, j: int| #[trigger] in_grid(f, i, j) ==> pts[j * f.resols.x + i] == pixel_point(f, i, j),
    ensures
        (forall|i: int, j: int| #[trigger] in_grid(f, i, j) ==> pixel_point(f, i, j).is_diverged == d)
            == (forall|k: int| 0 <= k < f.resols.x * f.resols.y ==> #[trigger] pts[k].is_diverged == d),
{
    let rx = f.resols.x as int;
    let ry = f.resols.y as int;
    if forall|i: int, j: int| #[trigger] in_grid(f, i, j) ==> pixel_point(f, i, j).is_diverged == d {
        assert forall|k: int| 0 <= k < rx * ry implies #[trigger] pts[k].is_diverged == d by {
            let i = k % rx;
            let j = k / rx;
            vstd::arithmetic::div_mod::lemma_fundamental_div_mod(k, rx);
            vstd::arithmetic::div_mod::lemma_div_pos_is_pos(k, rx);
            vstd::arithmetic::div_mod::lemma_multiply_divide_lt(k, rx, ry);
            assert(rx * j == j * rx) by (nonlinear_arith);
            assert(in_grid(f, i, j));
        }
    }
    if forall|k: int| 0 <= k < rx * ry ==> #[trigger] pts[k].is_diverged == d {
        assert forall|i: int, j: int| #[trigger] in_grid(f, i, j) implies pixel_point(f, i, j).is_diverged == d by {
            lemma_index_in_grid(i, j, rx, ry);
            assert(pts[j * rx + i].is_diverged == d);
        }
    }
}

/// Inputs on which `execute` works: a positive cap, a factor in `(0, 1]`, a
/// non-empty resolution whose grid fits the buffer, positive half-extents
/// and a centre within `LIMIT`.
pub open spec fn valid_config(
    max_iter: u32,
    factor: i64,
    resols: Coord<usize>,
    lengths: Coord<i64>,
    center: Coord<i64>,
    len: nat,
) -> bool {
    &&& max_iter >= 1
    &&& 0 < factor <= ONE
    &&& resols.x >= 1 && resols.y >= 1
    &&& resols.x * resols.y <= len
    &&& 0 < lengths.x <= LIMIT && 0 < lengths.y <= LIMIT
    &&& -LIMIT <= center.x <= LIMIT && -LIMIT <= center.y <= LIMIT
}

/// Spacing of the pixels that cover the extents `lengths`.
pub open spec fn deltas_of(lengths: Coord<i64>, resols: Coord<usize>) -> Coord<i64> {
    Coord { x: (lengths.x as int / resols.x as int) as i64, y: (lengths.y as int / resols.y as int) as i64 }
}

/// `v` scaled by the fixed-point `factor`, rounded down.
pub open spec fn shrink(v: int, factor: int) -> int {
    (v * factor) / (ONE as int)
}

/// Both extents scaled by `factor`.
pub open spec fn shrink_lengths(lengths: Coord<i64>, factor: int) -> Coord<i64> {
    Coord { x: shrink(lengths.x as int, factor) as i64, y: shrink(lengths.y as int, factor) as i64 }
}

/// `v * factor / ONE` for `0 <= v <= LIMIT`.
pub fn shrink_value(v: i64, factor: i64) -> (r: i64)
    requires
        0 <= v <= LIMIT,
        0 <= factor <= ONE,
    ensures
        r == shrink(v as int, factor as int),
        0 <= r <= v,
{
    assert(0 <= v * factor <= v * ONE) by (nonlinear_arith)
        requires
            0 <= v,
            0 <= factor <= ONE,
    ;
    let p: i128 = v as i128 * factor as i128;
    proof {
        lemma_multiply_divide_le(p as int, ONE as int, v as int);
        vstd::arithmetic::div_mod::lemma_div_pos_is_pos(p as int, ONE as int);
    }
    (p / ONE as i128) as i64
}

/// Finds a nice image centre so that the resulting image has something to
/// display: evaluates the grid seen from `center` with extents `lengths`,
/// moves `center` toward the most balanced quadrant and shrinks `lengths`
/// by `factor`.
pub fn execute(
    max_iter: u32,
    factor: i64,
    resols: &Coord<usize>,
    lengths: &mut Coord<i64>,
    center: &mut Coord<i64>,
    points: &mut Vec<Point>,
) -> (r: Result<[u32; 2], SolveError>)
    ensures
        !valid_config(max_iter, factor, *resols, *old(lengths), *old(center), old(points)@.len()) ==> {
            &&& r == Err::<[u32; 2], SolveError>(SolveError::InvalidConfiguration)
            &&& *final(lengths) == *old(lengths)
            &&& *final(center) == *old(center)
            &&& final(points)@ == old(points)@
        },
        valid_config(max_iter, factor, *resols, *old(lengths), *old(center), old(points)@.len()) ==> ({
            let f = frame(max_iter, *resols, deltas_of(*old(lengths), *resols), *old(center));
            &&& final(points)@.len() == old(points)@.len()
            &&& forall|i: int, j: int| #[trigger] in_grid(f, i, j)
                ==> final(points)@[j * resols.x + i] == pixel_point(f, i, j)
            &&& forall|k: int| resols.x * resols.y <= k < old(points)@.len()
                ==> #[trigger] final(points)@[k] == old(points)@[k]
            &&& (r == Err::<[u32; 2], SolveError>(SolveError::NoStructureFound)) == (all_diverged(f) || all_interior(f))
            &&& (r == Err::<[u32; 2], SolveError>(SolveError::NoStructureFound)) == (
                (forall|k: int| 0 <= k < resols.x * resols.y ==> #[trigger] final(points)@[k].is_diverged)
                || (forall|k: int| 0 <= k < resols.x * resols.y ==> !#[trigger] final(points)@[k].is_diverged))
            &&& r != Err::<[u32; 2], SolveError>(SolveError::InvalidConfiguration)
            &&& r is Err ==> *final(lengths) == *old(lengths) && *final(center) == *old(center)
            &&& r matches Ok(e) ==> {
                &&& *final(center) == proposed_center(
                    *old(center),
                    *resols,
                    deltas_of(*old(lengths), *resols),
                    factor as int,
                    chosen_quadrant(f),
                )
                &&& *final(lengths) == shrink_lengths(*old(lengths), factor as int)
                &&& is_min_iter(f, e[0] as int)
                &&& is_max_iter(f, e[1] as int)
                &&& 1 <= e[0] <= e[1] <= max_iter
            }
        }),
{
    let len: usize = points.len();
    let fits: bool = match resols.x.checked_mul(resols.y) {
        Some(total) => total <= len,
        None => false,
    };
    if !(max_iter >= 1 && 0 < factor && factor <= ONE && resols.x >= 1 && resols.y >= 1 && fits
        && 0 < lengths.x && lengths.x <= LIMIT && 0 < lengths.y && lengths.y <= LIMIT
        && -LIMIT <= center.x && center.x <= LIMIT && -LIMIT <= center.y && center.y <= LIMIT) {
        return Err(SolveError::InvalidConfiguration);
    }
    // consider a rougher image for faster check
    let deltas: Coord<i64> = Coord {
        x: (lengths.x as u64 / resols.x as u64) as i64,
        y: (lengths.y as u64 / resols.y as u64) as i64,
    };
    proof {
        vstd::arithmetic::div_mod::lemma_fundamental_div_mod(lengths.x as int, resols.x as int);
        vstd::arithmetic::div_mod::lemma_fundamental_div_mod(lengths.y as int, resols.y as int);
        vstd::arithmetic::div_mod::lemma_div_pos_is_pos(lengths.x as int, resols.x as int);
        vstd::arithmetic::div_mod::lemma_div_pos_is_pos(lengths.y as int, resols.y as int);
        assert(deltas == deltas_of(*lengths, *resols));
    }
    let ghost f = frame(max_iter, *resols, deltas, *center);
    let r = solve(max_iter, factor, &deltas, resols, center, points);
    proof {
        lemma_uniform_buffer(f, points@, true);
        lemma_uniform_buffer(f, points@, false);
        assert(all_diverged(f) == (forall|k: int| 0 <= k < resols.x * resols.y ==> #[trigger] points@[k].is_diverged == true));
        assert(all_interior(f) == (forall|k: int| 0 <= k < resols.x * resols.y ==> #[trigger] points@[k].is_diverged == false));
    }
    match r {
        Ok(extrema) => {
            proof {
                lemma_extrema_range(f, extrema[0] as int, extrema[1] as int);
            }
            lengths.x = shrink_value(lengths.x, factor);
            lengths.y = shrink_value(lengths.y, factor);
            Ok(extrema)
        },
        // no structure is found inside the domain:
        // the caller picks another centre
        Err(e) => Err(e),
    }
}

} // verus!
