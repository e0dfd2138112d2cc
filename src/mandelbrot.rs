//! The escape-time kernel and the grid solver that re-centres a domain.
use crate::fixed::{div_one, lemma_disk_components, lemma_square_above, lemma_trunc_div_bound, trunc_div, ONE};
use vstd::prelude::*;

verus! {

/// A pair of values: a point of the complex plane (fixed-point components)
/// or the two sizes of a pixel grid.
#[derive(Clone, Copy, Debug, PartialEq, Eq)]
pub struct Coord<T> {
    /// horizontal component (real part)
    pub x: T,
    /// vertical component (imaginary part)
    pub y: T,
}

/// Outcome of the recurrence for one point.
#[derive(Clone, Copy, Debug, PartialEq, Eq)]
pub struct Point {
    /// whether the orbit left the disk of radius two
    pub is_diverged: bool,
    /// the iteration at which it left, or the cap when it did not
    pub iter: u32,
}

/// A complex number given as raw fixed-point components.
pub type Complex = (int, int);

/// `z * z + c`, each product rounded toward zero to the fixed-point grid.
pub open spec fn step_z(z: Complex, c: Complex) -> Complex {
    (
        c.0 + trunc_div(z.0 * z.0 - z.1 * z.1, ONE as int),
        c.1 + trunc_div(2 * z.0 * z.1, ONE as int),
    )
}

/// `z_n` of the orbit of `c`, starting from `z_0 = 0`.
pub open spec fn orbit(c: Complex, n: nat) -> Complex
    decreases n,
{
    if n == 0 {
        (0, 0)
    } else {
        step_z(orbit(c, (n - 1) as nat), c)
    }
}

/// The squared magnitude of `z` exceeds four.
pub open spec fn outside(z: Complex) -> bool {
    z.0 * z.0 + z.1 * z.1 > 4 * (ONE as int) * (ONE as int)
}

/// The first `n` in `k..=cap` with `z_n` outside, or `(false, cap)` if none.
pub open spec fn escape_from(c: Complex, k: nat, cap: nat) -> (bool, nat)
    decreases cap + 1 - k,
{
    if k > cap {
        (false, cap)
    } else if outside(orbit(c, k)) {
        (true, k)
    } else {
        escape_from(c, k + 1, cap)
    }
}

/// The escape-time classification of `c` under the iteration cap `cap`.
pub open spec fn escape(cap: nat, c: Complex) -> (bool, nat) {
    escape_from(c, 1, cap)
}

/// The complex number held by a coordinate pair.
pub open spec fn complex_of(p: Coord<i64>) -> Complex {
    (p.x as int, p.y as int)
}

/// The point that `kernel` returns for `c` under the cap `cap`.
pub open spec fn escape_point(cap: u32, c: Coord<i64>) -> Point {
    let e = escape(cap as nat, complex_of(c));
    Point { is_diverged: e.0, iter: e.1 as u32 }
}

/// The first step of every orbit lands on `c` itself.
pub proof fn lemma_orbit_one(c: Complex)
    ensures
        orbit(c, 1) == c,
{
    assert(orbit(c, 0) == (0int, 0int));
    assert(trunc_div(0, ONE as int) == 0);
    assert(0int * 0int - 0int * 0int == 0 && 2 * 0int * 0int == 0) by (nonlinear_arith);
    assert(orbit(c, 1) == step_z(orbit(c, 0), c));
}

proof fn lemma_escape_from_range(c: Complex, k: nat, cap: nat)
    requires
        1 <= k,
        1 <= cap,
    ensures
        1 <= escape_from(c, k, cap).1 <= cap,
        !escape_from(c, k, cap).0 ==> escape_from(c, k, cap).1 == cap,
    decreases cap + 1 - k,
{
    if k <= cap && !outside(orbit(c, k)) {
        lemma_escape_from_range(c, k + 1, cap);
    }
}

/// A capped escape time lies in `[1, cap]`, and equals `cap` for a point
/// that did not escape.
pub proof fn lemma_escape_range(cap: nat, c: Complex)
    requires
        1 <= cap,
    ensures
        1 <= escape(cap, c).1 <= cap,
        !escape(cap, c).0 ==> escape(cap, c).1 == cap,
{
    lemma_escape_from_range(c, 1, cap);
}

/// Solves the recurrence `z_{n+1} = z_n^2 + c` from `z_0 = 0` for the point
/// `p0`, and stops the first time `|z_n|^2 > 4` or after `max_iter` steps.
pub fn kernel(max_iter: u32, p0: &Coord<i64>) -> (r: Point)
    ensures
        r == escape_point(max_iter, *p0),
{
    let ghost c = complex_of(*p0);
    let s: i128 = ONE as i128;
    let mut zx: i64 = 0;
    let mut zy: i64 = 0;
    let mut iter: u32 = 0;
    assert(escape(max_iter as nat, c) == escape_from(c, (iter + 1) as nat, max_iter as nat));
    loop
        invariant
            iter <= max_iter,
            (zx as int, zy as int) == orbit(c, iter as nat),
            escape(max_iter as nat, c) == escape_from(c, (iter + 1) as nat, max_iter as nat),
            iter >= 1 ==> !outside(orbit(c, iter as nat)),
            iter >= 1 ==> !outside(orbit(c, 1)),
            s == ONE,
            c == complex_of(*p0),
        decreases max_iter - iter,
    {
        if iter == max_iter {
            assert(escape_from(c, (iter + 1) as nat, max_iter as nat) == (false, max_iter as nat));
            return Point { is_diverged: false, iter: max_iter };
        }
        let ghost z = orbit(c, iter as nat);
        let nx: i64;
        let ny: i64;
        if iter == 0 {
            proof {
                lemma_orbit_one(c);
            }
            nx = p0.x;
            ny = p0.y;

        } else {
            proof {
                lemma_orbit_one(c);
                lemma_disk_components(zx as int, zy as int, ONE as int);
                lemma_disk_components(p0.x as int, p0.y as int, ONE as int);
            }
            let x: i128 = zx as i128;
            let y: i128 = zy as i128;
            assert(0 <= x * x <= 4 * ONE * ONE) by (nonlinear_arith)
                requires
                    -2 * ONE <= x <= 2 * ONE,
            ;
            assert(0 <= y * y <= 4 * ONE * ONE) by (nonlinear_arith)
                requires
                    -2 * ONE <= y <= 2 * ONE,
            ;
            assert(-8 * ONE * ONE <= 2 * x * y <= 8 * ONE * ONE) by (nonlinear_arith)
                requires
                    -2 * ONE <= x <= 2 * ONE,
                    -2 * ONE <= y <= 2 * ONE,
            ;
            let sq: i128 = x * x - y * y;
            let cross: i128 = 2 * x * y;
            proof {
                lemma_trunc_div_bound(sq as int, 4 * ONE);
                lemma_trunc_div_bound(cross as int, 8 * ONE);
            }
            let dx: i128 = div_one(sq);
            let dy: i128 = div_one(cross);
            nx = (p0.x as i128 + dx) as i64;
            ny = (p0.y as i128 + dy) as i64;
            assert((nx as int, ny as int) == step_z(z, c));
            assert(orbit(c, (iter + 1) as nat) == step_z(z, c));
        }
        iter = iter + 1;
        assert((nx as int, ny as int) == orbit(c, iter as nat));
        let out: bool;
        if nx > 2 * ONE || nx < -2 * ONE {
            proof {
                lemma_square_above(nx as int, ONE as int);
                assert(ny * ny >= 0) by (nonlinear_arith);
            }
            out = true;
        } else if ny > 2 * ONE || ny < -2 * ONE {
            proof {
                lemma_square_above(ny as int, ONE as int);
                assert(nx * nx >= 0) by (nonlinear_arith);
            }
            out = true;
        } else {
            let x: i128 = nx as i128;
            let y: i128 = ny as i128;
            assert(0 <= x * x <= 4 * ONE * ONE) by (nonlinear_arith)
                requires
                    -2 * ONE <= x <= 2 * ONE,
            ;
            assert(0 <= y * y <= 4 * ONE * ONE) by (nonlinear_arith)
                requires
                    -2 * ONE <= y <= 2 * ONE,
            ;
            out = x * x + y * y > 4 * s * s;
        }
        assert(out == outside(orbit(c, iter as nat)));
        if out {
            return Point { is_diverged: true, iter };
        }
        zx = nx;
        zy = ny;
    }
}


/// The escape time of a point outside the disk of radius two is one.
pub proof fn lemma_far_point_escapes_at_once(cap: nat, c: Complex)
    requires
        1 <= cap,
        outside(c),
    ensures
        escape(cap, c) == (true, 1nat),
{
    lemma_orbit_one(c);
}

proof fn lemma_origin_orbit(n: nat)
    ensures
        orbit((0, 0), n) == (0int, 0int),
    decreases n,
{
    if n > 0 {
        lemma_origin_orbit((n - 1) as nat);
        assert(trunc_div(0, ONE as int) == 0);
        assert(0int * 0int - 0int * 0int == 0 && 2 * 0int * 0int == 0) by (nonlinear_arith);
    }
}

proof fn lemma_origin_escape_from(k: nat, cap: nat)
    requires
        1 <= k,
    ensures
        escape_from((0, 0), k, cap) == (false, cap),
    decreases cap + 1 - k,
{
    if k <= cap {
        lemma_origin_orbit(k);
        lemma_origin_escape_from(k + 1, cap);
    }
}

/// The origin never escapes: its classification is interior at the cap.
pub proof fn lemma_origin_is_interior(cap: nat)
    ensures
        escape(cap, (0, 0)) == (false, cap),
{
    lemma_origin_escape_from(1, cap);
}

} // verus!
