//! The midpoint-circle stepping and its accuracy.
//!
//! The rasterizer walks one octant: starting from `x = 0`, `y = r` with the
//! decision value `d = 3 - 2 r`, it emits the eight symmetric images of the
//! offset `(x, y)`, then increments `x` and, when `d` was positive, also
//! decrements `y`, updating `d` with the incremented coordinates. This module
//! states the emitted offset set as a recursion over the stepping states and
//! proves what holds of every emitted offset: it lies within distance `r + 1`
//! of the center, its outward diagonal neighbour lies strictly outside the
//! radius, and the set is closed under the eight reflections.

use vstd::prelude::*;

use crate::canvas::in_dims;
use crate::line_path::abs_of;

verus! {

/// The eight symmetric images of the offset `(x, y)`.
pub open spec fn sym8(x: int, y: int) -> Set<(int, int)> {
    set![(x, y), (-x, y), (x, -y), (-x, -y), (y, x), (-y, x), (y, -x), (-y, -x)]
}

/// How many stepping turns remain from the state `(x, y)`.
pub open spec fn octant_measure(x: int, y: int) -> int {
    if y + 1 - x >= 0 {
        y + 1 - x
    } else {
        0
    }
}

/// The `y` after one step from a state with decision value `d`.
pub open spec fn next_y(y: int, d: int) -> int {
    if d > 0 {
        y - 1
    } else {
        y
    }
}

/// The decision value after one step, updated with the already incremented
/// `x` and, when `d` was positive, the already decremented `y`.
pub open spec fn next_d(x: int, y: int, d: int) -> int {
    if d > 0 {
        d + 4 * ((x + 1) - (y - 1)) + 10
    } else {
        d + 4 * (x + 1) + 6
    }
}

/// Every offset that the stepping emits from the state `(x, y, d)` on.
pub open spec fn octant_offsets(x: int, y: int, d: int) -> Set<(int, int)>
    decreases octant_measure(x, y),
{
    if y >= x {
        sym8(x, y).union(octant_offsets(x + 1, next_y(y, d), next_d(x, y, d)))
    } else {
        Set::empty()
    }
}

/// The whole offset set of a circle of radius `r`.
pub open spec fn circle_offsets(r: int) -> Set<(int, int)> {
    octant_offsets(0, r, 3 - 2 * r)
}

/// The offsets of `s`, shifted to the center `(cx, cy)` and clipped to a
/// `w` by `h` canvas.
pub open spec fn shifted_clipped(s: Set<(int, int)>, cx: int, cy: int, w: int, h: int) -> Set<
    (int, int),
> {
    Set::new(|p: (int, int)| in_dims(p, w, h) && s.contains((p.0 - cx, p.1 - cy)))
}

/// The pixels a circle draw paints: its offsets around the center, silently
/// clipped to the canvas.
pub open spec fn circle_cover(cx: int, cy: int, r: int, w: int, h: int) -> Set<(int, int)> {
    shifted_clipped(circle_offsets(r), cx, cy, w, h)
}

/// What holds of every stepping state `(x, y, d)` that the loop visits for a
/// circle of radius `r`: the decision value's closed form, the coordinate
/// ranges, the two-sided distance bound on `(x, y)` while it is emitted, and
/// the band that a positive decision value confines `y` to.
pub open spec fn octant_inv(r: int, x: int, y: int, d: int) -> bool {
    &&& d == 2 * x * x + 2 * y * y + 8 * x - 6 * y - 2 * r * r + 4 * r + 3
    &&& 0 <= x
    &&& y <= r
    &&& (y >= x ==> x * x + y * y - r * r <= r + 1)
    &&& (y >= x ==> x * x + y * y - r * r >= -2 * x - 2 * y - 1)
    &&& ((d > 0 && y >= x) ==> (y <= x + 1 || 3 * y >= 2 * r - 2))
}

/// The initial state satisfies the stepping invariant.
pub proof fn lemma_octant_inv_init(r: int)
    requires
        0 <= r,
    ensures
        octant_inv(r, 0, r, 3 - 2 * r),
{
}

/// One step preserves the stepping invariant.
pub proof fn lemma_octant_inv_step(r: int, x: int, y: int, d: int)
    requires
        0 <= r,
        x <= y,
        octant_inv(r, x, y, d),
    ensures
        octant_inv(r, x + 1, next_y(y, d), next_d(x, y, d)),
{
    let u = x * x + y * y - r * r;
    if d > 0 {
        let x2 = x + 1;
        let y2 = y - 1;
        let d2 = d + 4 * (x2 - y2) + 10;
        let u2 = x2 * x2 + y2 * y2 - r * r;
        assert(u2 == u + 2 * x - 2 * y + 2) by (nonlinear_arith)
            requires
                u == x * x + y * y - r * r,
                u2 == x2 * x2 + y2 * y2 - r * r,
                x2 == x + 1,
                y2 == y - 1,
        ;
        assert(d2 == 2 * x2 * x2 + 2 * y2 * y2 + 8 * x2 - 6 * y2 - 2 * r * r + 4 * r + 3)
            by (nonlinear_arith)
            requires
                d == 2 * x * x + 2 * y * y + 8 * x - 6 * y - 2 * r * r + 4 * r + 3,
                d2 == d + 4 * ((x + 1) - (y - 1)) + 10,
                x2 == x + 1,
                y2 == y - 1,
        ;
        if y2 >= x2 {
            assert(3 * y >= 2 * r - 2);
            assert(u2 <= r + 1);
            assert(2 * u >= 6 * y - 8 * x - 4 * r - 2) by (nonlinear_arith)
                requires
                    u == x * x + y * y - r * r,
                    d == 2 * x * x + 2 * y * y + 8 * x - 6 * y - 2 * r * r + 4 * r + 3,
                    d >= 1,
            ;
            assert(u2 >= -2 * x2 - 2 * y2 - 1);
            if d2 > 0 && y2 > x2 + 1 {
                assert(2 * (x * x + y * y - r * r) >= 6 * y - 8 * x - 4 * r - 2);
                assert(3 * y >= 2 * r + 1) by (nonlinear_arith)
                    requires
                        y >= x + 4,
                        0 <= x,
                        0 <= r,
                        3 * y >= 2 * r - 2,
                        2 * (x * x + y * y - r * r) >= 6 * y - 8 * x - 4 * r - 2,
                ;
                assert(3 * y2 >= 2 * r - 2);
            }
        }
    } else {
        let x2 = x + 1;
        let d2 = d + 4 * x2 + 6;
        let u2 = x2 * x2 + y * y - r * r;
        assert(u2 == u + 2 * x + 1) by (nonlinear_arith)
            requires
                u == x * x + y * y - r * r,
                u2 == x2 * x2 + y * y - r * r,
                x2 == x + 1,
        ;
        assert(d2 == 2 * x2 * x2 + 2 * y * y + 8 * x2 - 6 * y - 2 * r * r + 4 * r + 3)
            by (nonlinear_arith)
            requires
                d == 2 * x * x + 2 * y * y + 8 * x - 6 * y - 2 * r * r + 4 * r + 3,
                d2 == d + 4 * (x + 1) + 6,
                x2 == x + 1,
        ;
        if y >= x2 {
            assert(2 * u <= 6 * y - 8 * x - 4 * r - 3) by (nonlinear_arith)
                requires
                    u == x * x + y * y - r * r,
                    d == 2 * x * x + 2 * y * y + 8 * x - 6 * y - 2 * r * r + 4 * r + 3,
                    d <= 0,
            ;
            assert(u2 <= r + 1);
            assert(u2 >= -2 * x2 - 2 * y - 1);
            if d2 > 0 && y > x2 + 1 {
                assert(2 * (x * x + y * y - r * r) >= 6 * y - 12 * x - 4 * r - 12)
                    by (nonlinear_arith)
                    requires
                        d == 2 * x * x + 2 * y * y + 8 * x - 6 * y - 2 * r * r + 4 * r + 3,
                        d2 == d + 4 * (x + 1) + 6,
                        d2 >= 1,
                ;
                assert(3 * y >= 2 * r - 2) by (nonlinear_arith)
                    requires
                        y >= x + 3,
                        0 <= x,
                        0 <= r,
                        y <= r,
                        2 * (x * x + y * y - r * r) >= 6 * y - 12 * x - 4 * r - 12,
                ;
            }
        }
    }
}

/// Every offset of `sym8(x, y)` inherits the two-sided distance bound of
/// `(x, y)` itself.
pub proof fn lemma_sym8_accuracy(r: int, x: int, y: int)
    requires
        0 <= x,
        x <= y,
        0 <= r,
        x * x + y * y - r * r <= r + 1,
        x * x + y * y - r * r >= -2 * x - 2 * y - 1,
    ensures
        forall|p: (int, int)|
            #[trigger] sym8(x, y).contains(p) ==> p.0 * p.0 + p.1 * p.1 <= (r + 1) * (r + 1) && (
            abs_of(p.0) + 1) * (abs_of(p.0) + 1) + (abs_of(p.1) + 1) * (abs_of(p.1) + 1) > r * r,
{
    assert((r + 1) * (r + 1) == r * r + 2 * r + 1) by (nonlinear_arith);
    assert((x + 1) * (x + 1) == x * x + 2 * x + 1) by (nonlinear_arith);
    assert((y + 1) * (y + 1) == y * y + 2 * y + 1) by (nonlinear_arith);
    assert((-x) * (-x) == x * x) by (nonlinear_arith);
    assert((-y) * (-y) == y * y) by (nonlinear_arith);
    assert forall|p: (int, int)| #[trigger] sym8(x, y).contains(p) implies p.0 * p.0 + p.1 * p.1
        <= (r + 1) * (r + 1) && (abs_of(p.0) + 1) * (abs_of(p.0) + 1) + (abs_of(p.1) + 1) * (
    abs_of(p.1) + 1) > r * r by {
        assert(p.0 * p.0 + p.1 * p.1 == x * x + y * y);
        assert((abs_of(p.0) + 1) * (abs_of(p.0) + 1) + (abs_of(p.1) + 1) * (abs_of(p.1) + 1) == (x
            + 1) * (x + 1) + (y + 1) * (y + 1));
    }
}

/// Every emitted offset `(a, b)` of a stepping run satisfies the midpoint
/// accuracy bounds: `a^2 + b^2 <= (r + 1)^2`, and the outward diagonal
/// neighbour `(|a| + 1, |b| + 1)` lies strictly outside the radius.
pub proof fn lemma_octant_accuracy(r: int, x: int, y: int, d: int)
    requires
        0 <= r,
        octant_inv(r, x, y, d),
    ensures
        forall|p: (int, int)|
            #[trigger] octant_offsets(x, y, d).contains(p) ==> p.0 * p.0 + p.1 * p.1 <= (r + 1) * (
            r + 1) && (abs_of(p.0) + 1) * (abs_of(p.0) + 1) + (abs_of(p.1) + 1) * (abs_of(p.1) + 1)
                > r * r,
    decreases octant_measure(x, y),
{
    if y >= x {
        lemma_sym8_accuracy(r, x, y);
        lemma_octant_inv_step(r, x, y, d);
        lemma_octant_accuracy(r, x + 1, next_y(y, d), next_d(x, y, d));
        assert forall|p: (int, int)| #[trigger] octant_offsets(x, y, d).contains(p) implies p.0
            * p.0 + p.1 * p.1 <= (r + 1) * (r + 1) && (abs_of(p.0) + 1) * (abs_of(p.0) + 1) + (
        abs_of(p.1) + 1) * (abs_of(p.1) + 1) > r * r by {
            if !sym8(x, y).contains(p) {
                assert(octant_offsets(x + 1, next_y(y, d), next_d(x, y, d)).contains(p));
            }
        }
    }
}

/// The emitted offset set is closed under the eight reflections the
/// algorithm mirrors with: sign flips on each axis and the axis swap.
pub proof fn lemma_octant_symmetry(x: int, y: int, d: int, p: (int, int))
    requires
        octant_offsets(x, y, d).contains(p),
    ensures
        octant_offsets(x, y, d).contains((-p.0, p.1)),
        octant_offsets(x, y, d).contains((p.0, -p.1)),
        octant_offsets(x, y, d).contains((-p.0, -p.1)),
        octant_offsets(x, y, d).contains((p.1, p.0)),
        octant_offsets(x, y, d).contains((-p.1, p.0)),
        octant_offsets(x, y, d).contains((p.1, -p.0)),
        octant_offsets(x, y, d).contains((-p.1, -p.0)),
    decreases octant_measure(x, y),
{
    if y >= x {
        if sym8(x, y).contains(p) {
            assert(sym8(x, y).contains((-p.0, p.1)));
            assert(sym8(x, y).contains((p.0, -p.1)));
            assert(sym8(x, y).contains((-p.0, -p.1)));
            assert(sym8(x, y).contains((p.1, p.0)));
            assert(sym8(x, y).contains((-p.1, p.0)));
            assert(sym8(x, y).contains((p.1, -p.0)));
            assert(sym8(x, y).contains((-p.1, -p.0)));
        } else {
            assert(octant_offsets(x + 1, next_y(y, d), next_d(x, y, d)).contains(p));
            lemma_octant_symmetry(x + 1, next_y(y, d), next_d(x, y, d), p);
        }
    } else {
        assert(false);
    }
}

} // verus!
