//! The rasterization laws: what holds of every shape's pixel coverage.

use vstd::prelude::*;

use crate::canvas::paint;
use crate::circle_path::{
    circle_offsets, lemma_octant_accuracy, lemma_octant_inv_init, lemma_octant_symmetry,
};
use crate::geometrical_shapes::{
    pentagon_outline, rect_bottom_left, rect_top_right, rectangle_outline, triangle_outline, white,
};
use crate::line_path::{
    abs_of, axis_offset, lemma_line_adjacent, lemma_line_count, lemma_line_endpoints,
    lemma_offset_dominant, line_point_at, line_seq, line_set, sign_of, steps_of,
};

verus! {

/// Drawing a shape twice is idempotent: painting the same pixel set a
/// second time, with any color the shape's policy allows, leaves exactly the
/// second coat, so the final pixel set equals that of a single draw,
/// whatever was on the canvas before.
pub proof fn lemma_draw_twice_idempotent(
    m: Map<(int, int), (u8, u8, u8)>,
    s: Set<(int, int)>,
    c1: (u8, u8, u8),
    c2: (u8, u8, u8),
)
    ensures
        paint(paint(m, s, c1), s, c2) == paint(m, s, c2),
{
    assert(paint(paint(m, s, c1), s, c2) =~= paint(m, s, c2));
}

/// Drawing a point paints that exact pixel white — never the background
/// black — and no other pixel.
pub proof fn lemma_point_draw_exact(m: Map<(int, int), (u8, u8, u8)>, p: (int, int))
    ensures
        paint(m, set![p], white()) == m.insert(p, white()),
        white() != (0u8, 0u8, 0u8),
{
    assert(paint(m, set![p], white()) =~= m.insert(p, white()));
}

/// The line rasterization contract: the path from `a` to `b` covers exactly
/// `max(|dx|, |dy|) + 1` distinct pixels, includes both endpoints, and
/// consecutive pixels differ by at most one unit in each axis, so the path
/// is 8-connected with no gaps.
pub proof fn lemma_line_rasterization(a: (int, int), b: (int, int))
    ensures
        line_seq(a, b).len() == steps_of(a, b) + 1,
        line_seq(a, b).first() == a,
        line_seq(a, b).last() == b,
        line_set(a, b).contains(a),
        line_set(a, b).contains(b),
        line_set(a, b).len() == steps_of(a, b) + 1,
        forall|k: int|
            1 <= k <= steps_of(a, b) ==> abs_of(
                #[trigger] line_point_at(a, b, k).0 - line_point_at(a, b, k - 1).0,
            ) <= 1 && abs_of(line_point_at(a, b, k).1 - line_point_at(a, b, k - 1).1) <= 1,
{
    lemma_line_endpoints(a, b);
    lemma_line_count(a, b);
    assert(line_seq(a, b)[0] == a);
    assert(line_seq(a, b)[steps_of(a, b)] == b);
    assert(line_seq(a, b).contains(a));
    assert(line_seq(a, b).contains(b));
    assert forall|k: int| 1 <= k <= steps_of(a, b) implies abs_of(
        #[trigger] line_point_at(a, b, k).0 - line_point_at(a, b, k - 1).0,
    ) <= 1 && abs_of(line_point_at(a, b, k).1 - line_point_at(a, b, k - 1).1) <= 1 by {
        lemma_line_adjacent(a, b, k);
    }
}

/// The path is strictly monotonic along its dominant axis: the `k`-th pixel
/// of a non-degenerate segment moves exactly `k` units from the start in the
/// direction of that axis's delta.
pub proof fn lemma_line_dominant_axis(a: (int, int), b: (int, int), k: int)
    requires
        0 <= k <= steps_of(a, b),
        steps_of(a, b) > 0,
    ensures
        abs_of(b.0 - a.0) >= abs_of(b.1 - a.1) ==> line_point_at(a, b, k).0 == a.0 + sign_of(
            b.0 - a.0,
        ) * k,
        abs_of(b.1 - a.1) > abs_of(b.0 - a.0) ==> line_point_at(a, b, k).1 == a.1 + sign_of(
            b.1 - a.1,
        ) * k,
{
    let s = steps_of(a, b);
    lemma_offset_dominant(k, s);
    if abs_of(b.0 - a.0) == s {
        assert(axis_offset(abs_of(b.0 - a.0), k, s) == k);
    }
    if abs_of(b.1 - a.1) == s {
        assert(axis_offset(abs_of(b.1 - a.1), k, s) == k);
    }
    if b.0 - a.0 < 0 {
        assert(sign_of(b.0 - a.0) * k == -k) by (nonlinear_arith)
            requires
                sign_of(b.0 - a.0) == -1,
        ;
    } else {
        assert(sign_of(b.0 - a.0) * k == k) by (nonlinear_arith)
            requires
                sign_of(b.0 - a.0) == 1,
        ;
    }
    if b.1 - a.1 < 0 {
        assert(sign_of(b.1 - a.1) * k == -k) by (nonlinear_arith)
            requires
                sign_of(b.1 - a.1) == -1,
        ;
    } else {
        assert(sign_of(b.1 - a.1) * k == k) by (nonlinear_arith)
            requires
                sign_of(b.1 - a.1) == 1,
        ;
    }
}

/// A degenerate segment (`start == end`) paints exactly one pixel: the
/// shared point.
pub proof fn lemma_degenerate_line(a: (int, int))
    ensures
        steps_of(a, a) == 0,
        line_set(a, a) == set![a],
        line_set(a, a).len() == 1,
{
    lemma_line_count(a, a);
    assert(line_seq(a, a)[0] == a);
    assert(line_seq(a, a).contains(a));
    assert(line_set(a, a) =~= set![a]);
}

/// Both endpoints of an edge lie in its pixel set.
pub proof fn lemma_line_set_endpoints(a: (int, int), b: (int, int))
    ensures
        line_set(a, b).contains(a),
        line_set(a, b).contains(b),
{
    lemma_line_rasterization(a, b);
}

/// A triangle's outline paints all three vertices, each the endpoint of two
/// edges.
pub proof fn lemma_triangle_vertices(q1: (int, int), q2: (int, int), q3: (int, int))
    ensures
        triangle_outline(q1, q2, q3).contains(q1),
        triangle_outline(q1, q2, q3).contains(q2),
        triangle_outline(q1, q2, q3).contains(q3),
{
    lemma_line_set_endpoints(q1, q2);
    lemma_line_set_endpoints(q2, q3);
    lemma_line_set_endpoints(q3, q1);
}

/// A rectangle's two derived corners are exactly `(bottom_right.x,
/// top_left.y)` and `(top_left.x, bottom_right.y)`, and its outline paints
/// all four corners.
pub proof fn lemma_rectangle_corners(tl: (int, int), br: (int, int))
    ensures
        rect_top_right(tl, br) == (br.0, tl.1),
        rect_bottom_left(tl, br) == (tl.0, br.1),
        rectangle_outline(tl, br).contains(tl),
        rectangle_outline(tl, br).contains((br.0, tl.1)),
        rectangle_outline(tl, br).contains(br),
        rectangle_outline(tl, br).contains((tl.0, br.1)),
{
    lemma_line_set_endpoints(tl, rect_top_right(tl, br));
    lemma_line_set_endpoints(rect_top_right(tl, br), br);
    lemma_line_set_endpoints(br, rect_bottom_left(tl, br));
    lemma_line_set_endpoints(rect_bottom_left(tl, br), tl);
}

/// A pentagon's outline paints all five vertices.
pub proof fn lemma_pentagon_vertices(
    q1: (int, int),
    q2: (int, int),
    q3: (int, int),
    q4: (int, int),
    q5: (int, int),
)
    ensures
        pentagon_outline(q1, q2, q3, q4, q5).contains(q1),
        pentagon_outline(q1, q2, q3, q4, q5).contains(q2),
        pentagon_outline(q1, q2, q3, q4, q5).contains(q3),
        pentagon_outline(q1, q2, q3, q4, q5).contains(q4),
        pentagon_outline(q1, q2, q3, q4, q5).contains(q5),
{
    lemma_line_set_endpoints(q1, q2);
    lemma_line_set_endpoints(q2, q3);
    lemma_line_set_endpoints(q3, q4);
    lemma_line_set_endpoints(q4, q5);
    lemma_line_set_endpoints(q5, q1);
}

/// Midpoint accuracy: every offset `(a, b)` a circle of radius `r` emits
/// lies within distance `r + 1` of the center, and its outward diagonal
/// neighbour `(|a| + 1, |b| + 1)` lies strictly outside the radius — the
/// painted ring hugs the true circle from both sides.
pub proof fn lemma_circle_accuracy(r: int)
    requires
        0 <= r,
    ensures
        forall|p: (int, int)|
            #[trigger] circle_offsets(r).contains(p) ==> p.0 * p.0 + p.1 * p.1 <= (r + 1) * (r + 1)
                && (abs_of(p.0) + 1) * (abs_of(p.0) + 1) + (abs_of(p.1) + 1) * (abs_of(p.1) + 1)
                > r * r,
{
    lemma_octant_inv_init(r);
    lemma_octant_accuracy(r, 0, r, 3 - 2 * r);
}

/// The emitted offset set of a circle is symmetric under the eight
/// reflections the algorithm mirrors with.
pub proof fn lemma_circle_symmetry(r: int, p: (int, int))
    requires
        circle_offsets(r).contains(p),
    ensures
        circle_offsets(r).contains((-p.0, p.1)),
        circle_offsets(r).contains((p.0, -p.1)),
        circle_offsets(r).contains((-p.0, -p.1)),
        circle_offsets(r).contains((p.1, p.0)),
        circle_offsets(r).contains((-p.1, p.0)),
        circle_offsets(r).contains((p.1, -p.0)),
        circle_offsets(r).contains((-p.1, -p.0)),
{
    lemma_octant_symmetry(0, r, 3 - 2 * r, p);
}

} // verus!
