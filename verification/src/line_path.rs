//! The path of pixels that the line rasterizer paints.
//!
//! The rasterizer steps parametrically: with `dx = b.0 - a.0`,
//! `dy = b.1 - a.1` and `steps = max(|dx|, |dy|)`, the `k`-th pixel offsets
//! each axis by `|delta| * k / steps`, rounded down, in the direction of the
//! delta. A degenerate segment (`a == b`, `steps == 0`) yields the single
//! pixel `a`. This module states the path as a sequence of integer
//! coordinates and proves the rasterization properties: both endpoints are
//! covered, the path has `steps + 1` distinct pixels, consecutive pixels
//! differ by at most one unit per axis, the path is monotonic along the
//! dominant axis, and every pixel stays in the bounding box of the endpoints.

use vstd::prelude::*;
use vstd::arithmetic::div_mod::{
    lemma_basic_div, lemma_div_is_ordered, lemma_div_multiples_vanish,
    lemma_div_multiples_vanish_fancy, lemma_div_pos_is_pos, lemma_fundamental_div_mod,
    lemma_mod_division_less_than_divisor, lemma_multiply_divide_le,
};
use vstd::arithmetic::mul::{
    lemma_mul_inequality, lemma_mul_is_distributive_add, lemma_mul_nonnegative,
};

verus! {

/// The direction of a delta: `-1` for a negative delta, `+1` otherwise.
pub open spec fn sign_of(d: int) -> int {
    if d < 0 {
        -1
    } else {
        1
    }
}

/// The magnitude of a delta.
pub open spec fn abs_of(d: int) -> int {
    if d < 0 {
        -d
    } else {
        d
    }
}

/// The number of steps from `a` to `b`: `max(|dx|, |dy|)`.
pub open spec fn steps_of(a: (int, int), b: (int, int)) -> int {
    let ax = abs_of(b.0 - a.0);
    let ay = abs_of(b.1 - a.1);
    if ax >= ay {
        ax
    } else {
        ay
    }
}

/// How far one axis has moved after `k` of `s` steps when it moves `a`
/// pixels in total: `a * k / s`, rounded down.
pub open spec fn axis_offset(a: int, k: int, s: int) -> int {
    (a * k) / s
}

/// The `k`-th pixel of the path from `a` to `b`.
pub open spec fn line_point_at(a: (int, int), b: (int, int), k: int) -> (int, int) {
    let s = steps_of(a, b);
    if s == 0 {
        a
    } else {
        (
            a.0 + sign_of(b.0 - a.0) * axis_offset(abs_of(b.0 - a.0), k, s),
            a.1 + sign_of(b.1 - a.1) * axis_offset(abs_of(b.1 - a.1), k, s),
        )
    }
}

/// The whole path from `a` to `b`, endpoints included, in step order.
pub open spec fn line_seq(a: (int, int), b: (int, int)) -> Seq<(int, int)> {
    Seq::new((steps_of(a, b) + 1) as nat, |k: int| line_point_at(a, b, k))
}

/// The set of pixels that the path covers.
pub open spec fn line_set(a: (int, int), b: (int, int)) -> Set<(int, int)> {
    line_seq(a, b).to_set()
}

/// An axis that moves `a <= s` pixels in `s` steps has, after any `k <= s`
/// steps, moved between `0` and `a` pixels.
pub proof fn lemma_offset_bounds(a: int, k: int, s: int)
    requires
        0 < s,
        0 <= a <= s,
        0 <= k <= s,
    ensures
        0 <= axis_offset(a, k, s) <= a,
{
    lemma_mul_nonnegative(a, k);
    lemma_div_pos_is_pos(a * k, s);
    lemma_mul_inequality(k, s, a);
    lemma_multiply_divide_le(a * k, s, a);
}

/// At step `0` no axis has moved; at step `s` each axis has moved its whole
/// delta.
pub proof fn lemma_offset_ends(a: int, s: int)
    requires
        0 < s,
        0 <= a,
    ensures
        axis_offset(a, 0, s) == 0,
        axis_offset(a, s, s) == a,
{
    lemma_basic_div(0, s);
    lemma_div_multiples_vanish(a, s);
    assert(a * s == s * a) by (nonlinear_arith);
}

/// From one step to the next, an axis with `a <= s` moves by `0` or `1`
/// pixels.
pub proof fn lemma_offset_step(a: int, k: int, s: int)
    requires
        0 < s,
        0 <= a <= s,
        1 <= k <= s,
    ensures
        axis_offset(a, k - 1, s) <= axis_offset(a, k, s) <= axis_offset(a, k - 1, s) + 1,
{
    let q1 = (a * (k - 1)) / s;
    let r1 = (a * (k - 1)) % s;
    lemma_mul_inequality(k - 1, k, a);
    lemma_div_is_ordered(a * (k - 1), a * k, s);
    lemma_fundamental_div_mod(a * (k - 1), s);
    lemma_mod_division_less_than_divisor(a * (k - 1), s);
    assert(a * k == a * (k - 1) + a) by (nonlinear_arith);
    if r1 + a < s {
        lemma_div_multiples_vanish_fancy(q1, r1 + a, s);
        assert(a * k == s * q1 + (r1 + a));
    } else {
        lemma_mul_is_distributive_add(s, q1, 1);
        assert(a * k == s * (q1 + 1) + (r1 + a - s));
        lemma_div_multiples_vanish_fancy(q1 + 1, r1 + a - s, s);
    }
}

/// The dominant axis (`a == s`) moves exactly one pixel per step.
pub proof fn lemma_offset_dominant(k: int, s: int)
    requires
        0 < s,
        0 <= k <= s,
    ensures
        axis_offset(s, k, s) == k,
{
    lemma_div_multiples_vanish(k, s);
    assert(s * k == k * s) by (nonlinear_arith);
}

/// Both endpoints lie on the path: the first pixel is `a`, the last is `b`.
pub proof fn lemma_line_endpoints(a: (int, int), b: (int, int))
    ensures
        line_seq(a, b).len() == steps_of(a, b) + 1,
        line_seq(a, b).first() == a,
        line_seq(a, b).last() == b,
    {
    let s = steps_of(a, b);
    if s != 0 {
        lemma_offset_ends(abs_of(b.0 - a.0), s);
        lemma_offset_ends(abs_of(b.1 - a.1), s);
        assert(axis_offset(abs_of(b.0 - a.0), s, s) == abs_of(b.0 - a.0));
        assert(axis_offset(abs_of(b.1 - a.1), s, s) == abs_of(b.1 - a.1));
        assert(line_seq(a, b).last() == line_point_at(a, b, s));
        assert(line_point_at(a, b, s).0 == a.0 + sign_of(b.0 - a.0) * abs_of(b.0 - a.0));
        assert(line_point_at(a, b, s).1 == a.1 + sign_of(b.1 - a.1) * abs_of(b.1 - a.1));
        assert(sign_of(b.0 - a.0) * abs_of(b.0 - a.0) == b.0 - a.0);
        assert(sign_of(b.1 - a.1) * abs_of(b.1 - a.1) == b.1 - a.1);
        assert(line_point_at(a, b, s).0 == b.0);
        assert(line_point_at(a, b, s).1 == b.1);
        assert(line_point_at(a, b, s) == b);
    } else {
        assert(abs_of(b.0 - a.0) == 0);
        assert(a.0 == b.0 && a.1 == b.1);
        assert(a == b);
        assert(line_seq(a, b).last() == a);
    }
}

/// Every pixel of the path lies in the bounding box of the endpoints.
pub proof fn lemma_line_point_in_box(a: (int, int), b: (int, int), k: int)
    requires
        0 <= k <= steps_of(a, b),
    ensures
        abs_of(line_point_at(a, b, k).0 - a.0) <= abs_of(b.0 - a.0),
        abs_of(line_point_at(a, b, k).1 - a.1) <= abs_of(b.1 - a.1),
        a.0 <= b.0 ==> a.0 <= line_point_at(a, b, k).0 <= b.0,
        b.0 <= a.0 ==> b.0 <= line_point_at(a, b, k).0 <= a.0,
        a.1 <= b.1 ==> a.1 <= line_point_at(a, b, k).1 <= b.1,
        b.1 <= a.1 ==> b.1 <= line_point_at(a, b, k).1 <= a.1,
{
    let s = steps_of(a, b);
    if s != 0 {
        let qx = axis_offset(abs_of(b.0 - a.0), k, s);
        let qy = axis_offset(abs_of(b.1 - a.1), k, s);
        lemma_offset_bounds(abs_of(b.0 - a.0), k, s);
        lemma_offset_bounds(abs_of(b.1 - a.1), k, s);
        if a.0 <= b.0 {
            assert(line_point_at(a, b, k).0 == a.0 + qx);
        } else {
            assert(line_point_at(a, b, k).0 == a.0 - qx);
        }
        if a.1 <= b.1 {
            assert(line_point_at(a, b, k).1 == a.1 + qy);
        } else {
            assert(line_point_at(a, b, k).1 == a.1 - qy);
        }
    }
}

/// Consecutive pixels of the path differ by at most one unit per axis, and
/// the dominant axis moves exactly one unit in the direction of its delta.
pub proof fn lemma_line_adjacent(a: (int, int), b: (int, int), k: int)
    requires
        1 <= k <= steps_of(a, b),
    ensures
        abs_of(line_point_at(a, b, k).0 - line_point_at(a, b, k - 1).0) <= 1,
        abs_of(line_point_at(a, b, k).1 - line_point_at(a, b, k - 1).1) <= 1,
        abs_of(b.0 - a.0) == steps_of(a, b) ==> line_point_at(a, b, k).0 == a.0 + sign_of(
            b.0 - a.0,
        ) * k,
        abs_of(b.1 - a.1) == steps_of(a, b) ==> line_point_at(a, b, k).1 == a.1 + sign_of(
            b.1 - a.1,
        ) * k,
{
    let s = steps_of(a, b);
    let qx1 = axis_offset(abs_of(b.0 - a.0), k - 1, s);
    let qx2 = axis_offset(abs_of(b.0 - a.0), k, s);
    let qy1 = axis_offset(abs_of(b.1 - a.1), k - 1, s);
    let qy2 = axis_offset(abs_of(b.1 - a.1), k, s);
    lemma_offset_step(abs_of(b.0 - a.0), k, s);
    lemma_offset_step(abs_of(b.1 - a.1), k, s);
    if a.0 <= b.0 {
        assert(line_point_at(a, b, k).0 - line_point_at(a, b, k - 1).0 == qx2 - qx1);
    } else {
        assert(line_point_at(a, b, k).0 - line_point_at(a, b, k - 1).0 == qx1 - qx2);
    }
    if a.1 <= b.1 {
        assert(line_point_at(a, b, k).1 - line_point_at(a, b, k - 1).1 == qy2 - qy1);
    } else {
        assert(line_point_at(a, b, k).1 - line_point_at(a, b, k - 1).1 == qy1 - qy2);
    }
    if abs_of(b.0 - a.0) == s {
        lemma_offset_dominant(k, s);
        assert(qx2 == k);
    }
    if abs_of(b.1 - a.1) == s {
        lemma_offset_dominant(k, s);
        assert(qy2 == k);
    }
}

/// The pixel at any index of the path, projected on the dominant axis, is
/// the start plus the signed index: so distinct indices give distinct pixels.
pub proof fn lemma_line_no_duplicates(a: (int, int), b: (int, int))
    ensures
        line_seq(a, b).no_duplicates(),
{
    let s = steps_of(a, b);
    if s != 0 {
        assert forall|i: int, j: int|
            0 <= i < line_seq(a, b).len() && 0 <= j < line_seq(a, b).len() && i != j implies
            line_seq(a, b)[i] != line_seq(a, b)[j] by {
            lemma_offset_dominant(i, s);
            lemma_offset_dominant(j, s);
            if abs_of(b.0 - a.0) == s {
                assert(axis_offset(abs_of(b.0 - a.0), i, s) == i);
                assert(axis_offset(abs_of(b.0 - a.0), j, s) == j);
                if a.0 <= b.0 {
                    assert(line_point_at(a, b, i).0 == a.0 + i);
                    assert(line_point_at(a, b, j).0 == a.0 + j);
                } else {
                    assert(line_point_at(a, b, i).0 == a.0 - i);
                    assert(line_point_at(a, b, j).0 == a.0 - j);
                }
            } else {
                assert(abs_of(b.1 - a.1) == s);
                assert(axis_offset(abs_of(b.1 - a.1), i, s) == i);
                assert(axis_offset(abs_of(b.1 - a.1), j, s) == j);
                assert(line_point_at(a, b, i).1 == a.1 + sign_of(b.1 - a.1) * i);
                assert(line_point_at(a, b, j).1 == a.1 + sign_of(b.1 - a.1) * j);
                if a.1 <= b.1 {
                    assert(line_point_at(a, b, i).1 == a.1 + i);
                    assert(line_point_at(a, b, j).1 == a.1 + j);
                } else {
                    assert(sign_of(b.1 - a.1) == -1);
                    assert(sign_of(b.1 - a.1) * i == -i) by (nonlinear_arith)
                        requires
                            sign_of(b.1 - a.1) == -1,
                    ;
                    assert(sign_of(b.1 - a.1) * j == -j) by (nonlinear_arith)
                        requires
                            sign_of(b.1 - a.1) == -1,
                    ;
                    assert(line_point_at(a, b, i).1 == a.1 - i);
                    assert(line_point_at(a, b, j).1 == a.1 - j);
                }
            }
        }
    }
}

/// The path covers exactly `steps + 1` distinct pixels.
pub proof fn lemma_line_count(a: (int, int), b: (int, int))
    ensures
        line_set(a, b).len() == steps_of(a, b) + 1,
{
    lemma_line_no_duplicates(a, b);
    line_seq(a, b).unique_seq_to_set();
}

} // verus!
