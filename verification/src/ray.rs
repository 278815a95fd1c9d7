//! A single step along a Bresenham line.

use crate::arctan::abs_int;
use vstd::prelude::*;

verus! {

/// The direction, +1 or -1, in which a coordinate moves from `from` toward
/// `to`; -1 where the two are equal.
pub open spec fn step_sign(from: int, to: int) -> int {
    if from < to {
        1
    } else {
        -1
    }
}

/// The point one grid unit closer to `dst` on the line from `src`.
///
/// With `dx` and `dy` the absolute differences of the coordinates, the step
/// moves along x when `2 * dx >= dy` and along y when `2 * dy >= dx`, so on
/// a shallow or steep line it moves along one axis and near the diagonal along
/// both. At `dst` itself nothing moves.
pub open spec fn step_spec(src: (int, int), dst: (int, int)) -> (int, int) {
    let dx = abs_int(dst.0 - src.0);
    let dy = abs_int(dst.1 - src.1);
    if dx == 0 && dy == 0 {
        src
    } else {
        (
            if 2 * dx >= dy {
                src.0 + step_sign(src.0, dst.0)
            } else {
                src.0
            },
            if 2 * dy >= dx {
                src.1 + step_sign(src.1, dst.1)
            } else {
                src.1
            },
        )
    }
}

/// `num_traits::Signed::abs` on `i64`: the absolute value. The argument may
/// not be the least `i64`, whose negation does not exist.
#[verifier::external_body]
fn signed_abs(v: i64) -> (magnitude: i64)
    requires
        v > i64::MIN,
    ensures
        magnitude == abs_int(v as int),
{
    num_traits::Signed::abs(&v)
}

/// `num_traits::One::one` on `i64`: the number 1.
#[verifier::external_body]
fn unit() -> (one: i64)
    ensures
        one == 1,
{
    num_traits::One::one()
}

/// One step from `src` toward `dst`; `src` itself when the two are equal.
pub fn step(src: (i32, i32), dst: (i32, i32)) -> (next: (i32, i32))
    ensures
        (next.0 as int, next.1 as int) == step_spec(
            (src.0 as int, src.1 as int),
            (dst.0 as int, dst.1 as int),
        ),
        src == dst ==> next == src,
        src != dst ==> next != src,
        abs_int(next.0 - src.0) <= 1,
        abs_int(next.1 - src.1) <= 1,
        abs_int(dst.0 - next.0) <= abs_int(dst.0 - src.0),
        abs_int(dst.1 - next.1) <= abs_int(dst.1 - src.1),
{
    let (x, y) = src;
    let (x1, y1) = dst;
    if x == x1 && y == y1 {
        return src;
    }
    let one: i64 = unit();
    let dx: i64 = signed_abs(x1 as i64 - x as i64);
    let sx: i64 = if x < x1 { one } else { -one };
    let dy: i64 = -signed_abs(y1 as i64 - y as i64);
    let sy: i64 = if y < y1 { one } else { -one };
    let err: i64 = dx + dy;
    let two: i64 = one + one;
    assert(two * err == 2 * err) by (nonlinear_arith)
        requires
            two == 2,
    ;
    let twice_err: i64 = two * err;
    let mut next_x: i64 = x as i64;
    let mut next_y: i64 = y as i64;
    if twice_err >= dy {
        next_x = next_x + sx;
    }
    if twice_err <= dx {
        next_y = next_y + sy;
    }
    (next_x as i32, next_y as i32)
}

/// Repeating the step never moves away from the destination, and a step
/// from any other point comes strictly closer along at least one axis.
pub proof fn lemma_step_approaches(src: (int, int), dst: (int, int))
    requires
        src != dst,
    ensures
        abs_int(dst.0 - step_spec(src, dst).0) + abs_int(dst.1 - step_spec(src, dst).1) < abs_int(
            dst.0 - src.0,
        ) + abs_int(dst.1 - src.1),
{
}

} // verus!
