//! Integer trigonometry: a fixed-point arctangent, a conversion to degrees
//! and an approximate Euclidean norm.
//!
//! Angles are measured in hundredths of a radian, so that pi is 314.

use vstd::prelude::*;

verus! {

/// Arctangent over [0, 1] in 256 steps, in hundredths of a radian:
/// entry `i` stands for `atan(i / 256)`.
pub const ATAN_TABLE: [i32; 256] = [
    0, 0, 1, 1, 2, 2, 2, 3, 3, 4, 4, 4, 5, 5, 5, 6, 6, 7, 7, 7, 8, 8, 9, 9, 9, 10, 10, 11, 11, 11,
    12, 12, 12, 13, 13, 14, 14, 14, 15, 15, 16, 16, 16, 17, 17, 17, 18, 18, 19, 19, 19, 20, 20, 20,
    21, 21, 22, 22, 22, 23, 23, 23, 24, 24, 25, 25, 25, 26, 26, 26, 27, 27, 28, 28, 28, 29, 29, 29,
    30, 30, 30, 31, 31, 31, 32, 32, 33, 33, 33, 34, 34, 34, 35, 35, 35, 36, 36, 36, 37, 37, 37, 38,
    38, 38, 39, 39, 39, 40, 40, 40, 41, 41, 41, 42, 42, 42, 43, 43, 43, 44, 44, 44, 45, 45, 45, 46,
    46, 46, 47, 47, 47, 47, 48, 48, 48, 49, 49, 49, 50, 50, 50, 51, 51, 51, 51, 52, 52, 52, 53, 53,
    53, 53, 54, 54, 54, 55, 55, 55, 55, 56, 56, 56, 57, 57, 57, 57, 58, 58, 58, 59, 59, 59, 59, 60,
    60, 60, 60, 61, 61, 61, 61, 62, 62, 62, 63, 63, 63, 63, 64, 64, 64, 64, 65, 65, 65, 65, 66, 66,
    66, 66, 67, 67, 67, 67, 67, 68, 68, 68, 68, 69, 69, 69, 69, 70, 70, 70, 70, 71, 71, 71, 71, 71,
    72, 72, 72, 72, 73, 73, 73, 73, 73, 74, 74, 74, 74, 74, 75, 75, 75, 75, 76, 76, 76, 76, 76, 77,
    77, 77, 77, 77, 78, 78, 78, 78, 78, 79,
];

/// Absolute value of an integer.
pub open spec fn abs_int(v: int) -> int {
    if v < 0 {
        -v
    } else {
        v
    }
}

/// Quotient rounded toward zero, for a positive divisor.
pub open spec fn div_toward_zero(n: int, d: int) -> int
    recommends
        d > 0,
{
    if n >= 0 {
        n / d
    } else {
        -((-n) / d)
    }
}

/// The table entry for the slope `small / large`, where `0 <= small <= large`
/// and `large > 0`: the index is the slope scaled to 256 steps, capped at the
/// last entry.
pub open spec fn atan_lookup(small: int, large: int) -> int
    recommends
        0 <= small <= large,
        large > 0,
{
    let scaled = small * 256 / large;
    ATAN_TABLE[if scaled > 255 { 255 } else { scaled }] as int
}

/// The angle of the vector `(x, y)` before it is brought into the half-open
/// range: the table gives the angle inside an octant, and symmetry gives the
/// rest. The value lies in [-314, 314].
pub open spec fn atan2_raw(y: int, x: int) -> int {
    let ax = abs_int(x);
    let ay = abs_int(y);
    let first_quadrant = if ax >= ay {
        atan_lookup(ay, ax)
    } else {
        157 - atan_lookup(ax, ay)
    };
    let upper_half = if x < 0 {
        314 - first_quadrant
    } else {
        first_quadrant
    };
    if y < 0 {
        -upper_half
    } else {
        upper_half
    }
}

/// The angle of the vector `(x, y)` in hundredths of a radian, in
/// (-314, 314]; the zero vector has angle 0.
pub open spec fn atan2_spec(y: int, x: int) -> int {
    if x == 0 && y == 0 {
        0
    } else {
        let raw = atan2_raw(y, x);
        if raw == -314 {
            314
        } else {
            raw
        }
    }
}

/// Degrees in [0, 360) for an angle in hundredths of a radian: the angle is
/// scaled by 180/314, rounded toward zero, and reduced modulo 360.
pub open spec fn rad_to_deg_spec(hundredths_radians: int) -> int {
    div_toward_zero(hundredths_radians * 180, 314) % 360
}

/// The approximate Euclidean norm of `(dx, dy)`: with `hi` the larger and `lo`
/// the smaller of the two absolute values, `(246 * hi + 102 * lo) / 256`.
pub open spec fn distance_spec(dx: int, dy: int) -> int {
    let ax = abs_int(dx);
    let ay = abs_int(dy);
    let lo = if ax < ay { ax } else { ay };
    let hi = if ax < ay { ay } else { ax };
    (246 * hi + 102 * lo) / 256
}

/// Every table entry lies between 0 and 79.
pub proof fn lemma_atan_table_bounds(i: int)
    requires
        0 <= i < 256,
    ensures
        0 <= ATAN_TABLE[i] <= 79,
{
}

/// The table entry selected for a slope lies between 0 and 79.
pub proof fn lemma_atan_lookup_bounds(small: int, large: int)
    requires
        0 <= small <= large,
        large > 0,
    ensures
        0 <= small * 256 / large <= 256,
        0 <= atan_lookup(small, large) <= 79,
{
    assert(0 <= small * 256 / large <= 256) by (nonlinear_arith)
        requires
            0 <= small <= large,
            large > 0,
    ;
    let scaled = small * 256 / large;
    lemma_atan_table_bounds(if scaled > 255 { 255 } else { scaled });
}

/// The angle of any vector lies in (-314, 314].
pub proof fn lemma_atan2_range(y: int, x: int)
    ensures
        -314 < atan2_spec(y, x) <= 314,
{
    if !(x == 0 && y == 0) {
        let ax = abs_int(x);
        let ay = abs_int(y);
        if ax >= ay {
            lemma_atan_lookup_bounds(ay, ax);
        } else {
            lemma_atan_lookup_bounds(ax, ay);
        }
    }
}

/// The angle of the vector `(x, y)`, in hundredths of a radian.
pub fn atan2_int(y: i32, x: i32) -> (angle: i32)
    ensures
        angle == atan2_spec(y as int, x as int),
        -314 < angle <= 314,
        x == 0 && y == 0 ==> angle == 0,
{
    proof {
        lemma_atan2_range(y as int, x as int);
    }
    if x == 0 && y == 0 {
        return 0;
    }
    let ax: i64 = if x < 0 { -(x as i64) } else { x as i64 };
    let ay: i64 = if y < 0 { -(y as i64) } else { y as i64 };
    let first_quadrant: i32;
    if ax >= ay {
        proof {
            lemma_atan_lookup_bounds(ay as int, ax as int);
        }
        let scaled: i64 = ay * 256 / ax;
        let index: usize = if scaled > 255 { 255 } else { scaled as usize };
        first_quadrant = ATAN_TABLE[index];
    } else {
        proof {
            lemma_atan_lookup_bounds(ax as int, ay as int);
        }
        let scaled: i64 = ax * 256 / ay;
        let index: usize = if scaled > 255 { 255 } else { scaled as usize };
        first_quadrant = 157 - ATAN_TABLE[index];
    }
    let upper_half: i32 = if x < 0 { 314 - first_quadrant } else { first_quadrant };
    let raw: i32 = if y < 0 { -upper_half } else { upper_half };
    if raw == -314 {
        314
    } else {
        raw
    }
}

/// Degrees in [0, 360) for an angle in hundredths of a radian.
pub fn rad_to_deg(hundredths_radians: i32) -> (degrees: i32)
    ensures
        degrees == rad_to_deg_spec(hundredths_radians as int),
        0 <= degrees < 360,
{
    let scaled: i64 = (hundredths_radians as i64) * 180;
    let turned: i64 = scaled / 314;
    let mut mapped: i64 = turned % 360;
    if mapped < 0 {
        mapped = mapped + 360;
    }
    mapped as i32
}

/// The approximate distance of the point `v` from the origin, computed with
/// shifts only.
pub fn distance(v: (i16, i16)) -> (dist: u16)
    ensures
        dist == distance_spec(v.0 as int, v.1 as int),
{
    let x: u32 = if v.0 < 0 { (-(v.0 as i32)) as u32 } else { v.0 as u32 };
    let y: u32 = if v.1 < 0 { (-(v.1 as i32)) as u32 } else { v.1 as u32 };
    let (lo, hi) = if x < y { (x, y) } else { (y, x) };
    assert(hi <= 32768 && lo <= 32768);
    assert(hi << 8 == hi * 256 && hi << 3 == hi * 8 && hi << 4 == hi * 16 && hi << 1 == hi * 2)
        by (bit_vector)
        requires
            hi <= 32768,
    ;
    assert(lo << 7 == lo * 128 && lo << 5 == lo * 32 && lo << 3 == lo * 8 && lo << 1 == lo * 2)
        by (bit_vector)
        requires
            lo <= 32768,
    ;
    let sum: u32 = (hi << 8) + (hi << 3) - (hi << 4) - (hi << 1) + (lo << 7) - (lo << 5) + (lo << 3)
        - (lo << 1);
    assert(sum == 246 * hi + 102 * lo);
    assert(sum >> 8 == sum / 256) by (bit_vector);
    (sum >> 8) as u16
}

/// The distance does not depend on the sign of either coordinate, nor on
/// their order.
pub proof fn lemma_distance_symmetric(dx: int, dy: int)
    ensures
        distance_spec(-dx, dy) == distance_spec(dx, dy),
        distance_spec(dx, -dy) == distance_spec(dx, dy),
        distance_spec(-dx, -dy) == distance_spec(dx, dy),
        distance_spec(dy, dx) == distance_spec(dx, dy),
{
}

/// The origin is at distance 0, and the distance is never negative.
pub proof fn lemma_distance_nonnegative(dx: int, dy: int)
    ensures
        distance_spec(dx, dy) >= 0,
        distance_spec(0, 0) == 0,
{
}

} // verus!
