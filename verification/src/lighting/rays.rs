//! The ray table: for every ring and every angle bucket, the offsets from a
//! light that lie on that ring in that direction.

use crate::arctan::{atan2_int, atan2_spec, distance, distance_spec, rad_to_deg, rad_to_deg_spec};
use vstd::prelude::*;

verus! {

/// The largest radius of a light; rings 0 to `MAX_DIST - 1` exist.
pub const MAX_DIST: usize = 60;

/// The number of angle buckets around a light.
pub const ANGLES: usize = 360;

/// The edge length of the square of offsets that the table scans.
pub const SCAN_WIDTH: usize = 121;

/// The number of offsets that the table scans.
pub const SCAN_TOTAL: usize = 14641;

/// The `k`-th offset of the scan: row by row from `(-MAX_DIST, -MAX_DIST)`
/// to `(MAX_DIST, MAX_DIST)`.
pub open spec fn scan_offset(k: int) -> (int, int) {
    (k % (SCAN_WIDTH as int) - MAX_DIST, k / (SCAN_WIDTH as int) - MAX_DIST)
}

/// The ring on which the offset `(x, y)` lies: its approximate distance from
/// the light.
pub open spec fn ring_of(x: int, y: int) -> int {
    distance_spec(x, y)
}

/// The angle bucket of the offset `(x, y)`: its angle in degrees, modulo the
/// number of buckets.
pub open spec fn bucket_of(x: int, y: int) -> int {
    rad_to_deg_spec(atan2_spec(y, x)) % (ANGLES as int)
}

/// Whether the offset `(x, y)` belongs to ring `d` and bucket `angle`.
pub open spec fn is_on_ray(x: int, y: int, d: int, angle: int) -> bool {
    ring_of(x, y) == d && 0 <= d < MAX_DIST && bucket_of(x, y) == angle
}

/// The offsets of ring `d` and bucket `angle` among the first `upto`
/// offsets of the scan, in scan order.
pub open spec fn ray_upto(d: int, angle: int, upto: int) -> Seq<(i16, i16)>
    decreases upto,
{
    if upto <= 0 {
        Seq::empty()
    } else {
        let rest = ray_upto(d, angle, upto - 1);
        let offset = scan_offset(upto - 1);
        if is_on_ray(offset.0, offset.1, d, angle) {
            rest.push((offset.0 as i16, offset.1 as i16))
        } else {
            rest
        }
    }
}

/// The offsets of ring `d` and bucket `angle`, in scan order.
pub open spec fn ray(d: int, angle: int) -> Seq<(i16, i16)> {
    ray_upto(d, angle, SCAN_TOTAL as int)
}

/// Every offset of a ray lies within `MAX_DIST` of the light on both axes,
/// on the ring and in the bucket of the ray.
pub proof fn lemma_ray_offsets_bounded(d: int, angle: int, upto: int, i: int)
    requires
        0 <= upto <= SCAN_TOTAL,
        0 <= i < ray_upto(d, angle, upto).len(),
    ensures
        -(MAX_DIST as int) <= ray_upto(d, angle, upto)[i].0 <= MAX_DIST,
        -(MAX_DIST as int) <= ray_upto(d, angle, upto)[i].1 <= MAX_DIST,
        is_on_ray(
            ray_upto(d, angle, upto)[i].0 as int,
            ray_upto(d, angle, upto)[i].1 as int,
            d,
            angle,
        ),
    decreases upto,
{
    if upto > 0 {
        let rest = ray_upto(d, angle, upto - 1);
        if i < rest.len() {
            lemma_ray_offsets_bounded(d, angle, upto - 1, i);
        }
    }
}

/// Every offset of the scan that lies on a ring below `MAX_DIST` is an
/// offset of the ray of its ring and its bucket.
pub proof fn lemma_ray_holds_offset(d: int, angle: int, upto: int, k: int) -> (i: int)
    requires
        0 <= k < upto <= SCAN_TOTAL,
        is_on_ray(scan_offset(k).0, scan_offset(k).1, d, angle),
    ensures
        0 <= i < ray_upto(d, angle, upto).len(),
        ray_upto(d, angle, upto)[i] == (scan_offset(k).0 as i16, scan_offset(k).1 as i16),
    decreases upto,
{
    let rest = ray_upto(d, angle, upto - 1);
    if k == upto - 1 {
        rest.len() as int
    } else {
        lemma_ray_holds_offset(d, angle, upto - 1, k)
    }
}

/// The table of rays.
pub struct RayTable {
    rays: Vec<Vec<(i16, i16)>>,
}

impl RayTable {
    /// Whether the table holds every ray.
    pub closed spec fn wf(&self) -> bool {
        &&& self.rays@.len() == MAX_DIST * ANGLES
        &&& forall|d: int, angle: int|
            0 <= d < MAX_DIST && 0 <= angle < ANGLES ==> (#[trigger] self.rays@[d * ANGLES
                + angle])@ == ray(d, angle)
    }

    /// Computes the table: every offset of the scan is filed under its ring
    /// and its bucket.
    pub fn new() -> (table: Self)
        ensures
            table.wf(),
    {
        let mut rays: Vec<Vec<(i16, i16)>> = Vec::new();
        let mut b: usize = 0;
        while b < MAX_DIST * ANGLES
            invariant
                b <= MAX_DIST * ANGLES,
                rays@.len() == b,
                forall|j: int| 0 <= j < b ==> (#[trigger] rays@[j])@ == Seq::<(i16, i16)>::empty(),
            decreases MAX_DIST * ANGLES - b,
        {
            rays.push(Vec::new());
            b = b + 1;
        }
        let mut k: usize = 0;
        while k < SCAN_TOTAL
            invariant
                k <= SCAN_TOTAL,
                rays@.len() == MAX_DIST * ANGLES,
                forall|d: int, angle: int|
                    0 <= d < MAX_DIST && 0 <= angle < ANGLES ==> (#[trigger] rays@[d * ANGLES
                        + angle])@ == ray_upto(d, angle, k as int),
            decreases SCAN_TOTAL - k,
        {
            let x: i16 = (k % SCAN_WIDTH) as i16 - MAX_DIST as i16;
            let y: i16 = (k / SCAN_WIDTH) as i16 - MAX_DIST as i16;
            let dist = distance((x, y));
            let ghost before = rays@;
            if dist < MAX_DIST as u16 {
                let raw_angle = rad_to_deg(atan2_int(y as i32, x as i32));
                let angle = (raw_angle as usize) % ANGLES;
                let ring = dist as usize;
                rays[ring * ANGLES + angle].push((x, y));
                assert forall|d: int, a: int| 0 <= d < MAX_DIST && 0 <= a < ANGLES implies (
                #[trigger] rays@[d * ANGLES + a])@ == ray_upto(d, a, k + 1) by {
                    if d == ring && a == angle {
                    } else {
                        assert(d * ANGLES + a != ring * ANGLES + angle);
                        assert(rays@[d * ANGLES + a] == before[d * ANGLES + a]);
                    }
                }
            } else {
                assert forall|d: int, a: int| 0 <= d < MAX_DIST && 0 <= a < ANGLES implies (
                #[trigger] rays@[d * ANGLES + a])@ == ray_upto(d, a, k + 1) by {
                    assert(rays@[d * ANGLES + a] == before[d * ANGLES + a]);
                }
            }
            k = k + 1;
        }
        RayTable { rays }
    }

    /// The offsets of ring `d` and bucket `angle`.
    pub fn cells(&self, d: usize, angle: usize) -> (cells: &Vec<(i16, i16)>)
        requires
            self.wf(),
            d < MAX_DIST,
            angle < ANGLES,
        ensures
            cells@ == ray(d as int, angle as int),
    {
        &self.rays[d * ANGLES + angle]
    }
}

} // verus!
