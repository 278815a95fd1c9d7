//! What holds of every rendered light: the color of a lit pixel depends on
//! its place alone, and a light that nothing obstructs is lit all over.

use crate::collision::CollisionDetector;
use crate::lighting::color::{Color, ColorMode};
use crate::lighting::rays::{
    bucket_of, lemma_ray_holds_offset, lemma_ray_offsets_bounded, ray, ring_of, scan_offset,
    ANGLES, MAX_DIST, SCAN_TOTAL, SCAN_WIDTH,
};
use crate::lighting::{
    fresh, is_position, lemma_step_keeps_shape, pixel_color, rendered, LightView, UNBLOCKED,
};
use vstd::arithmetic::div_mod::lemma_fundamental_div_mod_converse;
use vstd::prelude::*;

verus! {

impl LightView {
    /// The offset from the light of the pixel with the given canvas index.
    pub open spec fn offset_at(self, index: int) -> (int, int) {
        (
            index % (self.canvas_size as int) - self.canvas_size / 2,
            index / (self.canvas_size as int) - self.canvas_size / 2,
        )
    }

    /// The color that the pixel with the given canvas index has when it is
    /// lit: the color of the ring and the bucket of its offset.
    pub open spec fn color_at(self, index: int) -> Color {
        let offset = self.offset_at(index);
        pixel_color(
            self.color_mode,
            bucket_of(offset.0, offset.1),
            ring_of(offset.0, offset.1),
            self.radius as int,
        )
    }

    /// Whether every pixel is either transparent or lit in the color of its
    /// place.
    pub open spec fn is_painted(self) -> bool {
        forall|index: int|
            0 <= index < self.canvas.len() ==> #[trigger] self.canvas[index] == Color(0, 0, 0, 0)
                || self.canvas[index] == self.color_at(index)
    }

    /// Whether every bucket is either unblocked or blocked on a ring inside
    /// the radius.
    pub open spec fn is_shaded(self) -> bool {
        forall|angle: int|
            0 <= angle < ANGLES ==> #[trigger] self.blocked_angles[angle] == UNBLOCKED
                || self.blocked_angles[angle] < self.radius
    }

    /// Whether no bucket is blocked.
    pub open spec fn is_unshaded(self) -> bool {
        forall|angle: int|
            0 <= angle < ANGLES ==> #[trigger] self.blocked_angles[angle] == UNBLOCKED
    }

    /// Whether the pixel at the offset `cell` is lit in the color of its
    /// place, if the offset lies on the canvas.
    pub open spec fn shows(self, cell: (i16, i16)) -> bool {
        match self.canvas_index(cell) {
            Some(index) => self.canvas[index] == self.color_at(index),
            None => true,
        }
    }

    /// Whether two lights differ in canvas and shadows at most.
    pub open spec fn is_like(self, other: LightView) -> bool {
        &&& self.pos == other.pos
        &&& self.radius == other.radius
        &&& self.color_mode == other.color_mode
        &&& self.canvas_size == other.canvas_size
        &&& self.canvas.len() == other.canvas.len()
    }
}

/// Whether every offset of `cells` from `from` on lies on ring `d` in bucket
/// `angle`.
pub open spec fn all_on_ray(cells: Seq<(i16, i16)>, d: int, angle: int, from: int) -> bool {
    forall|i: int|
        from <= i < cells.len() ==> ring_of((#[trigger] cells[i]).0 as int, cells[i].1 as int) == d
            && bucket_of(cells[i].0 as int, cells[i].1 as int) == angle
}

/// Whether a detector blocks nothing.
pub open spec fn blocks_nothing<D: CollisionDetector>(detector: &D) -> bool {
    forall|x0: i16, y0: i16, x1: i16, y1: i16| !#[trigger] detector.blocked(x0, y0, x1, y1)
}

/// The pixel of an offset on the canvas is the pixel whose place is that
/// offset.
pub proof fn lemma_offset_of_index(light: LightView, cell: (i16, i16))
    requires
        light.wf(),
        light.canvas_index(cell) is Some,
    ensures
        0 <= light.canvas_index(cell)->0 < light.canvas.len(),
        light.offset_at(light.canvas_index(cell)->0) == (cell.0 as int, cell.1 as int),
{
    let size = light.canvas_size as int;
    let cx = cell.0 + size / 2;
    let cy = cell.1 + size / 2;
    assert(0 <= cx + cy * size < size * size) by (nonlinear_arith)
        requires
            0 <= cx < size,
            0 <= cy < size,
    ;
    lemma_fundamental_div_mod_converse(cx + cy * size, size, cy, cx);
}

/// Lighting and shadowing keep what is painted and shaded: a pixel that is
/// lit for the ring and the bucket of its own offset has the color of its
/// place.
pub proof fn lemma_step_keeps_painting(light: LightView, cell: (i16, i16), angle: int, d: int)
    requires
        light.wf(),
        light.is_painted(),
        light.is_shaded(),
        0 <= angle < ANGLES,
        0 <= d < MAX_DIST,
        d < light.radius,
        ring_of(cell.0 as int, cell.1 as int) == d,
        bucket_of(cell.0 as int, cell.1 as int) == angle,
    ensures
        light.lit(cell, angle, d).is_painted(),
        light.lit(cell, angle, d).is_shaded(),
        light.lit(cell, angle, d).shows(cell),
        light.shadowed(angle, d).is_painted(),
        light.shadowed(angle, d).is_shaded(),
        forall|other: (i16, i16)| light.shows(other) ==> light.lit(cell, angle, d).shows(other),
        forall|other: (i16, i16)| light.shows(other) ==> light.shadowed(angle, d).shows(other),
{
    lemma_step_keeps_shape(light, cell, angle, d);
    if light.canvas_index(cell) is Some {
        lemma_offset_of_index(light, cell);
    }
    let after = light.lit(cell, angle, d);
    assert forall|other: (i16, i16)| light.shows(other) implies after.shows(other) by {
        if light.canvas_index(other) is Some {
            lemma_offset_of_index(light, other);
        }
    }
    let shaded = light.shadowed(angle, d);
    assert forall|other: (i16, i16)| light.shows(other) implies shaded.shows(other) by {}
}

/// Processing the offsets of a ray keeps a light well formed, painted and
/// shaded, and keeps every pixel that shows its color.
pub proof fn lemma_sweep_cells_keeps<D: CollisionDetector>(
    light: LightView,
    detector: &D,
    d: int,
    angle: int,
    cells: Seq<(i16, i16)>,
    from: int,
)
    requires
        light.wf(),
        light.is_painted(),
        light.is_shaded(),
        0 <= angle < ANGLES,
        0 <= d < MAX_DIST,
        d < light.radius,
        0 <= from,
        all_on_ray(cells, d, angle, from),
    ensures
        light.sweep_cells(detector, d, angle, cells, from).wf(),
        light.sweep_cells(detector, d, angle, cells, from).is_like(light),
        light.sweep_cells(detector, d, angle, cells, from).is_painted(),
        light.sweep_cells(detector, d, angle, cells, from).is_shaded(),
        forall|other: (i16, i16)|
            light.shows(other) ==> light.sweep_cells(detector, d, angle, cells, from).shows(other),
        blocks_nothing(detector) ==> light.sweep_cells(
            detector,
            d,
            angle,
            cells,
            from,
        ).blocked_angles == light.blocked_angles,
        blocks_nothing(detector) && !(d == 0 && angle % 90 != 0) ==> forall|i: int|
            from <= i < cells.len() ==> light.sweep_cells(detector, d, angle, cells, from).shows(
                #[trigger] cells[i],
            ),
    decreases cells.len() - from,
{
    if from < cells.len() {
        let cell = cells[from];
        if d == 0 && angle % 90 != 0 {
            lemma_sweep_cells_keeps(light, detector, d, angle, cells, from + 1);
        } else {
            lemma_step_keeps_shape(light, cell, angle, d);
            lemma_step_keeps_painting(light, cell, angle, d);
            if !detector.blocked(
                light.pos.0,
                light.pos.1,
                (cell.0 + light.pos.0) as i16,
                (cell.1 + light.pos.1) as i16,
            ) {
                let next = light.lit(cell, angle, d);
                lemma_sweep_cells_keeps(next, detector, d, angle, cells, from + 1);
                let end = next.sweep_cells(detector, d, angle, cells, from + 1);
                assert forall|other: (i16, i16)| light.shows(other) implies end.shows(other) by {
                    assert(next.shows(other));
                }
                assert(end.shows(cell));
            }
        }
    }
}

/// Processing the buckets of a ring keeps a light well formed, painted and
/// shaded, and keeps every pixel that shows its color.
pub proof fn lemma_sweep_angles_keeps<D: CollisionDetector>(
    light: LightView,
    detector: &D,
    d: int,
    angle: int,
)
    requires
        light.wf(),
        light.is_painted(),
        light.is_shaded(),
        0 <= angle <= ANGLES,
        0 <= d < MAX_DIST,
        d < light.radius,
    ensures
        light.sweep_angles(detector, d, angle).wf(),
        light.sweep_angles(detector, d, angle).is_like(light),
        light.sweep_angles(detector, d, angle).is_painted(),
        light.sweep_angles(detector, d, angle).is_shaded(),
        forall|other: (i16, i16)|
            light.shows(other) ==> light.sweep_angles(detector, d, angle).shows(other),
        blocks_nothing(detector) && light.is_unshaded() ==> light.sweep_angles(
            detector,
            d,
            angle,
        ).is_unshaded(),
        blocks_nothing(detector) && light.is_unshaded() ==> forall|a: int, i: int|
            angle <= a < ANGLES && 0 <= i < ray(d, a).len() && !(d == 0 && a % 90 != 0)
                ==> light.sweep_angles(detector, d, angle).shows(#[trigger] ray(d, a)[i]),
    decreases ANGLES - angle,
{
    if angle < ANGLES {
        let cells = ray(d, angle);
        assert forall|i: int| 0 <= i < cells.len() implies ring_of(
            (#[trigger] cells[i]).0 as int,
            cells[i].1 as int,
        ) == d && bucket_of(cells[i].0 as int, cells[i].1 as int) == angle by {
            lemma_ray_offsets_bounded(d, angle, SCAN_TOTAL as int, i);
        }
        if light.blocked_angles[angle] < d {
            lemma_sweep_angles_keeps(light, detector, d, angle + 1);
        } else {
            lemma_sweep_cells_keeps(light, detector, d, angle, cells, 0);
            let next = light.sweep_cells(detector, d, angle, cells, 0);
            lemma_sweep_angles_keeps(next, detector, d, angle + 1);
            let end = next.sweep_angles(detector, d, angle + 1);
            assert forall|other: (i16, i16)| light.shows(other) implies end.shows(other) by {
                assert(next.shows(other));
            }
            if blocks_nothing(detector) && light.is_unshaded() {
                assert(next.is_unshaded());
                assert forall|a: int, i: int|
                    angle <= a < ANGLES && 0 <= i < ray(d, a).len() && !(d == 0 && a % 90
                        != 0) implies end.shows(#[trigger] ray(d, a)[i]) by {
                    if a == angle {
                        assert(next.shows(cells[i]));
                    }
                }
            }
        }
    }
}

/// Processing the rings keeps a light well formed, painted and shaded, and
/// keeps every pixel that shows its color.
pub proof fn lemma_sweep_rings_keeps<D: CollisionDetector>(light: LightView, detector: &D, d: int)
    requires
        light.wf(),
        light.is_painted(),
        light.is_shaded(),
        0 <= d <= MAX_DIST,
    ensures
        light.sweep_rings(detector, d).wf(),
        light.sweep_rings(detector, d).is_like(light),
        light.sweep_rings(detector, d).is_painted(),
        light.sweep_rings(detector, d).is_shaded(),
        forall|other: (i16, i16)|
            light.shows(other) ==> light.sweep_rings(detector, d).shows(other),
        blocks_nothing(detector) && light.is_unshaded() ==> light.sweep_rings(
            detector,
            d,
        ).is_unshaded(),
        blocks_nothing(detector) && light.is_unshaded() ==> forall|e: int, a: int, i: int|
            d <= e < light.radius && 0 <= a < ANGLES && 0 <= i < ray(e, a).len() && !(e == 0 && a
                % 90 != 0) ==> light.sweep_rings(detector, d).shows(#[trigger] ray(e, a)[i]),
    decreases MAX_DIST - d,
{
    if d < light.radius && d < MAX_DIST {
        lemma_sweep_angles_keeps(light, detector, d, 0);
        let next = light.sweep_angles(detector, d, 0);
        lemma_sweep_rings_keeps(next, detector, d + 1);
        let end = next.sweep_rings(detector, d + 1);
        assert forall|other: (i16, i16)| light.shows(other) implies end.shows(other) by {
            assert(next.shows(other));
        }
        if blocks_nothing(detector) && light.is_unshaded() {
            assert forall|e: int, a: int, i: int|
                d <= e < light.radius && 0 <= a < ANGLES && 0 <= i < ray(e, a).len() && !(e == 0
                    && a % 90 != 0) implies end.shows(#[trigger] ray(e, a)[i]) by {
                if e == d {
                    assert(next.shows(ray(d, a)[i]));
                }
            }
        }
    }
}

/// Where nothing obstructs a light, no bucket of the rendered light is
/// blocked.
pub proof fn lemma_unobstructed_is_unshaded<D: CollisionDetector>(
    detector: &D,
    pos: (i16, i16),
    radius: i16,
    color_mode: Option<ColorMode>,
)
    requires
        1 <= radius <= MAX_DIST,
        is_position(pos),
        blocks_nothing(detector),
    ensures
        rendered(detector, pos, radius, color_mode).is_unshaded(),
{
    lemma_fresh_is_blank(pos, radius, color_mode);
    lemma_sweep_rings_keeps(fresh(pos, radius, color_mode), detector, 0);
}

/// A light before it is rendered is well formed, painted and unshaded.
pub proof fn lemma_fresh_is_blank(pos: (i16, i16), radius: i16, color_mode: Option<ColorMode>)
    requires
        1 <= radius <= MAX_DIST,
        is_position(pos),
    ensures
        fresh(pos, radius, color_mode).wf(),
        fresh(pos, radius, color_mode).is_painted(),
        fresh(pos, radius, color_mode).is_shaded(),
        fresh(pos, radius, color_mode).is_unshaded(),
{
}

/// Whatever obstructs a light: on the canvas of the rendered light every
/// pixel is transparent or has the color of the ring and the bucket of its
/// own offset, and every bucket is unblocked or blocked on a ring inside the
/// radius.
pub proof fn lemma_rendered_is_painted<D: CollisionDetector>(
    detector: &D,
    pos: (i16, i16),
    radius: i16,
    color_mode: Option<ColorMode>,
)
    requires
        1 <= radius <= MAX_DIST,
        is_position(pos),
    ensures
        rendered(detector, pos, radius, color_mode).wf(),
        rendered(detector, pos, radius, color_mode).is_like(fresh(pos, radius, color_mode)),
        rendered(detector, pos, radius, color_mode).is_painted(),
        rendered(detector, pos, radius, color_mode).is_shaded(),
{
    lemma_fresh_is_blank(pos, radius, color_mode);
    lemma_sweep_rings_keeps(fresh(pos, radius, color_mode), detector, 0);
}

/// The canvas of a rendered light has `(2 * radius + 1)` squared pixels,
/// whatever obstructs the light and wherever it stands: two lights of one
/// radius have canvases of one size.
pub proof fn lemma_canvas_follows_radius<D: CollisionDetector, E: CollisionDetector>(
    first: &D,
    second: &E,
    here: (i16, i16),
    there: (i16, i16),
    radius: i16,
    one_mode: Option<ColorMode>,
    other_mode: Option<ColorMode>,
)
    requires
        1 <= radius <= MAX_DIST,
        is_position(here),
        is_position(there),
    ensures
        rendered(first, here, radius, one_mode).canvas.len() == (2 * radius + 1) * (2 * radius + 1),
        rendered(first, here, radius, one_mode).canvas.len() == rendered(
            second,
            there,
            radius,
            other_mode,
        ).canvas.len(),
{
    lemma_rendered_is_painted(first, here, radius, one_mode);
    lemma_rendered_is_painted(second, there, radius, other_mode);
}

/// The offsets on ring 0 lie in the four cardinal buckets.
pub proof fn lemma_ring_zero_is_cardinal(x: int, y: int)
    requires
        ring_of(x, y) == 0,
    ensures
        bucket_of(x, y) % 90 == 0,
{
    assert((x == 0 && y == 0) || (x == 1 && y == 0) || (x == -1 && y == 0) || (x == 0 && y == 1)
        || (x == 0 && y == -1));
}

/// Where nothing obstructs a light, no bucket of the rendered light is
/// blocked, and every offset of the scan on a ring inside the radius is lit
/// in the color of its place, if it lies on the canvas.
pub proof fn lemma_unobstructed_is_lit<D: CollisionDetector>(
    detector: &D,
    pos: (i16, i16),
    radius: i16,
    color_mode: Option<ColorMode>,
    k: int,
)
    requires
        1 <= radius <= MAX_DIST,
        is_position(pos),
        blocks_nothing(detector),
        0 <= k < SCAN_TOTAL,
        ring_of(scan_offset(k).0, scan_offset(k).1) < radius,
    ensures
        rendered(detector, pos, radius, color_mode).is_unshaded(),
        rendered(detector, pos, radius, color_mode).shows(
            (scan_offset(k).0 as i16, scan_offset(k).1 as i16),
        ),
{
    let offset = scan_offset(k);
    let d = ring_of(offset.0, offset.1);
    let angle = bucket_of(offset.0, offset.1);
    lemma_fresh_is_blank(pos, radius, color_mode);
    lemma_sweep_rings_keeps(fresh(pos, radius, color_mode), detector, 0);
    let i = lemma_ray_holds_offset(d, angle, SCAN_TOTAL as int, k);
    if d == 0 {
        lemma_ring_zero_is_cardinal(offset.0, offset.1);
    }
    assert(rendered(detector, pos, radius, color_mode).shows(ray(d, angle)[i]));
}

/// Where nothing obstructs a light, the pixel at the light itself is lit
/// with full brightness.
pub proof fn lemma_unobstructed_centre_is_lit<D: CollisionDetector>(
    detector: &D,
    pos: (i16, i16),
    radius: i16,
    color_mode: Option<ColorMode>,
)
    requires
        1 <= radius <= MAX_DIST,
        is_position(pos),
        blocks_nothing(detector),
    ensures
        rendered(detector, pos, radius, color_mode).canvas_index((0, 0)) == Some(
            radius + radius * (2 * radius + 1),
        ),
        rendered(detector, pos, radius, color_mode).canvas[radius + radius * (2 * radius + 1)]
            == pixel_color(color_mode, 0, 0, radius as int),
{
    let k = MAX_DIST * SCAN_WIDTH + MAX_DIST;
    assert(scan_offset(k as int) == (0int, 0int));
    lemma_unobstructed_is_lit(detector, pos, radius, color_mode, k as int);
    lemma_rendered_is_painted(detector, pos, radius, color_mode);
    let light = rendered(detector, pos, radius, color_mode);
    lemma_offset_of_index(light, (0, 0));
}

} // verus!
