//! The lighting engine: a table of rays, computed once, and the shadow
//! casting that renders each light onto its own canvas.

pub mod color;
pub mod painting;
pub mod rays;

pub use crate::lighting::color::{hsv2rgb, Color, ColorMode};
pub use crate::lighting::rays::{RayTable, ANGLES, MAX_DIST};

use crate::collision::CollisionDetector;
use crate::lighting::color::{hsv_spec, same_mode};
use crate::lighting::painting::{
    blocks_nothing, lemma_rendered_is_painted, lemma_unobstructed_is_unshaded,
};
use crate::lighting::rays::{lemma_ray_offsets_bounded, ray, SCAN_TOTAL};
use std::collections::HashMap;
use vstd::prelude::*;

verus! {

/// The entry of `blocked_angles` for an angle that is not blocked.
pub const UNBLOCKED: u8 = 255;

/// Below this ring a blocked ray also blocks the bucket on either side.
pub const NEAR_RINGS: usize = 3;

/// The largest edge length of a canvas.
pub const MAX_CANVAS: usize = 121;

/// The least coordinate of a light whose rays stay in the 16-bit range.
pub const MIN_COORD: i16 = -32708;

/// The largest coordinate of a light whose rays stay in the 16-bit range.
pub const MAX_COORD: i16 = 32707;

/// The radius of a light: the requested radius, brought into
/// `1..=MAX_DIST`.
pub open spec fn clamped_radius(r: i16) -> i16 {
    if r > MAX_DIST {
        MAX_DIST as i16
    } else if r < 1 {
        1
    } else {
        r
    }
}

/// The brightness of a pixel on ring `d` of a light of the given radius: 255
/// at the light, falling off linearly with the ring.
pub open spec fn falloff(d: int, radius: int) -> int {
    255 - (255 * d) / radius
}

/// The hue of the bucket `angle` when the hue follows the angle.
pub open spec fn angle_hue(angle: int) -> int {
    (angle * 255) / (ANGLES - 1)
}

/// The color of a lit pixel on ring `d` in bucket `angle`.
pub open spec fn pixel_color(mode: Option<ColorMode>, angle: int, d: int, radius: int) -> Color {
    let value = falloff(d, radius) as u8;
    match mode {
        None => hsv_spec(angle_hue(angle) as u8, 255, value),
        Some(ColorMode::Solid(hue)) => hsv_spec(hue, 255, value),
        Some(ColorMode::Custom { hue, saturation }) => hsv_spec(hue, saturation, value),
    }
}

/// Whether a light may stand at `pos`: every offset within `MAX_DIST` of it
/// has 16-bit coordinates.
pub open spec fn is_position(pos: (i16, i16)) -> bool {
    MIN_COORD <= pos.0 <= MAX_COORD && MIN_COORD <= pos.1 <= MAX_COORD
}

/// What a light stands for.
pub struct LightView {
    /// The world position of the light.
    pub pos: (i16, i16),
    /// The radius of the light.
    pub radius: i16,
    /// The color mode; `None` takes the hue from the angle.
    pub color_mode: Option<ColorMode>,
    /// The canvas, row by row.
    pub canvas: Seq<Color>,
    /// The edge length of the canvas.
    pub canvas_size: nat,
    /// For every angle bucket the ring on which it is blocked, or
    /// `UNBLOCKED`.
    pub blocked_angles: Seq<u8>,
}

impl LightView {
    /// The light is well formed: its radius lies in `1..=MAX_DIST`, its
    /// canvas is a square, and every angle bucket has an entry.
    pub open spec fn wf(self) -> bool {
        &&& 1 <= self.radius <= MAX_DIST
        &&& is_position(self.pos)
        &&& self.canvas_size <= MAX_CANVAS
        &&& self.canvas.len() == self.canvas_size * self.canvas_size
        &&& self.blocked_angles.len() == ANGLES
    }

    /// The canvas index of the offset `cell`, if the offset lies on the
    /// canvas.
    pub open spec fn canvas_index(self, cell: (i16, i16)) -> Option<int> {
        let cx = cell.0 + self.canvas_size / 2;
        let cy = cell.1 + self.canvas_size / 2;
        if 0 <= cx < self.canvas_size && 0 <= cy < self.canvas_size {
            Some(cx + cy * self.canvas_size)
        } else {
            None
        }
    }

    /// The light after the pixel at the offset `cell` has been lit for ring
    /// `d` of bucket `angle`. An offset outside the canvas changes nothing.
    pub open spec fn lit(self, cell: (i16, i16), angle: int, d: int) -> LightView {
        match self.canvas_index(cell) {
            Some(index) => LightView {
                canvas: self.canvas.update(
                    index,
                    pixel_color(self.color_mode, angle, d, self.radius as int),
                ),
                ..self
            },
            None => self,
        }
    }

    /// The light after bucket `angle` has been blocked on ring `d`. On a
    /// ring below `NEAR_RINGS` the buckets on either side are blocked on
    /// that ring too, unless they are blocked nearer.
    pub open spec fn shadowed(self, angle: int, d: int) -> LightView {
        let own = self.blocked_angles.update(angle, d as u8);
        if d < NEAR_RINGS {
            let left = if angle > 0 {
                angle - 1
            } else {
                ANGLES - 1
            };
            let right = (angle + 1) % (ANGLES as int);
            let with_left = if own[left] > d {
                own.update(left, d as u8)
            } else {
                own
            };
            let with_right = if with_left[right] > d {
                with_left.update(right, d as u8)
            } else {
                with_left
            };
            LightView { blocked_angles: with_right, ..self }
        } else {
            LightView { blocked_angles: own, ..self }
        }
    }

    /// The light after the offsets `cells[from..]` of ring `d` and bucket
    /// `angle` have been processed. On ring 0 only the four cardinal buckets
    /// count. The first offset to which the way from the light is blocked
    /// shadows the bucket and ends the ray; every offset before it is lit.
    pub open spec fn sweep_cells<D: CollisionDetector>(
        self,
        detector: &D,
        d: int,
        angle: int,
        cells: Seq<(i16, i16)>,
        from: int,
    ) -> LightView
        decreases cells.len() - from,
    {
        if from < 0 || from >= cells.len() {
            self
        } else if d == 0 && angle % 90 != 0 {
            self.sweep_cells(detector, d, angle, cells, from + 1)
        } else {
            let cell = cells[from];
            if detector.blocked(
                self.pos.0,
                self.pos.1,
                (cell.0 + self.pos.0) as i16,
                (cell.1 + self.pos.1) as i16,
            ) {
                self.shadowed(angle, d)
            } else {
                self.lit(cell, angle, d).sweep_cells(detector, d, angle, cells, from + 1)
            }
        }
    }

    /// The light after the buckets from `angle` on have been processed on
    /// ring `d`: a bucket that is blocked on a nearer ring is skipped.
    pub open spec fn sweep_angles<D: CollisionDetector>(
        self,
        detector: &D,
        d: int,
        angle: int,
    ) -> LightView
        decreases ANGLES - angle,
    {
        if angle < 0 || angle >= ANGLES {
            self
        } else if self.blocked_angles[angle] < d {
            self.sweep_angles(detector, d, angle + 1)
        } else {
            self.sweep_cells(detector, d, angle, ray(d, angle), 0).sweep_angles(
                detector,
                d,
                angle + 1,
            )
        }
    }

    /// The light after the rings from `d` up to its radius have been
    /// processed.
    pub open spec fn sweep_rings<D: CollisionDetector>(self, detector: &D, d: int) -> LightView
        decreases MAX_DIST - d,
    {
        if d < 0 || d >= self.radius || d >= MAX_DIST {
            self
        } else {
            self.sweep_angles(detector, d, 0).sweep_rings(detector, d + 1)
        }
    }
}

/// A light before it is rendered: a transparent canvas of
/// `(2 * radius + 1)` squared pixels, and no angle blocked.
pub open spec fn fresh(pos: (i16, i16), radius: i16, color_mode: Option<ColorMode>) -> LightView {
    LightView {
        pos,
        radius,
        color_mode,
        canvas: Seq::new(((2 * radius + 1) * (2 * radius + 1)) as nat, |i: int| Color(0, 0, 0, 0)),
        canvas_size: (2 * radius + 1) as nat,
        blocked_angles: Seq::new(ANGLES as nat, |i: int| UNBLOCKED),
    }
}

/// The light at `pos` with the given radius and color mode, rendered against
/// a detector: all rings swept from the light outward.
pub open spec fn rendered<D: CollisionDetector>(
    detector: &D,
    pos: (i16, i16),
    radius: i16,
    color_mode: Option<ColorMode>,
) -> LightView {
    fresh(pos, radius, color_mode).sweep_rings(detector, 0)
}

/// Lighting a pixel or shadowing a bucket keeps a light well formed, with
/// its position, radius, color mode and canvas size.
pub proof fn lemma_step_keeps_shape(light: LightView, cell: (i16, i16), angle: int, d: int)
    requires
        light.wf(),
        0 <= angle < ANGLES,
        0 <= d < MAX_DIST,
    ensures
        light.lit(cell, angle, d).wf(),
        light.shadowed(angle, d).wf(),
        light.lit(cell, angle, d).pos == light.pos,
        light.lit(cell, angle, d).radius == light.radius,
        light.lit(cell, angle, d).color_mode == light.color_mode,
        light.lit(cell, angle, d).canvas_size == light.canvas_size,
        light.lit(cell, angle, d).blocked_angles == light.blocked_angles,
        light.shadowed(angle, d).pos == light.pos,
        light.shadowed(angle, d).radius == light.radius,
        light.shadowed(angle, d).color_mode == light.color_mode,
        light.shadowed(angle, d).canvas_size == light.canvas_size,
        light.shadowed(angle, d).canvas == light.canvas,
{
    let size = light.canvas_size as int;
    match light.canvas_index(cell) {
        Some(index) => {
            let cx = cell.0 + size / 2;
            let cy = cell.1 + size / 2;
            assert(0 <= cx + cy * size < size * size) by (nonlinear_arith)
                requires
                    0 <= cx < size,
                    0 <= cy < size,
            ;
        },
        None => {},
    }
}

/// A light with its canvas and its shadows.
pub struct Light {
    pos: (i16, i16),
    r: i16,
    color_mode: Option<ColorMode>,
    canvas: Vec<Color>,
    canvas_size: usize,
    blocked_angles: Vec<u8>,
}

impl View for Light {
    type V = LightView;

    closed spec fn view(&self) -> LightView {
        LightView {
            pos: self.pos,
            radius: self.r,
            color_mode: self.color_mode,
            canvas: self.canvas@,
            canvas_size: self.canvas_size as nat,
            blocked_angles: self.blocked_angles@,
        }
    }
}

/// A vector of `count` copies of a color.
fn filled(count: usize, color: Color) -> (pixels: Vec<Color>)
    ensures
        pixels@ == Seq::new(count as nat, |i: int| color),
{
    let mut pixels: Vec<Color> = Vec::new();
    let mut i: usize = 0;
    while i < count
        invariant
            i <= count,
            pixels@.len() == i,
            forall|k: int| 0 <= k < i ==> #[trigger] pixels@[k] == color,
        decreases count - i,
    {
        pixels.push(color);
        i = i + 1;
    }
    assert(pixels@ =~= Seq::new(count as nat, |i: int| color));
    pixels
}

impl Light {
    /// A light at `pos` with radius `r`, not yet rendered.
    pub fn new(pos: (i16, i16), r: i16, color_mode: Option<ColorMode>) -> (light: Self)
        requires
            1 <= r <= MAX_DIST,
            is_position(pos),
        ensures
            light@ == fresh(pos, r, color_mode),
            light@.wf(),
    {
        let canvas_size = (r * 2 + 1) as usize;
        assert(canvas_size * canvas_size <= 121 * 121) by (nonlinear_arith)
            requires
                canvas_size <= 121,
        ;
        let canvas_pixels = canvas_size * canvas_size;
        let mut blocked_angles: Vec<u8> = Vec::new();
        let mut i: usize = 0;
        while i < ANGLES
            invariant
                i <= ANGLES,
                blocked_angles@.len() == i,
                forall|k: int| 0 <= k < i ==> #[trigger] blocked_angles@[k] == UNBLOCKED,
            decreases ANGLES - i,
        {
            blocked_angles.push(UNBLOCKED);
            i = i + 1;
        }
        let light = Light {
            pos,
            r,
            color_mode,
            canvas: filled(canvas_pixels, Color::default()),
            canvas_size,
            blocked_angles,
        };
        assert(light@.blocked_angles =~= fresh(pos, r, color_mode).blocked_angles);
        assert(light@.canvas =~= fresh(pos, r, color_mode).canvas);
        light
    }

    /// The canvas of the light, row by row.
    pub fn canvas(&self) -> (canvas: &Vec<Color>)
        ensures
            canvas@ == self@.canvas,
    {
        &self.canvas
    }

    /// The edge length of the canvas.
    pub fn canvas_size(&self) -> (size: usize)
        ensures
            size == self@.canvas_size,
    {
        self.canvas_size
    }

    /// For every angle bucket the ring on which it is blocked, or
    /// `UNBLOCKED`.
    pub fn blocked_angles(&self) -> (blocked: &Vec<u8>)
        ensures
            blocked@ == self@.blocked_angles,
    {
        &self.blocked_angles
    }

    /// The radius of the light.
    pub fn radius(&self) -> (r: i16)
        ensures
            r == self@.radius,
    {
        self.r
    }

    /// The world position of the light.
    pub fn position(&self) -> (pos: (i16, i16))
        ensures
            pos == self@.pos,
    {
        self.pos
    }

    /// Lights the pixel at the offset `cell` for ring `distance` of bucket
    /// `angle`. An offset outside the canvas changes nothing.
    pub fn render_light_pixel(&mut self, cell: (i16, i16), angle: usize, distance: u8)
        requires
            old(self)@.wf(),
            angle < ANGLES,
            distance <= old(self)@.radius,
        ensures
            final(self)@ == old(self)@.lit(cell, angle as int, distance as int),
    {
        let half = (self.canvas_size / 2) as i32;
        let cx: i32 = cell.0 as i32 + half;
        let cy: i32 = cell.1 as i32 + half;
        if cx < 0 || cy < 0 || cx >= self.canvas_size as i32 || cy >= self.canvas_size as i32 {
            return ;
        }
        assert(0 <= cy * self.canvas_size && cx + cy * self.canvas_size < self.canvas_size
            * self.canvas_size <= 121 * 121) by (nonlinear_arith)
            requires
                0 <= cx < self.canvas_size,
                0 <= cy < self.canvas_size,
                self.canvas_size <= 121,
        ;
        let cell_idx = cx as usize + cy as usize * self.canvas_size;
        assert(0 <= (255 * distance) / (self.r as int) <= 255) by (nonlinear_arith)
            requires
                0 <= distance <= self.r,
                1 <= self.r,
        ;
        let brightness: u16 = 255 - (255 * distance as u16) / (self.r as u16);
        let color = match self.color_mode {
            None => {
                let scaled_hue = (angle * 255) / (ANGLES - 1);
                hsv2rgb(scaled_hue as u8, 255, brightness as u8)
            },
            Some(ColorMode::Solid(hue)) => hsv2rgb(hue, 255, brightness as u8),
            Some(ColorMode::Custom { hue, saturation }) => hsv2rgb(
                hue,
                saturation,
                brightness as u8,
            ),
        };
        self.canvas[cell_idx] = color;
    }

    /// Blocks bucket `angle` on ring `d`, and on a near ring the bucket on
    /// either side too.
    fn shadow(&mut self, angle: usize, d: usize)
        requires
            old(self)@.wf(),
            angle < ANGLES,
            d < MAX_DIST,
        ensures
            final(self)@ == old(self)@.shadowed(angle as int, d as int),
    {
        self.blocked_angles[angle] = d as u8;
        if d < NEAR_RINGS {
            let left_angle = if angle > 0 { angle - 1 } else { ANGLES - 1 };
            let right_angle = (angle + 1) % ANGLES;
            if self.blocked_angles[left_angle] > d as u8 {
                self.blocked_angles[left_angle] = d as u8;
            }
            if self.blocked_angles[right_angle] > d as u8 {
                self.blocked_angles[right_angle] = d as u8;
            }
        }
    }

    /// Renders the light anew: the canvas gets the size that the radius
    /// asks for, canvas and shadows are reset, and the rings are swept from
    /// the light outward. Nothing of the earlier rendering remains.
    pub fn update<D: CollisionDetector>(&mut self, rays: &RayTable, detector: &D)
        requires
            old(self)@.wf(),
            rays.wf(),
            detector.wf(),
        ensures
            final(self)@ == rendered(
                detector,
                old(self)@.pos,
                old(self)@.radius,
                old(self)@.color_mode,
            ),
            final(self)@.wf(),
            final(self)@.pos == old(self)@.pos,
            final(self)@.radius == old(self)@.radius,
            final(self)@.color_mode == old(self)@.color_mode,
            final(self)@.canvas_size == 2 * old(self)@.radius + 1,
            final(self)@.canvas.len() == (2 * old(self)@.radius + 1) * (2 * old(self)@.radius + 1),
            final(self)@.is_painted(),
            final(self)@.is_shaded(),
            blocks_nothing(detector) ==> final(self)@.is_unshaded(),
    {
        proof {
            lemma_rendered_is_painted(detector, self.pos, self.r, self.color_mode);
            if blocks_nothing(detector) {
                lemma_unobstructed_is_unshaded(detector, self.pos, self.r, self.color_mode);
            }
        }
        let new_canvas_size = (self.r * 2 + 1) as usize;
        assert(new_canvas_size * new_canvas_size <= 121 * 121) by (nonlinear_arith)
            requires
                new_canvas_size <= 121,
        ;
        let new_canvas_pixels = new_canvas_size * new_canvas_size;
        if self.canvas.len() != new_canvas_pixels {
            self.canvas = filled(new_canvas_pixels, Color::default());
            self.canvas_size = new_canvas_size;
        }
        assert(self.canvas_size == new_canvas_size) by (nonlinear_arith)
            requires
                self.canvas_size * self.canvas_size == new_canvas_size * new_canvas_size,
        ;
        let mut i: usize = 0;
        while i < ANGLES
            invariant
                i <= ANGLES,
                self.pos == old(self).pos,
                self.r == old(self).r,
                self.color_mode == old(self).color_mode,
                self.canvas_size == new_canvas_size,
                self.canvas@.len() == new_canvas_pixels,
                self.blocked_angles@.len() == ANGLES,
                forall|k: int| 0 <= k < i ==> #[trigger] self.blocked_angles@[k] == UNBLOCKED,
            decreases ANGLES - i,
        {
            self.blocked_angles[i] = UNBLOCKED;
            i = i + 1;
        }
        let mut j: usize = 0;
        while j < new_canvas_pixels
            invariant
                j <= new_canvas_pixels,
                self.pos == old(self).pos,
                self.r == old(self).r,
                self.color_mode == old(self).color_mode,
                self.canvas_size == new_canvas_size,
                self.canvas@.len() == new_canvas_pixels,
                self.blocked_angles@ == Seq::new(ANGLES as nat, |i: int| UNBLOCKED),
                forall|k: int| 0 <= k < j ==> #[trigger] self.canvas@[k] == Color(0, 0, 0, 0),
            decreases new_canvas_pixels - j,
        {
            self.canvas[j] = Color::default();
            j = j + 1;
        }
        let ghost start = fresh(self.pos, self.r, self.color_mode);
        assert(self@.canvas =~= start.canvas);
        assert(self@ == start);
        let ghost target = start.sweep_rings(detector, 0);
        let mut d: usize = 0;
        while d < self.r as usize && d < MAX_DIST
            invariant
                rays.wf(),
                detector.wf(),
                self@.wf(),
                self@.pos == start.pos,
                self@.radius == start.radius,
                self@.color_mode == start.color_mode,
                self@.canvas_size == start.canvas_size,
                d <= MAX_DIST,
                self@.sweep_rings(detector, d as int) == target,
            decreases MAX_DIST - d,
        {
            let mut angle: usize = 0;
            while angle < ANGLES
                invariant
                    rays.wf(),
                    detector.wf(),
                    self@.wf(),
                    self@.pos == start.pos,
                    self@.radius == start.radius,
                    self@.color_mode == start.color_mode,
                    self@.canvas_size == start.canvas_size,
                    d < self@.radius,
                    d < MAX_DIST,
                    angle <= ANGLES,
                    self@.sweep_angles(detector, d as int, angle as int).sweep_rings(
                        detector,
                        d + 1,
                    ) == target,
                decreases ANGLES - angle,
            {
                if !(self.blocked_angles[angle] < d as u8) {
                    let cells = rays.cells(d, angle);
                    let ghost end_of_ray = self@.sweep_cells(
                        detector,
                        d as int,
                        angle as int,
                        cells@,
                        0,
                    );
                    let mut at: usize = 0;
                    let mut open = true;
                    while open && at < cells.len()
                        invariant
                            rays.wf(),
                            detector.wf(),
                            self@.wf(),
                            self@.pos == start.pos,
                            self@.radius == start.radius,
                            self@.color_mode == start.color_mode,
                            self@.canvas_size == start.canvas_size,
                            d < self@.radius,
                            d < MAX_DIST,
                            angle < ANGLES,
                            at <= cells@.len(),
                            cells@ == ray(d as int, angle as int),
                            open ==> self@.sweep_cells(
                                detector,
                                d as int,
                                angle as int,
                                cells@,
                                at as int,
                            ) == end_of_ray,
                            !open ==> self@ == end_of_ray,
                        decreases cells@.len() - at + if open { 1int } else { 0 },
                    {
                        let cell = cells[at];
                        if d == 0 && angle % 90 != 0 {
                            at = at + 1;
                        } else {
                            proof {
                                lemma_ray_offsets_bounded(
                                    d as int,
                                    angle as int,
                                    SCAN_TOTAL as int,
                                    at as int,
                                );
                                lemma_step_keeps_shape(self@, cell, angle as int, d as int);
                            }
                            let curr = (cell.0 + self.pos.0, cell.1 + self.pos.1);
                            if detector.is_blocked(self.pos.0, self.pos.1, curr.0, curr.1) {
                                self.shadow(angle, d);
                                open = false;
                            } else {
                                self.render_light_pixel(cell, angle, d as u8);
                                at = at + 1;
                            }
                        }
                    }
                }
                angle = angle + 1;
            }
            d = d + 1;
        }
    }
}

/// The lights of a scene, by id.
pub struct LightMap {
    lights: HashMap<u8, Light>,
}

impl View for LightMap {
    type V = Map<u8, LightView>;

    closed spec fn view(&self) -> Map<u8, LightView> {
        self.lights@.map_values(|light: Light| light@)
    }
}

impl LightMap {
    /// Whether every light of the scene is well formed.
    pub open spec fn wf(&self) -> bool {
        forall|id: u8| self@.contains_key(id) ==> (#[trigger] self@[id]).wf()
    }

    /// A scene without lights.
    pub fn new() -> (lights: Self)
        ensures
            lights@ == Map::<u8, LightView>::empty(),
            lights.wf(),
    {
        let lights = LightMap { lights: HashMap::new() };
        assert(lights@ =~= Map::<u8, LightView>::empty());
        lights
    }

    /// The light with the given id, if the scene has one.
    pub fn get(&self, id: u8) -> (light: Option<&Light>)
        ensures
            match light {
                Some(found) => self@.contains_key(id) && found@ == self@[id],
                None => !self@.contains_key(id),
            },
    {
        broadcast use vstd::std_specs::hash::group_hash_axioms;

        self.lights.get(&id)
    }
}

/// The requested radius, brought into `1..=MAX_DIST`.
pub fn clamp_radius(r: i16) -> (clamped: i16)
    ensures
        clamped == clamped_radius(r),
        1 <= clamped <= MAX_DIST,
{
    if r > MAX_DIST as i16 {
        MAX_DIST as i16
    } else if r < 1 {
        1
    } else {
        r
    }
}

/// Renders the light `id` at `(x, y)` with the radius `r`, clamped, and the
/// given color mode, and returns its canvas: `(2 * radius + 1)` squared
/// pixels, row by row. The light is made if the scene has none with this id.
/// The rendering depends on nothing but the arguments; the other lights stay
/// as they are.
pub fn update_light_with_color_mode<'a, D: CollisionDetector>(
    lights: &'a mut LightMap,
    rays: &RayTable,
    detector: &D,
    id: u8,
    r: i16,
    x: i16,
    y: i16,
    color_mode: Option<ColorMode>,
) -> (canvas: &'a Vec<Color>)
    requires
        old(lights).wf(),
        rays.wf(),
        detector.wf(),
        is_position((x, y)),
    ensures
        final(lights).wf(),
        final(lights)@ == old(lights)@.insert(
            id,
            rendered(detector, (x, y), clamped_radius(r), color_mode),
        ),
        canvas@ == final(lights)@[id].canvas,
        canvas@.len() == (2 * clamped_radius(r) + 1) * (2 * clamped_radius(r) + 1),
{
    broadcast use vstd::std_specs::hash::group_hash_axioms;

    let clamped_r = clamp_radius(r);
    let ghost before = lights.lights@;
    let existing = lights.lights.remove(&id);
    let mut light = match existing {
        Some(found) => {
            assert(before.contains_key(id) && before[id] == found);
            assert(old(lights)@.contains_key(id) && old(lights)@[id] == found@);
            if found.r != clamped_r || !same_mode(&found.color_mode, &color_mode) {
                Light::new((x, y), clamped_r, color_mode)
            } else {
                found
            }
        },
        None => Light::new((x, y), clamped_r, color_mode),
    };
    light.pos = (x, y);
    light.r = clamped_r;
    light.color_mode = color_mode;
    light.update(rays, detector);
    let ghost shown = light@;
    lights.lights.insert(id, light);
    proof {
        assert(lights.lights@ =~= before.insert(id, light));
        assert(lights@ =~= old(lights)@.insert(id, shown)) by {
            assert forall|k: u8| lights@.contains_key(k) <==> old(lights)@.insert(
                id,
                shown,
            ).contains_key(k) by {}
            assert forall|k: u8| lights@.contains_key(k) implies lights@[k] == old(lights)@.insert(
                id,
                shown,
            )[k] by {}
        }
        assert forall|k: u8| lights@.contains_key(k) implies (#[trigger] lights@[k]).wf() by {
            if k != id {
                assert(old(lights)@.contains_key(k));
                assert(lights@[k] == old(lights)@[k]);
            }
        }
    }
    match lights.lights.get(&id) {
        Some(found) => found.canvas(),
        None => vstd::pervasive::unreached(),
    }
}

/// Renders the light `id` in one hue at full saturation, and returns its
/// canvas.
pub fn update_or_add_light_with_solid_color<'a, D: CollisionDetector>(
    lights: &'a mut LightMap,
    rays: &RayTable,
    detector: &D,
    id: u8,
    r: i16,
    x: i16,
    y: i16,
    hue: u8,
) -> (canvas: &'a Vec<Color>)
    requires
        old(lights).wf(),
        rays.wf(),
        detector.wf(),
        is_position((x, y)),
    ensures
        final(lights).wf(),
        final(lights)@ == old(lights)@.insert(
            id,
            rendered(detector, (x, y), clamped_radius(r), Some(ColorMode::Solid(hue))),
        ),
        canvas@ == final(lights)@[id].canvas,
        canvas@.len() == (2 * clamped_radius(r) + 1) * (2 * clamped_radius(r) + 1),
{
    update_light_with_color_mode(lights, rays, detector, id, r, x, y, Some(ColorMode::Solid(hue)))
}

/// Renders the light `id` in one hue at the given saturation, and returns
/// its canvas.
pub fn update_or_add_light_with_custom_color<'a, D: CollisionDetector>(
    lights: &'a mut LightMap,
    rays: &RayTable,
    detector: &D,
    id: u8,
    r: i16,
    x: i16,
    y: i16,
    hue: u8,
    saturation: u8,
) -> (canvas: &'a Vec<Color>)
    requires
        old(lights).wf(),
        rays.wf(),
        detector.wf(),
        is_position((x, y)),
    ensures
        final(lights).wf(),
        final(lights)@ == old(lights)@.insert(
            id,
            rendered(
                detector,
                (x, y),
                clamped_radius(r),
                Some(ColorMode::Custom { hue, saturation }),
            ),
        ),
        canvas@ == final(lights)@[id].canvas,
        canvas@.len() == (2 * clamped_radius(r) + 1) * (2 * clamped_radius(r) + 1),
{
    update_light_with_color_mode(
        lights,
        rays,
        detector,
        id,
        r,
        x,
        y,
        Some(ColorMode::Custom { hue, saturation }),
    )
}

/// Renders the light `id` with the hue of every ray taken from its angle,
/// and returns its canvas.
pub fn update_or_add_light<'a, D: CollisionDetector>(
    lights: &'a mut LightMap,
    rays: &RayTable,
    detector: &D,
    id: u8,
    r: i16,
    x: i16,
    y: i16,
) -> (canvas: &'a Vec<Color>)
    requires
        old(lights).wf(),
        rays.wf(),
        detector.wf(),
        is_position((x, y)),
    ensures
        final(lights).wf(),
        final(lights)@ == old(lights)@.insert(
            id,
            rendered(detector, (x, y), clamped_radius(r), None),
        ),
        canvas@ == final(lights)@[id].canvas,
        canvas@.len() == (2 * clamped_radius(r) + 1) * (2 * clamped_radius(r) + 1),
{
    update_light_with_color_mode(lights, rays, detector, id, r, x, y, None)
}

} // verus!
