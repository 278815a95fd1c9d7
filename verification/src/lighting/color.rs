//! Colors: an RGBA pixel, the color modes of a light, and the conversion
//! from hue, saturation and value.

use vstd::prelude::*;

verus! {

/// An RGBA pixel: red, green, blue, alpha.
#[derive(Copy, Clone, Debug)]
pub struct Color(pub u8, pub u8, pub u8, pub u8);

impl Default for Color {
    /// The transparent black pixel.
    fn default() -> (color: Color)
        ensures
            color == Color(0, 0, 0, 0),
    {
        Color(0, 0, 0, 0)
    }
}

/// How a light is colored; a light without a mode takes its hue from the
/// angle of each ray.
#[derive(Copy, Clone, Debug, PartialEq, Eq, Structural)]
pub enum ColorMode {
    /// One hue, at full saturation.
    Solid(u8),
    /// One hue at the given saturation.
    Custom { hue: u8, saturation: u8 },
}

/// The sector of the color wheel in which a hue lies: six sectors of 43
/// hues each, the last one shorter.
pub open spec fn hue_sector(h: int) -> int {
    h / 43
}

/// How far a hue lies inside its sector, scaled to 0..=252.
pub open spec fn hue_remainder(h: int) -> int {
    (h - hue_sector(h) * 43) * 6
}

/// The opaque color with hue `h`, saturation `s` and value `v`, each in
/// 0..=255. Without saturation it is the grey of value `v`.
pub open spec fn hsv_spec(h: u8, s: u8, v: u8) -> Color {
    if s == 0 {
        Color(v, v, v, 255)
    } else {
        let sector = hue_sector(h as int);
        let remainder = hue_remainder(h as int);
        let p = (v * (255 - s) / 255) as u8;
        let q = (v * (255 - s * remainder / 255) / 255) as u8;
        let t = (v * (255 - s * (255 - remainder) / 255) / 255) as u8;
        if sector == 0 {
            Color(v, t, p, 255)
        } else if sector == 1 {
            Color(q, v, p, 255)
        } else if sector == 2 {
            Color(p, v, t, 255)
        } else if sector == 3 {
            Color(p, q, v, 255)
        } else if sector == 4 {
            Color(t, p, v, 255)
        } else {
            Color(v, p, q, 255)
        }
    }
}

/// Converts hue, saturation and value to an opaque RGBA pixel.
pub fn hsv2rgb(h: u8, s: u8, v: u8) -> (color: Color)
    ensures
        color == hsv_spec(h, s, v),
        color.3 == 255,
        s == 0 ==> color == Color(v, v, v, 255),
{
    if s == 0 {
        return Color(v, v, v, 255);
    }
    let sector: u8 = h / 43;
    let remainder: u8 = (h - sector * 43) * 6;
    assert(v * (255 - s) <= 255 * 255) by (nonlinear_arith)
        requires
            v <= 255,
            0 <= 255 - s <= 255,
    ;
    let p: u8 = ((v as u16) * ((255 - s) as u16) / 255) as u8;
    assert(s * remainder <= 255 * 252) by (nonlinear_arith)
        requires
            s <= 255,
            remainder <= 252,
    ;
    let fade_q: u16 = 255 - (s as u16) * (remainder as u16) / 255;
    assert(v * fade_q <= 255 * 255) by (nonlinear_arith)
        requires
            v <= 255,
            fade_q <= 255,
    ;
    let q: u8 = ((v as u16) * fade_q / 255) as u8;
    assert(s * (255 - remainder) <= 255 * 255) by (nonlinear_arith)
        requires
            s <= 255,
            0 <= 255 - remainder <= 255,
    ;
    let fade_t: u16 = 255 - (s as u16) * ((255 - remainder) as u16) / 255;
    assert(v * fade_t <= 255 * 255) by (nonlinear_arith)
        requires
            v <= 255,
            fade_t <= 255,
    ;
    let t: u8 = ((v as u16) * fade_t / 255) as u8;
    if sector == 0 {
        Color(v, t, p, 255)
    } else if sector == 1 {
        Color(q, v, p, 255)
    } else if sector == 2 {
        Color(p, v, t, 255)
    } else if sector == 3 {
        Color(p, q, v, 255)
    } else if sector == 4 {
        Color(t, p, v, 255)
    } else {
        Color(v, p, q, 255)
    }
}

/// Whether two optional color modes are the same.
pub fn same_mode(a: &Option<ColorMode>, b: &Option<ColorMode>) -> (same: bool)
    ensures
        same == (*a == *b),
{
    match (a, b) {
        (None, None) => true,
        (Some(first), Some(second)) => *first == *second,
        _ => false,
    }
}

} // verus!
