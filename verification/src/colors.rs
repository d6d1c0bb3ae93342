//! 8-bit colour conversions.
//!
//! The device stores colours as 8-bit HSV with the hue quantised to 0..=255.
//! Clients speak 8-bit RGB. The conversions between the two go through the
//! palette crate's float colour model and are quantised back to 8 bits.

use palette::IntoColor;
use vstd::prelude::*;

verus! {

/// The 8-bit HSV triple (hue, saturation, value) that the palette conversion
/// assigns to an 8-bit RGB triple.
pub uninterp spec fn hsv8_of_rgb(r: u8, g: u8, b: u8) -> (u8, u8, u8);

/// The 8-bit RGB triple (red, green, blue) that the palette conversion
/// assigns to an 8-bit HSV triple.
pub uninterp spec fn rgb8_of_hsv(h: u8, s: u8, v: u8) -> (u8, u8, u8);

/// Relies on palette's `Rgb` → `Hsv` conversion (`IntoColor`), quantised to
/// 8 bits with `into_format`: the result depends on the components alone.
#[verifier::external_body]
pub(crate) fn rgb_to_hsv8(r: u8, g: u8, b: u8) -> (c: (u8, u8, u8))
    ensures
        c == hsv8_of_rgb(r, g, b),
{
    let rgb: palette::rgb::Rgb = palette::rgb::Rgb::new(r, g, b).into_format();
    let hsv: palette::Hsv = rgb.into_color();
    let hsv = hsv.into_format::<u8>();
    (hsv.hue.into_inner(), hsv.saturation, hsv.value)
}

/// Relies on palette's `Hsv` → `Rgb` conversion (`IntoColor`), quantised to
/// 8 bits with `into_format`: the result depends on the components alone.
#[verifier::external_body]
pub(crate) fn hsv_to_rgb8(h: u8, s: u8, v: u8) -> (c: (u8, u8, u8))
    ensures
        c == rgb8_of_hsv(h, s, v),
{
    let hsv8: palette::Hsv<palette::encoding::Srgb, u8> = palette::Hsv::new(h, s, v);
    let hsv: palette::Hsv = hsv8.into_format();
    let rgb: palette::rgb::Rgb = hsv.into_color();
    let rgb = rgb.into_format::<u8>();
    (rgb.red, rgb.green, rgb.blue)
}

} // verus!
