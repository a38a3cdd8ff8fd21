//! Turning an accumulated radiance sum into an output pixel.

use vstd::prelude::*;
use crate::fixed::{tdiv, fclamp_s, fclamp, lemma_tdiv_abs};
use crate::vec3::Color;
use vstd::arithmetic::div_mod::{lemma_div_is_ordered, lemma_div_pos_is_pos};

verus! {

/// The largest channel value the tone map keeps, just below 1.0, so
/// that scaling by 256 never rounds up past one byte.
pub const CHANNEL_MAX: i64 = 65529;

/// One channel of the tone map: average the sample sum, clamp into
/// `[0, CHANNEL_MAX]`, and scale to a byte (multiplying by 256 in fixed
/// point is dividing the bits by 256).
pub open spec fn tone_map_s(c: int, n: int) -> int {
    tdiv(fclamp_s(tdiv(c, n), 0, CHANNEL_MAX as int), 256)
}

/// Averages a sum of `samples_per_pixel` radiance samples and converts
/// each channel to a byte, exactly per `tone_map_s`.
pub fn get_pixel_color(pixel_color: Color, samples_per_pixel: u32) -> (rgb: (u8, u8, u8))
    requires
        samples_per_pixel >= 1,
    ensures
        rgb.0 == tone_map_s(pixel_color@.x, samples_per_pixel as int),
        rgb.1 == tone_map_s(pixel_color@.y, samples_per_pixel as int),
        rgb.2 == tone_map_s(pixel_color@.z, samples_per_pixel as int),
{
    let n: i64 = samples_per_pixel as i64;
    (tone_channel(pixel_color.x(), n), tone_channel(pixel_color.y(), n), tone_channel(
        pixel_color.z(),
        n,
    ))
}

/// One channel of the tone map.
fn tone_channel(c: i64, n: i64) -> (b: u8)
    requires
        n >= 1,
    ensures
        b == tone_map_s(c as int, n as int),
{
    proof {
        lemma_tdiv_abs(c as int, n as int);
    }
    let avg: i64 = c / n;
    let clamped: i64 = fclamp(avg, 0, CHANNEL_MAX);
    proof {
        lemma_tdiv_abs(clamped as int, 256);
        lemma_div_pos_is_pos(clamped as int, 256);
        lemma_div_is_ordered(clamped as int, CHANNEL_MAX as int, 256);
    }
    let b: i64 = clamped / 256;
    b as u8
}

} // verus!
