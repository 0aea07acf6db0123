//! The colour rule: which hue-saturation-value pixels count as red.

use vstd::prelude::*;

verus! {

/// Largest hue of the low red band, which starts at hue 0.
pub const LOW_BAND_MAX_HUE: u8 = 10;

/// Smallest hue of the high red band.
pub const HIGH_BAND_MIN_HUE: u8 = 160;

/// Largest hue of the high red band, and of the 8-bit hue scale.
pub const HIGH_BAND_MAX_HUE: u8 = 180;

/// Smallest saturation of a red pixel.
pub const MIN_SATURATION: u8 = 100;

/// Smallest value (brightness) of a red pixel.
pub const MIN_VALUE: u8 = 100;

/// One pixel in hue-saturation-value space, on the 8-bit scale where the hue
/// circle runs from 0 to 180.
#[derive(Clone, Copy, Debug, PartialEq, Eq, Structural)]
pub struct HsvPixel {
    pub hue: u8,
    pub saturation: u8,
    pub value: u8,
}

/// Whether a pixel lies in the low band, next to hue 0.
pub open spec fn in_low_band(p: HsvPixel) -> bool {
    &&& 0 <= p.hue <= LOW_BAND_MAX_HUE
    &&& MIN_SATURATION <= p.saturation <= 255
    &&& MIN_VALUE <= p.value <= 255
}

/// Whether a pixel lies in the high band, next to hue 180.
pub open spec fn in_high_band(p: HsvPixel) -> bool {
    &&& HIGH_BAND_MIN_HUE <= p.hue <= HIGH_BAND_MAX_HUE
    &&& MIN_SATURATION <= p.saturation <= 255
    &&& MIN_VALUE <= p.value <= 255
}

/// Red sits at the seam of the hue circle, so the red set is the union of a
/// band at each end of the scale.
pub open spec fn is_red(p: HsvPixel) -> bool {
    in_low_band(p) || in_high_band(p)
}

/// Decides whether a pixel is red.
///
/// Every pixel whose hue is in 0..=10 or 160..=180 and whose saturation and
/// value are both at least 100 is red; no pixel with a hue strictly between
/// 10 and 160 is, whatever its saturation and value.
pub fn classify(pixel: HsvPixel) -> (red: bool)
    ensures
        red == is_red(pixel),
        (pixel.hue <= 10 || 160 <= pixel.hue <= 180) && pixel.saturation >= 100 && pixel.value
            >= 100 ==> red,
        10 < pixel.hue < 160 ==> !red,
{
    let hue_in_band = pixel.hue <= LOW_BAND_MAX_HUE || (HIGH_BAND_MIN_HUE <= pixel.hue
        && pixel.hue <= HIGH_BAND_MAX_HUE);
    hue_in_band && pixel.saturation >= MIN_SATURATION && pixel.value >= MIN_VALUE
}

} // verus!
