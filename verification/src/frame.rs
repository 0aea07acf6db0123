//! One image plane and the number of red pixels in it.

use crate::color::{classify, is_red, HsvPixel};
use crate::error::ProcessError;
use vstd::prelude::*;

verus! {

/// Channels of a frame in hue-saturation-value space.
pub const HSV_CHANNELS: usize = 3;

/// Bits in one sample of a frame that the colour rule can read.
pub const HSV_BITS: u8 = 8;

/// One image plane of a multi-frame file, after conversion to
/// hue-saturation-value space: its dimensions, its channel layout, and its
/// samples row by row, the channels of a pixel next to each other.
#[derive(Clone, Debug, PartialEq, Eq)]
pub struct Frame {
    pub width: usize,
    pub height: usize,
    pub channels: usize,
    pub bits_per_sample: u8,
    pub samples: Vec<u8>,
}

/// The pixels that a run of samples holds, three samples to a pixel: hue,
/// saturation, value.
pub open spec fn pixels_of(samples: Seq<u8>) -> Seq<HsvPixel> {
    Seq::new(
        samples.len() / 3,
        |i: int|
            HsvPixel { hue: samples[3 * i], saturation: samples[3 * i + 1], value: samples[3 * i + 2] },
    )
}

/// The colour rule as a predicate on pixels.
pub open spec fn red_rule() -> spec_fn(HsvPixel) -> bool {
    |p: HsvPixel| is_red(p)
}

/// How many of the pixels are red.
pub open spec fn red_count(pixels: Seq<HsvPixel>) -> nat {
    pixels.filter(red_rule()).len()
}

impl Frame {
    /// The frame has the layout of an eight-bit hue-saturation-value image:
    /// three channels, and exactly one sample per channel and pixel.
    pub open spec fn has_hsv_layout(&self) -> bool {
        &&& self.channels == HSV_CHANNELS
        &&& self.bits_per_sample == HSV_BITS
        &&& self.samples@.len() == self.width * self.height * 3
    }

    /// The pixels of the frame, row by row.
    pub open spec fn pixels(&self) -> Seq<HsvPixel> {
        pixels_of(self.samples@)
    }

    /// Checks the layout of the frame, and gives the number of its pixels
    /// where the layout is the expected one.
    pub fn pixel_total(&self) -> (total: Option<usize>)
        ensures
            total is Some == self.has_hsv_layout(),
            total matches Some(n) ==> n == self.width * self.height && self.samples@.len() == 3
                * n && 3 * n <= usize::MAX,
    {
        if self.channels != HSV_CHANNELS || self.bits_per_sample != HSV_BITS {
            return None;
        }
        let length = self.samples.len();
        let area = self.width.checked_mul(self.height);
        match area {
            None => {
                assert(self.width * self.height * 3 > usize::MAX) by (nonlinear_arith)
                    requires
                        self.width * self.height > usize::MAX,
                ;
                None
            },
            Some(n) => {
                let expected = n.checked_mul(3);
                match expected {
                    None => None,
                    Some(expected_length) => if length == expected_length {
                        Some(n)
                    } else {
                        None
                    },
                }
            },
        }
    }
}

/// Counts the red pixels of a frame.
///
/// The count is the number of pixels of the frame that the colour rule
/// accepts, each pixel judged on its own. A frame that does not have the
/// three-channel, eight-bit layout is refused, never counted in part.
pub fn count_red_pixels(frame: &Frame) -> (outcome: Result<u64, ProcessError>)
    ensures
        match outcome {
            Ok(count) => frame.has_hsv_layout() && count == red_count(frame.pixels()),
            Err(e) => !frame.has_hsv_layout() && e == ProcessError::Conversion,
        },
{
    let total: usize = match frame.pixel_total() {
        Some(n) => n,
        None => {
            return Err(ProcessError::Conversion);
        },
    };
    let ghost pixels = frame.pixels();
    assert(pixels.len() == total);
    let mut count: u64 = 0;
    let mut i: usize = 0;
    while i < total
        invariant
            i <= total,
            frame.samples@.len() == 3 * total,
            3 * total <= usize::MAX,
            pixels == pixels_of(frame.samples@),
            pixels.len() == total,
            count == red_count(pixels.take(i as int)),
            count <= i,
        decreases total - i,
    {
        let pixel = HsvPixel {
            hue: frame.samples[3 * i],
            saturation: frame.samples[3 * i + 1],
            value: frame.samples[3 * i + 2],
        };
        proof {
            assert(pixel == pixels[i as int]);
            assert(pixels.take(i + 1) =~= pixels.take(i as int).push(pixel));
            pixels.take(i as int).lemma_filter_len_push(red_rule(), pixel);
        }
        if classify(pixel) {
            count += 1;
        }
        i += 1;
    }
    assert(pixels.take(total as int) =~= pixels);
    Ok(count)
}

} // verus!
