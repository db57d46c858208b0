//! Scaling of an image to the size of the output grid.
//!
//! The target size follows from the source size and the requested number of
//! output columns alone; the resampling itself is done by the `image` crate.

use crate::bitmap::{Bitmap, Grid};
use vstd::prelude::*;

verus! {

/// The pixels that `image::DynamicImage::resize_exact` with the triangle
/// filter makes of an 8-bit grayscale image of `width` by `height` pixels
/// when it is asked for `nwidth` by `nheight` pixels.
pub uninterp spec fn triangle_resized(
    pixels: Seq<u8>,
    width: nat,
    height: nat,
    nwidth: nat,
    nheight: nat,
) -> Seq<u8>;

/// The image resampled to `nwidth` by `nheight` pixels.
pub open spec fn resized(image: Grid, nwidth: nat, nheight: nat) -> Grid {
    Grid {
        width: nwidth,
        height: nheight,
        pixels: triangle_resized(image.pixels, image.width, image.height, nwidth, nheight),
    }
}

/// The greatest width or height, of source or target, that is resampled.
/// The resampler places every target pixel over the source in single
/// precision, and divides by the sum of the weights of the source pixels
/// that it finds there. Up to this size the rounding of a position stays
/// well below half a pixel, so that the nearest source pixel is always
/// found and the sum is not zero.
pub const RESAMPLE_LIMIT: usize = 1_048_576;

/// What can be resampled: an image that has pixels, with source and target
/// dimensions within the limit and buffers that can be allocated (the
/// resampler works on four 4-byte channels for each pixel).
pub open spec fn resizable(image: Grid, nwidth: nat, nheight: nat) -> bool {
    &&& 0 < image.width <= RESAMPLE_LIMIT
    &&& 0 < image.height <= RESAMPLE_LIMIT
    &&& nwidth <= RESAMPLE_LIMIT
    &&& nheight <= RESAMPLE_LIMIT
    &&& 16 * image.width * nheight <= isize::MAX
    &&& nwidth * nheight <= isize::MAX
}

/// Calls `image::DynamicImage::resize_exact` with `FilterType::Triangle` on
/// an 8-bit grayscale image and hands back the pixels of the result. The
/// contract claims that the call returns for an image that has pixels,
/// within the limit on the dimensions and on the size of the buffers; that
/// the result has exactly the dimensions asked for, one byte for each pixel;
/// and that its content depends on the arguments alone.
#[verifier::external_body]
fn resample(pixels: &Vec<u8>, width: u32, height: u32, nwidth: u32, nheight: u32) -> (out: Vec<u8>)
    requires
        pixels@.len() == width * height,
        0 < width <= RESAMPLE_LIMIT,
        0 < height <= RESAMPLE_LIMIT,
        nwidth <= RESAMPLE_LIMIT,
        nheight <= RESAMPLE_LIMIT,
        16 * width * nheight <= isize::MAX,
        nwidth * nheight <= isize::MAX,
    ensures
        out@ == triangle_resized(
            pixels@,
            width as nat,
            height as nat,
            nwidth as nat,
            nheight as nat,
        ),
        out@.len() == nwidth * nheight,
{
    let gray = image::GrayImage::from_raw(width, height, pixels.clone()).unwrap();
    let scaled = image::DynamicImage::ImageLuma8(gray).resize_exact(
        nwidth,
        nheight,
        image::imageops::FilterType::Triangle,
    );
    scaled.into_luma8().into_raw()
}

/// The image resampled to exactly `nwidth` by `nheight` pixels with an
/// area-averaging (triangle) filter, where it can be resampled.
pub fn resize_exact(image: &Bitmap, nwidth: usize, nheight: usize) -> (scaled: Option<Bitmap>)
    ensures
        scaled is Some <==> resizable(image@, nwidth as nat, nheight as nat),
        scaled matches Some(bitmap) ==> bitmap@ == resized(image@, nwidth as nat, nheight as nat),
{
    let width = image.width();
    let height = image.height();
    if width == 0 || height == 0 || width > RESAMPLE_LIMIT || height > RESAMPLE_LIMIT || nwidth
        > RESAMPLE_LIMIT || nheight > RESAMPLE_LIMIT {
        return None;
    }
    proof {
        assert(16 * width * nheight <= 16 * 1_048_576 * 1_048_576 && nwidth * nheight <= 1_048_576
            * 1_048_576) by (nonlinear_arith)
            requires
                width <= 1_048_576,
                nwidth <= 1_048_576,
                nheight <= 1_048_576,
        ;
    }
    let scratch: u128 = 16 * (width as u128) * (nheight as u128);
    let target: u128 = (nwidth as u128) * (nheight as u128);
    if scratch > isize::MAX as u128 || target > isize::MAX as u128 {
        return None;
    }
    let out = resample(
        image.pixels(),
        width as u32,
        height as u32,
        nwidth as u32,
        nheight as u32,
    );
    Bitmap::new(nwidth, nheight, out)
}

/// The height that keeps the proportions of a `width` by `height` image
/// scaled to `target` pixels wide, where an output pixel is `aspect` times
/// as tall as it is wide: `height / factor / aspect` for the scale factor
/// `width / target`, rounded down.
pub open spec fn proportional_height(width: nat, height: nat, target: nat, aspect: nat) -> nat {
    (height * target) / (width * aspect)
}

/// Computes `proportional_height`, where the image has a width, the aspect
/// is positive and the result can be addressed.
pub fn scaled_height(width: usize, height: usize, target: usize, aspect: u8) -> (scaled: Option<
    usize,
>)
    ensures
        scaled is Some <==> width > 0 && aspect > 0 && proportional_height(
            width as nat,
            height as nat,
            target as nat,
            aspect as nat,
        ) <= usize::MAX,
        scaled matches Some(h) ==> h == proportional_height(
            width as nat,
            height as nat,
            target as nat,
            aspect as nat,
        ),
{
    if width == 0 || aspect == 0 {
        return None;
    }
    proof {
        assert(height * target <= 0xFFFF_FFFF_FFFF_FFFF * 0xFFFF_FFFF_FFFF_FFFF && 0 < width
            * aspect <= 0xFFFF_FFFF_FFFF_FFFF * 255) by (nonlinear_arith)
            requires
                height <= 0xFFFF_FFFF_FFFF_FFFF,
                target <= 0xFFFF_FFFF_FFFF_FFFF,
                0 < width <= 0xFFFF_FFFF_FFFF_FFFF,
                0 < aspect <= 255,
        ;
    }
    let area: u128 = (height as u128) * (target as u128);
    let divisor: u128 = (width as u128) * (aspect as u128);
    let quotient: u128 = area / divisor;
    if quotient > usize::MAX as u128 {
        None
    } else {
        Some(quotient as usize)
    }
}

} // verus!
