//! The calls into the `image` crate: PNG in both directions, resampling,
//! luminance and sharpening.
//!
//! Pixels cross this border as plain RGB bytes with a width and a height.

use vstd::prelude::*;

#[allow(unused_imports)]
use crate::capture::frame::{byte_place, byte_size};

verus! {

/// The error type of the `image` crate.
#[verifier::external_type_specification]
#[verifier::external_body]
pub struct ExImageError(image::ImageError);

/// The longest side, in pixels, for which resampling is called: well inside
/// the whole numbers that the resampler's single-precision positions tell
/// apart.
pub const MAX_SIDE: u32 = 0x10_0000;

/// Whether an image of one size may be resampled to another: every side within
/// [`MAX_SIDE`], and the resampler's buffers (four single-precision channels
/// for the intermediate image) within what one allocation can hold.
pub open spec fn resample_fits(w: int, h: int, nw: int, nh: int) -> bool {
    &&& 0 < nw <= MAX_SIDE
    &&& 0 < nh <= MAX_SIDE
    &&& 0 <= w <= MAX_SIDE
    &&& 0 <= h <= MAX_SIDE
    &&& w * nh * 16 <= isize::MAX
    &&& byte_size(nw, nh) <= isize::MAX
}

/// The PNG file that the encoder writes for some RGB pixels, or `None` where it
/// refuses.
pub uninterp spec fn png_file(rgb: Seq<u8>, w: u32, h: u32) -> Option<Seq<u8>>;

/// The RGB pixels after resampling with a triangle (bilinear) filter.
pub uninterp spec fn triangle_resized(rgb: Seq<u8>, w: u32, h: u32, nw: u32, nh: u32) -> Seq<u8>;

/// Whether `out` is what resampling some RGB pixels with a Lanczos filter of
/// radius three gives. More than one image may be: the filter takes sines,
/// whose last digits differ between machines.
pub uninterp spec fn lanczos_resized(
    rgb: Seq<u8>,
    w: int,
    h: int,
    nw: int,
    nh: int,
    out: Seq<u8>,
) -> bool;

/// Whether `out` is what sharpening some RGB pixels gives, against a copy that
/// is blurred with a deviation of `sigma`. More than one image may be: the blur
/// takes exponentials and, where the machine has it, fused arithmetic.
pub uninterp spec fn unsharpened(
    rgb: Seq<u8>,
    w: int,
    h: int,
    sigma: int,
    threshold: int,
    out: Seq<u8>,
) -> bool;

/// The width, height and RGB pixels that an image file decodes to, or `None`
/// where it does not decode.
pub uninterp spec fn decoded_image(file: Seq<u8>) -> Option<(u32, u32, Seq<u8>)>;

/// Calls `PngEncoder::write_image` with the encoder's default settings. The
/// encoder writes to memory, so the file, or the refusal, follows from the
/// pixels and the size alone. It panics on a buffer of another size.
#[verifier::external_body]
pub(crate) fn write_png(rgb: &Vec<u8>, w: u32, h: u32) -> (r: Result<Vec<u8>, image::ImageError>)
    requires
        rgb@.len() == byte_size(w as int, h as int),
    ensures
        match r {
            Ok(png) => png_file(rgb@, w, h) == Some(png@),
            Err(_) => png_file(rgb@, w, h) is None,
        },
{
    let mut png: Vec<u8> = Vec::new();
    let encoder = image::codecs::png::PngEncoder::new(&mut png);
    match image::ImageEncoder::write_image(encoder, rgb, w, h, image::ExtendedColorType::Rgb8) {
        Ok(()) => Ok(png),
        Err(e) => Err(e),
    }
}

/// Calls `image::imageops::resize` with `FilterType::Triangle`: an image of the
/// size asked for. The filter is made of additions, multiplications and
/// divisions alone, so the pixels follow from the arguments; the name stands
/// for them. An image that already has the size comes back as it is.
#[verifier::external_body]
pub(crate) fn resize_triangle(rgb: &Vec<u8>, w: u32, h: u32, nw: u32, nh: u32) -> (r: Vec<u8>)
    requires
        byte_size(w as int, h as int) <= rgb@.len(),
        resample_fits(w as int, h as int, nw as int, nh as int),
    ensures
        r@ == triangle_resized(rgb@, w, h, nw, nh),
        r@.len() == byte_size(nw as int, nh as int),
        nw == w && nh == h ==> r@ == rgb@.take(byte_size(w as int, h as int)),
{
    let img = image::ImageBuffer::<image::Rgb<u8>, &[u8]>::from_raw(w, h, rgb.as_slice()).unwrap();
    image::imageops::resize(&img, nw, nh, image::imageops::FilterType::Triangle).into_raw()
}

/// Calls `image::imageops::resize` with `FilterType::Lanczos3`: an image of the
/// size asked for, and the image itself where that is its size. The filter
/// takes sines, whose last digits differ between machines, so the pixels are
/// not said to follow from the arguments: [`lanczos_resized`] says only that
/// they came out of this call on them.
#[verifier::external_body]
pub(crate) fn resize_lanczos(rgb: &Vec<u8>, w: u32, h: u32, nw: u32, nh: u32) -> (r: Vec<u8>)
    requires
        byte_size(w as int, h as int) <= rgb@.len(),
        resample_fits(w as int, h as int, nw as int, nh as int),
    ensures
        lanczos_resized(rgb@, w as int, h as int, nw as int, nh as int, r@),
        r@.len() == byte_size(nw as int, nh as int),
        nw == w && nh == h ==> r@ == rgb@.take(byte_size(w as int, h as int)),
{
    let img = image::ImageBuffer::<image::Rgb<u8>, &[u8]>::from_raw(w, h, rgb.as_slice()).unwrap();
    image::imageops::resize(&img, nw, nh, image::imageops::FilterType::Lanczos3).into_raw()
}

/// The luminance of a colour: the weights of the sRGB primaries in ten
/// thousandths, rounded down.
pub open spec fn luma(r: u8, g: u8, b: u8) -> u8 {
    ((2126 * r + 7152 * g + 722 * b) / 10000) as u8
}

/// The luminance of each pixel, row by row.
pub open spec fn luma_of(rgb: Seq<u8>, w: int, h: int) -> Seq<u8> {
    Seq::new((w * h) as nat, |p: int| luma(rgb[3 * p], rgb[3 * p + 1], rgb[3 * p + 2]))
}

/// Calls `image::imageops::grayscale`: one byte for each pixel, its luminance
/// in integer arithmetic. It panics on an image without width whose height is
/// over one, so no image with an empty side is handed to it.
#[verifier::external_body]
pub(crate) fn grayscale(rgb: &Vec<u8>, w: u32, h: u32) -> (r: Vec<u8>)
    requires
        byte_size(w as int, h as int) <= rgb@.len(),
        w > 0,
        h > 0,
    ensures
        r@ == luma_of(rgb@, w as int, h as int),
{
    let img = image::ImageBuffer::<image::Rgb<u8>, &[u8]>::from_raw(w, h, rgb.as_slice()).unwrap();
    image::imageops::grayscale(&img).into_raw()
}

/// What sharpening makes of a channel value where the blurred image has `soft`:
/// moved away from the blurred value by their distance, where that distance is
/// over the threshold.
pub open spec fn sharpened(value: u8, soft: u8, threshold: int) -> u8 {
    let d = value - soft;
    if d > threshold || -d > threshold {
        if value + d < 0 {
            0u8
        } else if value + d > 255 {
            255u8
        } else {
            (value + d) as u8
        }
    } else {
        value
    }
}

/// Whether sharpening can turn one channel value into another.
pub open spec fn may_sharpen(value: u8, out: u8, threshold: int) -> bool {
    exists|soft: u8| #[trigger] sharpened(value, soft, threshold) == out
}

/// Calls `image::imageops::unsharpen` with a deviation of `sigma`: each channel
/// value moves away from that of a blurred copy. The blur takes exponentials
/// and, where the machine has it, fused arithmetic, so what the blurred copy
/// holds is left open; what is done with it is not. [`unsharpened`] says that
/// the pixels came out of this call on the arguments.
#[verifier::external_body]
pub(crate) fn unsharpen(rgb: &Vec<u8>, w: u32, h: u32, sigma: u8, threshold: i32) -> (r: Vec<u8>)
    requires
        byte_size(w as int, h as int) <= rgb@.len(),
        w > 0,
        h > 0,
        byte_size(w as int, h as int) * 4 <= isize::MAX,
        sigma > 0,
        threshold >= 0,
    ensures
        unsharpened(rgb@, w as int, h as int, sigma as int, threshold as int, r@),
        r@.len() == byte_size(w as int, h as int),
        forall|i: int|
            0 <= i < r@.len() ==> may_sharpen(rgb@[i], #[trigger] r@[i], threshold as int),
{
    let img = image::ImageBuffer::<image::Rgb<u8>, &[u8]>::from_raw(w, h, rgb.as_slice()).unwrap();
    image::imageops::unsharpen(&img, sigma.into(), threshold).into_raw()
}

/// Calls `image::load_from_memory` and converts to 8-bit RGB: the format is
/// told from the bytes, so the image, or the refusal, follows from them alone.
/// The pixels fill the size exactly.
#[verifier::external_body]
pub(crate) fn decode_image(file: &[u8]) -> (r: Result<(u32, u32, Vec<u8>), image::ImageError>)
    ensures
        match r {
            Ok((w, h, rgb)) => {
                &&& decoded_image(file@) == Some((w, h, rgb@))
                &&& rgb@.len() == byte_size(w as int, h as int)
            },
            Err(_) => decoded_image(file@) is None,
        },
{
    match image::load_from_memory(file) {
        Ok(img) => {
            let rgb = img.to_rgb8();
            Ok((rgb.width(), rgb.height(), rgb.into_raw()))
        },
        Err(e) => Err(e),
    }
}

/// The luminance of a colour is the greatest whole number that is no more than
/// the weighted sum of its channels; red has 2126 ten thousandths of the
/// weight, green 7152 and blue 722. A gray keeps its level.
pub proof fn law_luminance_weighs_the_channels(r: u8, g: u8, b: u8)
    ensures
        10000 * luma(r, g, b) <= 2126 * r + 7152 * g + 722 * b < 10000 * (luma(r, g, b) + 1),
        r == g && g == b ==> luma(r, g, b) == r,
{
}

/// Each pixel has one luminance, that of its own three bytes, in order.
pub proof fn law_each_pixel_has_its_luminance(rgb: Seq<u8>, w: int, h: int, p: int)
    requires
        0 <= p < w * h,
    ensures
        luma_of(rgb, w, h).len() == w * h,
        luma_of(rgb, w, h)[p] == luma(rgb[3 * p], rgb[3 * p + 1], rgb[3 * p + 2]),
{
}

/// Sharpening leaves a value as it is, or moves it by more than the threshold,
/// but not beyond black or white.
pub proof fn law_sharpening_moves_by_more_than_the_threshold(value: u8, out: u8, threshold: int)
    requires
        threshold >= 0,
    ensures
        may_sharpen(value, out, threshold) ==> {
            ||| out == value
            ||| out - value > threshold
            ||| value - out > threshold
            ||| out == 0
            ||| out == 255
        },
        may_sharpen(value, value, threshold),
{
    assert(sharpened(value, value, threshold) == value);
}

} // verus!
