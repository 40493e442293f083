//! Turning frames into PNG files, shrunk for a reader or magnified for a
//! recogniser.

use vstd::prelude::*;
use vstd::string::*;

use crate::capture::codec::{resize_triangle, write_png};
#[allow(unused_imports)]
use crate::capture::codec::{png_file, resample_fits, triangle_resized};
use crate::capture::diff::Share;
#[allow(unused_imports)]
use crate::capture::frame::byte_size;
use crate::capture::frame::Frame;
use crate::strings::{chars_of, same, write_decimal};
#[allow(unused_imports)]
use crate::strings::{begins_with, decimal};

verus! {

/// Why a frame was not encoded, or an image file not decoded.
#[derive(Debug)]
pub enum EncodeError {
    /// The buffer is too small for the frame's size.
    SizeMismatch { w: u32, h: u32 },
    /// The `image` crate refused.
    Image(image::ImageError),
}

/// What is said of a buffer that is too small.
pub open spec fn size_mismatch_message(w: u32, h: u32) -> Seq<char> {
    "frame buffer size does not match "@ + decimal(w as nat) + "x"@ + decimal(h as nat)
}

impl EncodeError {
    /// What the library says of the failure; `None` where the outside error
    /// speaks for itself.
    pub fn message(&self) -> (r: Option<String>)
        ensures
            match *self {
                EncodeError::SizeMismatch { w, h } => r is Some && r->0@ == size_mismatch_message(
                    w,
                    h,
                ),
                EncodeError::Image(_) => r is None,
            },
    {
        match self {
            EncodeError::SizeMismatch { w, h } => {
                let mut out = String::new();
                out.append("frame buffer size does not match ");
                out.append(write_decimal(*w as u64).as_str());
                out.append("x");
                out.append(write_decimal(*h as u64).as_str());
                assert(out@ =~= size_mismatch_message(*w, *h));
                Some(out)
            },
            EncodeError::Image(_) => None,
        }
    }
}

/// Copies some bytes.
pub(crate) fn copy_bytes(v: &Vec<u8>) -> (r: Vec<u8>)
    ensures
        r@ == v@,
{
    let r = v.clone();
    assert(r@ =~= v@);
    r
}

/// Whether a buffer of `len` bytes is too small for the size.
pub(crate) fn too_small(len: usize, w: u32, h: u32) -> (r: bool)
    ensures
        r == (byte_size(w as int, h as int) > len),
{
    assert(w * h <= 0xffff_ffff * 0xffff_ffff) by (nonlinear_arith)
        requires
            0 <= w <= 0xffff_ffff,
            0 <= h <= 0xffff_ffff,
    ;
    (w as u128) * (h as u128) * 3 > len as u128
}

/// Whether a width limit shrinks an image. Zero is no limit.
pub open spec fn shrinks(w: u32, max_width: u32) -> bool {
    max_width > 0 && w > max_width
}

/// The size of the image that is sent.
pub open spec fn sent_size(f: Frame, max_width: u32, scaled_height: u32) -> (u32, u32) {
    if shrinks(f.w, max_width) {
        (max_width, scaled_height)
    } else {
        (f.w, f.h)
    }
}

/// The pixels of the image that is sent.
pub open spec fn sent_pixels(f: Frame, max_width: u32, scaled_height: u32) -> Seq<u8> {
    if shrinks(f.w, max_width) {
        triangle_resized(f.rgb@, f.w, f.h, max_width, scaled_height)
    } else {
        f.rgb@
    }
}

/// The scale at which the image is sent.
pub open spec fn sent_scale(f: Frame, max_width: u32) -> Share {
    if shrinks(f.w, max_width) {
        Share { part: max_width as u64, whole: f.w as u64 }
    } else {
        Share { part: 1, whole: 1 }
    }
}

/// What [`encode_png`] needs of its arguments: a height for the shrunk image
/// that the resampler can take, or, where nothing is resampled, a buffer
/// without anything after the pixels.
pub open spec fn encodable(f: Frame, max_width: u32, scaled_height: u32) -> bool {
    byte_size(f.w as int, f.h as int) <= f.rgb@.len() ==> if shrinks(f.w, max_width) {
        resample_fits(f.w as int, f.h as int, max_width as int, scaled_height as int)
    } else {
        f.exact()
    }
}

/// The PNG of a frame, its size and the scale applied. A frame wider than
/// `max_width` is shrunk to that width and to `scaled_height`, the height that
/// keeps its proportions; a limit of zero shrinks nothing.
pub fn encode_png(f: &Frame, max_width: u32, scaled_height: u32) -> (r: Result<
    (Vec<u8>, u32, u32, Share),
    EncodeError,
>)
    requires
        encodable(*f, max_width, scaled_height),
    ensures
        match r {
            Ok((png, w, h, scale)) => {
                &&& f.holds_pixels()
                &&& (w, h) == sent_size(*f, max_width, scaled_height)
                &&& png_file(sent_pixels(*f, max_width, scaled_height), w, h) == Some(png@)
                &&& scale == sent_scale(*f, max_width)
            },
            Err(EncodeError::SizeMismatch { w, h }) => {
                &&& !f.holds_pixels()
                &&& (w, h) == (f.w, f.h)
            },
            Err(EncodeError::Image(_)) => {
                &&& f.holds_pixels()
                &&& png_file(
                    sent_pixels(*f, max_width, scaled_height),
                    sent_size(*f, max_width, scaled_height).0,
                    sent_size(*f, max_width, scaled_height).1,
                ) is None
            },
        },
{
    if too_small(f.rgb.len(), f.w, f.h) {
        return Err(EncodeError::SizeMismatch { w: f.w, h: f.h });
    }
    if max_width > 0 && f.w > max_width {
        let pixels = resize_triangle(&f.rgb, f.w, f.h, max_width, scaled_height);
        let scale = Share { part: max_width as u64, whole: f.w as u64 };
        match write_png(&pixels, max_width, scaled_height) {
            Ok(png) => Ok((png, max_width, scaled_height, scale)),
            Err(e) => Err(EncodeError::Image(e)),
        }
    } else {
        match write_png(&f.rgb, f.w, f.h) {
            Ok(png) => Ok((png, f.w, f.h, Share { part: 1, whole: 1 })),
            Err(e) => Err(EncodeError::Image(e)),
        }
    }
}

/// What to do to the pixels before handing them to a recogniser.
///
/// A modern recogniser is trained on natural, anti-aliased imagery, and
/// thresholding discards exactly the grey levels it reads; so the default is
/// to do nothing.
#[derive(Debug, Clone, Copy, PartialEq, Eq, Structural)]
pub enum Prep {
    /// The pixels as they are.
    Plain,
    /// Luminance only. Removes subpixel-antialiasing colour fringes.
    Gray,
    /// Grayscale, then rescale so the darkest pixel is 0 and the lightest 255.
    Contrast,
    /// Grayscale, then a global Otsu threshold to pure black and white.
    Otsu,
    /// Unsharp mask. Sharpens glyph edges without discarding grey levels.
    Sharpen,
}

/// The name of a preparation.
pub open spec fn prep_name(p: Prep) -> Seq<char> {
    match p {
        Prep::Plain => "none"@,
        Prep::Gray => "gray"@,
        Prep::Contrast => "contrast"@,
        Prep::Otsu => "otsu"@,
        Prep::Sharpen => "sharpen"@,
    }
}

/// The preparation of a name.
pub open spec fn prep_named(s: Seq<char>) -> Option<Prep> {
    if s == "none"@ {
        Some(Prep::Plain)
    } else if s == "gray"@ {
        Some(Prep::Gray)
    } else if s == "contrast"@ {
        Some(Prep::Contrast)
    } else if s == "otsu"@ {
        Some(Prep::Otsu)
    } else if s == "sharpen"@ {
        Some(Prep::Sharpen)
    } else {
        None
    }
}

/// What is said of a name that no preparation has.
pub open spec fn unknown_prep_message(s: Seq<char>) -> Seq<char> {
    "unknown preprocess '"@ + s + "' (none|gray|contrast|otsu|sharpen)"@
}

impl Prep {
    /// Finds a preparation by name.
    pub fn from_name(s: &str) -> (r: Result<Prep, String>)
        ensures
            match r {
                Ok(p) => prep_named(s@) == Some(p),
                Err(e) => prep_named(s@) is None && e@ == unknown_prep_message(s@),
            },
    {
        let v = chars_of(s);
        if same(&v, "none") {
            Ok(Prep::Plain)
        } else if same(&v, "gray") {
            Ok(Prep::Gray)
        } else if same(&v, "contrast") {
            Ok(Prep::Contrast)
        } else if same(&v, "otsu") {
            Ok(Prep::Otsu)
        } else if same(&v, "sharpen") {
            Ok(Prep::Sharpen)
        } else {
            let mut out = String::new();
            out.append("unknown preprocess '");
            out.append(s);
            out.append("' (none|gray|contrast|otsu|sharpen)");
            assert(out@ =~= unknown_prep_message(s@));
            Err(out)
        }
    }

    /// The name of a preparation.
    pub fn name(self) -> (r: &'static str)
        ensures
            r@ == prep_name(self),
    {
        match self {
            Prep::Plain => "none",
            Prep::Gray => "gray",
            Prep::Contrast => "contrast",
            Prep::Otsu => "otsu",
            Prep::Sharpen => "sharpen",
        }
    }
}

impl core::str::FromStr for Prep {
    type Err = String;

    /// Finds a preparation by name.
    fn from_str(s: &str) -> (r: Result<Prep, String>)
        ensures
            match r {
                Ok(p) => prep_named(s@) == Some(p),
                Err(e) => prep_named(s@) is None && e@ == unknown_prep_message(s@),
            },
    {
        Prep::from_name(s)
    }
}

/// A preparation is found under its name, and under no other.
pub proof fn law_prep_names(p: Prep, s: Seq<char>)
    ensures
        prep_named(prep_name(p)) == Some(p),
        prep_named(s) == Some(p) ==> s == prep_name(p),
{
    reveal_strlit("none");
    reveal_strlit("gray");
    reveal_strlit("contrast");
    reveal_strlit("otsu");
    reveal_strlit("sharpen");
    assert("none"@[0] == 'n' && "gray"@[0] == 'g' && "contrast"@[0] == 'c');
    assert("otsu"@[0] == 'o' && "sharpen"@[0] == 's');
}

/// An image is shrunk exactly where there is a limit and it is wider: then it
/// has the width of the limit, and the scale is what its old width has to be
/// multiplied by to give the new one. Otherwise it is sent as it is.
pub proof fn law_only_wide_images_are_shrunk(f: Frame, max_width: u32, scaled_height: u32)
    ensures
        max_width == 0 || f.w <= max_width ==> {
            &&& sent_size(f, max_width, scaled_height) == (f.w, f.h)
            &&& sent_pixels(f, max_width, scaled_height) == f.rgb@
            &&& sent_scale(f, max_width).part == 1 && sent_scale(f, max_width).whole == 1
        },
        0 < max_width < f.w ==> {
            &&& sent_size(f, max_width, scaled_height) == (max_width, scaled_height)
            &&& sent_pixels(f, max_width, scaled_height) == triangle_resized(
                f.rgb@,
                f.w,
                f.h,
                max_width,
                scaled_height,
            )
        },
        sent_size(f, max_width, scaled_height).0 * sent_scale(f, max_width).whole == f.w
            * sent_scale(f, max_width).part,
        f.w > 0 ==> 0 < sent_scale(f, max_width).part <= sent_scale(f, max_width).whole,
{
    let scale = sent_scale(f, max_width);
    assert(max_width * f.w == f.w * max_width) by (nonlinear_arith);
}

/// The preparations by name, one name each.
pub proof fn law_preparations_by_name(s: Seq<char>)
    ensures
        prep_named(s) == Some(Prep::Plain) <==> s == "none"@,
        prep_named(s) == Some(Prep::Gray) <==> s == "gray"@,
        prep_named(s) == Some(Prep::Contrast) <==> s == "contrast"@,
        prep_named(s) == Some(Prep::Otsu) <==> s == "otsu"@,
        prep_named(s) == Some(Prep::Sharpen) <==> s == "sharpen"@,
{
    law_prep_names(Prep::Plain, s);
    law_prep_names(Prep::Gray, s);
    law_prep_names(Prep::Contrast, s);
    law_prep_names(Prep::Otsu, s);
    law_prep_names(Prep::Sharpen, s);
}

/// What is said of a buffer that is too small tells the width and the height,
/// and of a name that no preparation has, the name.
pub proof fn law_refusal_gives_back_what_was_given(w: u32, h: u32, s: Seq<char>)
    ensures
        begins_with(
            size_mismatch_message(w, h),
            "frame buffer size does not match "@ + decimal(w as nat) + "x"@ + decimal(h as nat),
        ),
        begins_with(unknown_prep_message(s), "unknown preprocess '"@ + s + "'"@),
{
    reveal_strlit("'");
    reveal_strlit("' (none|gray|contrast|otsu|sharpen)");
    let a = size_mismatch_message(w, h);
    assert(a.take(a.len() as int) =~= a);
    let head = "unknown preprocess '"@ + s + "'"@;
    assert(unknown_prep_message(s).take(head.len() as int) =~= head);
}

} // verus!
