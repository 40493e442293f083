//! Preparing pixels for a recogniser.

use vstd::prelude::*;

use crate::capture::codec::{decode_image, grayscale, resize_lanczos, unsharpen, write_png};
#[allow(unused_imports)]
use crate::capture::codec::{
    decoded_image, lanczos_resized, luma, luma_of, may_sharpen, png_file, resample_fits, unsharpened,
};
use crate::capture::diff::Share;
use crate::capture::encode::{copy_bytes, too_small, EncodeError, Prep};
#[allow(unused_imports)]
use crate::capture::frame::byte_size;
use crate::capture::frame::Frame;

verus! {

/// The deviation of the blur that sharpening works against.
pub const SHARPEN_SIGMA: u8 = 1;

/// The distance up to which sharpening leaves a value alone.
pub const SHARPEN_THRESHOLD: i32 = 4;

/// The least of some values, 255 where there are none.
pub open spec fn lowest(g: Seq<u8>) -> u8
    decreases g.len(),
{
    if g.len() == 0 {
        255
    } else if g.last() < lowest(g.drop_last()) {
        g.last()
    } else {
        lowest(g.drop_last())
    }
}

/// The greatest of some values, 0 where there are none.
pub open spec fn highest(g: Seq<u8>) -> u8
    decreases g.len(),
{
    if g.len() == 0 {
        0
    } else if g.last() > highest(g.drop_last()) {
        g.last()
    } else {
        highest(g.drop_last())
    }
}

/// A value on a scale on which `lo` is 0 and `hi` is 255, rounded down.
pub open spec fn stretched(v: u8, lo: u8, hi: u8) -> u8 {
    let span = if hi > lo {
        hi - lo
    } else {
        1
    };
    let above = if v > lo {
        v - lo
    } else {
        0
    };
    (above * 255 / span) as u8
}

/// Black up to the threshold and white above it.
pub open spec fn thresholded(v: u8, threshold: u8) -> u8 {
    if v > threshold {
        255
    } else {
        0
    }
}

/// Gray values as RGB pixels.
pub open spec fn tripled(g: Seq<u8>) -> Seq<u8> {
    Seq::new(g.len() * 3, |i: int| g[i / 3])
}

/// How many values equal `v`.
pub open spec fn occurrences(g: Seq<u8>, v: u8) -> int
    decreases g.len(),
{
    if g.len() == 0 {
        0
    } else {
        occurrences(g.drop_last(), v) + if g.last() == v {
            1int
        } else {
            0int
        }
    }
}

/// What a preparation makes of some pixels.
pub open spec fn is_prepared(
    rgb: Seq<u8>,
    w: int,
    h: int,
    prep: Prep,
    threshold: u8,
    out: Seq<u8>,
) -> bool {
    let g = luma_of(rgb, w, h);
    match prep {
        Prep::Plain => out == rgb,
        Prep::Gray => out == tripled(g),
        Prep::Contrast => out == tripled(
            g.map_values(|v: u8| stretched(v, lowest(g), highest(g))),
        ),
        Prep::Otsu => out == tripled(g.map_values(|v: u8| thresholded(v, threshold))),
        Prep::Sharpen => {
            &&& unsharpened(rgb, w, h, SHARPEN_SIGMA as int, SHARPEN_THRESHOLD as int, out)
            &&& out.len() == byte_size(w, h)
            &&& forall|i: int|
                0 <= i < out.len() ==> may_sharpen(
                    rgb[i],
                    #[trigger] out[i],
                    SHARPEN_THRESHOLD as int,
                )
        },
    }
}

/// The luminance of each pixel; none where a side is empty.
fn gray_of(rgb: &Vec<u8>, w: u32, h: u32) -> (r: Vec<u8>)
    requires
        byte_size(w as int, h as int) <= rgb@.len(),
    ensures
        r@ == luma_of(rgb@, w as int, h as int),
{
    if w == 0 || h == 0 {
        let none: Vec<u8> = Vec::new();
        assert(w * h == 0) by (nonlinear_arith)
            requires
                w == 0 || h == 0,
        ;
        assert(none@ =~= luma_of(rgb@, w as int, h as int));
        none
    } else {
        grayscale(rgb, w, h)
    }
}

fn triple(g: &Vec<u8>) -> (r: Vec<u8>)
    requires
        g@.len() * 3 <= usize::MAX,
    ensures
        r@ == tripled(g@),
{
    let mut out: Vec<u8> = Vec::new();
    for i in 0..g.len()
        invariant
            out@ == tripled(g@.take(i as int)),
    {
        out.push(g[i]);
        out.push(g[i]);
        out.push(g[i]);
        assert(out@ =~= tripled(g@.take(i + 1)));
    }
    assert(g@.take(g@.len() as int) =~= g@);
    out
}

fn extremes(g: &Vec<u8>) -> (r: (u8, u8))
    ensures
        r == (lowest(g@), highest(g@)),
{
    let mut lo: u8 = 255;
    let mut hi: u8 = 0;
    for i in 0..g.len()
        invariant
            lo == lowest(g@.take(i as int)),
            hi == highest(g@.take(i as int)),
    {
        assert(g@.take(i + 1).drop_last() =~= g@.take(i as int));
        if g[i] < lo {
            lo = g[i];
        }
        if g[i] > hi {
            hi = g[i];
        }
    }
    assert(g@.take(g@.len() as int) =~= g@);
    (lo, hi)
}

/// Rescales a gray value.
pub fn stretch(v: u8, lo: u8, hi: u8) -> (r: u8)
    requires
        lo <= v <= hi,
    ensures
        r == stretched(v, lo, hi),
        lo < hi && v == lo ==> r == 0,
        lo < hi && v == hi ==> r == 255,
{
    let span: u32 = if hi > lo {
        (hi - lo) as u32
    } else {
        1
    };
    let above: u32 = (v - lo) as u32;
    assert(above * 255 / (span as int) <= 255) by (nonlinear_arith)
        requires
            above <= span,
            span > 0,
    ;
    assert(span * 255 / (span as int) == 255) by (nonlinear_arith)
        requires
            span > 0,
    ;
    assert(0int / (span as int) == 0) by (nonlinear_arith)
        requires
            span > 0,
    ;
    (above * 255 / span) as u8
}

proof fn lemma_between_extremes(g: Seq<u8>, i: int)
    requires
        0 <= i < g.len(),
    ensures
        lowest(g) <= g[i] <= highest(g),
    decreases g.len(),
{
    if i < g.len() - 1 {
        lemma_between_extremes(g.drop_last(), i);
    }
}

/// Prepares the pixels. `threshold` is the level of [`Prep::Otsu`], chosen from
/// [`gray_histogram`].
pub fn preprocess(rgb: &Vec<u8>, w: u32, h: u32, prep: Prep, threshold: u8) -> (r: Vec<u8>)
    requires
        byte_size(w as int, h as int) <= rgb@.len(),
        prep is Sharpen ==> w > 0 && h > 0 && byte_size(w as int, h as int) * 4 <= isize::MAX,
    ensures
        is_prepared(rgb@, w as int, h as int, prep, threshold, r@),
{
    let size: usize = rgb.len();
    match prep {
        Prep::Plain => copy_bytes(rgb),
        Prep::Gray => {
            let g = gray_of(rgb, w, h);
            triple(&g)
        },
        Prep::Contrast => {
            let g = gray_of(rgb, w, h);
            let (lo, hi) = extremes(&g);
            let ghost f = |v: u8| stretched(v, lowest(g@), highest(g@));
            let mut out: Vec<u8> = Vec::new();
            for i in 0..g.len()
                invariant
                    (lo, hi) == (lowest(g@), highest(g@)),
                    f == (|v: u8| stretched(v, lowest(g@), highest(g@))),
                    out@ == g@.take(i as int).map_values(f),
            {
                proof {
                    lemma_between_extremes(g@, i as int);
                }
                out.push(stretch(g[i], lo, hi));
                assert(out@ =~= g@.take(i + 1).map_values(f));
            }
            assert(g@.take(g@.len() as int) =~= g@);
            triple(&out)
        },
        Prep::Otsu => {
            let g = gray_of(rgb, w, h);
            let ghost f = |v: u8| thresholded(v, threshold);
            let mut out: Vec<u8> = Vec::new();
            for i in 0..g.len()
                invariant
                    f == (|v: u8| thresholded(v, threshold)),
                    out@ == g@.take(i as int).map_values(f),
            {
                out.push(
                    if g[i] > threshold {
                        255
                    } else {
                        0
                    },
                );
                assert(out@ =~= g@.take(i + 1).map_values(f));
            }
            assert(g@.take(g@.len() as int) =~= g@);
            triple(&out)
        },
        Prep::Sharpen => unsharpen(rgb, w, h, SHARPEN_SIGMA, SHARPEN_THRESHOLD),
    }
}

/// How often each luminance occurs in a frame: the counts from which a
/// threshold is chosen.
pub fn gray_histogram(f: &Frame) -> (r: Result<Vec<u32>, EncodeError>)
    requires
        f.w * f.h <= u32::MAX,
    ensures
        match r {
            Ok(hist) => {
                &&& f.holds_pixels()
                &&& hist@.len() == 256
                &&& forall|v: u8|
                    #![trigger hist@[v as int]]
                    hist@[v as int] == occurrences(luma_of(f.rgb@, f.w as int, f.h as int), v)
            },
            Err(EncodeError::SizeMismatch { w, h }) => !f.holds_pixels() && (w, h) == (f.w, f.h),
            Err(EncodeError::Image(_)) => false,
        },
{
    if too_small(f.rgb.len(), f.w, f.h) {
        return Err(EncodeError::SizeMismatch { w: f.w, h: f.h });
    }
    let g = gray_of(&f.rgb, f.w, f.h);
    proof {
        assert(0 <= f.w * f.h) by (nonlinear_arith)
            requires
                0 <= f.w,
                0 <= f.h,
        ;
    }
    let mut hist: Vec<u32> = vec![0u32; 256];
    for i in 0..g.len()
        invariant
            g@.len() <= u32::MAX,
            hist@.len() == 256,
            forall|v: u8|
                #![trigger hist@[v as int]]
                hist@[v as int] == occurrences(g@.take(i as int), v),
    {
        let level: usize = g[i] as usize;
        proof {
            assert(g@.take(i + 1).drop_last() =~= g@.take(i as int));
            lemma_occurrences_bound(g@.take(i as int), g@[i as int]);
            assert(hist@[g@[i as int] as int] <= i);
        }
        let n: u32 = hist[level];
        hist.set(level, n + 1);
    }
    assert(g@.take(g@.len() as int) =~= g@);
    Ok(hist)
}

proof fn lemma_occurrences_bound(g: Seq<u8>, v: u8)
    ensures
        0 <= occurrences(g, v) <= g.len(),
    decreases g.len(),
{
    if g.len() > 0 {
        lemma_occurrences_bound(g.drop_last(), v);
    }
}

/// The size of the magnified image; without a target, that of the frame.
pub open spec fn magnified_size(f: Frame, target: Option<(u32, u32)>) -> (u32, u32) {
    match target {
        Some(size) => size,
        None => (f.w, f.h),
    }
}

/// The scale by which a recogniser's coordinates are divided: the ratio of the
/// widths, and one where nothing was resized.
pub open spec fn magnified_scale(f: Frame, target: Option<(u32, u32)>) -> Share {
    match target {
        Some((w, _)) => Share { part: w as u64, whole: f.w as u64 },
        None => Share { part: 1, whole: 1 },
    }
}

/// What [`encode_png_scaled`] needs of its arguments.
pub open spec fn magnifiable(f: Frame, target: Option<(u32, u32)>, prep: Prep) -> bool {
    f.holds_pixels() ==> {
        &&& prep is Sharpen ==> f.w > 0 && f.h > 0 && byte_size(f.w as int, f.h as int) * 4
            <= isize::MAX
        &&& match target {
            Some((w, h)) => resample_fits(f.w as int, f.h as int, w as int, h as int),
            None => prep is Plain ==> f.exact(),
        }
    }
}

/// Whether `png` is the file of the prepared pixels where nothing is magnified,
/// and that of the prepared pixels resampled to the target's size otherwise.
pub open spec fn is_magnified_png(
    f: Frame,
    target: Option<(u32, u32)>,
    prep: Prep,
    threshold: u8,
    png: Option<Seq<u8>>,
) -> bool {
    let (w, h) = magnified_size(f, target);
    exists|ready: Seq<u8>, sent: Seq<u8>|
        {
            &&& #[trigger] is_prepared(f.rgb@, f.w as int, f.h as int, prep, threshold, ready)
            &&& sent.len() == byte_size(w as int, h as int)
            &&& target is Some ==> lanczos_resized(
                ready,
                f.w as int,
                f.h as int,
                w as int,
                h as int,
                sent,
            )
            &&& (target is None || (w, h) == (f.w, f.h)) ==> sent == ready.take(
                byte_size(f.w as int, f.h as int),
            )
            &&& png == #[trigger] png_file(sent, w, h)
        }
}

/// The PNG of an image that was resized from one `from_width` pixels wide, and
/// the scale that was applied: the real ratio, because a size in whole pixels
/// is not exactly the size asked for.
pub fn encode_resized(rgb: &Vec<u8>, w: u32, h: u32, from_width: u32) -> (r: Result<
    (Vec<u8>, Share),
    EncodeError,
>)
    requires
        rgb@.len() == byte_size(w as int, h as int),
    ensures
        match r {
            Ok((png, scale)) => {
                &&& png_file(rgb@, w, h) == Some(png@)
                &&& scale == (Share { part: w as u64, whole: from_width as u64 })
            },
            Err(EncodeError::Image(_)) => png_file(rgb@, w, h) is None,
            Err(EncodeError::SizeMismatch { .. }) => false,
        },
{
    match write_png(rgb, w, h) {
        Ok(png) => Ok((png, Share { part: w as u64, whole: from_width as u64 })),
        Err(e) => Err(EncodeError::Image(e)),
    }
}

/// PNG for recognition, and the scale actually applied.
///
/// Returning the effective scale is the point. A caller has to divide the
/// recogniser's coordinates back out, and if it divides by a number this
/// function did not use, every coordinate is silently wrong. `target` is the
/// magnified size, absent where the scale asked for is at most one: such a
/// request resizes nothing, and the scale says so.
///
/// The pixels are prepared before they are magnified: afterwards the
/// preparation would act on interpolated pixels.
pub fn encode_png_scaled(
    f: &Frame,
    target: Option<(u32, u32)>,
    prep: Prep,
    threshold: u8,
) -> (r: Result<(Vec<u8>, Share), EncodeError>)
    requires
        magnifiable(*f, target, prep),
    ensures
        match r {
            Ok((png, scale)) => {
                &&& f.holds_pixels()
                &&& scale == magnified_scale(*f, target)
                &&& is_magnified_png(*f, target, prep, threshold, Some(png@))
            },
            Err(EncodeError::SizeMismatch { w, h }) => !f.holds_pixels() && (w, h) == (f.w, f.h),
            Err(EncodeError::Image(_)) => {
                &&& f.holds_pixels()
                &&& is_magnified_png(*f, target, prep, threshold, None)
            },
        },
{
    if too_small(f.rgb.len(), f.w, f.h) {
        return Err(EncodeError::SizeMismatch { w: f.w, h: f.h });
    }
    let ready = preprocess(&f.rgb, f.w, f.h, prep, threshold);
    proof {
        lemma_prepared_size(*f, prep, threshold, ready@);
        assert(ready@.len() == byte_size(f.w as int, f.h as int) ==> ready@.take(
            byte_size(f.w as int, f.h as int),
        ) =~= ready@);
    }
    match target {
        None => match write_png(&ready, f.w, f.h) {
            Ok(png) => Ok((png, Share { part: 1, whole: 1 })),
            Err(e) => Err(EncodeError::Image(e)),
        },
        Some((w, h)) => {
            let big = resize_lanczos(&ready, f.w, f.h, w, h);
            encode_resized(&big, w, h, f.w)
        },
    }
}

proof fn lemma_prepared_size(f: Frame, prep: Prep, threshold: u8, out: Seq<u8>)
    requires
        f.holds_pixels(),
        is_prepared(f.rgb@, f.w as int, f.h as int, prep, threshold, out),
    ensures
        prep !is Plain ==> out.len() == byte_size(f.w as int, f.h as int),
        prep is Plain ==> out == f.rgb@,
{
    assert(0 <= f.w * f.h) by (nonlinear_arith)
        requires
            0 <= f.w,
            0 <= f.h,
    ;
}

/// The frame that an image file decodes to, so accuracy can be measured against
/// a fixed image rather than a live desktop that changes between runs. A file
/// has no place on screen; coordinates come back image-relative.
pub fn frame_from_png(file: &[u8]) -> (r: Result<Frame, EncodeError>)
    ensures
        match r {
            Ok(f) => {
                &&& decoded_image(file@) == Some((f.w, f.h, f.rgb@))
                &&& f.origin == (0i32, 0i32)
                &&& f.exact()
            },
            Err(EncodeError::Image(_)) => decoded_image(file@) is None,
            Err(EncodeError::SizeMismatch { .. }) => false,
        },
{
    match decode_image(file) {
        Ok((w, h, rgb)) => Ok(Frame { w, h, origin: (0, 0), rgb }),
        Err(e) => Err(EncodeError::Image(e)),
    }
}

/// Rescaling uses the whole range and keeps the order of the grays.
pub proof fn law_stretch_keeps_order(lo: u8, hi: u8, a: u8, b: u8)
    requires
        lo < hi,
        lo <= a <= b <= hi,
    ensures
        stretched(a, lo, hi) <= stretched(b, lo, hi),
        stretched(lo, lo, hi) == 0,
        stretched(hi, lo, hi) == 255,
{
    let span = hi - lo;
    let x = (a - lo) * 255;
    let y = (b - lo) * 255;
    vstd::arithmetic::div_mod::lemma_div_is_ordered(x, y, span);
    vstd::arithmetic::div_mod::lemma_div_is_ordered(y, span * 255, span);
    vstd::arithmetic::div_mod::lemma_div_is_ordered(0, x, span);
    assert(span * 255 / span == 255) by (nonlinear_arith)
        requires
            span > 0,
    ;
    assert(0int / span == 0) by (nonlinear_arith)
        requires
            span > 0,
    ;
}

/// The extremes of some values bound them all, and are among them.
pub proof fn law_extremes_are_reached(g: Seq<u8>, i: int)
    requires
        0 <= i < g.len(),
    ensures
        lowest(g) <= g[i] <= highest(g),
        g.contains(lowest(g)),
        g.contains(highest(g)),
{
    lemma_between_extremes(g, i);
    lemma_extremes_within(g);
}

proof fn lemma_extremes_within(g: Seq<u8>)
    requires
        g.len() > 0,
    ensures
        g.contains(lowest(g)),
        g.contains(highest(g)),
    decreases g.len(),
{
    let init = g.drop_last();
    let n = g.len() - 1;
    assert(g[n] == g.last());
    lemma_between_extremes(g, n);
    if init.len() > 0 {
        lemma_extremes_within(init);
        let a = choose|a: int| 0 <= a < init.len() && init[a] == lowest(init);
        let b = choose|b: int| 0 <= b < init.len() && init[b] == highest(init);
        assert(g[a] == init[a] && g[b] == init[b]);
    } else {
        assert(lowest(init) == 255 && highest(init) == 0);
    }
}

/// A gray value is rescaled in proportion: its distance from the darkest, out
/// of that of the lightest, is its share of 255, rounded down. Where all
/// values are the same they become black.
pub proof fn law_stretch_is_proportional(v: u8, lo: u8, hi: u8)
    requires
        lo <= v <= hi,
    ensures
        stretched(v, lo, hi) * (hi - lo) <= (v - lo) * 255,
        lo < hi ==> (v - lo) * 255 < (stretched(v, lo, hi) + 1) * (hi - lo),
        lo == hi ==> stretched(v, lo, hi) == 0,
{
    if lo < hi {
        let span = hi - lo;
        let x = (v - lo) * 255;
        vstd::arithmetic::div_mod::lemma_fundamental_div_mod(x, span);
        vstd::arithmetic::div_mod::lemma_mod_bound(x, span);
        vstd::arithmetic::div_mod::lemma_div_is_ordered(x, span * 255, span);
        vstd::arithmetic::div_mod::lemma_div_is_ordered(0, x, span);
        let q = x / span;
        assert(span * 255 / span == 255) by (nonlinear_arith)
            requires
                span > 0,
        ;
        assert(0int / span == 0) by (nonlinear_arith)
            requires
                span > 0,
        ;
        assert(stretched(v, lo, hi) == q);
        assert(q * span == span * q) by (nonlinear_arith);
        assert((q + 1) * span == span * q + span) by (nonlinear_arith);
    } else {
        assert(0int * 255 / 1 == 0);
    }
}

/// The preparations that discard colour write one level into all three bytes
/// of each pixel: the luminance itself, black or white as it is over the
/// threshold or not, or its share of the range from the darkest pixel to the
/// lightest. Plain pixels stay as they are, and sharpening is done against a
/// blur of deviation one, from a distance of more than four on.
pub proof fn law_prepared_pixel_by_pixel(
    rgb: Seq<u8>,
    w: int,
    h: int,
    prep: Prep,
    threshold: u8,
    out: Seq<u8>,
    p: int,
)
    requires
        is_prepared(rgb, w, h, prep, threshold, out),
        0 <= p < w * h,
    ensures
        ({
            let level = luma(rgb[3 * p], rgb[3 * p + 1], rgb[3 * p + 2]);
            let g = luma_of(rgb, w, h);
            &&& prep is Plain ==> out == rgb
            &&& prep is Sharpen ==> unsharpened(rgb, w, h, 1, 4, out) && out.len() == 3 * (w * h)
                && forall|i: int| 0 <= i < out.len() ==> may_sharpen(rgb[i], #[trigger] out[i], 4)
            &&& prep is Gray || prep is Contrast || prep is Otsu ==> {
                &&& out.len() == 3 * (w * h)
                &&& out[3 * p] == out[3 * p + 1] && out[3 * p] == out[3 * p + 2]
            }
            &&& prep is Gray ==> out[3 * p] == level
            &&& prep is Otsu && level > threshold ==> out[3 * p] == 255
            &&& prep is Otsu && level <= threshold ==> out[3 * p] == 0
            &&& prep is Contrast ==> {
                &&& lowest(g) <= level <= highest(g)
                &&& out[3 * p] * (highest(g) - lowest(g)) <= (level - lowest(g)) * 255
                &&& lowest(g) < highest(g) ==> (level - lowest(g)) * 255 < (out[3 * p] + 1) * (
                highest(g) - lowest(g))
            }
        }),
{
    let g = luma_of(rgb, w, h);
    let level = g[p];
    lemma_between_extremes(g, p);
    law_stretch_is_proportional(level, lowest(g), highest(g));
    assert((3 * p) / 3 == p && (3 * p + 1) / 3 == p && (3 * p + 2) / 3 == p);
}

/// Occurrences add up: those in some values and then in others are those in
/// all of them, and a value alone occurs once where it is the one counted.
pub proof fn law_occurrences_add_up(a: Seq<u8>, b: Seq<u8>, x: u8, v: u8)
    ensures
        occurrences(a + b, v) == occurrences(a, v) + occurrences(b, v),
        occurrences(seq![x], v) == if x == v {
            1int
        } else {
            0
        },
        occurrences(Seq::<u8>::empty(), v) == 0,
    decreases b.len(),
{
    assert(seq![x].drop_last() =~= Seq::<u8>::empty());
    assert(occurrences(Seq::<u8>::empty(), v) == 0);
    assert(seq![x].last() == x);
    if b.len() == 0 {
        assert(a + b =~= a);
    } else {
        assert((a + b).drop_last() =~= a + b.drop_last());
        assert((a + b).last() == b.last());
        law_occurrences_add_up(a, b.drop_last(), x, v);
    }
}

/// A magnified image has the size that was asked for, and the scale that is
/// told is what the width of the frame has to be multiplied by to give its
/// width; without a target the image has the frame's size and the scale is one.
pub proof fn law_scale_is_that_of_the_widths(f: Frame, target: Option<(u32, u32)>)
    ensures
        target is Some ==> magnified_size(f, target) == target->0,
        target is None ==> magnified_size(f, target) == (f.w, f.h) && magnified_scale(f, target)
            == (Share { part: 1, whole: 1 }),
        f.w * magnified_scale(f, target).part == magnified_size(f, target).0 * magnified_scale(
            f,
            target,
        ).whole,
        f.w > 0 ==> magnified_scale(f, target).whole > 0,
{
    if target is Some {
        let w = magnified_size(f, target).0;
        assert(f.w * w == w * f.w) by (nonlinear_arith);
    }
}

/// The image of a file that is magnified was prepared first: the pixels that
/// are resampled, or written as they are where nothing is resampled, are the
/// prepared ones.
pub proof fn law_pixels_are_prepared_before_they_are_magnified(
    f: Frame,
    target: Option<(u32, u32)>,
    prep: Prep,
    threshold: u8,
    png: Option<Seq<u8>>,
) -> (r: (Seq<u8>, Seq<u8>))
    requires
        f.holds_pixels(),
        is_magnified_png(f, target, prep, threshold, png),
    ensures
        is_prepared(f.rgb@, f.w as int, f.h as int, prep, threshold, r.0),
        match target {
            None => {
                &&& r.1 == r.0.take(f.w * f.h * 3)
                &&& png == png_file(r.1, f.w, f.h)
            },
            Some((w, h)) => {
                &&& lanczos_resized(r.0, f.w as int, f.h as int, w as int, h as int, r.1)
                &&& r.1.len() == w * h * 3
                &&& w == f.w && h == f.h ==> r.1 == r.0.take(f.w * f.h * 3)
                &&& png == png_file(r.1, w, h)
            },
        },
{
    let (w, h) = magnified_size(f, target);
    choose|ready: Seq<u8>, sent: Seq<u8>|
        {
            &&& #[trigger] is_prepared(f.rgb@, f.w as int, f.h as int, prep, threshold, ready)
            &&& sent.len() == byte_size(w as int, h as int)
            &&& target is Some ==> lanczos_resized(
                ready,
                f.w as int,
                f.h as int,
                w as int,
                h as int,
                sent,
            )
            &&& (target is None || (w, h) == (f.w, f.h)) ==> sent == ready.take(
                byte_size(f.w as int, f.h as int),
            )
            &&& png == #[trigger] png_file(sent, w, h)
        }
}

} // verus!
