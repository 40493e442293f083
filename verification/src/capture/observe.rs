//! What an observation sends: the whole screen, only what moved, or nothing.

use vstd::prelude::*;
use vstd::string::*;

use crate::capture::diff::{changed_box, Share, TOLERANCE};
#[allow(unused_imports)]
use crate::capture::diff::{
    change_count, changed_at, is_hull, law_count_is_zero_iff_nothing_differs,
    law_hull_is_the_smallest_box,
};
use crate::capture::encode::{copy_bytes, encode_png, EncodeError};
#[allow(unused_imports)]
use crate::capture::encode::{encodable, sent_pixels, sent_scale, sent_size};
use crate::capture::frame::{crop, Frame};
#[allow(unused_imports)]
use crate::capture::codec::png_file;
#[allow(unused_imports)]
use crate::capture::frame::{
    byte_place, byte_size, cols_in, cut_fits, law_pixels_stand_row_by_row, pixel_in, rows_in,
};
use crate::strings::write_decimal;
#[allow(unused_imports)]
use crate::strings::{begins_with, decimal};

verus! {

/// How many pixels of an image cost about one token of context.
pub const PIXELS_PER_TOKEN: u32 = 750;

/// What there is to say beside the image, or in its place.
#[derive(Debug, Clone, Copy, PartialEq, Eq, Structural)]
pub enum Note {
    /// Nothing came before, so the frame is sent whole.
    First,
    /// Nothing moved.
    Unchanged,
    /// A few scattered pixels changed, and the box around them is `times` as
    /// large as the change.
    Scattered { pixels: u64, share: Share, times: u64 },
}

/// A note in words, with the share of the pixels that changed written as a
/// percentage.
pub open spec fn note_text(n: Note, percent: Seq<char>) -> Seq<char> {
    match n {
        Note::First => "first observation - full frame"@,
        Note::Unchanged => "no change since last observation"@,
        Note::Scattered { pixels, times, .. } => decimal(pixels as nat)
            + " scattered pixels changed ("@ + percent
            + "%) - image withheld, the region hull is "@ + decimal(times as nat)
            + "x larger than the change itself"@,
    }
}

impl Note {
    /// The note in words. `percent` is the share of the pixels that changed,
    /// written as a percentage.
    pub fn text(&self, percent: &str) -> (r: String)
        ensures
            r@ == note_text(*self, percent@),
    {
        match self {
            Note::First => "first observation - full frame".to_string(),
            Note::Unchanged => "no change since last observation".to_string(),
            Note::Scattered { pixels, times, .. } => {
                let mut out = write_decimal(*pixels);
                out.append(" scattered pixels changed (");
                out.append(percent);
                out.append("%) - image withheld, the region hull is ");
                out.append(write_decimal(*times).as_str());
                out.append("x larger than the change itself");
                assert(out@ =~= note_text(*self, percent@));
                out
            },
        }
    }
}

/// One observation.
#[derive(Debug, Clone, Copy, PartialEq, Eq)]
pub struct Observation {
    pub width: u32,
    pub height: u32,
    /// Scale applied before encoding.
    pub scale: Share,
    pub png_bytes: usize,
    /// Roughly what the image will cost in context.
    pub approx_tokens: u32,
    /// Share of pixels that changed since the last capture, where changes were
    /// asked for.
    pub changed_fraction: Option<Share>,
    /// The changed region in SCREEN coordinates (x and y may be negative on a
    /// multi-monitor desktop).
    pub changed_region: Option<(i32, i32, u32, u32)>,
    pub note: Option<Note>,
}

/// An image that is still to be encoded, and what will be said of it.
#[derive(Debug)]
pub struct Pending {
    pub target: Frame,
    pub changed_fraction: Option<Share>,
    pub changed_region: Option<(i32, i32, u32, u32)>,
    pub note: Option<Note>,
}

/// What to do with a captured frame.
#[derive(Debug)]
pub enum Look {
    /// Send no image: the observation is the answer.
    Told(Observation),
    /// Encode this image.
    Show(Pending),
}

/// An observation without an image.
pub open spec fn told(
    fraction: Share,
    region: Option<(i32, i32, u32, u32)>,
    note: Note,
) -> Observation {
    Observation {
        width: 0,
        height: 0,
        scale: Share { part: 1, whole: 1 },
        png_bytes: 0,
        approx_tokens: 0,
        changed_fraction: Some(fraction),
        changed_region: region,
        note: Some(note),
    }
}

/// Whether a change is too scattered to be worth an image: fewer than one pixel
/// in two hundred changed, and the box around them is more than twenty-five
/// times as large as the change. A caret in one corner and a clock in the
/// other yield a near-fullscreen box for a handful of moved pixels; when the
/// box is that unrepresentative, the coordinates are the answer.
pub open spec fn is_scattered(share: Share, hull: int, pixels: int) -> bool {
    share.part * 200 < share.whole && hull > pixels * 25
}

/// Whether two frames show the same pixels at the same place.
pub open spec fn same_frame(a: Frame, b: Frame) -> bool {
    a.w == b.w && a.h == b.h && a.origin == b.origin && a.rgb@ == b.rgb@
}

/// Whether a frame shows the part of another that lies in a box.
pub open spec fn shows_box(c: Frame, f: Frame, bx: (u32, u32, u32, u32)) -> bool {
    &&& c.w == bx.2 && c.h == bx.3
    &&& c.origin.0 == f.origin.0 + bx.0
    &&& c.origin.1 == f.origin.1 + bx.1
    &&& c.exact()
    &&& forall|i: int, j: int|
        #![trigger c.pixel(i, j)]
        0 <= i < bx.2 && 0 <= j < bx.3 ==> c.pixel(i, j) == f.pixel(bx.0 + i, bx.1 + j)
}

/// The box of a region on the screen, from the frame's own corner.
pub open spec fn box_of(f: Frame, region: (i32, i32, u32, u32)) -> (u32, u32, u32, u32) {
    ((region.0 - f.origin.0) as u32, (region.1 - f.origin.1) as u32, region.2, region.3)
}

/// Whether a region of the screen lies in a frame.
pub open spec fn region_inside(f: Frame, region: (i32, i32, u32, u32)) -> bool {
    &&& f.origin.0 <= region.0 && region.0 - f.origin.0 + region.2 <= f.w
    &&& f.origin.1 <= region.1 && region.1 - f.origin.1 + region.3 <= f.h
}

/// Whether `region`, with `fraction` of the frame, is what changed since the
/// frame before.
pub open spec fn is_since(
    before: Frame,
    now: Frame,
    fraction: Share,
    region: (i32, i32, u32, u32),
    pixels: int,
) -> bool {
    &&& region_inside(now, region)
    &&& if before.w != now.w || before.h != now.h {
        &&& box_of(now, region) == (0u32, 0u32, now.w, now.h)
        &&& fraction == (Share { part: 1, whole: 1 })
        &&& pixels == now.w * now.h
    } else {
        &&& is_hull(before, now, TOLERANCE as int, box_of(now, region))
        &&& pixels == change_count(before, now, TOLERANCE as int)
        &&& pixels > 0
        &&& fraction.part == pixels
        &&& fraction.whole == now.w * now.h
    }
}

/// Whether an observation says that a frame is the frame before over again.
pub open spec fn tells_no_change(prior: Frame, now: Frame, obs: Observation) -> bool {
    &&& prior.w == now.w && prior.h == now.h
    &&& change_count(prior, now, TOLERANCE as int) == 0
    &&& obs == told(Share { part: 0, whole: 1 }, None, Note::Unchanged)
}

/// Whether an observation tells of scattered changes and withholds the image.
pub open spec fn tells_scattered(prior: Frame, now: Frame, obs: Observation) -> bool {
    match (obs.changed_fraction, obs.changed_region, obs.note) {
        (Some(fraction), Some(region), Some(Note::Scattered { pixels, share, times })) => {
            let hull = region.2 * region.3;
            &&& is_since(prior, now, fraction, region, pixels as int)
            &&& is_scattered(fraction, hull, pixels as int)
            &&& share == fraction
            &&& times == hull / pixels as int
            &&& obs == told(fraction, Some(region), Note::Scattered { pixels, share, times })
        },
        _ => false,
    }
}

/// Whether a change is one that is worth an image.
pub open spec fn worth_showing(
    prior: Frame,
    now: Frame,
    fraction: Share,
    region: (i32, i32, u32, u32),
) -> bool {
    exists|pixels: int|
        {
            &&& #[trigger] is_since(prior, now, fraction, region, pixels)
            &&& !is_scattered(fraction, region.2 * region.3, pixels)
        }
}

/// Whether a pending image shows the change, and the change is worth an image.
pub open spec fn shows_change(prior: Frame, now: Frame, p: Pending) -> bool {
    &&& p.changed_fraction is Some
    &&& p.changed_region is Some
    &&& worth_showing(prior, now, p.changed_fraction->0, p.changed_region->0)
    &&& shows_box(p.target, now, box_of(now, p.changed_region->0))
    &&& p.note is None
}

/// What is done with a frame, given the one before.
pub open spec fn is_look(before: Option<Frame>, now: Frame, diff: bool, look: Look) -> bool {
    if !diff {
        look == Look::Show(
            Pending { target: now, changed_fraction: None, changed_region: None, note: None },
        )
    } else {
        match before {
            None => look == Look::Show(
                Pending {
                    target: now,
                    changed_fraction: None,
                    changed_region: None,
                    note: Some(Note::First),
                },
            ),
            Some(prior) => match look {
                Look::Told(obs) => tells_no_change(prior, now, obs) || tells_scattered(
                    prior,
                    now,
                    obs,
                ),
                Look::Show(p) => shows_change(prior, now, p),
            },
        }
    }
}

/// Decides what an observation sends, and remembers the frame where changes are
/// asked for, so that the next one can answer "nothing moved" without an image
/// at all - by far the cheapest useful answer during a wait loop.
pub fn observe_frame(last: &mut Option<Frame>, frame: Frame, diff: bool) -> (look: Look)
    requires
        diff && *old(last) is Some ==> frame.holds_pixels() && frame.on_screen(),
        diff && *old(last) is Some && old(last)->0.w == frame.w && old(last)->0.h == frame.h
            ==> old(last)->0.holds_pixels(),
    ensures
        is_look(*old(last), frame, diff, look),
        !diff ==> *final(last) == *old(last),
        diff ==> *final(last) is Some && same_frame(final(last)->0, frame),
{
    if !diff {
        return Look::Show(
            Pending { target: frame, changed_fraction: None, changed_region: None, note: None },
        );
    }
    let kept = Frame { w: frame.w, h: frame.h, origin: frame.origin, rgb: copy_bytes(&frame.rgb) };
    let found = match &*last {
        None => {
            *last = Some(kept);
            return Look::Show(
                Pending {
                    target: frame,
                    changed_fraction: None,
                    changed_region: None,
                    note: Some(Note::First),
                },
            );
        },
        Some(prior) => changed_box(prior, &frame, TOLERANCE),
    };
    let ghost prior = old(last)->0;
    *last = Some(kept);
    match found {
        None => {
            let obs = Observation {
                width: 0,
                height: 0,
                scale: Share { part: 1, whole: 1 },
                png_bytes: 0,
                approx_tokens: 0,
                changed_fraction: Some(Share { part: 0, whole: 1 }),
                changed_region: None,
                note: Some(Note::Unchanged),
            };
            assert(tells_no_change(prior, frame, obs));
            Look::Told(obs)
        },
        Some((x, y, w, h, share, pixels)) => {
            let region = (frame.origin.0 + x as i32, frame.origin.1 + y as i32, w, h);
            assert(w * h <= 0xffff_ffff * 0xffff_ffff) by (nonlinear_arith)
                requires
                    0 <= w <= 0xffff_ffff,
                    0 <= h <= 0xffff_ffff,
            ;
            let hull: u64 = (w as u64) * (h as u64);
            assert(is_since(prior, frame, share, region, pixels as int));
            if (share.part as u128) * 200 < share.whole as u128 && hull as u128 > (pixels as u128)
                * 25 {
                return Look::Told(
                    Observation {
                        width: 0,
                        height: 0,
                        scale: Share { part: 1, whole: 1 },
                        png_bytes: 0,
                        approx_tokens: 0,
                        changed_fraction: Some(share),
                        changed_region: Some(region),
                        note: Some(Note::Scattered { pixels, share, times: hull / pixels }),
                    },
                );
            }
            proof {
                lemma_box_fits(frame, (x, y, w, h));
            }
            let target = crop(&frame, x, y, w, h);
            proof {
                let cols = cols_in(frame.w as int, x as int, w as int);
                let rows = rows_in(frame.h as int, y as int, h as int);
                assert(cols == w && rows == h);
                assert(byte_size(w as int, 0) == 0);
                assert forall|i: int, j: int|
                    #![trigger target.pixel(i, j)]
                    0 <= i < w && 0 <= j < h implies target.pixel(i, j) == frame.pixel(
                    x + i,
                    y + j,
                ) by {
                    assert(pixel_in(target.rgb@, cols, i, j) == frame.pixel(x + i, y + j));
                }
                assert(target.exact());
                assert(shows_box(target, frame, (x, y, w, h)));
                assert(box_of(frame, region) == (x, y, w, h));
            }
            let p = Pending {
                target,
                changed_fraction: Some(share),
                changed_region: Some(region),
                note: None,
            };
            proof {
                assert(!is_scattered(share, region.2 * region.3, pixels as int));
                assert(worth_showing(prior, frame, share, region));
                assert(shows_change(prior, frame, p));
            }
            Look::Show(p)
        },
    }
}

/// A box inside a frame can be cut from it.
proof fn lemma_box_fits(f: Frame, bx: (u32, u32, u32, u32))
    requires
        f.holds_pixels(),
        bx.0 + bx.2 <= f.w,
        bx.1 + bx.3 <= f.h,
    ensures
        cut_fits(f, bx.0 as int, bx.1 as int, bx.2 as int, bx.3 as int),
{
    if bx.3 > 0 {
        let row = bx.1 + bx.3 - 1;
        assert(row * f.w + f.w <= f.w * f.h) by (nonlinear_arith)
            requires
                0 <= row < f.h,
                0 <= f.w,
        ;
    }
}

/// What an image of some size costs.
pub open spec fn token_cost(w: u32, h: u32) -> int {
    w * h / PIXELS_PER_TOKEN as int
}

/// Encodes the image of an observation. `scaled_height` is the height of the
/// image where it is wider than `max_width` and so shrunk to that width.
pub fn observe_bytes(p: &Pending, max_width: u32, scaled_height: u32) -> (r: Result<
    (Observation, Vec<u8>),
    EncodeError,
>)
    requires
        encodable(p.target, max_width, scaled_height),
        sent_size(p.target, max_width, scaled_height).0 * sent_size(
            p.target,
            max_width,
            scaled_height,
        ).1 <= u32::MAX,
    ensures
        ({
            let (w, h) = sent_size(p.target, max_width, scaled_height);
            let file = png_file(sent_pixels(p.target, max_width, scaled_height), w, h);
            match r {
                Ok((obs, png)) => {
                    &&& p.target.holds_pixels()
                    &&& file == Some(png@)
                    &&& obs.width == w && obs.height == h
                    &&& obs.scale == sent_scale(p.target, max_width)
                    &&& obs.png_bytes == png@.len()
                    &&& obs.approx_tokens == token_cost(w, h)
                    &&& obs.changed_fraction == p.changed_fraction
                    &&& obs.changed_region == p.changed_region
                    &&& obs.note == p.note
                },
                Err(EncodeError::SizeMismatch { w: fw, h: fh }) => {
                    &&& !p.target.holds_pixels()
                    &&& (fw, fh) == (p.target.w, p.target.h)
                },
                Err(EncodeError::Image(_)) => p.target.holds_pixels() && file is None,
            }
        }),
{
    match encode_png(&p.target, max_width, scaled_height) {
        Err(e) => Err(e),
        Ok((png, width, height, scale)) => {
            let obs = Observation {
                width,
                height,
                scale,
                png_bytes: png.len(),
                approx_tokens: (width * height) / PIXELS_PER_TOKEN,
                changed_fraction: p.changed_fraction,
                changed_region: p.changed_region,
                note: p.note,
            };
            Ok((obs, png))
        },
    }
}

/// A second look at a screen that has not moved sends no image and says so.
pub proof fn law_second_look_tells_no_change(prior: Frame, now: Frame, look: Look)
    requires
        is_look(Some(prior), now, true, look),
        same_frame(prior, now),
    ensures
        look == Look::Told(told(Share { part: 0, whole: 1 }, None, Note::Unchanged)),
{
    let tol = TOLERANCE as int;
    assert forall|x: int, y: int| !#[trigger] changed_at(prior, now, tol, x, y) by {
        assert(prior.pixel(x, y) == now.pixel(x, y));
    }
    law_count_is_zero_iff_nothing_differs(prior, now, tol);
    assert(change_count(prior, now, tol) == 0);
}

/// A look that withholds the image, or shows a part of it, has seen a change;
/// one that tells of none has not.
pub proof fn law_silence_means_no_change(prior: Frame, now: Frame, look: Look)
    requires
        is_look(Some(prior), now, true, look),
        prior.w == now.w,
        prior.h == now.h,
    ensures
        look == Look::Told(told(Share { part: 0, whole: 1 }, None, Note::Unchanged))
            <==> change_count(prior, now, TOLERANCE as int) == 0,
{
}

/// Whether a look withholds the image of a change.
pub open spec fn withholds(look: Look) -> bool {
    match look {
        Look::Told(obs) => obs.changed_region is Some,
        Look::Show(_) => false,
    }
}

/// A change is withheld exactly where it is small and scattered: fewer than
/// one pixel in two hundred moved, and the box around them holds more than
/// twenty-five times as many pixels as moved. So a change that fills its box,
/// however small, is always shown.
pub proof fn law_only_scattered_changes_are_withheld(prior: Frame, now: Frame, look: Look)
    requires
        is_look(Some(prior), now, true, look),
        prior.w == now.w,
        prior.h == now.h,
        change_count(prior, now, 12) > 0,
    ensures
        ({
            let region = match look {
                Look::Told(obs) => obs.changed_region,
                Look::Show(p) => p.changed_region,
            };
            let moved = change_count(prior, now, 12);
            let found = region->0;
            &&& region is Some
            &&& withholds(look) <==> 200 * moved < now.w * now.h && found.2 * found.3 > 25 * moved
            &&& look is Told ==> withholds(look)
        }),
{
}

/// A change whose box holds no more than twenty-five pixels for each that
/// moved is shown, never withheld.
pub proof fn law_compact_change_is_shown(
    prior: Frame,
    now: Frame,
    look: Look,
    left: int,
    top: int,
    w: int,
    h: int,
)
    requires
        is_look(Some(prior), now, true, look),
        prior.w == now.w,
        prior.h == now.h,
        change_count(prior, now, 12) > 0,
        w >= 0,
        h >= 0,
        forall|x: int, y: int| #[trigger]
            changed_at(prior, now, 12, x, y) ==> left <= x < left + w && top <= y < top + h,
        w * h <= 25 * change_count(prior, now, 12),
    ensures
        look is Show,
{
    if let Look::Told(obs) = look {
        let region = obs.changed_region->0;
        let bx = box_of(now, region);
        law_hull_is_the_smallest_box(prior, now, 12, bx, left, top, left + w, top + h);
        assert(bx.2 * bx.3 <= w * h) by (nonlinear_arith)
            requires
                0 <= bx.2 <= w,
                0 <= bx.3 <= h,
        ;
    }
}

/// A screen of another size is always shown whole.
pub proof fn law_resized_screen_is_shown(prior: Frame, now: Frame, look: Look)
    requires
        is_look(Some(prior), now, true, look),
        prior.w != now.w || prior.h != now.h,
    ensures
        look is Show,
        look->Show_0.changed_region == Some((now.origin.0, now.origin.1, now.w, now.h)),
        look->Show_0.target.w == now.w,
        look->Show_0.target.h == now.h,
{
    if let Look::Show(p) = look {
        let region = p.changed_region->0;
        assert(box_of(now, region) == (0u32, 0u32, now.w, now.h));
    }
}

/// What a look tells of a change is so: its share is what moved of all, its
/// region holds every pixel that moved, and what it shows is that part of the
/// frame, byte for byte, at its place on the screen.
pub proof fn law_look_tells_what_moved(prior: Frame, now: Frame, look: Look)
    requires
        is_look(Some(prior), now, true, look),
        prior.w == now.w,
        prior.h == now.h,
        change_count(prior, now, 12) > 0,
    ensures
        ({
            let (fraction, region) = match look {
                Look::Told(obs) => (obs.changed_fraction->0, obs.changed_region->0),
                Look::Show(p) => (p.changed_fraction->0, p.changed_region->0),
            };
            &&& fraction.part == change_count(prior, now, 12)
            &&& fraction.whole == now.w * now.h
            &&& forall|x: int, y: int| #[trigger]
                changed_at(prior, now, 12, x, y) ==> {
                    &&& region.0 <= now.origin.0 + x < region.0 + region.2
                    &&& region.1 <= now.origin.1 + y < region.1 + region.3
                }
            &&& match look {
                Look::Told(obs) => {
                    &&& obs.width == 0 && obs.height == 0 && obs.png_bytes == 0
                    &&& obs.approx_tokens == 0
                    &&& obs.note matches Some(Note::Scattered { pixels, share, times }) && {
                        &&& pixels == fraction.part
                        &&& share == fraction
                        &&& times * pixels <= region.2 * region.3 < (times + 1) * pixels
                    }
                },
                Look::Show(p) => {
                    let dx = region.0 - now.origin.0;
                    let dy = region.1 - now.origin.1;
                    &&& p.note is None
                    &&& p.target.origin == (region.0, region.1)
                    &&& (p.target.w, p.target.h) == (region.2, region.3)
                    &&& p.target.rgb@.len() == 3 * (region.2 * region.3)
                    &&& forall|i: int, j: int, c: int|
                        0 <= i < region.2 && 0 <= j < region.3 && 0 <= c < 3
                            ==> #[trigger] p.target.rgb@[3 * (region.2 * j + i) + c]
                            == now.rgb@[3 * (now.w * (dy + j) + dx + i) + c]
                },
            }
        }),
{
    let (fraction, region) = match look {
        Look::Told(obs) => (obs.changed_fraction->0, obs.changed_region->0),
        Look::Show(p) => (p.changed_fraction->0, p.changed_region->0),
    };
    let bx = box_of(now, region);
    law_hull_is_the_smallest_box(prior, now, 12, bx, 0, 0, now.w as int, now.h as int);
    match look {
        Look::Told(obs) => {
            if let Some(Note::Scattered { pixels, share, times }) = obs.note {
                let hull = region.2 * region.3;
                vstd::arithmetic::div_mod::lemma_fundamental_div_mod(hull, pixels as int);
                vstd::arithmetic::div_mod::lemma_mod_bound(hull, pixels as int);
                assert(times * pixels == pixels * times) by (nonlinear_arith);
                assert((times + 1) * pixels == pixels * times + pixels) by (nonlinear_arith);
            }
        },
        Look::Show(p) => {
            let dx = region.0 - now.origin.0;
            let dy = region.1 - now.origin.1;
            assert forall|i: int, j: int, c: int|
                0 <= i < region.2 && 0 <= j < region.3 && 0 <= c < 3 implies
                #[trigger] p.target.rgb@[3 * (region.2 * j + i) + c] == now.rgb@[3 * (now.w * (dy
                + j) + dx + i) + c] by {
                law_pixels_stand_row_by_row(p.target, i, j);
                law_pixels_stand_row_by_row(now, bx.0 + i, bx.1 + j);
                assert(p.target.pixel(i, j) == now.pixel(bx.0 + i, bx.1 + j));
                assert(c == 0 || c == 1 || c == 2);
            }
            law_pixels_stand_row_by_row(p.target, 0, 0);
        },
    }
}

/// Where changes are not asked for the frame is shown as it is, and a first
/// look shows it whole and says so.
pub proof fn law_first_look_shows_everything(before: Option<Frame>, now: Frame, diff: bool, look: Look)
    requires
        is_look(before, now, diff, look),
        !diff || before is None,
    ensures
        look is Show,
        look->Show_0.target == now,
        look->Show_0.changed_region is None,
        look->Show_0.changed_fraction is None,
        look->Show_0.note == if diff {
            Some(Note::First)
        } else {
            None::<Note>
        },
{
}

/// An image costs one token for each seven hundred and fifty pixels, the rest
/// not counted.
pub proof fn law_image_costs_by_its_pixels(w: u32, h: u32)
    ensures
        750 * token_cost(w, h) <= w * h < 750 * (token_cost(w, h) + 1),
{
}

/// A look at a screen on which nothing moved is empty: no image, no size, no
/// cost, no region, nothing of the whole, and a note that says so.
pub proof fn law_unmoved_screen_is_an_empty_look(prior: Frame, now: Frame, look: Look)
    requires
        is_look(Some(prior), now, true, look),
        prior.w == now.w,
        prior.h == now.h,
        change_count(prior, now, 12) == 0,
    ensures
        look is Told,
        look->Told_0.width == 0 && look->Told_0.height == 0,
        look->Told_0.png_bytes == 0 && look->Told_0.approx_tokens == 0,
        look->Told_0.scale.part == look->Told_0.scale.whole && look->Told_0.scale.whole > 0,
        look->Told_0.changed_region is None,
        look->Told_0.changed_fraction is Some,
        look->Told_0.changed_fraction->0.part == 0 && look->Told_0.changed_fraction->0.whole > 0,
        look->Told_0.note == Some(Note::Unchanged),
{
}

/// A screen of another size has changed altogether: the share is all of it, and
/// what is shown is every pixel of the frame where it stands.
pub proof fn law_resized_screen_has_changed_altogether(
    prior: Frame,
    now: Frame,
    look: Look,
    i: int,
    j: int,
)
    requires
        is_look(Some(prior), now, true, look),
        prior.w != now.w || prior.h != now.h,
    ensures
        look is Show,
        look->Show_0.changed_fraction is Some,
        look->Show_0.changed_fraction->0.part == look->Show_0.changed_fraction->0.whole,
        look->Show_0.changed_fraction->0.whole > 0,
        look->Show_0.note is None,
        look->Show_0.target.origin == now.origin,
        0 <= i < now.w && 0 <= j < now.h ==> look->Show_0.target.pixel(i, j) == now.pixel(i, j),
{
    law_resized_screen_is_shown(prior, now, look);
    if let Look::Show(p) = look {
        let region = p.changed_region->0;
        assert(box_of(now, region) == (0u32, 0u32, now.w, now.h));
    }
}

/// What is remembered of a frame is the frame: its size, its place and every
/// byte of it.
pub proof fn law_remembered_frame_is_the_frame(a: Frame, b: Frame)
    ensures
        same_frame(a, b) <==> (a.w, a.h, a.origin, a.rgb@) == (b.w, b.h, b.origin, b.rgb@),
{
}

/// The note on scattered changes begins with their number and their percentage.
pub proof fn law_note_tells_how_much_moved(
    pixels: u64,
    share: Share,
    times: u64,
    percent: Seq<char>,
)
    ensures
        begins_with(
            note_text(Note::Scattered { pixels, share, times }, percent),
            decimal(pixels as nat) + " scattered pixels changed ("@ + percent
                + "%) - image withheld, the region hull is "@ + decimal(times as nat) + "x"@,
        ),
{
    reveal_strlit("x");
    reveal_strlit("x larger than the change itself");
    let head = decimal(pixels as nat) + " scattered pixels changed ("@ + percent
        + "%) - image withheld, the region hull is "@ + decimal(times as nat) + "x"@;
    let all = note_text(Note::Scattered { pixels, share, times }, percent);
    assert(all.take(head.len() as int) =~= head);
}

} // verus!
