//! Capturing displays, and putting them together into one desktop frame.

use vstd::prelude::*;

use crate::capture::frame::Frame;
#[allow(unused_imports)]
use crate::capture::frame::{byte_place, byte_size, lemma_byte_place, pixel_in};

use crate::capture::codec::decode_image;
#[allow(unused_imports)]
use crate::capture::codec::decoded_image;

verus! {

/// The most displays that are captured at once.
pub const MAX_DISPLAYS: usize = 32;

/// The most pixels that a desktop frame may have.
pub const MAX_PIXELS: u64 = 64_000_000;

/// Why no desktop frame was made.
#[derive(Debug, Clone, Copy, PartialEq, Eq, Structural)]
pub enum ComposeError {
    /// There are no frames to put together.
    NoDisplays,
    /// The desktop is wider than a frame can be.
    TooWide,
    /// The desktop is higher than a frame can be.
    TooHigh,
    /// The desktop has more than [`MAX_PIXELS`].
    TooLarge,
}

impl ComposeError {
    /// The failure in words.
    pub fn message(&self) -> (r: &'static str)
        ensures
            r@ == match *self {
                ComposeError::NoDisplays => "no captured displays"@,
                ComposeError::TooWide => "out of range integral type conversion attempted"@,
                ComposeError::TooHigh => "out of range integral type conversion attempted"@,
                ComposeError::TooLarge => "desktop exceeds 64 megapixel capture limit"@,
            },
    {
        match self {
            ComposeError::NoDisplays => "no captured displays",
            ComposeError::TooWide => "out of range integral type conversion attempted",
            ComposeError::TooHigh => "out of range integral type conversion attempted",
            ComposeError::TooLarge => "desktop exceeds 64 megapixel capture limit",
        }
    }
}

/// Why no display was captured.
#[derive(Debug)]
pub enum CaptureRefusal {
    /// The system is too old.
    Unavailable,
    /// The process may not record the screen.
    NotPermitted,
    /// There are no displays, or more than [`MAX_DISPLAYS`].
    Displays,
    /// The picture of a display has another size than was asked for.
    Dimensions,
    /// The `image` crate refused.
    Image(image::ImageError),
}

impl CaptureRefusal {
    /// What the library says of the refusal; `None` where the outside error
    /// speaks for itself.
    pub fn message(&self) -> (r: Option<&'static str>)
        ensures
            match *self {
                CaptureRefusal::Unavailable => r is Some && r->0@
                    == "Screen capture requires macOS 14 or later"@,
                CaptureRefusal::NotPermitted => r is Some && r->0@
                    == "Screen Recording permission missing. Grant the host application or installed Wincrust executable access in System Settings > Privacy & Security > Screen Recording, then restart it."@,
                CaptureRefusal::Displays => r is Some && r->0@
                    == "no usable displays or display count exceeds limit"@,
                CaptureRefusal::Dimensions => r is Some && r->0@
                    == "unexpected capture dimensions"@,
                CaptureRefusal::Image(_) => r is None,
            },
    {
        match self {
            CaptureRefusal::Unavailable => Some("Screen capture requires macOS 14 or later"),
            CaptureRefusal::NotPermitted => Some(
                "Screen Recording permission missing. Grant the host application or installed Wincrust executable access in System Settings > Privacy & Security > Screen Recording, then restart it.",
            ),
            CaptureRefusal::Displays => Some("no usable displays or display count exceeds limit"),
            CaptureRefusal::Dimensions => Some("unexpected capture dimensions"),
            CaptureRefusal::Image(_) => None,
        }
    }
}

/// Decides whether to capture at all.
pub fn check_access(available: bool, permitted: bool) -> (r: Result<(), CaptureRefusal>)
    ensures
        match r {
            Ok(_) => available && permitted,
            Err(CaptureRefusal::Unavailable) => !available,
            Err(CaptureRefusal::NotPermitted) => available && !permitted,
            Err(_) => false,
        },
{
    if !available {
        Err(CaptureRefusal::Unavailable)
    } else if !permitted {
        Err(CaptureRefusal::NotPermitted)
    } else {
        Ok(())
    }
}

/// Decides whether a number of displays can be captured.
pub fn check_displays(n: usize) -> (r: Result<(), CaptureRefusal>)
    ensures
        match r {
            Ok(_) => 0 < n <= MAX_DISPLAYS,
            Err(CaptureRefusal::Displays) => n == 0 || n > MAX_DISPLAYS,
            Err(_) => false,
        },
        r is Ok <==> 1 <= n <= 32,
{
    if n > 0 && n <= MAX_DISPLAYS {
        Ok(())
    } else {
        Err(CaptureRefusal::Displays)
    }
}

/// The frame of a display from decoded pixels, which have to be of the size
/// that was asked for.
pub fn display_frame(
    decoded: (u32, u32, Vec<u8>),
    width: usize,
    height: usize,
    origin: (i32, i32),
) -> (r: Result<Frame, CaptureRefusal>)
    requires
        decoded.2@.len() == byte_size(decoded.0 as int, decoded.1 as int),
    ensures
        match r {
            Ok(f) => {
                &&& decoded.0 == width && decoded.1 == height
                &&& (f.w, f.h, f.rgb@) == (decoded.0, decoded.1, decoded.2@)
                &&& f.origin == origin
                &&& f.exact()
            },
            Err(CaptureRefusal::Dimensions) => decoded.0 != width || decoded.1 != height,
            Err(_) => false,
        },
{
    let (w, h, rgb) = decoded;
    if w as usize != width || h as usize != height {
        return Err(CaptureRefusal::Dimensions);
    }
    Ok(Frame { w, h, origin, rgb })
}

/// The frame of a display from its picture as a file.
pub fn frame_of_display(file: &[u8], width: usize, height: usize, origin: (i32, i32)) -> (r: Result<
    Frame,
    CaptureRefusal,
>)
    ensures
        match r {
            Ok(f) => {
                &&& decoded_image(file@) == Some((f.w, f.h, f.rgb@))
                &&& f.w == width && f.h == height
                &&& f.origin == origin
                &&& f.exact()
            },
            Err(CaptureRefusal::Dimensions) => match decoded_image(file@) {
                Some((w, h, _)) => w != width || h != height,
                None => false,
            },
            Err(CaptureRefusal::Image(_)) => decoded_image(file@) is None,
            Err(_) => false,
        },
{
    match decode_image(file) {
        Ok(decoded) => display_frame(decoded, width, height, origin),
        Err(e) => Err(CaptureRefusal::Image(e)),
    }
}

/// The leftmost edge of some frames.
pub open spec fn left_edge(fs: Seq<Frame>) -> int
    decreases fs.len(),
{
    let last = fs.last().origin.0 as int;
    if fs.len() <= 1 || last < left_edge(fs.drop_last()) {
        last
    } else {
        left_edge(fs.drop_last())
    }
}

/// The topmost edge of some frames.
pub open spec fn top_edge(fs: Seq<Frame>) -> int
    decreases fs.len(),
{
    let last = fs.last().origin.1 as int;
    if fs.len() <= 1 || last < top_edge(fs.drop_last()) {
        last
    } else {
        top_edge(fs.drop_last())
    }
}

/// The rightmost edge of some frames.
pub open spec fn right_edge(fs: Seq<Frame>) -> int
    decreases fs.len(),
{
    let last = fs.last().origin.0 + fs.last().w;
    if fs.len() <= 1 || last > right_edge(fs.drop_last()) {
        last
    } else {
        right_edge(fs.drop_last())
    }
}

/// The bottom edge of some frames.
pub open spec fn bottom_edge(fs: Seq<Frame>) -> int
    decreases fs.len(),
{
    let last = fs.last().origin.1 + fs.last().h;
    if fs.len() <= 1 || last > bottom_edge(fs.drop_last()) {
        last
    } else {
        bottom_edge(fs.drop_last())
    }
}

/// The width of the desktop that some frames span.
pub open spec fn span_width(fs: Seq<Frame>) -> int {
    right_edge(fs) - left_edge(fs)
}

/// The height of the desktop that some frames span.
pub open spec fn span_height(fs: Seq<Frame>) -> int {
    bottom_edge(fs) - top_edge(fs)
}

/// Whether a frame covers a point of the desktop.
pub open spec fn covers(f: Frame, x: int, y: int) -> bool {
    f.origin.0 <= x < f.origin.0 + f.w && f.origin.1 <= y < f.origin.1 + f.h
}

/// What the desktop shows at a point: the last frame that covers it, and black
/// where none does.
pub open spec fn painted(fs: Seq<Frame>, x: int, y: int) -> (u8, u8, u8)
    decreases fs.len(),
{
    if fs.len() == 0 {
        (0u8, 0u8, 0u8)
    } else if covers(fs.last(), x, y) {
        fs.last().pixel(x - fs.last().origin.0, y - fs.last().origin.1)
    } else {
        painted(fs.drop_last(), x, y)
    }
}

/// The error that some frames give, if any.
pub open spec fn compose_error(fs: Seq<Frame>) -> Option<ComposeError> {
    if fs.len() == 0 {
        Some(ComposeError::NoDisplays)
    } else if span_width(fs) > u32::MAX {
        Some(ComposeError::TooWide)
    } else if span_height(fs) > u32::MAX {
        Some(ComposeError::TooHigh)
    } else if span_width(fs) * span_height(fs) > MAX_PIXELS {
        Some(ComposeError::TooLarge)
    } else {
        None
    }
}

/// Each frame lies within the edges.
proof fn lemma_edges(fs: Seq<Frame>, k: int)
    requires
        0 <= k < fs.len(),
    ensures
        left_edge(fs) <= fs[k].origin.0,
        top_edge(fs) <= fs[k].origin.1,
        fs[k].origin.0 + fs[k].w <= right_edge(fs),
        fs[k].origin.1 + fs[k].h <= bottom_edge(fs),
        i32::MIN <= left_edge(fs) <= i32::MAX,
        i32::MIN <= top_edge(fs) <= i32::MAX,
        i32::MIN <= right_edge(fs) <= i32::MAX + u32::MAX,
        i32::MIN <= bottom_edge(fs) <= i32::MAX + u32::MAX,
    decreases fs.len(),
{
    if fs.len() > 1 {
        if k < fs.len() - 1 {
            lemma_edges(fs.drop_last(), k);
        } else {
            lemma_edges(fs.drop_last(), 0);
        }
    }
}

/// Two different places of an image do not share a byte.
proof fn lemma_places_apart(w: int, h: int, x: int, y: int, p: int, q: int)
    requires
        0 <= x < w,
        0 <= y < h,
        0 <= p < w,
        0 <= q < h,
        x != p || y != q,
    ensures
        byte_place(w, x, y) + 3 <= byte_place(w, p, q) || byte_place(w, p, q) + 3 <= byte_place(
            w,
            x,
            y,
        ),
{
    if y < q {
        assert(y * w + w <= q * w) by (nonlinear_arith)
            requires
                y < q,
                0 < w,
        ;
    } else if q < y {
        assert(q * w + w <= y * w) by (nonlinear_arith)
            requires
                q < y,
                0 < w,
        ;
    }
}

/// What stands at `(i, j)` of the desktop while frame `f` is being copied over
/// what `under` showed, `rows` rows and `cols` columns of the next being done.
spec fn half_painted(
    under: Seq<Frame>,
    f: Frame,
    x: int,
    y: int,
    rows: int,
    cols: int,
) -> (u8, u8, u8) {
    let fx = x - f.origin.0;
    let fy = y - f.origin.1;
    if covers(f, x, y) && (fy < rows || (fy == rows && fx < cols)) {
        f.pixel(fx, fy)
    } else {
        painted(under, x, y)
    }
}

/// Puts the frames of the displays together. A display left of or above the
/// others gives the desktop a negative origin; where displays overlap, the
/// later one is seen; what no display covers is black.
#[verifier::loop_isolation(false)]
pub fn compose(frames: Vec<Frame>) -> (r: Result<Frame, ComposeError>)
    requires
        forall|k: int| 0 <= k < frames@.len() ==> (#[trigger] frames@[k]).holds_pixels(),
    ensures
        match r {
            Err(e) => compose_error(frames@) == Some(e),
            Ok(f) => {
                &&& compose_error(frames@) is None
                &&& f.origin.0 == left_edge(frames@)
                &&& f.origin.1 == top_edge(frames@)
                &&& f.w == span_width(frames@)
                &&& f.h == span_height(frames@)
                &&& f.exact()
                &&& forall|i: int, j: int|
                    #![trigger f.pixel(i, j)]
                    0 <= i < f.w && 0 <= j < f.h ==> f.pixel(i, j) == painted(
                        frames@,
                        f.origin.0 + i,
                        f.origin.1 + j,
                    )
            },
        },
{
    if frames.len() == 0 {
        return Err(ComposeError::NoDisplays);
    }
    let ghost fs = frames@;
    let mut x: i32 = frames[0].origin.0;
    let mut y: i32 = frames[0].origin.1;
    let mut right: i64 = frames[0].origin.0 as i64 + frames[0].w as i64;
    let mut bottom: i64 = frames[0].origin.1 as i64 + frames[0].h as i64;
    for k in 1..frames.len()
        invariant
            x == left_edge(fs.take(k as int)),
            y == top_edge(fs.take(k as int)),
            right == right_edge(fs.take(k as int)),
            bottom == bottom_edge(fs.take(k as int)),
    {
        let f = &frames[k];
        assert(fs.take(k + 1).drop_last() =~= fs.take(k as int));
        if f.origin.0 < x {
            x = f.origin.0;
        }
        if f.origin.1 < y {
            y = f.origin.1;
        }
        let r: i64 = f.origin.0 as i64 + f.w as i64;
        if r > right {
            right = r;
        }
        let b: i64 = f.origin.1 as i64 + f.h as i64;
        if b > bottom {
            bottom = b;
        }
    }
    assert(fs.take(fs.len() as int) =~= fs);
    proof {
        lemma_edges(fs, 0);
    }
    let wide: i64 = right - x as i64;
    let high: i64 = bottom - y as i64;
    if wide > u32::MAX as i64 {
        return Err(ComposeError::TooWide);
    }
    if high > u32::MAX as i64 {
        return Err(ComposeError::TooHigh);
    }
    let w: u32 = wide as u32;
    let h: u32 = high as u32;
    assert(w * h <= 0xffff_ffff * 0xffff_ffff) by (nonlinear_arith)
        requires
            0 <= w <= 0xffff_ffff,
            0 <= h <= 0xffff_ffff,
    ;
    assert(0 <= w * h) by (nonlinear_arith)
        requires
            0 <= w,
            0 <= h,
    ;
    if (w as u64) * (h as u64) > MAX_PIXELS {
        return Err(ComposeError::TooLarge);
    }
    let size: usize = ((w as u64) * (h as u64) * 3) as usize;
    let mut rgb: Vec<u8> = vec![0u8; size];
    assert(rgb@.len() == byte_size(w as int, h as int));
    proof {
        assert(fs.take(0) =~= Seq::<Frame>::empty());
        assert forall|i: int, j: int|
            #![trigger pixel_in(rgb@, w as int, i, j)]
            0 <= i < w && 0 <= j < h implies pixel_in(rgb@, w as int, i, j) == painted(
            fs.take(0),
            x + i,
            y + j,
        ) by {
            lemma_byte_place(w as int, h as int, i, j);
        }
    }
    for k in 0..frames.len()
        invariant
            rgb@.len() == byte_size(w as int, h as int),
            forall|i: int, j: int|
                #![trigger pixel_in(rgb@, w as int, i, j)]
                0 <= i < w && 0 <= j < h ==> pixel_in(rgb@, w as int, i, j) == painted(
                    fs.take(k as int),
                    x + i,
                    y + j,
                ),
    {
        let f = &frames[k];
        proof {
            lemma_edges(fs, k as int);
        }
        let ghost under = fs.take(k as int);
        let ox: i64 = f.origin.0 as i64 - x as i64;
        let oy: i64 = f.origin.1 as i64 - y as i64;
        let mut row: u32 = 0;
        while row < f.h
            invariant
                row <= f.h,
                rgb@.len() == byte_size(w as int, h as int),
                forall|i: int, j: int|
                    #![trigger pixel_in(rgb@, w as int, i, j)]
                    0 <= i < w && 0 <= j < h ==> pixel_in(rgb@, w as int, i, j) == half_painted(
                        under,
                        *f,
                        x + i,
                        y + j,
                        row as int,
                        0,
                    ),
            decreases f.h - row,
        {
            let mut col: u32 = 0;
            while col < f.w
                invariant
                    col <= f.w,
                    row < f.h,
                    rgb@.len() == byte_size(w as int, h as int),
                    forall|i: int, j: int|
                        #![trigger pixel_in(rgb@, w as int, i, j)]
                        0 <= i < w && 0 <= j < h ==> pixel_in(rgb@, w as int, i, j) == half_painted(
                            under,
                            *f,
                            x + i,
                            y + j,
                            row as int,
                            col as int,
                        ),
                decreases f.w - col,
            {
                let ghost before = rgb@;
                let source_size: usize = f.rgb.len();
                let ghost dx = ox + col;
                let ghost dy = oy + row;
                proof {
                    lemma_byte_place(f.w as int, f.h as int, col as int, row as int);
                    lemma_byte_place(w as int, h as int, dx, dy);
                    assert(f.holds_pixels());
                    assert(row * f.w + col <= source_size);
                    assert(dy * w + dx < w * h);
                }
                let s: usize = ((row as usize) * (f.w as usize) + (col as usize)) * 3;
                let d: usize = (((oy + row as i64) as usize) * (w as usize) + ((ox
                    + col as i64) as usize)) * 3;
                rgb.set(d, f.rgb[s]);
                rgb.set(d + 1, f.rgb[s + 1]);
                rgb.set(d + 2, f.rgb[s + 2]);
                proof {
                    assert forall|i: int, j: int|
                        #![trigger pixel_in(rgb@, w as int, i, j)]
                        0 <= i < w && 0 <= j < h implies pixel_in(rgb@, w as int, i, j)
                        == half_painted(under, *f, x + i, y + j, row as int, col + 1) by {
                        lemma_byte_place(w as int, h as int, i, j);
                        if i != dx || j != dy {
                            lemma_places_apart(w as int, h as int, i, j, dx, dy);
                            assert(pixel_in(rgb@, w as int, i, j) == pixel_in(
                                before,
                                w as int,
                                i,
                                j,
                            ));
                        }
                    }
                }
                col = col + 1;
            }
            proof {
                assert forall|i: int, j: int|
                    #![trigger pixel_in(rgb@, w as int, i, j)]
                    0 <= i < w && 0 <= j < h implies pixel_in(rgb@, w as int, i, j)
                    == half_painted(under, *f, x + i, y + j, row + 1, 0) by {}
            }
            row = row + 1;
        }
        proof {
            assert(fs.take(k + 1).drop_last() =~= under);
            assert(fs.take(k + 1).last() == *f);
            assert forall|i: int, j: int|
                #![trigger pixel_in(rgb@, w as int, i, j)]
                0 <= i < w && 0 <= j < h implies pixel_in(rgb@, w as int, i, j) == painted(
                fs.take(k + 1),
                x + i,
                y + j,
            ) by {}
        }
    }
    let out = Frame { w, h, origin: (x, y), rgb };
    proof {
        assert forall|i: int, j: int|
            #![trigger out.pixel(i, j)]
            0 <= i < out.w && 0 <= j < out.h implies out.pixel(i, j) == painted(
            fs,
            out.origin.0 + i,
            out.origin.1 + j,
        ) by {
            assert(pixel_in(out.rgb@, w as int, i, j) == painted(fs, x + i, y + j));
        }
    }
    Ok(out)
}

/// A display that no later one covers is seen whole on the desktop.
pub proof fn law_top_display_is_seen(fs: Seq<Frame>, k: int, x: int, y: int)
    requires
        0 <= k < fs.len(),
        covers(fs[k], x, y),
        forall|i: int| k < i < fs.len() ==> !covers(#[trigger] fs[i], x, y),
    ensures
        painted(fs, x, y) == fs[k].pixel(x - fs[k].origin.0, y - fs[k].origin.1),
    decreases fs.len(),
{
    if k < fs.len() - 1 {
        let init = fs.drop_last();
        assert(!covers(fs[fs.len() - 1], x, y));
        assert forall|i: int| k < i < init.len() implies !covers(#[trigger] init[i], x, y) by {
            assert(init[i] == fs[i]);
        }
        law_top_display_is_seen(init, k, x, y);
    }
}

/// What no display covers is black.
pub proof fn law_uncovered_is_black(fs: Seq<Frame>, x: int, y: int)
    requires
        forall|i: int| 0 <= i < fs.len() ==> !covers(#[trigger] fs[i], x, y),
    ensures
        painted(fs, x, y) == (0u8, 0u8, 0u8),
    decreases fs.len(),
{
    if fs.len() > 0 {
        let init = fs.drop_last();
        assert(!covers(fs[fs.len() - 1], x, y));
        assert forall|i: int| 0 <= i < init.len() implies !covers(#[trigger] init[i], x, y) by {
            assert(init[i] == fs[i]);
        }
        law_uncovered_is_black(init, x, y);
    }
}

/// A display covers as many columns from its origin on as it is wide, and as
/// many rows as it is high, and shows there its own pixels.
pub proof fn law_display_covers_its_pixels(f: Frame, dx: int, dy: int)
    ensures
        covers(f, f.origin.0 + dx, f.origin.1 + dy) <==> 0 <= dx < f.w && 0 <= dy < f.h,
        0 <= dx < f.w && 0 <= dy < f.h ==> painted(
            seq![f],
            f.origin.0 + dx,
            f.origin.1 + dy,
        ) == (
            f.rgb@[3 * (dy * f.w + dx)],
            f.rgb@[3 * (dy * f.w + dx) + 1],
            f.rgb@[3 * (dy * f.w + dx) + 2],
        ),
{
    if 0 <= dx < f.w && 0 <= dy < f.h {
        assert(seq![f].last() == f);
        assert(byte_place(f.w as int, dx, dy) == 3 * (dy * f.w + dx));
    }
}

/// The desktop is the smallest box that holds every display: no display
/// reaches over an edge of it, and each edge is that of some display.
pub proof fn law_desktop_is_the_smallest_box(fs: Seq<Frame>, k: int) -> (r: (int, int, int, int))
    requires
        0 <= k < fs.len(),
    ensures
        left_edge(fs) <= fs[k].origin.0,
        top_edge(fs) <= fs[k].origin.1,
        fs[k].origin.0 + fs[k].w <= left_edge(fs) + span_width(fs),
        fs[k].origin.1 + fs[k].h <= top_edge(fs) + span_height(fs),
        0 <= r.0 < fs.len() && left_edge(fs) == fs[r.0].origin.0,
        0 <= r.1 < fs.len() && top_edge(fs) == fs[r.1].origin.1,
        0 <= r.2 < fs.len() && left_edge(fs) + span_width(fs) == fs[r.2].origin.0 + fs[r.2].w,
        0 <= r.3 < fs.len() && top_edge(fs) + span_height(fs) == fs[r.3].origin.1 + fs[r.3].h,
{
    lemma_edges(fs, k);
    lemma_edges_reached(fs)
}

proof fn lemma_edges_reached(fs: Seq<Frame>) -> (r: (int, int, int, int))
    requires
        fs.len() > 0,
    ensures
        0 <= r.0 < fs.len() && left_edge(fs) == fs[r.0].origin.0,
        0 <= r.1 < fs.len() && top_edge(fs) == fs[r.1].origin.1,
        0 <= r.2 < fs.len() && right_edge(fs) == fs[r.2].origin.0 + fs[r.2].w,
        0 <= r.3 < fs.len() && bottom_edge(fs) == fs[r.3].origin.1 + fs[r.3].h,
    decreases fs.len(),
{
    let n = fs.len() - 1;
    if n == 0 {
        (0, 0, 0, 0)
    } else {
        let init = fs.drop_last();
        let (a, b, c, d) = lemma_edges_reached(init);
        let f = fs.last();
        (
            if (f.origin.0 as int) < left_edge(init) {
                n
            } else {
                a
            },
            if (f.origin.1 as int) < top_edge(init) {
                n
            } else {
                b
            },
            if f.origin.0 + f.w > right_edge(init) {
                n
            } else {
                c
            },
            if f.origin.1 + f.h > bottom_edge(init) {
                n
            } else {
                d
            },
        )
    }
}

/// A desktop is put together exactly where there is a display, neither side
/// is longer than a frame can be and there are at most sixty-four million
/// pixels; the first of these that fails is told.
pub proof fn law_desktops_that_are_put_together(fs: Seq<Frame>)
    ensures
        ({
            let wide = span_width(fs) > 0xffff_ffff;
            let high = span_height(fs) > 0xffff_ffff;
            let large = span_width(fs) * span_height(fs) > 64_000_000;
            &&& compose_error(fs) is None <==> fs.len() >= 1 && !wide && !high && !large
            &&& compose_error(fs) == Some(ComposeError::NoDisplays) <==> fs.len() == 0
            &&& compose_error(fs) == Some(ComposeError::TooWide) <==> fs.len() >= 1 && wide
            &&& compose_error(fs) == Some(ComposeError::TooHigh) <==> fs.len() >= 1 && !wide && high
            &&& compose_error(fs) == Some(ComposeError::TooLarge) <==> fs.len() >= 1 && !wide
                && !high && large
        }),
{
}

} // verus!
