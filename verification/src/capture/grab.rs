//! Reading the desktop or one window: when not to, and what to make of the
//! bytes.

use vstd::prelude::*;
use vstd::string::*;

use crate::capture::frame::Frame;
#[allow(unused_imports)]
use crate::capture::frame::{byte_place, pixel_in};
use crate::strings::write_integer;
#[allow(unused_imports)]
use crate::strings::{begins_with, decimal_int};
use crate::uia::entity::Bounds;

verus! {

/// A call of the graphics interface that can run out of handles.
#[derive(Debug, Clone, Copy, PartialEq, Eq, Structural)]
pub enum Surface {
    Screen,
    Memory,
    Bitmap { w: i32, h: i32 },
}

/// Why nothing was captured.
#[derive(Debug, Clone, Copy, PartialEq, Eq, Structural)]
pub enum GrabError {
    /// The virtual screen has no area.
    NoDesktop { w: i32, h: i32 },
    /// A locked session captures the lock screen, a perfectly valid image
    /// that contains no application at all.
    Locked,
    WindowGone { hwnd: isize },
    /// The window has no area.
    NoArea { hwnd: isize, w: i32, h: i32 },
    /// The window does not render on demand.
    NotRendered { hwnd: isize },
    NoRows,
    /// Handles may have run out. Named for itself, so that it does not
    /// surface later under another call's name.
    NoSurface { surface: Surface },
}

/// A size in words.
pub open spec fn size_text(w: i32, h: i32) -> Seq<char> {
    decimal_int(w as int) + "x"@ + decimal_int(h as int)
}

/// What is said where nothing was captured.
pub open spec fn grab_message(e: GrabError) -> Seq<char> {
    match e {
        GrabError::NoDesktop { w, h } => "virtual screen is "@ + size_text(w, h)
            + " - almost certainly running in session 0, which has no desktop"@,
        GrabError::Locked =>
            "the session is locked - a capture here returns the lock screen, not the desktop. Unlock the machine, or expect UIA and OCR to see nothing."@,
        GrabError::WindowGone { hwnd } => "window "@ + decimal_int(hwnd as int)
            + " no longer exists"@,
        GrabError::NoArea { hwnd, w, h } => "window "@ + decimal_int(hwnd as int)
            + " has no area ("@ + size_text(w, h) + ")"@,
        GrabError::NotRendered { hwnd } => "PrintWindow failed for "@ + decimal_int(hwnd as int)
            + " - the window may not support rendering on demand"@,
        GrabError::NoRows => "GetDIBits returned no scanlines"@,
        GrabError::NoSurface { surface } => match surface {
            Surface::Screen => "GetDC failed"@,
            Surface::Memory => "CreateCompatibleDC failed - GDI handles may be exhausted"@,
            Surface::Bitmap { w, h } => "CreateCompatibleBitmap failed for "@ + size_text(w, h)
                + " - GDI handles or memory may be exhausted"@,
        },
    }
}

fn add_integer(out: &mut String, n: i64)
    ensures
        final(out)@ == old(out)@ + decimal_int(n as int),
{
    out.append(write_integer(n).as_str());
}

fn add_size(out: &mut String, w: i32, h: i32)
    ensures
        final(out)@ == old(out)@ + size_text(w, h),
{
    let ghost before = out@;
    add_integer(out, w as i64);
    out.append("x");
    add_integer(out, h as i64);
    assert(out@ =~= before + size_text(w, h));
}

impl GrabError {
    /// What is said.
    pub fn message(&self) -> (r: String)
        ensures
            r@ == grab_message(*self),
    {
        let mut out = String::new();
        match self {
            GrabError::NoDesktop { w, h } => {
                out.append("virtual screen is ");
                add_size(&mut out, *w, *h);
                out.append(" - almost certainly running in session 0, which has no desktop");
            },
            GrabError::Locked => {
                out.append(
                    "the session is locked - a capture here returns the lock screen, not the desktop. Unlock the machine, or expect UIA and OCR to see nothing.",
                );
            },
            GrabError::WindowGone { hwnd } => {
                out.append("window ");
                add_integer(&mut out, *hwnd as i64);
                out.append(" no longer exists");
            },
            GrabError::NoArea { hwnd, w, h } => {
                out.append("window ");
                add_integer(&mut out, *hwnd as i64);
                out.append(" has no area (");
                add_size(&mut out, *w, *h);
                out.append(")");
            },
            GrabError::NotRendered { hwnd } => {
                out.append("PrintWindow failed for ");
                add_integer(&mut out, *hwnd as i64);
                out.append(" - the window may not support rendering on demand");
            },
            GrabError::NoRows => {
                out.append("GetDIBits returned no scanlines");
            },
            GrabError::NoSurface { surface } => match surface {
                Surface::Screen => {
                    out.append("GetDC failed");
                },
                Surface::Memory => {
                    out.append("CreateCompatibleDC failed - GDI handles may be exhausted");
                },
                Surface::Bitmap { w, h } => {
                    out.append("CreateCompatibleBitmap failed for ");
                    add_size(&mut out, *w, *h);
                    out.append(" - GDI handles or memory may be exhausted");
                },
            },
        }
        assert(out@ =~= grab_message(*self));
        out
    }
}

/// What speaks against reading the desktop.
pub open spec fn screen_fault(area: Bounds, locked: bool) -> Option<GrabError> {
    if area.w <= 0 || area.h <= 0 {
        Some(GrabError::NoDesktop { w: area.w, h: area.h })
    } else if locked {
        Some(GrabError::Locked)
    } else {
        None
    }
}

/// Decides whether to read the desktop.
pub fn check_screen(area: Bounds, locked: bool) -> (r: Result<(), GrabError>)
    ensures
        match r {
            Ok(_) => screen_fault(area, locked) is None,
            Err(e) => screen_fault(area, locked) == Some(e),
        },
{
    if area.w <= 0 || area.h <= 0 {
        Err(GrabError::NoDesktop { w: area.w, h: area.h })
    } else if locked {
        Err(GrabError::Locked)
    } else {
        Ok(())
    }
}

/// What speaks against reading a window.
pub open spec fn window_fault(hwnd: isize, exists: bool, locked: bool, area: Bounds) -> Option<
    GrabError,
> {
    if !exists {
        Some(GrabError::WindowGone { hwnd })
    } else if locked {
        Some(GrabError::Locked)
    } else if area.w <= 0 || area.h <= 0 {
        Some(GrabError::NoArea { hwnd, w: area.w, h: area.h })
    } else {
        None
    }
}

/// Decides whether to read a window.
pub fn check_window(hwnd: isize, exists: bool, locked: bool, area: Bounds) -> (r: Result<
    (),
    GrabError,
>)
    ensures
        match r {
            Ok(_) => window_fault(hwnd, exists, locked, area) is None,
            Err(e) => window_fault(hwnd, exists, locked, area) == Some(e),
        },
{
    if !exists {
        Err(GrabError::WindowGone { hwnd })
    } else if locked {
        Err(GrabError::Locked)
    } else if area.w <= 0 || area.h <= 0 {
        Err(GrabError::NoArea { hwnd, w: area.w, h: area.h })
    } else {
        Ok(())
    }
}

/// What was read: how many rows, and the bytes of each pixel in the order
/// blue, green, red, unused.
#[derive(Debug)]
pub struct Scan {
    pub rows: i32,
    pub bgra: Vec<u8>,
}

/// The bytes in the order red, green, blue.
pub open spec fn reordered(bgra: Seq<u8>) -> Seq<u8> {
    Seq::new(
        (bgra.len() / 4 * 3) as nat,
        |i: int| bgra[i / 3 * 4 + 2 - i % 3],
    )
}

/// Puts the bytes of each pixel in the order red, green, blue.
pub fn rgb_of(bgra: &Vec<u8>) -> (r: Vec<u8>)
    ensures
        r@ == reordered(bgra@),
{
    let size: usize = bgra.len();
    let count: usize = size / 4;
    let mut out: Vec<u8> = Vec::new();
    for k in 0..count
        invariant
            size == bgra@.len(),
            count == size / 4,
            out@.len() == k * 3,
            forall|i: int| 0 <= i < k * 3 ==> #[trigger] out@[i] == bgra@[i / 3 * 4 + 2 - i % 3],
    {
        out.push(bgra[k * 4 + 2]);
        out.push(bgra[k * 4 + 1]);
        out.push(bgra[k * 4]);
    }
    assert(out@ =~= reordered(bgra@));
    out
}

/// Whether a scan holds the pixels of an area.
pub open spec fn scans(scan: Scan, area: Bounds) -> bool {
    area.w > 0 && area.h > 0 ==> scan.bgra@.len() == area.w * area.h * 4
}

/// Whether a frame shows what was read of an area. The place on the screen
/// travels with the frame.
pub open spec fn is_grabbed(f: Frame, area: Bounds, scan: Scan) -> bool {
    &&& f.w == area.w
    &&& f.h == area.h
    &&& f.origin == (area.x, area.y)
    &&& f.rgb@ == reordered(scan.bgra@)
    &&& f.exact()
}

/// The frame of the desktop, from what was read of it.
pub fn grab(area: Bounds, locked: bool, scan: &Scan) -> (r: Result<Frame, GrabError>)
    requires
        scans(*scan, area),
    ensures
        match screen_fault(area, locked) {
            Some(e) => r == Err::<Frame, GrabError>(e),
            None => if scan.rows == 0 {
                r == Err::<Frame, GrabError>(GrabError::NoRows)
            } else {
                r is Ok && is_grabbed(r->Ok_0, area, *scan)
            },
        },
{
    match check_screen(area, locked) {
        Err(e) => Err(e),
        Ok(_) => {
            if scan.rows == 0 {
                return Err(GrabError::NoRows);
            }
            proof {
                lemma_sizes(area.w as int, area.h as int);
            }
            Ok(
                Frame {
                    w: area.w as u32,
                    h: area.h as u32,
                    origin: (area.x, area.y),
                    rgb: rgb_of(&scan.bgra),
                },
            )
        },
    }
}

/// The frame of a window, from what it rendered.
pub fn capture_window(
    hwnd: isize,
    exists: bool,
    locked: bool,
    area: Bounds,
    rendered: bool,
    scan: &Scan,
) -> (r: Result<Frame, GrabError>)
    requires
        scans(*scan, area),
    ensures
        match window_fault(hwnd, exists, locked, area) {
            Some(e) => r == Err::<Frame, GrabError>(e),
            None => if !rendered {
                r == Err::<Frame, GrabError>(GrabError::NotRendered { hwnd })
            } else if scan.rows == 0 {
                r == Err::<Frame, GrabError>(GrabError::NoRows)
            } else {
                r is Ok && is_grabbed(r->Ok_0, area, *scan)
            },
        },
{
    match check_window(hwnd, exists, locked, area) {
        Err(e) => Err(e),
        Ok(_) => {
            if !rendered {
                return Err(GrabError::NotRendered { hwnd });
            }
            if scan.rows == 0 {
                return Err(GrabError::NoRows);
            }
            proof {
                lemma_sizes(area.w as int, area.h as int);
            }
            Ok(
                Frame {
                    w: area.w as u32,
                    h: area.h as u32,
                    origin: (area.x, area.y),
                    rgb: rgb_of(&scan.bgra),
                },
            )
        },
    }
}

proof fn lemma_sizes(w: int, h: int)
    requires
        w > 0,
        h > 0,
    ensures
        w * h * 4 / 4 * 3 == w * h * 3,
{
}

/// The frame of a scan shows at each place the colour that was read there.
pub proof fn law_scan_keeps_pixels(f: Frame, area: Bounds, scan: Scan, x: int, y: int)
    requires
        scans(scan, area),
        is_grabbed(f, area, scan),
        0 <= x < area.w,
        0 <= y < area.h,
    ensures
        f.pixel(x, y) == (
            scan.bgra@[(y * area.w + x) * 4 + 2],
            scan.bgra@[(y * area.w + x) * 4 + 1],
            scan.bgra@[(y * area.w + x) * 4],
        ),
{
    let p = y * area.w + x;
    assert(0 <= p < area.w * area.h) by (nonlinear_arith)
        requires
            0 <= x < area.w,
            0 <= y < area.h,
            p == y * area.w + x,
    ;
    lemma_sizes(area.w as int, area.h as int);
    let i = byte_place(f.w as int, x, y);
    assert(i == p * 3);
    assert(i / 3 == p && i % 3 == 0);
    assert((i + 1) / 3 == p && (i + 1) % 3 == 1);
    assert((i + 2) / 3 == p && (i + 2) % 3 == 2);
}

/// The desktop is read exactly where it has an area and the session is not
/// locked; a desktop without area is told before a lock is.
pub proof fn law_desktop_is_read_unless(area: Bounds, locked: bool)
    ensures
        screen_fault(area, locked) is None <==> area.w >= 1 && area.h >= 1 && !locked,
        screen_fault(area, locked) == Some(GrabError::Locked) <==> area.w >= 1 && area.h >= 1
            && locked,
        area.w < 1 || area.h < 1 ==> screen_fault(area, locked) == Some(
            GrabError::NoDesktop { w: area.w, h: area.h },
        ),
{
}

/// A window is read exactly where it is there, the session is not locked and
/// the window has an area; the first of these that fails is told.
pub proof fn law_window_is_read_unless(hwnd: isize, exists: bool, locked: bool, area: Bounds)
    ensures
        window_fault(hwnd, exists, locked, area) is None <==> exists && !locked && area.w >= 1
            && area.h >= 1,
        !exists ==> window_fault(hwnd, exists, locked, area) == Some(
            GrabError::WindowGone { hwnd },
        ),
        window_fault(hwnd, exists, locked, area) == Some(GrabError::Locked) <==> exists && locked,
        exists && !locked && (area.w < 1 || area.h < 1) ==> window_fault(
            hwnd,
            exists,
            locked,
            area,
        ) == Some(GrabError::NoArea { hwnd, w: area.w, h: area.h }),
{
}

/// A grabbed frame has the size of the area and stands where the area does.
pub proof fn law_grabbed_frame_stands_where_the_area_does(f: Frame, area: Bounds, scan: Scan)
    requires
        is_grabbed(f, area, scan),
    ensures
        f.w == area.w && f.h == area.h,
        f.origin.0 == area.x && f.origin.1 == area.y,
        f.rgb@.len() == 3 * (f.w * f.h),
{
}

/// Reordering gives three bytes for each whole pixel of four: its third, its
/// second and its first. The fourth is dropped, and no pixel moves.
pub proof fn law_reordering_turns_pixels_round(bgra: Seq<u8>, p: int)
    requires
        0 <= 4 * p,
        4 * p + 4 <= bgra.len(),
    ensures
        reordered(bgra)[3 * p] == bgra[4 * p + 2],
        reordered(bgra)[3 * p + 1] == bgra[4 * p + 1],
        reordered(bgra)[3 * p + 2] == bgra[4 * p],
        4 * reordered(bgra).len() <= 3 * bgra.len() < 4 * reordered(bgra).len() + 12,
{
    assert((3 * p) / 3 == p && (3 * p + 1) / 3 == p && (3 * p + 2) / 3 == p);
    assert((3 * p) % 3 == 0 && (3 * p + 1) % 3 == 1 && (3 * p + 2) % 3 == 2);
    assert(p + 1 <= bgra.len() / 4);
}

/// What is said where nothing was captured tells the size as width and height,
/// and the window by its handle.
pub proof fn law_failed_capture_tells_its_numbers(hwnd: isize, w: i32, h: i32)
    ensures
        begins_with(
            grab_message(GrabError::NoDesktop { w, h }),
            "virtual screen is "@ + decimal_int(w as int) + "x"@ + decimal_int(h as int),
        ),
        begins_with(
            grab_message(GrabError::NoArea { hwnd, w, h }),
            "window "@ + decimal_int(hwnd as int) + " has no area ("@ + decimal_int(w as int)
                + "x"@ + decimal_int(h as int),
        ),
        begins_with(
            grab_message(GrabError::WindowGone { hwnd }),
            "window "@ + decimal_int(hwnd as int) + " no longer exists"@,
        ),
        begins_with(
            grab_message(GrabError::NotRendered { hwnd }),
            "PrintWindow failed for "@ + decimal_int(hwnd as int),
        ),
        begins_with(
            grab_message(GrabError::NoSurface { surface: Surface::Bitmap { w, h } }),
            "CreateCompatibleBitmap failed for "@ + decimal_int(w as int) + "x"@ + decimal_int(
                h as int,
            ),
        ),
{
    let a = "virtual screen is "@ + decimal_int(w as int) + "x"@ + decimal_int(h as int);
    assert(grab_message(GrabError::NoDesktop { w, h }).take(a.len() as int) =~= a);
    let b = "window "@ + decimal_int(hwnd as int) + " has no area ("@ + decimal_int(w as int)
        + "x"@ + decimal_int(h as int);
    assert(grab_message(GrabError::NoArea { hwnd, w, h }).take(b.len() as int) =~= b);
    let c = grab_message(GrabError::WindowGone { hwnd });
    assert(c.take(c.len() as int) =~= c);
    let d = "PrintWindow failed for "@ + decimal_int(hwnd as int);
    assert(grab_message(GrabError::NotRendered { hwnd }).take(d.len() as int) =~= d);
    let e = "CreateCompatibleBitmap failed for "@ + decimal_int(w as int) + "x"@ + decimal_int(
        h as int,
    );
    assert(grab_message(GrabError::NoSurface { surface: Surface::Bitmap { w, h } }).take(
        e.len() as int,
    ) =~= e);
}

} // verus!
