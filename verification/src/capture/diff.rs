//! What changed between two frames.

use vstd::prelude::*;

use crate::capture::frame::Frame;
#[allow(unused_imports)]
use crate::capture::frame::{byte_place, byte_size, lemma_byte_place, scanned};

verus! {

/// How far two pixels may lie apart, over the three channels, and still count
/// as the same.
pub const TOLERANCE: u8 = 12;

/// A share of a whole, kept as two counts so that nothing is rounded.
#[derive(Debug, Clone, Copy, PartialEq, Eq, Structural)]
pub struct Share {
    pub part: u64,
    pub whole: u64,
}

/// The distance of two channel values.
pub open spec fn gap(a: u8, b: u8) -> int {
    if a >= b {
        a - b
    } else {
        b - a
    }
}

/// The distance of the pixels at one place of two frames.
pub open spec fn pixel_gap(a: Frame, b: Frame, x: int, y: int) -> int {
    let p = a.pixel(x, y);
    let q = b.pixel(x, y);
    gap(p.0, q.0) + gap(p.1, q.1) + gap(p.2, q.2)
}

/// Whether the frames differ at a place.
pub open spec fn differs(a: Frame, b: Frame, tol: int, x: int, y: int) -> bool {
    pixel_gap(a, b, x, y) > tol
}

/// How many of the first `n` pixels of a row differ.
pub open spec fn row_changes(a: Frame, b: Frame, tol: int, y: int, n: int) -> int
    decreases n,
{
    if n <= 0 {
        0
    } else {
        row_changes(a, b, tol, y, n - 1) + if differs(a, b, tol, n - 1, y) {
            1int
        } else {
            0int
        }
    }
}

/// How many pixels of the first `n` rows differ.
pub open spec fn changes(a: Frame, b: Frame, tol: int, n: int) -> int
    decreases n,
{
    if n <= 0 {
        0
    } else {
        changes(a, b, tol, n - 1) + row_changes(a, b, tol, n - 1, b.w as int)
    }
}

/// How many pixels differ between two frames of one size.
pub open spec fn change_count(a: Frame, b: Frame, tol: int) -> int {
    changes(a, b, tol, b.h as int)
}

/// Whether a place lies in a box.
pub open spec fn in_box(bx: (u32, u32, u32, u32), x: int, y: int) -> bool {
    bx.0 <= x < bx.0 + bx.2 && bx.1 <= y < bx.1 + bx.3
}

/// Whether a place of the frame differs.
pub open spec fn changed_at(a: Frame, b: Frame, tol: int, x: int, y: int) -> bool {
    0 <= x < b.w && 0 <= y < b.h && differs(a, b, tol, x, y)
}

/// The smallest box `(x, y, w, h)` around everything that differs: nothing that
/// differs lies outside it, and each of its four edges touches a difference.
pub open spec fn is_hull(a: Frame, b: Frame, tol: int, bx: (u32, u32, u32, u32)) -> bool {
    &&& forall|x: int, y: int| #[trigger]
        changed_at(a, b, tol, x, y) ==> in_box(bx, x, y)
    &&& exists|y: int| #[trigger] changed_at(a, b, tol, bx.0 as int, y)
    &&& exists|x: int| #[trigger] changed_at(a, b, tol, x, bx.1 as int)
    &&& exists|y: int| #[trigger] changed_at(a, b, tol, bx.0 + bx.2 - 1, y)
    &&& exists|x: int| #[trigger] changed_at(a, b, tol, x, bx.1 + bx.3 - 1)
}

proof fn lemma_row_bounds(a: Frame, b: Frame, tol: int, y: int, n: int)
    requires
        0 <= n,
    ensures
        0 <= row_changes(a, b, tol, y, n) <= n,
    decreases n,
{
    if n > 0 {
        lemma_row_bounds(a, b, tol, y, n - 1);
    }
}

proof fn lemma_change_bounds(a: Frame, b: Frame, tol: int, n: int)
    requires
        0 <= n,
    ensures
        0 <= changes(a, b, tol, n) <= n * b.w,
    decreases n,
{
    if n > 0 {
        lemma_change_bounds(a, b, tol, n - 1);
        lemma_row_bounds(a, b, tol, n - 1, b.w as int);
        assert((n - 1) * b.w + b.w == n * b.w) by (nonlinear_arith);
    } else {
        assert(0 * b.w == 0);
    }
}

fn channel_gap(a: u8, b: u8) -> (r: u16)
    ensures
        r == gap(a, b),
{
    if a >= b {
        (a - b) as u16
    } else {
        (b - a) as u16
    }
}

/// Bounding box of everything that changed, what share of the frame it is, and
/// how many pixels changed. One box, not a region list: a caller wants "look
/// here", and merging scattered boxes into their hull is both cheaper and
/// easier to act on. A frame of another size changed altogether.
#[verifier::loop_isolation(false)]
pub fn changed_box(a: &Frame, b: &Frame, tol: u8) -> (r: Option<(u32, u32, u32, u32, Share, u64)>)
    requires
        a.w == b.w && a.h == b.h ==> a.holds_pixels() && b.holds_pixels(),
    ensures
        a.w != b.w || a.h != b.h ==> match r {
            None => false,
            Some((x, y, w, h, share, pixels)) => {
                &&& (x, y, w, h) == (0u32, 0u32, b.w, b.h)
                &&& share == (Share { part: 1, whole: 1 })
                &&& pixels == b.w * b.h
            },
        },
        a.w == b.w && a.h == b.h ==> match r {
            None => change_count(*a, *b, tol as int) == 0,
            Some((x, y, w, h, share, pixels)) => {
                &&& pixels == change_count(*a, *b, tol as int)
                &&& pixels > 0
                &&& is_hull(*a, *b, tol as int, (x, y, w, h))
                &&& w > 0
                &&& h > 0
                &&& x + w <= b.w
                &&& y + h <= b.h
                &&& share.part == pixels
                &&& share.whole == b.w * b.h
            },
        },
{
    assert(b.w * b.h <= 0xffff_ffff * 0xffff_ffff) by (nonlinear_arith)
        requires
            0 <= b.w <= 0xffff_ffff,
            0 <= b.h <= 0xffff_ffff,
    ;
    let total: u64 = (b.w as u64) * (b.h as u64);
    if a.w != b.w || a.h != b.h {
        return Some((0, 0, b.w, b.h, Share { part: 1, whole: 1 }, total));
    }
    let ghost t = tol as int;
    let size: usize = b.rgb.len();
    let mut x0: u32 = u32::MAX;
    let mut y0: u32 = u32::MAX;
    let mut x1: u32 = 0;
    let mut y1: u32 = 0;
    let mut changed: u64 = 0;
    let mut y: u32 = 0;
    while y < b.h
        invariant
            y <= b.h,
            changed == changes(*a, *b, t, y as int),
            spans(*a, *b, t, (x0, y0, x1, y1), y as int, 0),
            changed > 0 ==> touches(*a, *b, t, (x0, y0, x1, y1)),
            changed == 0 ==> (x0, y0, x1, y1) == (u32::MAX, u32::MAX, 0u32, 0u32),
        decreases b.h - y,
    {
        let mut x: u32 = 0;
        while x < b.w
            invariant
                x <= b.w,
                y < b.h,
                changed == changes(*a, *b, t, y as int) + row_changes(*a, *b, t, y as int, x as int),
                spans(*a, *b, t, (x0, y0, x1, y1), y as int, x as int),
                changed > 0 ==> touches(*a, *b, t, (x0, y0, x1, y1)),
                changed == 0 ==> (x0, y0, x1, y1) == (u32::MAX, u32::MAX, 0u32, 0u32),
            decreases b.w - x,
        {
            proof {
                lemma_byte_place(b.w as int, b.h as int, x as int, y as int);
                lemma_change_bounds(*a, *b, t, y as int);
                lemma_row_bounds(*a, *b, t, y as int, x as int);
                assert(y * b.w + b.w <= b.h * b.w) by (nonlinear_arith)
                    requires
                        0 <= y < b.h,
                        0 <= b.w,
                ;
                assert(b.h * b.w == b.w * b.h) by (nonlinear_arith);
                assert(y * b.w + x <= size);
            }
            let i: usize = ((y as usize) * (b.w as usize) + (x as usize)) * 3;
            let d: u16 = channel_gap(a.rgb[i], b.rgb[i]) + channel_gap(a.rgb[i + 1], b.rgb[i + 1])
                + channel_gap(a.rgb[i + 2], b.rgb[i + 2]);
            assert(d == pixel_gap(*a, *b, x as int, y as int));
            let ghost old_box = (x0, y0, x1, y1);
            let ghost old_changed = changed;
            if d > tol as u16 {
                assert(changed_at(*a, *b, t, x as int, y as int));
                changed = changed + 1;
                if x < x0 {
                    x0 = x;
                }
                if y < y0 {
                    y0 = y;
                }
                if x > x1 {
                    x1 = x;
                }
                if y > y1 {
                    y1 = y;
                }
                proof {
                    lemma_widen(*a, *b, t, old_box, (x0, y0, x1, y1), old_changed > 0, x, y);
                }
            }
            x = x + 1;
        }
        y = y + 1;
    }
    if changed == 0 {
        return None;
    }
    proof {
        lemma_change_bounds(*a, *b, t, b.h as int);
        assert(b.h * b.w == b.w * b.h) by (nonlinear_arith);
        let bx = (x0, y0, (x1 - x0 + 1) as u32, (y1 - y0 + 1) as u32);
        assert forall|p: int, q: int| #[trigger] changed_at(*a, *b, t, p, q) implies in_box(
            bx,
            p,
            q,
        ) by {
            assert(scanned(0, b.h as int, p, q));
        }
        assert(bx.0 + bx.2 - 1 == x1 && bx.1 + bx.3 - 1 == y1);
        let right = choose|q: int| #[trigger] changed_at(*a, *b, t, x1 as int, q);
        assert(changed_at(*a, *b, t, bx.0 + bx.2 - 1, right));
        let bottom = choose|p: int| #[trigger] changed_at(*a, *b, t, p, y1 as int);
        assert(changed_at(*a, *b, t, bottom, bx.1 + bx.3 - 1));
        assert(is_hull(*a, *b, t, bx));
    }
    Some((x0, y0, x1 - x0 + 1, y1 - y0 + 1, Share { part: changed, whole: total }, changed))
}

/// Every difference that the scan has passed lies within the corners.
spec fn spans(a: Frame, b: Frame, tol: int, c: (u32, u32, u32, u32), cy: int, cx: int) -> bool {
    forall|x: int, y: int| #[trigger]
        changed_at(a, b, tol, x, y) && scanned(cx, cy, x, y) ==> c.0 <= x <= c.2 && c.1 <= y <= c.3
}

/// Each side of the corners touches a difference.
spec fn touches(a: Frame, b: Frame, tol: int, c: (u32, u32, u32, u32)) -> bool {
    &&& exists|y: int| #[trigger] changed_at(a, b, tol, c.0 as int, y)
    &&& exists|x: int| #[trigger] changed_at(a, b, tol, x, c.1 as int)
    &&& exists|y: int| #[trigger] changed_at(a, b, tol, c.2 as int, y)
    &&& exists|x: int| #[trigger] changed_at(a, b, tol, x, c.3 as int)
    &&& c.0 <= c.2 < b.w
    &&& c.1 <= c.3 < b.h
}

/// Corners that grow to take in one more difference still touch on each side.
proof fn lemma_widen(
    a: Frame,
    b: Frame,
    tol: int,
    c: (u32, u32, u32, u32),
    d: (u32, u32, u32, u32),
    any: bool,
    x: u32,
    y: u32,
)
    requires
        changed_at(a, b, tol, x as int, y as int),
        any ==> touches(a, b, tol, c),
        !any ==> c == (u32::MAX, u32::MAX, 0u32, 0u32),
        d.0 == if x < c.0 { x } else { c.0 },
        d.1 == if y < c.1 { y } else { c.1 },
        d.2 == if x > c.2 { x } else { c.2 },
        d.3 == if y > c.3 { y } else { c.3 },
    ensures
        touches(a, b, tol, d),
{
    if d.0 == x {
        assert(changed_at(a, b, tol, d.0 as int, y as int));
    }
    if d.1 == y {
        assert(changed_at(a, b, tol, x as int, d.1 as int));
    }
    if d.2 == x {
        assert(changed_at(a, b, tol, d.2 as int, y as int));
    }
    if d.3 == y {
        assert(changed_at(a, b, tol, x as int, d.3 as int));
    }
}

/// A region of the screen that changed.
#[derive(Debug, Clone, Copy, PartialEq, Eq, Structural)]
pub struct ChangedRegion {
    pub x: i32,
    pub y: i32,
    pub w: u32,
    pub h: u32,
    /// Share of the frame that differs.
    pub fraction: Share,
    pub pixels: u64,
}

/// Compare two captures. `None` when nothing moved.
///
/// Separate from the stateful observation, which owns a single previous frame:
/// this compares two frames a caller holds, which is what verifying one
/// specific action requires.
pub fn compare_frames(a: &Frame, b: &Frame) -> (r: Option<ChangedRegion>)
    requires
        a.w == b.w && a.h == b.h ==> a.holds_pixels() && b.holds_pixels() && b.on_screen(),
    ensures
        match r {
            None => a.w == b.w && a.h == b.h && change_count(*a, *b, TOLERANCE as int) == 0,
            Some(c) => is_change(*a, *b, c),
        },
        is_comparison(*a, *b, r),
{
    match changed_box(a, b, TOLERANCE) {
        None => None,
        Some((x, y, w, h, fraction, pixels)) => Some(
            ChangedRegion { x: b.origin.0 + x as i32, y: b.origin.1 + y as i32, w, h, fraction, pixels },
        ),
    }
}

/// What a comparison of two frames finds.
pub open spec fn is_comparison(a: Frame, b: Frame, r: Option<ChangedRegion>) -> bool {
    match r {
        None => a.w == b.w && a.h == b.h && change_count(a, b, TOLERANCE as int) == 0,
        Some(c) => is_change(a, b, c),
    }
}

/// Whether a region of the screen is what changed between two frames: all of
/// the later one where the size changed, and the hull of what differs where it
/// did not.
pub open spec fn is_change(a: Frame, b: Frame, c: ChangedRegion) -> bool {
    if a.w != b.w || a.h != b.h {
        &&& (c.x, c.y) == b.origin
        &&& (c.w, c.h) == (b.w, b.h)
        &&& c.fraction == (Share { part: 1, whole: 1 })
        &&& c.pixels == b.w * b.h
    } else {
        &&& b.origin.0 <= c.x && c.x - b.origin.0 + c.w <= b.w
        &&& b.origin.1 <= c.y && c.y - b.origin.1 + c.h <= b.h
        &&& is_hull(
            a,
            b,
            TOLERANCE as int,
            ((c.x - b.origin.0) as u32, (c.y - b.origin.1) as u32, c.w, c.h),
        )
        &&& c.pixels == change_count(a, b, TOLERANCE as int)
        &&& c.pixels > 0
        &&& c.fraction.part == c.pixels
        &&& c.fraction.whole == b.w * b.h
    }
}

proof fn lemma_row_zero(a: Frame, b: Frame, tol: int, y: int, n: int)
    requires
        0 <= n,
    ensures
        row_changes(a, b, tol, y, n) == 0 <==> forall|x: int|
            0 <= x < n ==> !#[trigger] differs(a, b, tol, x, y),
    decreases n,
{
    if n > 0 {
        lemma_row_zero(a, b, tol, y, n - 1);
        lemma_row_bounds(a, b, tol, y, n - 1);
        if row_changes(a, b, tol, y, n) == 0 {
            assert forall|x: int| 0 <= x < n implies !#[trigger] differs(a, b, tol, x, y) by {}
        } else if forall|x: int| 0 <= x < n ==> !#[trigger] differs(a, b, tol, x, y) {
            assert(!differs(a, b, tol, n - 1, y));
        }
    }
}

proof fn lemma_changes_zero(a: Frame, b: Frame, tol: int, n: int)
    requires
        0 <= n <= b.h,
    ensures
        changes(a, b, tol, n) == 0 <==> forall|x: int, y: int|
            0 <= y < n ==> !#[trigger] changed_at(a, b, tol, x, y),
    decreases n,
{
    if n > 0 {
        lemma_changes_zero(a, b, tol, n - 1);
        lemma_change_bounds(a, b, tol, n - 1);
        lemma_row_bounds(a, b, tol, n - 1, b.w as int);
        lemma_row_zero(a, b, tol, n - 1, b.w as int);
        if changes(a, b, tol, n) == 0 {
            assert forall|x: int, y: int| 0 <= y < n implies !#[trigger] changed_at(
                a,
                b,
                tol,
                x,
                y,
            ) by {
                if y == n - 1 && 0 <= x < b.w {
                    assert(!differs(a, b, tol, x, y));
                }
            }
        }
        if forall|x: int, y: int| 0 <= y < n ==> !#[trigger] changed_at(a, b, tol, x, y) {
            assert forall|x: int| 0 <= x < b.w implies !#[trigger] differs(a, b, tol, x, n - 1) by {
                assert(!changed_at(a, b, tol, x, n - 1));
            }
        }
    }
}

/// Nothing is counted exactly where nothing differs.
pub proof fn law_count_is_zero_iff_nothing_differs(a: Frame, b: Frame, tol: int)
    ensures
        change_count(a, b, tol) == 0 <==> forall|x: int, y: int|
            !#[trigger] changed_at(a, b, tol, x, y),
{
    lemma_changes_zero(a, b, tol, b.h as int);
    if change_count(a, b, tol) == 0 {
        assert forall|x: int, y: int| !#[trigger] changed_at(a, b, tol, x, y) by {}
    }
}

/// A frame does not differ from itself.
pub proof fn law_frame_equals_itself(f: Frame, tol: int)
    requires
        tol >= 0,
    ensures
        change_count(f, f, tol) == 0,
{
    law_count_is_zero_iff_nothing_differs(f, f, tol);
}

/// It makes no difference which of two frames of one size came first.
pub proof fn law_change_is_symmetric(a: Frame, b: Frame, tol: int, x: int, y: int)
    requires
        a.w == b.w,
        a.h == b.h,
    ensures
        changed_at(a, b, tol, x, y) == changed_at(b, a, tol, x, y),
        change_count(a, b, tol) == change_count(b, a, tol),
{
    lemma_changes_symmetric(a, b, tol, b.h as int);
}

proof fn lemma_rows_symmetric(a: Frame, b: Frame, tol: int, y: int, n: int)
    ensures
        row_changes(a, b, tol, y, n) == row_changes(b, a, tol, y, n),
    decreases n,
{
    if n > 0 {
        lemma_rows_symmetric(a, b, tol, y, n - 1);
    }
}

proof fn lemma_changes_symmetric(a: Frame, b: Frame, tol: int, n: int)
    requires
        a.w == b.w,
    ensures
        changes(a, b, tol, n) == changes(b, a, tol, n),
    decreases n,
{
    if n > 0 {
        lemma_changes_symmetric(a, b, tol, n - 1);
        lemma_rows_symmetric(a, b, tol, n - 1, b.w as int);
    }
}

/// A larger tolerance never sees more.
pub proof fn law_tolerance_only_hides(a: Frame, b: Frame, tol: int, more: int)
    requires
        tol <= more,
    ensures
        change_count(a, b, more) <= change_count(a, b, tol),
        forall|x: int, y: int|
            #[trigger] changed_at(a, b, more, x, y) ==> changed_at(a, b, tol, x, y),
{
    lemma_changes_tolerance(a, b, tol, more, b.h as int);
}

proof fn lemma_rows_tolerance(a: Frame, b: Frame, tol: int, more: int, y: int, n: int)
    requires
        tol <= more,
    ensures
        row_changes(a, b, more, y, n) <= row_changes(a, b, tol, y, n),
    decreases n,
{
    if n > 0 {
        lemma_rows_tolerance(a, b, tol, more, y, n - 1);
    }
}

proof fn lemma_changes_tolerance(a: Frame, b: Frame, tol: int, more: int, n: int)
    requires
        tol <= more,
    ensures
        changes(a, b, more, n) <= changes(a, b, tol, n),
    decreases n,
{
    if n > 0 {
        lemma_changes_tolerance(a, b, tol, more, n - 1);
        lemma_rows_tolerance(a, b, tol, more, n - 1, b.w as int);
    }
}

/// There is one smallest box around what differs.
pub proof fn law_hull_is_unique(
    a: Frame,
    b: Frame,
    tol: int,
    p: (u32, u32, u32, u32),
    q: (u32, u32, u32, u32),
)
    requires
        is_hull(a, b, tol, p),
        is_hull(a, b, tol, q),
    ensures
        p == q,
{
    lemma_hull_inside(a, b, tol, p, q);
    lemma_hull_inside(a, b, tol, q, p);
}

proof fn lemma_hull_inside(
    a: Frame,
    b: Frame,
    tol: int,
    p: (u32, u32, u32, u32),
    q: (u32, u32, u32, u32),
)
    requires
        is_hull(a, b, tol, p),
        is_hull(a, b, tol, q),
    ensures
        q.0 <= p.0,
        q.1 <= p.1,
        p.0 + p.2 <= q.0 + q.2,
        p.1 + p.3 <= q.1 + q.3,
{
    let y0 = choose|y: int| #[trigger] changed_at(a, b, tol, p.0 as int, y);
    assert(in_box(q, p.0 as int, y0));
    let x0 = choose|x: int| #[trigger] changed_at(a, b, tol, x, p.1 as int);
    assert(in_box(q, x0, p.1 as int));
    let y1 = choose|y: int| #[trigger] changed_at(a, b, tol, p.0 + p.2 - 1, y);
    assert(in_box(q, p.0 + p.2 - 1, y1));
    let x1 = choose|x: int| #[trigger] changed_at(a, b, tol, x, p.1 + p.3 - 1);
    assert(in_box(q, x1, p.1 + p.3 - 1));
}

/// How far two numbers lie apart.
pub open spec fn apart(a: int, b: int) -> int {
    if a < b {
        b - a
    } else {
        a - b
    }
}

/// How far the pixels of two images lie apart at a place, over the three
/// channels, by their bytes.
pub open spec fn bytes_apart(a: Seq<u8>, b: Seq<u8>, w: int, x: int, y: int) -> int {
    let i = 3 * (w * y + x);
    apart(a[i] as int, b[i] as int) + apart(a[i + 1] as int, b[i + 1] as int) + apart(
        a[i + 2] as int,
        b[i + 2] as int,
    )
}

/// A pixel has changed exactly where the distances of its three channels add
/// up to more than the tolerance. Each channel counts by itself: one that
/// moves further than the tolerance is enough.
pub proof fn law_each_channel_counts(a: Frame, b: Frame, tol: int, x: int, y: int)
    requires
        a.w == b.w,
        0 <= x < b.w,
        0 <= y < b.h,
        tol >= 0,
    ensures
        changed_at(a, b, tol, x, y) <==> bytes_apart(a.rgb@, b.rgb@, b.w as int, x, y) > tol,
        forall|c: int|
            0 <= c < 3 && #[trigger] apart(
                a.rgb@[3 * (b.w * y + x) + c] as int,
                b.rgb@[3 * (b.w * y + x) + c] as int,
            ) > tol ==> changed_at(a, b, tol, x, y),
{
    assert(y * b.w == b.w * y) by (nonlinear_arith);
    let i = 3 * (b.w * y + x);
    assert forall|c: int|
        0 <= c < 3 && #[trigger] apart(a.rgb@[i + c] as int, b.rgb@[i + c] as int)
            > tol implies changed_at(a, b, tol, x, y) by {
        assert(c == 0 || c == 1 || c == 2);
    }
}

proof fn lemma_row_one_more(a: Frame, b: Frame, c: Frame, tol: int, x: int, y: int, q: int, n: int)
    requires
        0 <= n <= b.w,
        b.w == c.w,
        b.h == c.h,
        0 <= q < b.h,
        changed_at(a, c, tol, x, y),
        !changed_at(a, b, tol, x, y),
        forall|i: int, j: int|
            (i, j) != (x, y) ==> #[trigger] changed_at(a, b, tol, i, j) == changed_at(
                a,
                c,
                tol,
                i,
                j,
            ),
    ensures
        row_changes(a, c, tol, q, n) == row_changes(a, b, tol, q, n) + if q == y && x < n {
            1int
        } else {
            0int
        },
    decreases n,
{
    if n > 0 {
        lemma_row_one_more(a, b, c, tol, x, y, q, n - 1);
        assert(changed_at(a, b, tol, n - 1, q) == differs(a, b, tol, n - 1, q));
        assert(changed_at(a, c, tol, n - 1, q) == differs(a, c, tol, n - 1, q));
    }
}

proof fn lemma_changes_one_more(a: Frame, b: Frame, c: Frame, tol: int, x: int, y: int, n: int)
    requires
        0 <= n <= b.h,
        b.w == c.w,
        b.h == c.h,
        changed_at(a, c, tol, x, y),
        !changed_at(a, b, tol, x, y),
        forall|i: int, j: int|
            (i, j) != (x, y) ==> #[trigger] changed_at(a, b, tol, i, j) == changed_at(
                a,
                c,
                tol,
                i,
                j,
            ),
    ensures
        changes(a, c, tol, n) == changes(a, b, tol, n) + if y < n {
            1int
        } else {
            0int
        },
    decreases n,
{
    if n > 0 {
        lemma_changes_one_more(a, b, c, tol, x, y, n - 1);
        lemma_row_one_more(a, b, c, tol, x, y, n - 1, b.w as int);
    }
}

/// Each pixel that changes counts once: a frame with one more changed pixel
/// than another, at whatever place, counts one more.
pub proof fn law_each_pixel_counts_once(a: Frame, b: Frame, c: Frame, tol: int, x: int, y: int)
    requires
        b.w == c.w,
        b.h == c.h,
        changed_at(a, c, tol, x, y),
        !changed_at(a, b, tol, x, y),
        forall|i: int, j: int|
            (i, j) != (x, y) ==> #[trigger] changed_at(a, b, tol, i, j) == changed_at(
                a,
                c,
                tol,
                i,
                j,
            ),
    ensures
        change_count(a, c, tol) == change_count(a, b, tol) + 1,
{
    lemma_changes_one_more(a, b, c, tol, x, y, b.h as int);
}

/// Where every pixel of a frame has changed, each is counted.
pub proof fn law_full_change_counts_every_pixel(a: Frame, b: Frame, tol: int)
    requires
        forall|x: int, y: int|
            0 <= x < b.w && 0 <= y < b.h ==> #[trigger] changed_at(a, b, tol, x, y),
    ensures
        change_count(a, b, tol) == b.w * b.h,
{
    lemma_full_rows(a, b, tol, b.h as int);
    assert(b.h * b.w == b.w * b.h) by (nonlinear_arith);
}

proof fn lemma_full_row(a: Frame, b: Frame, tol: int, y: int, n: int)
    requires
        0 <= n <= b.w,
        0 <= y < b.h,
        forall|i: int, j: int|
            0 <= i < b.w && 0 <= j < b.h ==> #[trigger] changed_at(a, b, tol, i, j),
    ensures
        row_changes(a, b, tol, y, n) == n,
    decreases n,
{
    if n > 0 {
        lemma_full_row(a, b, tol, y, n - 1);
        assert(changed_at(a, b, tol, n - 1, y));
    }
}

proof fn lemma_full_rows(a: Frame, b: Frame, tol: int, n: int)
    requires
        0 <= n <= b.h,
        forall|i: int, j: int|
            0 <= i < b.w && 0 <= j < b.h ==> #[trigger] changed_at(a, b, tol, i, j),
    ensures
        changes(a, b, tol, n) == n * b.w,
    decreases n,
{
    if n > 0 {
        lemma_full_rows(a, b, tol, n - 1);
        lemma_full_row(a, b, tol, n - 1, b.w as int);
        assert((n - 1) * b.w + b.w == n * b.w) by (nonlinear_arith);
    } else {
        assert(0 * b.w == 0);
    }
}

/// A comparison finds nothing exactly where the frames have one size and no
/// pixel moved by more than twelve over its channels.
pub proof fn law_nothing_found_means_nothing_moved(
    a: Frame,
    b: Frame,
    r: Option<ChangedRegion>,
)
    requires
        is_comparison(a, b, r),
    ensures
        r is None <==> a.w == b.w && a.h == b.h && forall|x: int, y: int|
            0 <= x < b.w && 0 <= y < b.h ==> #[trigger] bytes_apart(
                a.rgb@,
                b.rgb@,
                b.w as int,
                x,
                y,
            ) <= 12,
{
    law_count_is_zero_iff_nothing_differs(a, b, 12);
    if a.w == b.w && a.h == b.h {
        if change_count(a, b, 12) == 0 {
            assert forall|x: int, y: int| 0 <= x < b.w && 0 <= y < b.h implies
                #[trigger] bytes_apart(a.rgb@, b.rgb@, b.w as int, x, y) <= 12 by {
                law_each_channel_counts(a, b, 12, x, y);
                assert(!changed_at(a, b, 12, x, y));
            }
        } else {
            let (x, y) = choose|x: int, y: int| #[trigger] changed_at(a, b, 12, x, y);
            law_each_channel_counts(a, b, 12, x, y);
        }
    }
}

/// The region that a comparison finds holds every pixel that moved, in screen
/// coordinates, and is no larger than it has to be: whatever box holds them
/// all holds the region too. The share is what the pixels that moved are of
/// all.
pub proof fn law_region_frames_the_change(a: Frame, b: Frame, c: ChangedRegion)
    requires
        is_comparison(a, b, Some(c)),
        a.w == b.w,
        a.h == b.h,
    ensures
        forall|x: int, y: int|
            0 <= x < b.w && 0 <= y < b.h && #[trigger] bytes_apart(
                a.rgb@,
                b.rgb@,
                b.w as int,
                x,
                y,
            ) > 12 ==> {
                &&& c.x <= b.origin.0 + x < c.x + c.w
                &&& c.y <= b.origin.1 + y < c.y + c.h
            },
        forall|left: int, top: int, right: int, bottom: int|
            #![trigger around_changes(a, b, left, top, right, bottom)]
            around_changes(a, b, left, top, right, bottom) ==> {
                &&& left <= c.x && c.x + c.w <= right
                &&& top <= c.y && c.y + c.h <= bottom
            },
        c.pixels == change_count(a, b, 12),
        c.fraction.part == c.pixels,
        c.fraction.whole == b.w * b.h,
{
    let bx = ((c.x - b.origin.0) as u32, (c.y - b.origin.1) as u32, c.w, c.h);
    assert forall|x: int, y: int|
        0 <= x < b.w && 0 <= y < b.h && #[trigger] bytes_apart(a.rgb@, b.rgb@, b.w as int, x, y)
            > 12 implies {
        &&& c.x <= b.origin.0 + x < c.x + c.w
        &&& c.y <= b.origin.1 + y < c.y + c.h
    } by {
        law_each_channel_counts(a, b, 12, x, y);
        assert(in_box(bx, x, y));
    }
    assert forall|left: int, top: int, right: int, bottom: int|
        #![trigger around_changes(a, b, left, top, right, bottom)]
        around_changes(a, b, left, top, right, bottom) implies {
        &&& left <= c.x && c.x + c.w <= right
        &&& top <= c.y && c.y + c.h <= bottom
    } by {
        let y0 = choose|y: int| #[trigger] changed_at(a, b, 12, bx.0 as int, y);
        law_each_channel_counts(a, b, 12, bx.0 as int, y0);
        let x0 = choose|x: int| #[trigger] changed_at(a, b, 12, x, bx.1 as int);
        law_each_channel_counts(a, b, 12, x0, bx.1 as int);
        let y1 = choose|y: int| #[trigger] changed_at(a, b, 12, bx.0 + bx.2 - 1, y);
        law_each_channel_counts(a, b, 12, bx.0 + bx.2 - 1, y1);
        let x1 = choose|x: int| #[trigger] changed_at(a, b, 12, x, bx.1 + bx.3 - 1);
        law_each_channel_counts(a, b, 12, x1, bx.1 + bx.3 - 1);
    }
}

/// Whether a box on the screen holds every pixel that moved.
pub open spec fn around_changes(
    a: Frame,
    b: Frame,
    left: int,
    top: int,
    right: int,
    bottom: int,
) -> bool {
    forall|x: int, y: int|
        0 <= x < b.w && 0 <= y < b.h && #[trigger] bytes_apart(a.rgb@, b.rgb@, b.w as int, x, y)
            > 12 ==> {
            &&& left <= b.origin.0 + x < right
            &&& top <= b.origin.1 + y < bottom
        }
}

/// A frame of another size has changed altogether.
pub proof fn law_another_size_is_a_full_change(a: Frame, b: Frame, r: Option<ChangedRegion>)
    requires
        is_comparison(a, b, r),
        a.w != b.w || a.h != b.h,
    ensures
        r is Some,
        (r->0.x, r->0.y) == b.origin,
        (r->0.w, r->0.h) == (b.w, b.h),
        r->0.pixels == b.w * b.h,
        r->0.fraction.part == r->0.fraction.whole,
        r->0.fraction.whole > 0,
{
}

/// The box around what changed holds each place that changed, and lies within
/// every box that does.
pub proof fn law_hull_is_the_smallest_box(
    a: Frame,
    b: Frame,
    tol: int,
    bx: (u32, u32, u32, u32),
    left: int,
    top: int,
    right: int,
    bottom: int,
)
    requires
        is_hull(a, b, tol, bx),
        forall|x: int, y: int| #[trigger]
            changed_at(a, b, tol, x, y) ==> left <= x < right && top <= y < bottom,
    ensures
        forall|x: int, y: int| #[trigger]
            changed_at(a, b, tol, x, y) ==> bx.0 <= x < bx.0 + bx.2 && bx.1 <= y < bx.1 + bx.3,
        left <= bx.0,
        top <= bx.1,
        bx.0 + bx.2 <= right,
        bx.1 + bx.3 <= bottom,
{
    assert forall|x: int, y: int| #[trigger] changed_at(a, b, tol, x, y) implies bx.0 <= x < bx.0
        + bx.2 && bx.1 <= y < bx.1 + bx.3 by {
        assert(in_box(bx, x, y));
    }
    let y0 = choose|y: int| #[trigger] changed_at(a, b, tol, bx.0 as int, y);
    let x0 = choose|x: int| #[trigger] changed_at(a, b, tol, x, bx.1 as int);
    let y1 = choose|y: int| #[trigger] changed_at(a, b, tol, bx.0 + bx.2 - 1, y);
    let x1 = choose|x: int| #[trigger] changed_at(a, b, tol, x, bx.1 + bx.3 - 1);
    assert(changed_at(a, b, tol, bx.0 as int, y0) && changed_at(a, b, tol, x0, bx.1 as int));
    assert(changed_at(a, b, tol, bx.0 + bx.2 - 1, y1) && changed_at(
        a,
        b,
        tol,
        x1,
        bx.1 + bx.3 - 1,
    ));
}

} // verus!
