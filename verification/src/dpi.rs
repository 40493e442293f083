//! Displays and display scaling.
//!
//! Everything this library returns is a coordinate, so a process has to say
//! that it is aware of scaling before it reads one: on a scaled display it is
//! otherwise told a virtualised coordinate space.

use vstd::prelude::*;

use crate::capture::diff::Share;
#[allow(unused_imports)]
use crate::strings::begins_with;

verus! {

/// The dots per inch of an unscaled display.
pub const BASE_DPI: u32 = 96;

/// The flag of a primary monitor.
pub const PRIMARY_FLAG: u32 = 1;

/// A display.
#[derive(Debug, Clone, Copy, PartialEq, Eq, Structural)]
pub struct Display {
    pub index: usize,
    /// Screen coordinates. The left and top of a secondary monitor placed to
    /// the left of the primary are negative.
    pub x: i32,
    pub y: i32,
    pub width: i32,
    pub height: i32,
    pub primary: bool,
    pub dpi: u32,
    /// The dots per inch over those of an unscaled display.
    pub scale: Share,
}

/// What a monitor says of itself: its corners, its flags and its dots per
/// inch.
#[derive(Debug, Clone, Copy, PartialEq, Eq, Structural)]
pub struct Monitor {
    pub left: i32,
    pub top: i32,
    pub right: i32,
    pub bottom: i32,
    pub flags: u32,
    pub dpi: u32,
}

/// Whether the sides of a monitor have a length.
pub open spec fn has_sides(m: Monitor) -> bool {
    i32::MIN <= m.right - m.left <= i32::MAX && i32::MIN <= m.bottom - m.top <= i32::MAX
}

/// The display that a monitor is, at a place in the list.
pub open spec fn display_of(m: Monitor, index: int) -> Display {
    Display {
        index: index as usize,
        x: m.left,
        y: m.top,
        width: (m.right - m.left) as i32,
        height: (m.bottom - m.top) as i32,
        primary: m.flags & PRIMARY_FLAG != 0,
        dpi: m.dpi,
        scale: Share { part: m.dpi as u64, whole: BASE_DPI as u64 },
    }
}

/// The displays that some monitors are, numbered in turn.
pub fn displays(monitors: &Vec<Monitor>) -> (r: Vec<Display>)
    requires
        forall|i: int| 0 <= i < monitors@.len() ==> has_sides(#[trigger] monitors@[i]),
    ensures
        r@.len() == monitors@.len(),
        forall|i: int| 0 <= i < r@.len() ==> #[trigger] r@[i] == display_of(monitors@[i], i),
{
    let mut out: Vec<Display> = Vec::new();
    for i in 0..monitors.len()
        invariant
            forall|j: int| 0 <= j < monitors@.len() ==> has_sides(#[trigger] monitors@[j]),
            out@.len() == i,
            forall|j: int| 0 <= j < i ==> #[trigger] out@[j] == display_of(monitors@[j], j),
    {
        let m = monitors[i];
        assert(has_sides(monitors@[i as int]));
        out.push(
            Display {
                index: i,
                x: m.left,
                y: m.top,
                width: m.right - m.left,
                height: m.bottom - m.top,
                primary: m.flags & PRIMARY_FLAG != 0,
                dpi: m.dpi,
                scale: Share { part: m.dpi as u64, whole: BASE_DPI as u64 },
            },
        );
    }
    out
}

/// What a process knows of display scaling.
#[derive(Debug, Clone, Copy, PartialEq, Eq, Structural)]
pub enum Awareness {
    PerMonitor,
    System,
    Unaware,
    /// A level that has no name here.
    Other,
    /// macOS, where everything is in desktop points.
    Points,
    /// A platform without the notion.
    Absent,
}

/// What is said of a level of awareness.
pub open spec fn awareness_label(a: Awareness) -> Seq<char> {
    match a {
        Awareness::PerMonitor => "per-monitor-aware"@,
        Awareness::System => "system-aware (coordinates wrong off the primary display)"@,
        Awareness::Unaware =>
            "UNAWARE (coordinates virtualised - every reported position is wrong when display scaling is not 100%)"@,
        Awareness::Other => "unknown"@,
        Awareness::Points => "desktop-points (capture normalized to one pixel per point)"@,
        Awareness::Absent => "n/a"@,
    }
}

/// What is said of the awareness that the process ended up with. Reported
/// rather than assumed: a claim that scaling is handled is worth nothing if
/// nothing checks it.
pub fn awareness(a: Awareness) -> (r: &'static str)
    ensures
        r@ == awareness_label(a),
{
    match a {
        Awareness::PerMonitor => "per-monitor-aware",
        Awareness::System => "system-aware (coordinates wrong off the primary display)",
        Awareness::Unaware =>
            "UNAWARE (coordinates virtualised - every reported position is wrong when display scaling is not 100%)",
        Awareness::Other => "unknown",
        Awareness::Points => "desktop-points (capture normalized to one pixel per point)",
        Awareness::Absent => "n/a",
    }
}

/// A display reaches from the left and top of its monitor to the right and
/// bottom, has the monitor's dots per inch and, over ninety-six, its scale, and
/// is the primary one exactly where the lowest flag is set.
pub proof fn law_display_spans_its_monitor(m: Monitor, index: int)
    requires
        has_sides(m),
        0 <= index <= usize::MAX,
    ensures
        ({
            let d = display_of(m, index);
            &&& d.index == index
            &&& d.x == m.left && d.x + d.width == m.right
            &&& d.y == m.top && d.y + d.height == m.bottom
            &&& d.primary <==> m.flags % 2 == 1
            &&& d.dpi == m.dpi
            &&& d.scale.part * 96 == m.dpi * d.scale.whole && d.scale.whole > 0
        }),
{
    let flags = m.flags;
    assert(flags & 1 != 0 <==> flags % 2 == 1) by (bit_vector);
}

/// The levels of awareness begin with their own words.
pub proof fn law_awareness_says_its_level()
    ensures
        begins_with(awareness_label(Awareness::PerMonitor), "per-monitor"@),
        begins_with(awareness_label(Awareness::System), "system"@),
        begins_with(awareness_label(Awareness::Unaware), "UNAWARE"@),
        begins_with(awareness_label(Awareness::Other), "unknown"@),
        begins_with(awareness_label(Awareness::Points), "desktop-points"@),
        begins_with(awareness_label(Awareness::Absent), "n/a"@),
{
    reveal_strlit("per-monitor");
    reveal_strlit("per-monitor-aware");
    assert(awareness_label(Awareness::PerMonitor).take("per-monitor"@.len() as int)
        =~= "per-monitor"@);
    reveal_strlit("system");
    reveal_strlit("system-aware (coordinates wrong off the primary display)");
    assert(awareness_label(Awareness::System).take("system"@.len() as int) =~= "system"@);
    reveal_strlit("UNAWARE");
    reveal_strlit(
        "UNAWARE (coordinates virtualised - every reported position is wrong when display scaling is not 100%)",
    );
    assert(awareness_label(Awareness::Unaware).take("UNAWARE"@.len() as int) =~= "UNAWARE"@);
    assert("unknown"@.take("unknown"@.len() as int) =~= "unknown"@);
    reveal_strlit("desktop-points");
    reveal_strlit("desktop-points (capture normalized to one pixel per point)");
    assert(awareness_label(Awareness::Points).take("desktop-points"@.len() as int)
        =~= "desktop-points"@);
    assert("n/a"@.take("n/a"@.len() as int) =~= "n/a"@);
}

} // verus!
