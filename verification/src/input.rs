//! Synthetic mouse and keyboard input.
//!
//! Everything else acts through control patterns: an invocation reaches a
//! control without stealing focus, moving the cursor, or requiring the window
//! to be on top. Input is the exception, for what has no pattern to invoke, so
//! what exactly is sent is settled here before anything is sent.

use vstd::prelude::*;
use vstd::string::*;

use crate::keys::Chord;
#[allow(unused_imports)]
use crate::keys::held;
use crate::strings::{write_decimal, write_integer};
#[allow(unused_imports)]
use crate::strings::{begins_with, decimal, decimal_int};

verus! {

/// A run of synthetic text is capped, for the same reason a run of chords is:
/// one call must not become an unbounded stream of input the user cannot stop.
/// Generous enough for a command line or a long path.
pub const MAX_TEXT_UNITS: usize = 2048;

/// The largest normalised coordinate.
pub const NORMAL_MAX: i32 = 65535;

/// `n / d` rounded to the nearest integer, halves away from zero.
pub open spec fn rounded(n: int, d: int) -> int {
    if n >= 0 {
        (2 * n + d) / (2 * d)
    } else {
        -((-2 * n + d) / (2 * d))
    }
}

/// `n`, or the nearer end of what `i32` holds.
pub open spec fn saturated(n: int) -> int {
    if n < i32::MIN {
        i32::MIN as int
    } else if n > i32::MAX {
        i32::MAX as int
    } else {
        n
    }
}

/// The number of steps between the first and the last coordinate of a span,
/// one for a span without any.
pub open spec fn span_steps(span: int) -> int {
    if span > 2 {
        span - 1
    } else {
        1
    }
}

/// Where a coordinate lies on the scale from 0 to 65535 that covers a span.
pub open spec fn normalized(v: int, origin: int, span: int) -> int {
    saturated(rounded((v - origin) * NORMAL_MAX, span_steps(span)))
}

/// Map a screen coordinate into a normalised 0..65535 space.
///
/// It is the only arithmetic here that can be wrong in a way nothing catches,
/// and it is the single place multi-monitor geometry is handled. `origin` is
/// negative when a monitor sits left of or above the primary.
pub fn to_normalized(v: i32, origin: i32, span: i32) -> (r: i32)
    requires
        i32::MIN <= v - origin <= i32::MAX,
        span > i32::MIN,
    ensures
        r == normalized(v as int, origin as int, span as int),
{
    let n: i64 = ((v - origin) as i64) * 65535;
    let d: i64 = if span - 1 > 1 {
        (span - 1) as i64
    } else {
        1
    };
    let size: i64 = if n >= 0 {
        n
    } else {
        -n
    };
    proof {
        assert(0 <= (2 * size + d) / (2 * d) <= 2 * size + d) by (nonlinear_arith)
            requires
                d >= 1,
                size >= 0,
        ;
    }
    let whole: i64 = (2 * size + d) / (2 * d);
    let q: i64 = if n >= 0 {
        whole
    } else {
        -whole
    };
    if q < i32::MIN as i64 {
        i32::MIN
    } else if q > i32::MAX as i64 {
        i32::MAX
    } else {
        q as i32
    }
}

/// The rectangle that all displays together span.
#[derive(Debug, Clone, Copy, PartialEq, Eq, Structural)]
pub struct VirtualScreen {
    pub x: i32,
    pub y: i32,
    pub w: i32,
    pub h: i32,
}

/// What the mouse does.
#[derive(Debug, Clone, Copy, PartialEq, Eq, Structural)]
pub enum MouseStep {
    Move,
    Press,
    Release,
}

/// One mouse event at a normalised coordinate.
#[derive(Debug, Clone, Copy, PartialEq, Eq, Structural)]
pub struct MouseEvent {
    pub nx: i32,
    pub ny: i32,
    pub step: MouseStep,
}

/// Why a click was not sent.
#[derive(Debug, Clone, Copy, PartialEq, Eq, Structural)]
pub enum ClickError {
    /// There is no desktop to click on.
    NoDesktop { w: i32, h: i32 },
    /// The point lies outside the desktop.
    Outside { x: i32, y: i32, screen: VirtualScreen },
}

/// Whether a point lies on the screen.
pub open spec fn on_screen(s: VirtualScreen, x: int, y: int) -> bool {
    s.x <= x < s.x + s.w && s.y <= y < s.y + s.h
}

/// What is said of a click that was not sent.
pub open spec fn click_message(e: ClickError) -> Seq<char> {
    match e {
        ClickError::NoDesktop { w, h } => "virtual screen is "@ + decimal_int(w as int) + "x"@
            + decimal_int(h as int) + " - no desktop to click on (session 0?)"@,
        ClickError::Outside { x, y, screen } => "("@ + decimal_int(x as int) + ","@ + decimal_int(
            y as int,
        ) + ") is outside the virtual desktop ("@ + decimal_int(screen.x as int) + ","@
            + decimal_int(screen.y as int) + " "@ + decimal_int(screen.w as int) + "x"@
            + decimal_int(screen.h as int) + ")"@,
    }
}

impl ClickError {
    /// The failure in words.
    pub fn message(&self) -> (r: String)
        ensures
            r@ == click_message(*self),
    {
        let mut out = String::new();
        match self {
            ClickError::NoDesktop { w, h } => {
                out.append("virtual screen is ");
                out.append(write_integer(*w as i64).as_str());
                out.append("x");
                out.append(write_integer(*h as i64).as_str());
                out.append(" - no desktop to click on (session 0?)");
            },
            ClickError::Outside { x, y, screen } => {
                out.append("(");
                out.append(write_integer(*x as i64).as_str());
                out.append(",");
                out.append(write_integer(*y as i64).as_str());
                out.append(") is outside the virtual desktop (");
                out.append(write_integer(screen.x as i64).as_str());
                out.append(",");
                out.append(write_integer(screen.y as i64).as_str());
                out.append(" ");
                out.append(write_integer(screen.w as i64).as_str());
                out.append("x");
                out.append(write_integer(screen.h as i64).as_str());
                out.append(")");
            },
        }
        assert(out@ =~= click_message(*self));
        out
    }
}

/// The events of one click at a screen coordinate: move, press, release, to be
/// sent as one batch. Sending them separately lets other input interleave
/// between the move and the press, which is how a click lands somewhere the
/// caller never asked for.
pub fn click_at(x: i32, y: i32, screen: VirtualScreen) -> (r: Result<Vec<MouseEvent>, ClickError>)
    ensures
        match r {
            Err(ClickError::NoDesktop { w, h }) => {
                &&& screen.w <= 0 || screen.h <= 0
                &&& (w, h) == (screen.w, screen.h)
            },
            Err(ClickError::Outside { x: ex, y: ey, screen: s }) => {
                &&& screen.w > 0 && screen.h > 0
                &&& !on_screen(screen, x as int, y as int)
                &&& (ex, ey, s) == (x, y, screen)
            },
            Ok(events) => {
                let nx = normalized(x as int, screen.x as int, screen.w as int);
                let ny = normalized(y as int, screen.y as int, screen.h as int);
                &&& screen.w > 0 && screen.h > 0
                &&& on_screen(screen, x as int, y as int)
                &&& events@ == seq![
                    MouseEvent { nx: nx as i32, ny: ny as i32, step: MouseStep::Move },
                    MouseEvent { nx: nx as i32, ny: ny as i32, step: MouseStep::Press },
                    MouseEvent { nx: nx as i32, ny: ny as i32, step: MouseStep::Release },
                ]
            },
        },
{
    if screen.w <= 0 || screen.h <= 0 {
        return Err(ClickError::NoDesktop { w: screen.w, h: screen.h });
    }
    if x < screen.x || y < screen.y || x as i64 >= screen.x as i64 + screen.w as i64 || y as i64
        >= screen.y as i64 + screen.h as i64 {
        return Err(ClickError::Outside { x, y, screen });
    }
    let nx: i32 = to_normalized(x, screen.x, screen.w);
    let ny: i32 = to_normalized(y, screen.y, screen.h);
    let events = vec![
        MouseEvent { nx, ny, step: MouseStep::Move },
        MouseEvent { nx, ny, step: MouseStep::Press },
        MouseEvent { nx, ny, step: MouseStep::Release },
    ];
    assert(events@ =~= seq![
        MouseEvent { nx, ny, step: MouseStep::Move },
        MouseEvent { nx, ny, step: MouseStep::Press },
        MouseEvent { nx, ny, step: MouseStep::Release },
    ]);
    Ok(events)
}

/// What a batch of events carries.
#[derive(Debug, Clone, Copy, PartialEq, Eq, Structural)]
pub enum Batch {
    Mouse,
    Keys,
    Text,
}

/// A batch of which the system took only a part.
#[derive(Debug, Clone, Copy, PartialEq, Eq, Structural)]
pub struct SendError {
    pub batch: Batch,
    pub sent: u32,
    pub events: usize,
}

/// What is said of a batch of which the system took only a part.
pub open spec fn send_message(e: SendError) -> Seq<char> {
    "SendInput accepted "@ + decimal(e.sent as nat) + " of "@ + decimal(e.events as nat)
        + match e.batch {
        Batch::Mouse => " events - blocked by UIPI?"@,
        Batch::Keys => " keyboard events"@,
        Batch::Text =>
            " keyboard events - blocked by UIPI? A window running elevated cannot be typed into from this process."@,
    }
}

impl SendError {
    /// The failure in words.
    pub fn message(&self) -> (r: String)
        ensures
            r@ == send_message(*self),
    {
        let mut out = String::new();
        out.append("SendInput accepted ");
        out.append(write_decimal(self.sent as u64).as_str());
        out.append(" of ");
        out.append(write_decimal(self.events as u64).as_str());
        match self.batch {
            Batch::Mouse => {
                out.append(" events - blocked by UIPI?");
            },
            Batch::Keys => {
                out.append(" keyboard events");
            },
            Batch::Text => {
                out.append(
                    " keyboard events - blocked by UIPI? A window running elevated cannot be typed into from this process.",
                );
            },
        }
        assert(out@ =~= send_message(*self));
        out
    }
}

/// Checks that the system took every event of a batch.
pub fn check_sent(batch: Batch, sent: u32, events: usize) -> (r: Result<(), SendError>)
    ensures
        r == if sent == events {
            Ok::<(), SendError>(())
        } else {
            Err(SendError { batch, sent, events })
        },
{
    if sent as u64 == events as u64 {
        Ok(())
    } else {
        Err(SendError { batch, sent, events })
    }
}

/// One key going down or up.
#[derive(Debug, Clone, Copy, PartialEq, Eq, Structural)]
pub struct KeyStroke {
    pub key: u16,
    pub up: bool,
}

/// The strokes that press the keys of a list, in order.
pub open spec fn presses(keys: Seq<u16>) -> Seq<KeyStroke> {
    keys.map_values(|k: u16| KeyStroke { key: k, up: false })
}

/// The strokes that release the keys of a list, in order.
pub open spec fn releases(keys: Seq<u16>) -> Seq<KeyStroke> {
    keys.map_values(|k: u16| KeyStroke { key: k, up: true })
}

/// The strokes of a chord: the modifiers go down, the key goes down and up, and
/// the modifiers come up in reverse order.
pub open spec fn chord_strokes(c: Chord) -> Seq<KeyStroke> {
    presses(held(c)) + seq![
        KeyStroke { key: c.key, up: false },
        KeyStroke { key: c.key, up: true },
    ] + releases(held(c).reverse())
}

/// The strokes of some chords, one chord after another.
pub open spec fn all_strokes(cs: Seq<Chord>) -> Seq<KeyStroke>
    decreases cs.len(),
{
    if cs.len() == 0 {
        Seq::<KeyStroke>::empty()
    } else {
        all_strokes(cs.drop_last()) + chord_strokes(cs.last())
    }
}

fn push_strokes(out: &mut Vec<KeyStroke>, c: &Chord)
    ensures
        final(out)@ == old(out)@ + chord_strokes(*c),
{
    let ghost start = out@;
    let mods = c.modifiers();
    for i in 0..mods.len()
        invariant
            mods@ == held(*c),
            out@ == start + presses(held(*c).take(i as int)),
    {
        out.push(KeyStroke { key: mods[i], up: false });
        assert(out@ =~= start + presses(held(*c).take(i + 1)));
    }
    assert(held(*c).take(mods@.len() as int) =~= held(*c));
    out.push(KeyStroke { key: c.key, up: false });
    out.push(KeyStroke { key: c.key, up: true });
    let ghost middle = out@;
    let ghost back = held(*c).reverse();
    let mut left: usize = mods.len();
    while left > 0
        invariant
            left <= mods@.len(),
            mods@ == held(*c),
            back == held(*c).reverse(),
            out@ == middle + releases(back.take(mods@.len() - left)),
        decreases left,
    {
        left = left - 1;
        out.push(KeyStroke { key: mods[left], up: true });
        assert(back[mods@.len() - left - 1] == mods@[left as int]);
        assert(out@ =~= middle + releases(back.take(mods@.len() - left)));
    }
    assert(back.take(mods@.len() as int) =~= back);
    assert(out@ =~= start + chord_strokes(*c));
}

/// The strokes that send some chords, as one batch, so nothing can interleave
/// between a modifier press and the key it modifies.
pub fn key_strokes(chords: &Vec<Chord>) -> (r: Vec<KeyStroke>)
    ensures
        r@ == all_strokes(chords@),
{
    let mut out: Vec<KeyStroke> = Vec::new();
    for i in 0..chords.len()
        invariant
            out@ == all_strokes(chords@.take(i as int)),
    {
        push_strokes(&mut out, &chords[i]);
        assert(chords@.take(i + 1).drop_last() =~= chords@.take(i as int));
    }
    assert(chords@.take(chords@.len() as int) =~= chords@);
    out
}

/// The UTF-16 code units of a character.
pub open spec fn char_units(c: char) -> Seq<u16> {
    if (c as int) < 0x10000 {
        seq![c as u16]
    } else {
        seq![
            (0xD800 + (c as int - 0x10000) / 0x400) as u16,
            (0xDC00 + (c as int - 0x10000) % 0x400) as u16,
        ]
    }
}

/// The UTF-16 code units of a text.
pub open spec fn units_of(s: Seq<char>) -> Seq<u16>
    decreases s.len(),
{
    if s.len() == 0 {
        Seq::<u16>::empty()
    } else {
        units_of(s.drop_last()) + char_units(s.last())
    }
}

/// Why a text was not sent.
#[derive(Debug, Clone, Copy, PartialEq, Eq, Structural)]
pub enum TextError {
    Empty,
    TooLong { units: usize },
}

/// What is said of a text that was not sent.
pub open spec fn text_message(e: TextError) -> Seq<char> {
    match e {
        TextError::Empty => "no text to send"@,
        TextError::TooLong { units } => decimal(units as nat)
            + " UTF-16 code units in one call; 2048 is the limit"@,
    }
}

impl TextError {
    /// The failure in words.
    pub fn message(&self) -> (r: String)
        ensures
            r@ == text_message(*self),
    {
        let mut out = String::new();
        match self {
            TextError::Empty => {
                out.append("no text to send");
            },
            TextError::TooLong { units } => {
                out.append(write_decimal(*units as u64).as_str());
                out.append(" UTF-16 code units in one call; 2048 is the limit");
            },
        }
        assert(out@ =~= text_message(*self));
        out
    }
}

/// The code units of a character.
pub fn encode_char(c: char) -> (r: Vec<u16>)
    ensures
        r@ == char_units(c),
{
    let code: u32 = c as u32;
    let mut out: Vec<u16> = Vec::new();
    if code < 0x10000 {
        out.push(code as u16);
    } else {
        let rest: u32 = code - 0x10000;
        out.push((0xD800 + rest / 0x400) as u16);
        out.push((0xDC00 + rest % 0x400) as u16);
    }
    assert(out@ =~= char_units(c));
    out
}

/// The code units of a text, at most as many as a vector can hold.
pub fn encode_text(s: &str) -> (r: Vec<u16>)
    ensures
        r@ == units_of(s@),
{
    let mut out: Vec<u16> = Vec::new();
    for c in it: s.chars()
        invariant
            it.seq() == s@,
            out@ == units_of(s@.take(it.index() as int)),
    {
        let mut units = encode_char(c);
        out.append(&mut units);
        assert(s@.take(it.index() + 1).drop_last() =~= s@.take(it.index() as int));
    }
    assert(s@.take(s@.len() as int) =~= s@);
    out
}

/// The UTF-16 code units a string will be sent as, or an error if there are
/// too many.
///
/// A character outside the Basic Multilingual Plane is *two* code units, and
/// sending only the first delivers a lone surrogate rather than the character.
pub fn text_units(s: &str) -> (r: Result<Vec<u16>, TextError>)
    ensures
        match r {
            Ok(units) => {
                &&& units@ == units_of(s@)
                &&& s@.len() > 0
                &&& units@.len() <= MAX_TEXT_UNITS
            },
            Err(TextError::Empty) => s@.len() == 0,
            Err(TextError::TooLong { units }) => {
                &&& units == units_of(s@).len()
                &&& units > MAX_TEXT_UNITS
            },
        },
        r is Ok <==> s@.len() > 0 && units_of(s@).len() <= 2048,
{
    proof {
        law_units_stand_for_text(s@);
    }
    if s.is_empty() {
        return Err(TextError::Empty);
    }
    let units = encode_text(s);
    if units.len() > MAX_TEXT_UNITS {
        return Err(TextError::TooLong { units: units.len() });
    }
    Ok(units)
}

/// One code unit going down or up.
#[derive(Debug, Clone, Copy, PartialEq, Eq, Structural)]
pub struct UnitStroke {
    pub unit: u16,
    pub up: bool,
}

/// The strokes of some code units: each goes down and up before the next, so
/// the halves of a surrogate pair stay adjacent and in order.
pub open spec fn unit_pairs(units: Seq<u16>) -> Seq<UnitStroke> {
    Seq::new(units.len() * 2, |i: int| UnitStroke { unit: units[i / 2], up: i % 2 == 1 })
}

/// The strokes that send some code units.
pub fn unit_strokes(units: &Vec<u16>) -> (r: Vec<UnitStroke>)
    ensures
        r@ == unit_pairs(units@),
{
    let mut out: Vec<UnitStroke> = Vec::new();
    for i in 0..units.len()
        invariant
            out@ == unit_pairs(units@.take(i as int)),
    {
        out.push(UnitStroke { unit: units[i], up: false });
        out.push(UnitStroke { unit: units[i], up: true });
        assert(out@ =~= unit_pairs(units@.take(i + 1)));
    }
    assert(units@.take(units@.len() as int) =~= units@);
    out
}

proof fn lemma_rounded_monotone(a: int, b: int, d: int)
    requires
        a <= b,
        d > 0,
    ensures
        rounded(a, d) <= rounded(b, d),
{
    if a >= 0 {
        vstd::arithmetic::div_mod::lemma_div_is_ordered(2 * a + d, 2 * b + d, 2 * d);
    } else if b < 0 {
        vstd::arithmetic::div_mod::lemma_div_is_ordered(-2 * b + d, -2 * a + d, 2 * d);
    } else {
        vstd::arithmetic::div_mod::lemma_div_pos_is_pos(2 * b + d, 2 * d);
        vstd::arithmetic::div_mod::lemma_div_pos_is_pos(-2 * a + d, 2 * d);
    }
}

proof fn lemma_rounded_whole(k: int, d: int)
    requires
        d > 0,
        k >= 0,
    ensures
        rounded(k * d, d) == k,
{
    assert(k * d >= 0) by (nonlinear_arith)
        requires
            k >= 0,
            d > 0,
    ;
    assert(2 * (k * d) + d == k * (2 * d) + d) by (nonlinear_arith);
    vstd::arithmetic::div_mod::lemma_fundamental_div_mod_converse(
        2 * (k * d) + d,
        2 * d,
        k,
        d,
    );
}

/// A point further right or down never maps further left or up.
pub proof fn law_mapping_is_monotone(a: int, b: int, origin: int, span: int)
    requires
        a <= b,
    ensures
        normalized(a, origin, span) <= normalized(b, origin, span),
{
    assert((a - origin) * NORMAL_MAX <= (b - origin) * NORMAL_MAX) by (nonlinear_arith)
        requires
            a <= b,
            NORMAL_MAX == 65535,
    ;
    lemma_rounded_monotone(
        (a - origin) * NORMAL_MAX,
        (b - origin) * NORMAL_MAX,
        span_steps(span),
    );
}

/// The ends of a span map to the ends of the range, wherever the span begins.
pub proof fn law_ends_map_to_ends(origin: int, span: int)
    requires
        span >= 1,
    ensures
        normalized(origin, origin, span) == 0,
        span >= 2 ==> normalized(origin + span - 1, origin, span) == NORMAL_MAX,
{
    let d = span_steps(span);
    assert(0 * d == 0) by (nonlinear_arith);
    lemma_rounded_whole(0, d);
    if span >= 2 {
        assert((span - 1) * NORMAL_MAX == NORMAL_MAX * d) by (nonlinear_arith)
            requires
                d == span - 1,
        ;
        lemma_rounded_whole(NORMAL_MAX as int, d);
    }
}

/// A point of a span maps into the range.
pub proof fn law_points_map_into_range(v: int, origin: int, span: int)
    requires
        origin <= v < origin + span,
    ensures
        0 <= normalized(v, origin, span) <= NORMAL_MAX,
{
    law_ends_map_to_ends(origin, span);
    law_mapping_is_monotone(origin, v, origin, span);
    law_mapping_is_monotone(v, origin + span - 1, origin, span);
}

/// Where the range has room for every point of a span, no two points map to
/// one.
pub proof fn law_points_stay_apart(a: int, b: int, origin: int, span: int)
    requires
        origin <= a < b < origin + span,
        span <= 65536,
    ensures
        normalized(a, origin, span) < normalized(b, origin, span),
{
    let d = span_steps(span);
    let x = (a - origin) * NORMAL_MAX;
    let y = (b - origin) * NORMAL_MAX;
    assert(0 <= x && x + d <= y) by (nonlinear_arith)
        requires
            x == (a - origin) * 65535,
            y == (b - origin) * 65535,
            origin <= a < b,
            d <= 65535,
    ;
    vstd::arithmetic::div_mod::lemma_div_is_ordered(2 * x + d + 2 * d, 2 * y + d, 2 * d);
    vstd::arithmetic::div_mod::lemma_div_plus_one(2 * x + d, 2 * d);
    law_points_map_into_range(a, origin, span);
    law_points_map_into_range(b, origin, span);
    assert(rounded(x, d) < rounded(y, d));
    assert(rounded(x, d) >= 0) by {
        vstd::arithmetic::div_mod::lemma_div_pos_is_pos(2 * x + d, 2 * d);
    }
    assert(rounded(y, d) <= NORMAL_MAX) by {
        let last = (span - 1) * NORMAL_MAX;
        assert(y <= last) by (nonlinear_arith)
            requires
                y == (b - origin) * 65535,
                last == (span - 1) * 65535,
                b - origin <= span - 1,
        ;
        assert(last == NORMAL_MAX * d) by (nonlinear_arith)
            requires
                last == (span - 1) * NORMAL_MAX,
                d == span - 1,
        ;
        lemma_rounded_whole(NORMAL_MAX as int, d);
        lemma_rounded_monotone(y, last, d);
    }
}

/// The keys that are down after some strokes, the last one pressed last;
/// `None` where a key comes up that was not the last one to go down.
pub open spec fn after_strokes(strokes: Seq<KeyStroke>, down: Seq<u16>) -> Option<Seq<u16>>
    decreases strokes.len(),
{
    if strokes.len() == 0 {
        Some(down)
    } else {
        match after_strokes(strokes.drop_last(), down) {
            None => None,
            Some(now) => if !strokes.last().up {
                Some(now.push(strokes.last().key))
            } else if now.len() > 0 && now.last() == strokes.last().key {
                Some(now.drop_last())
            } else {
                None
            },
        }
    }
}

proof fn lemma_strokes_in_turn(a: Seq<KeyStroke>, b: Seq<KeyStroke>, down: Seq<u16>)
    ensures
        after_strokes(a + b, down) == match after_strokes(a, down) {
            None => None,
            Some(now) => after_strokes(b, now),
        },
    decreases b.len(),
{
    if b.len() == 0 {
        assert(a + b =~= a);
    } else {
        assert((a + b).drop_last() =~= a + b.drop_last());
        lemma_strokes_in_turn(a, b.drop_last(), down);
    }
}

proof fn lemma_presses(keys: Seq<u16>, down: Seq<u16>)
    ensures
        after_strokes(presses(keys), down) == Some(down + keys),
    decreases keys.len(),
{
    if keys.len() == 0 {
        assert(down + keys =~= down);
    } else {
        assert(presses(keys).drop_last() =~= presses(keys.drop_last()));
        lemma_presses(keys.drop_last(), down);
        assert(down + keys =~= (down + keys.drop_last()).push(keys.last()));
    }
}

proof fn lemma_releases(keys: Seq<u16>, down: Seq<u16>)
    ensures
        after_strokes(releases(keys.reverse()), down + keys) == Some(down),
    decreases keys.len(),
{
    let back = keys.reverse();
    if keys.len() == 0 {
        assert(down + keys =~= down);
    } else {
        let init = keys.drop_last();
        let first = seq![KeyStroke { key: keys.last(), up: true }];
        assert(releases(back) =~= first + releases(init.reverse()));
        lemma_strokes_in_turn(first, releases(init.reverse()), down + keys);
        assert(first.drop_last() =~= Seq::<KeyStroke>::empty());
        assert((down + keys).drop_last() =~= down + init);
        assert((down + keys).last() == keys.last());
        assert(after_strokes(Seq::<KeyStroke>::empty(), down + keys) == Some(down + keys));
        assert(after_strokes(first, down + keys) == Some(down + init));
        lemma_releases(init, down);
    }
}

proof fn lemma_chord_is_nested(c: Chord, down: Seq<u16>)
    ensures
        after_strokes(chord_strokes(c), down) == Some(down),
{
    let mods = held(c);
    let key = seq![KeyStroke { key: c.key, up: false }, KeyStroke { key: c.key, up: true }];
    lemma_presses(mods, down);
    lemma_strokes_in_turn(presses(mods), key, down);
    let now = down + mods;
    assert(key.drop_last() =~= seq![KeyStroke { key: c.key, up: false }]);
    assert(key.drop_last().drop_last() =~= Seq::<KeyStroke>::empty());
    assert(after_strokes(Seq::<KeyStroke>::empty(), now) == Some(now));
    assert(after_strokes(key.drop_last(), now) == Some(now.push(c.key)));
    assert(now.push(c.key).drop_last() =~= now);
    assert(after_strokes(key, now) == Some(now));
    lemma_strokes_in_turn(presses(mods) + key, releases(mods.reverse()), down);
    lemma_releases(mods, down);
}

/// The strokes of some chords are well nested: no key comes up while one that
/// went down after it is still down, so a modifier never lets go before the
/// key it modifies, and in the end nothing is left down.
pub proof fn law_strokes_are_nested(cs: Seq<Chord>)
    ensures
        after_strokes(all_strokes(cs), Seq::<u16>::empty()) == Some(Seq::<u16>::empty()),
    decreases cs.len(),
{
    if cs.len() > 0 {
        law_strokes_are_nested(cs.drop_last());
        lemma_strokes_in_turn(
            all_strokes(cs.drop_last()),
            chord_strokes(cs.last()),
            Seq::<u16>::empty(),
        );
        lemma_chord_is_nested(cs.last(), Seq::<u16>::empty());
    }
}

/// Whether a code unit is the first half of a pair.
pub open spec fn is_first_half(u: u16) -> bool {
    0xD800 <= u <= 0xDBFF
}

/// Whether a code unit is the second half of a pair.
pub open spec fn is_second_half(u: u16) -> bool {
    0xDC00 <= u <= 0xDFFF
}

/// The character of a pair of halves.
pub open spec fn paired(first: u16, second: u16) -> char {
    (0x10000 + (first - 0xD800) * 0x400 + (second - 0xDC00)) as char
}

/// The text that some code units stand for; `None` where a half stands alone.
pub open spec fn decoded_units(units: Seq<u16>) -> Option<Seq<char>>
    decreases units.len(),
{
    if units.len() == 0 {
        Some(Seq::<char>::empty())
    } else if is_second_half(units.last()) {
        if units.len() >= 2 && is_first_half(units[units.len() - 2]) {
            match decoded_units(units.drop_last().drop_last()) {
                Some(s) => Some(s.push(paired(units[units.len() - 2], units.last()))),
                None => None,
            }
        } else {
            None
        }
    } else if is_first_half(units.last()) {
        None
    } else {
        match decoded_units(units.drop_last()) {
            Some(s) => Some(s.push(units.last() as char)),
            None => None,
        }
    }
}

proof fn lemma_char_range(c: char)
    ensures
        0 <= c as int <= 0xD7FF || 0xE000 <= c as int <= 0x10FFFF,
{
}

/// The code units that a text is sent as stand for that text: no character is
/// lost, and no half of a pair is sent alone.
pub proof fn law_units_stand_for_text(s: Seq<char>)
    ensures
        decoded_units(units_of(s)) == Some(s),
        s.len() <= units_of(s).len() <= 2 * s.len(),
    decreases s.len(),
{
    if s.len() == 0 {
        assert(s =~= Seq::<char>::empty());
    } else {
        let init = s.drop_last();
        let c = s.last();
        law_units_stand_for_text(init);
        let units = units_of(s);
        assert(init.push(c) =~= s);
        lemma_char_range(c);
        if (c as int) < 0x10000 {
            assert(units.drop_last() =~= units_of(init));
            assert(units.last() == c as u16);
            assert(units.last() as char == c);
        } else {
            let d = c as int - 0x10000;
            assert(0 <= d <= 0xFFFFF);
            assert(0 <= d / 0x400 <= 0x3FF);
            assert(units.drop_last().drop_last() =~= units_of(init));
            let first = (0xD800 + d / 0x400) as u16;
            let second = (0xDC00 + d % 0x400) as u16;
            assert(units[units.len() - 2] == first && units.last() == second);
            assert(first - 0xD800 == d / 0x400 && second - 0xDC00 == d % 0x400);
            assert((d / 0x400) * 0x400 + d % 0x400 == d);
            assert(paired(first, second) == c);
        }
    }
}

proof fn lemma_rounded_is_nearest(n: int, d: int)
    requires
        d > 0,
    ensures
        n >= 0 ==> -d < 2 * (rounded(n, d) * d - n) <= d,
        n < 0 ==> -d <= 2 * (rounded(n, d) * d - n) < d,
{
    let m = if n >= 0 {
        n
    } else {
        -n
    };
    let t = 2 * m + d;
    let q = t / (2 * d);
    vstd::arithmetic::div_mod::lemma_fundamental_div_mod(t, 2 * d);
    vstd::arithmetic::div_mod::lemma_mod_bound(t, 2 * d);
    assert(2 * (q * d) == (2 * d) * q) by (nonlinear_arith);
    assert(rounded(n, d) == if n >= 0 {
        q
    } else {
        -q
    });
    assert((-q) * d == -(q * d)) by (nonlinear_arith);
}

/// A coordinate maps to the number that is nearest to its share of the range,
/// and from halfway between two to the one further from zero; only what does
/// not fit is cut to the largest or the smallest number there is. The share is
/// taken of the way from the first to the last coordinate of the span.
pub proof fn law_coordinate_maps_to_the_nearest(v: int, origin: int, span: int)
    ensures
        ({
            let last = if span >= 2 {
                span - 1
            } else {
                1
            };
            let share = (v - origin) * 65535;
            let n = normalized(v, origin, span);
            &&& i32::MIN <= n <= i32::MAX
            &&& n < i32::MAX && share >= 0 ==> -last < 2 * (n * last - share) <= last
            &&& n > i32::MIN && share < 0 ==> -last <= 2 * (n * last - share) < last
            &&& n == i32::MAX ==> 2 * (n * last - share) <= last
            &&& n == i32::MIN ==> -last <= 2 * (n * last - share)
        }),
{
    let d = span_steps(span);
    let share = (v - origin) * NORMAL_MAX;
    let q = rounded(share, d);
    let n = saturated(q);
    lemma_rounded_is_nearest(share, d);
    if share >= 0 {
        vstd::arithmetic::div_mod::lemma_div_pos_is_pos(2 * share + d, 2 * d);
    } else {
        vstd::arithmetic::div_mod::lemma_div_pos_is_pos(-2 * share + d, 2 * d);
    }
    assert(n <= q ==> n * d <= q * d) by (nonlinear_arith)
        requires
            d > 0,
    ;
    assert(n >= q ==> n * d >= q * d) by (nonlinear_arith)
        requires
            d > 0,
    ;
}

/// A click is taken on exactly the points that the screen has: as many columns
/// from its left edge on as it is wide, and as many rows from its top as it is
/// high.
pub proof fn law_screen_has_its_points(s: VirtualScreen, dx: int, dy: int)
    ensures
        on_screen(s, s.x + dx, s.y + dy) <==> 0 <= dx < s.w && 0 <= dy < s.h,
{
}

/// Some chords and then some more are sent as the strokes of the first and then
/// those of the others; none is sent for no chord.
pub proof fn law_chords_are_sent_in_turn(a: Seq<Chord>, b: Seq<Chord>)
    ensures
        all_strokes(a + b) == all_strokes(a) + all_strokes(b),
        all_strokes(Seq::<Chord>::empty()) == Seq::<KeyStroke>::empty(),
    decreases b.len(),
{
    if b.len() == 0 {
        assert(a + b =~= a);
        assert(all_strokes(a) + all_strokes(b) =~= all_strokes(a));
    } else {
        assert((a + b).drop_last() =~= a + b.drop_last());
        assert((a + b).last() == b.last());
        law_chords_are_sent_in_turn(a, b.drop_last());
        assert(all_strokes(a + b) =~= all_strokes(a) + all_strokes(b));
    }
}

/// The key of a chord goes down once, when exactly the modifiers of the chord
/// are down, in their order, and comes up at once; each modifier goes down
/// before it and comes up after it.
pub proof fn law_key_goes_down_under_its_modifiers(c: Chord, i: int)
    ensures
        ({
            let strokes = all_strokes(seq![c]);
            let n = held(c).len() as int;
            &&& strokes.len() == 2 * n + 2
            &&& after_strokes(strokes.take(n), Seq::<u16>::empty()) == Some(held(c))
            &&& strokes[n] == (KeyStroke { key: c.key, up: false })
            &&& strokes[n + 1] == (KeyStroke { key: c.key, up: true })
            &&& 0 <= i < n ==> {
                &&& strokes[i] == (KeyStroke { key: held(c)[i], up: false })
                &&& strokes[2 * n + 1 - i] == (KeyStroke { key: held(c)[i], up: true })
            }
        }),
{
    let one = seq![c];
    assert(one.drop_last() =~= Seq::<Chord>::empty());
    assert(all_strokes(Seq::<Chord>::empty()) =~= Seq::<KeyStroke>::empty());
    let strokes = all_strokes(one);
    let n = held(c).len() as int;
    assert(strokes =~= chord_strokes(c));
    assert(strokes.take(n) =~= presses(held(c)));
    lemma_presses(held(c), Seq::<u16>::empty());
    assert(Seq::<u16>::empty() + held(c) =~= held(c));
    if 0 <= i < n {
        assert(held(c).reverse()[n - 1 - i] == held(c)[i]);
    }
}

/// A text and then another are encoded as the code units of the one and then
/// of the other, and a character takes two of them exactly where it lies
/// outside the Basic Multilingual Plane.
pub proof fn law_text_is_encoded_in_turn(a: Seq<char>, b: Seq<char>, c: char)
    ensures
        units_of(a + b) == units_of(a) + units_of(b),
        units_of(seq![c]).len() == if c as int >= 0x10000 {
            2int
        } else {
            1
        },
    decreases b.len(),
{
    assert(seq![c].drop_last() =~= Seq::<char>::empty());
    assert(units_of(Seq::<char>::empty()) =~= Seq::<u16>::empty());
    if b.len() == 0 {
        assert(a + b =~= a);
        assert(units_of(a) + units_of(b) =~= units_of(a));
    } else {
        assert((a + b).drop_last() =~= a + b.drop_last());
        assert((a + b).last() == b.last());
        law_text_is_encoded_in_turn(a, b.drop_last(), c);
        assert(units_of(a + b) =~= units_of(a) + units_of(b));
    }
}

/// Each code unit goes down and comes up before the next.
pub proof fn law_units_go_down_and_up_in_turn(units: Seq<u16>, i: int)
    requires
        0 <= i < units.len(),
    ensures
        unit_pairs(units).len() == 2 * units.len(),
        unit_pairs(units)[2 * i] == (UnitStroke { unit: units[i], up: false }),
        unit_pairs(units)[2 * i + 1] == (UnitStroke { unit: units[i], up: true }),
{
}

/// What is said of a click, of a batch or of a text that was not sent tells the
/// size or the point, how many events were taken out of how many, or the number
/// of code units.
pub proof fn law_failure_tells_the_numbers(
    w: i32,
    h: i32,
    x: i32,
    y: i32,
    screen: VirtualScreen,
    e: SendError,
    units: usize,
)
    ensures
        begins_with(
            click_message(ClickError::NoDesktop { w, h }),
            "virtual screen is "@ + decimal_int(w as int) + "x"@ + decimal_int(h as int),
        ),
        begins_with(
            click_message(ClickError::Outside { x, y, screen }),
            "("@ + decimal_int(x as int) + ","@ + decimal_int(y as int)
                + ") is outside the virtual desktop ("@ + decimal_int(screen.x as int) + ","@
                + decimal_int(screen.y as int) + " "@ + decimal_int(screen.w as int) + "x"@
                + decimal_int(screen.h as int),
        ),
        begins_with(
            send_message(e),
            "SendInput accepted "@ + decimal(e.sent as nat) + " of "@ + decimal(e.events as nat),
        ),
        begins_with(text_message(TextError::TooLong { units }), decimal(units as nat)),
{
    let a = "virtual screen is "@ + decimal_int(w as int) + "x"@ + decimal_int(h as int);
    assert(click_message(ClickError::NoDesktop { w, h }).take(a.len() as int) =~= a);
    let b = "("@ + decimal_int(x as int) + ","@ + decimal_int(y as int)
        + ") is outside the virtual desktop ("@ + decimal_int(screen.x as int) + ","@ + decimal_int(
        screen.y as int,
    ) + " "@ + decimal_int(screen.w as int) + "x"@ + decimal_int(screen.h as int);
    assert(click_message(ClickError::Outside { x, y, screen }).take(b.len() as int) =~= b);
    let c = "SendInput accepted "@ + decimal(e.sent as nat) + " of "@ + decimal(e.events as nat);
    assert(send_message(e).take(c.len() as int) =~= c);
    let d = decimal(units as nat);
    assert(text_message(TextError::TooLong { units }).take(d.len() as int) =~= d);
}

} // verus!
