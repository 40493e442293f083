//! Parsing key specifications into virtual-key chords.
//!
//! A key is pressed by name, so the parser is where a typing mistake either
//! becomes an error or becomes the wrong keystroke. Whatever it cannot read
//! without guessing it refuses.

use vstd::prelude::*;
use vstd::string::*;

use crate::strings::{
    chars_of, find_last, lower, quoted, read_unsigned, same, same_chars, slice_of, split,
    split_words, string_of, trim, write_decimal,
};
#[allow(unused_imports)]
use crate::strings::{
    law_decimal_reads_back, lemma_last_place, lemma_last_place_in, lemma_lower_char,
    lemma_lowered_last_place, lemma_lowered_pieces, lemma_lowered_trimmed,
    free_of, is_space, lemma_lowered_twice, lemma_lowered_words, lemma_pieces_begin,
    lemma_pieces_one, lemma_trim_back_after, lemma_trim_back_twice, lemma_trims_commute,
    lowered_rows, trim_back, trim_front,
};
#[allow(unused_imports)]
use crate::strings::{
    begins_with, char_rows, debug_text, decimal, in_range, last_place, lowered, pieces, trimmed, unsigned_read,
    words,
};

verus! {

pub const VK_BACK: u16 = 0x08;

pub const VK_TAB: u16 = 0x09;

pub const VK_RETURN: u16 = 0x0D;

pub const VK_SHIFT: u16 = 0x10;

pub const VK_CONTROL: u16 = 0x11;

/// Alt.
pub const VK_MENU: u16 = 0x12;

pub const VK_ESCAPE: u16 = 0x1B;

pub const VK_SPACE: u16 = 0x20;

/// Page Up.
pub const VK_PRIOR: u16 = 0x21;

/// Page Down.
pub const VK_NEXT: u16 = 0x22;

pub const VK_END: u16 = 0x23;

pub const VK_HOME: u16 = 0x24;

pub const VK_LEFT: u16 = 0x25;

pub const VK_UP: u16 = 0x26;

pub const VK_RIGHT: u16 = 0x27;

pub const VK_DOWN: u16 = 0x28;

pub const VK_DELETE: u16 = 0x2E;

pub const VK_LWIN: u16 = 0x5B;

pub const VK_OEM_PLUS: u16 = 0xBB;

pub const VK_OEM_MINUS: u16 = 0xBD;

pub const VK_F1: u16 = 0x70;

/// The most keystrokes that one call may send, so that a call cannot become an
/// unbounded stream of synthetic input.
pub const MAX_CHORDS: usize = 32;

/// One keystroke: zero or more held modifiers plus the key they modify.
#[derive(Debug, Clone, Copy, PartialEq, Eq, Structural)]
pub struct Chord {
    pub ctrl: bool,
    pub shift: bool,
    pub alt: bool,
    pub win: bool,
    pub key: u16,
}

/// A key held while another is pressed.
#[derive(Debug, Clone, Copy, PartialEq, Eq, Structural)]
pub enum Modifier {
    Ctrl,
    Shift,
    Alt,
    Win,
}

/// Why a key specification was refused.
#[derive(Debug)]
pub enum KeyError {
    /// Nothing but white space.
    Empty,
    /// An empty segment among the modifiers.
    EmptyModifier { spec: String },
    /// A modifier that has no meaning.
    UnknownModifier { name: String, spec: String },
    /// Modifiers with nothing to modify.
    NoKey { spec: String },
    /// A character whose place differs between keyboard layouts.
    NoLayoutCode { key: String },
    /// A key that has no meaning.
    UnknownKey { key: String, spec: String },
    /// A sequence without a key in it.
    NoKeys { spec: String },
    /// A sequence longer than one call may send.
    TooMany { count: usize },
}

/// A [`KeyError`] with the characters of its strings.
pub enum KeyFault {
    Empty,
    EmptyModifier { spec: Seq<char> },
    UnknownModifier { name: Seq<char>, spec: Seq<char> },
    NoKey { spec: Seq<char> },
    NoLayoutCode { key: Seq<char> },
    UnknownKey { key: Seq<char>, spec: Seq<char> },
    NoKeys { spec: Seq<char> },
    TooMany { count: nat },
}

impl View for KeyError {
    type V = KeyFault;

    open spec fn view(&self) -> KeyFault {
        match *self {
            KeyError::Empty => KeyFault::Empty,
            KeyError::EmptyModifier { spec } => KeyFault::EmptyModifier { spec: spec@ },
            KeyError::UnknownModifier { name, spec } => KeyFault::UnknownModifier {
                name: name@,
                spec: spec@,
            },
            KeyError::NoKey { spec } => KeyFault::NoKey { spec: spec@ },
            KeyError::NoLayoutCode { key } => KeyFault::NoLayoutCode { key: key@ },
            KeyError::UnknownKey { key, spec } => KeyFault::UnknownKey { key: key@, spec: spec@ },
            KeyError::NoKeys { spec } => KeyFault::NoKeys { spec: spec@ },
            KeyError::TooMany { count } => KeyFault::TooMany { count: count as nat },
        }
    }
}

/// What a refusal says.
pub open spec fn fault_message(f: KeyFault) -> Seq<char> {
    match f {
        KeyFault::Empty => "empty key specification"@,
        KeyFault::EmptyModifier { spec } => "empty modifier in "@ + debug_text(spec),
        KeyFault::UnknownModifier { name, spec } => "unknown modifier "@ + debug_text(name)
            + " in "@ + debug_text(spec),
        KeyFault::NoKey { spec } => debug_text(spec) + " has modifiers but no key"@,
        KeyFault::NoLayoutCode { key } => debug_text(key)
            + " has no virtual-key code that is the same on every keyboard layout, so `key` will not guess one. Use action 'type_keys' to send it as text."@,
        KeyFault::UnknownKey { key, spec } => "unknown key "@ + debug_text(key) + " in "@
            + debug_text(spec),
        KeyFault::NoKeys { spec } => "no keys in "@ + debug_text(spec),
        KeyFault::TooMany { count } => decimal(count)
            + " keystrokes in one call; 32 is the limit"@,
    }
}

impl KeyError {
    /// The refusal in words.
    pub fn message(&self) -> (r: String)
        ensures
            r@ == fault_message(self@),
    {
        let mut out = String::new();
        match self {
            KeyError::Empty => {
                out.append("empty key specification");
            },
            KeyError::EmptyModifier { spec } => {
                out.append("empty modifier in ");
                out.append(quoted(spec.as_str()).as_str());
            },
            KeyError::UnknownModifier { name, spec } => {
                out.append("unknown modifier ");
                out.append(quoted(name.as_str()).as_str());
                out.append(" in ");
                out.append(quoted(spec.as_str()).as_str());
            },
            KeyError::NoKey { spec } => {
                out.append(quoted(spec.as_str()).as_str());
                out.append(" has modifiers but no key");
            },
            KeyError::NoLayoutCode { key } => {
                out.append(quoted(key.as_str()).as_str());
                out.append(
                    " has no virtual-key code that is the same on every keyboard layout, so `key` will not guess one. Use action 'type_keys' to send it as text.",
                );
            },
            KeyError::UnknownKey { key, spec } => {
                out.append("unknown key ");
                out.append(quoted(key.as_str()).as_str());
                out.append(" in ");
                out.append(quoted(spec.as_str()).as_str());
            },
            KeyError::NoKeys { spec } => {
                out.append("no keys in ");
                out.append(quoted(spec.as_str()).as_str());
            },
            KeyError::TooMany { count } => {
                out.append(write_decimal(*count as u64).as_str());
                out.append(" keystrokes in one call; 32 is the limit");
            },
        }
        assert(out@ =~= fault_message(self@));
        out
    }
}

/// The modifiers of a chord in the order in which they are pressed.
pub open spec fn held(c: Chord) -> Seq<u16> {
    let ctrl = if c.ctrl { seq![VK_CONTROL] } else { seq![] };
    let alt = if c.alt { seq![VK_MENU] } else { seq![] };
    let shift = if c.shift { seq![VK_SHIFT] } else { seq![] };
    let win = if c.win { seq![VK_LWIN] } else { seq![] };
    ctrl + alt + shift + win
}

impl Chord {
    /// The modifiers to press before the key and release after, outermost
    /// first. Order matters on release: releasing a modifier before the key it
    /// modifies can deliver a different keystroke to the application.
    pub fn modifiers(&self) -> (m: Vec<u16>)
        ensures
            m@ == held(*self),
    {
        let mut m: Vec<u16> = Vec::new();
        if self.ctrl {
            m.push(VK_CONTROL);
        }
        if self.alt {
            m.push(VK_MENU);
        }
        if self.shift {
            m.push(VK_SHIFT);
        }
        if self.win {
            m.push(VK_LWIN);
        }
        assert(m@ =~= held(*self));
        m
    }
}

/// The code of a key by its name in small letters. `F1` to `F24` are
/// contiguous.
pub open spec fn small_name_code(k: Seq<char>) -> Option<u16> {
    if k == "enter"@ || k == "return"@ {
        Some(VK_RETURN)
    } else if k == "tab"@ {
        Some(VK_TAB)
    } else if k == "esc"@ || k == "escape"@ {
        Some(VK_ESCAPE)
    } else if k == "space"@ {
        Some(VK_SPACE)
    } else if k == "backspace"@ || k == "back"@ {
        Some(VK_BACK)
    } else if k == "delete"@ || k == "del"@ {
        Some(VK_DELETE)
    } else if k == "home"@ {
        Some(VK_HOME)
    } else if k == "end"@ {
        Some(VK_END)
    } else if k == "pageup"@ || k == "pgup"@ {
        Some(VK_PRIOR)
    } else if k == "pagedown"@ || k == "pgdn"@ {
        Some(VK_NEXT)
    } else if k == "up"@ {
        Some(VK_UP)
    } else if k == "down"@ {
        Some(VK_DOWN)
    } else if k == "left"@ {
        Some(VK_LEFT)
    } else if k == "right"@ {
        Some(VK_RIGHT)
    } else if k == "plus"@ || k == "+"@ {
        Some(VK_OEM_PLUS)
    } else if k == "minus"@ || k == "-"@ {
        Some(VK_OEM_MINUS)
    } else if k.len() > 0 && k[0] == 'f' {
        match in_range(unsigned_read(k.drop_first()), 1, 24) {
            Some(n) => Some((VK_F1 + n - 1) as u16),
            None => None,
        }
    } else {
        None
    }
}

/// The code of a key by its name, in capitals or small letters.
pub open spec fn name_code(k: Seq<char>) -> Option<u16> {
    small_name_code(lowered(k))
}

fn named_chars(k: &Vec<char>) -> (r: Option<u16>)
    ensures
        r == name_code(k@),
{
    let k = lower(k);
    if same(&k, "enter") || same(&k, "return") {
        Some(VK_RETURN)
    } else if same(&k, "tab") {
        Some(VK_TAB)
    } else if same(&k, "esc") || same(&k, "escape") {
        Some(VK_ESCAPE)
    } else if same(&k, "space") {
        Some(VK_SPACE)
    } else if same(&k, "backspace") || same(&k, "back") {
        Some(VK_BACK)
    } else if same(&k, "delete") || same(&k, "del") {
        Some(VK_DELETE)
    } else if same(&k, "home") {
        Some(VK_HOME)
    } else if same(&k, "end") {
        Some(VK_END)
    } else if same(&k, "pageup") || same(&k, "pgup") {
        Some(VK_PRIOR)
    } else if same(&k, "pagedown") || same(&k, "pgdn") {
        Some(VK_NEXT)
    } else if same(&k, "up") {
        Some(VK_UP)
    } else if same(&k, "down") {
        Some(VK_DOWN)
    } else if same(&k, "left") {
        Some(VK_LEFT)
    } else if same(&k, "right") {
        Some(VK_RIGHT)
    } else if same(&k, "plus") || same(&k, "+") {
        // Ctrl++ and Ctrl+- are real shortcuts (zoom), so the keys they name
        // have to exist before the parser can claim to support them.
        Some(VK_OEM_PLUS)
    } else if same(&k, "minus") || same(&k, "-") {
        Some(VK_OEM_MINUS)
    } else if k.len() > 0 && k[0] == 'f' {
        let rest = slice_of(&k, 1, k.len());
        assert(rest@ =~= k@.drop_first());
        match read_unsigned(&rest, 255) {
            Some(n) => if 1 <= n && n <= 24 {
                Some(VK_F1 + n as u16 - 1)
            } else {
                None
            },
            None => None,
        }
    } else {
        None
    }
}

/// The virtual-key code of a named key.
pub fn named(k: &str) -> (r: Option<u16>)
    ensures
        r == name_code(k@),
{
    named_chars(&chars_of(k))
}

/// A letter or a digit of ASCII.
pub open spec fn is_alphanumeric(c: char) -> bool {
    'a' <= c <= 'z' || 'A' <= c <= 'Z' || '0' <= c <= '9'
}

/// The code of a letter or digit: that of the capital.
pub open spec fn character_code(c: char) -> u16 {
    if 'a' <= c <= 'z' {
        (c as u32 - 32) as u16
    } else {
        c as u16
    }
}

/// The modifier of a name in small letters.
pub open spec fn modifier_named(m: Seq<char>) -> Option<Modifier> {
    if m == "ctrl"@ || m == "control"@ {
        Some(Modifier::Ctrl)
    } else if m == "shift"@ {
        Some(Modifier::Shift)
    } else if m == "alt"@ || m == "option"@ || m == "opt"@ {
        Some(Modifier::Alt)
    } else if m == "win"@ || m == "meta"@ || m == "cmd"@ || m == "command"@ || m == "super"@ {
        Some(Modifier::Win)
    } else {
        None
    }
}

fn find_modifier(m: &Vec<char>) -> (r: Option<Modifier>)
    ensures
        r == modifier_named(m@),
{
    if same(m, "ctrl") || same(m, "control") {
        Some(Modifier::Ctrl)
    } else if same(m, "shift") {
        Some(Modifier::Shift)
    } else if same(m, "alt") || same(m, "option") || same(m, "opt") {
        Some(Modifier::Alt)
    } else if same(m, "win") || same(m, "meta") || same(m, "cmd") || same(m, "command") || same(
        m,
        "super",
    ) {
        Some(Modifier::Win)
    } else {
        None
    }
}

/// The chord with one more modifier held.
pub open spec fn with_modifier(c: Chord, m: Modifier) -> Chord {
    match m {
        Modifier::Ctrl => Chord { ctrl: true, ..c },
        Modifier::Shift => Chord { shift: true, ..c },
        Modifier::Alt => Chord { alt: true, ..c },
        Modifier::Win => Chord { win: true, ..c },
    }
}

/// The chord that holds nothing and presses nothing.
pub open spec fn bare_chord() -> Chord {
    Chord { ctrl: false, shift: false, alt: false, win: false, key: 0 }
}

/// The modifiers that the segments name, or the first segment that names none.
pub open spec fn modifiers_read(segments: Seq<Seq<char>>, spec_: Seq<char>) -> Result<
    Chord,
    KeyFault,
>
    decreases segments.len(),
{
    if segments.len() == 0 {
        Ok(bare_chord())
    } else {
        match modifiers_read(segments.drop_last(), spec_) {
            Err(f) => Err(f),
            Ok(c) => {
                let m = lowered(trimmed(segments.last()));
                match modifier_named(m) {
                    Some(x) => Ok(with_modifier(c, x)),
                    None => if m.len() == 0 {
                        Err(KeyFault::EmptyModifier { spec: spec_ })
                    } else {
                        Err(KeyFault::UnknownModifier { name: m, spec: spec_ })
                    },
                }
            },
        }
    }
}

/// The modifier section of a specification, and its key.
///
/// Only a doubled trailing '+' is the plus key: "Ctrl++" means ctrl and plus,
/// while "Ctrl+" is a dangling separator. A bare "+" is the plus key.
pub open spec fn halves(s: Seq<char>) -> (Seq<char>, Seq<char>) {
    let n = s.len() as int;
    if s == seq!['+'] {
        (Seq::<char>::empty(), seq!['+'])
    } else if n >= 2 && s[n - 1] == '+' && s[n - 2] == '+' {
        (s.take(n - 2), seq!['+'])
    } else if last_place(s, '+') < 0 {
        (Seq::<char>::empty(), s)
    } else {
        (s.take(last_place(s, '+')), s.skip(last_place(s, '+') + 1))
    }
}

/// The segments of a modifier section. One that holds nothing but white space
/// has none; an empty segment within one is a segment.
pub open spec fn segments(section: Seq<char>) -> Seq<Seq<char>> {
    if trimmed(section).len() == 0 {
        Seq::<Seq<char>>::empty()
    } else {
        pieces(section, '+')
    }
}

/// The code of a key: by name, or that of a single letter or digit.
pub open spec fn key_read(k: Seq<char>, spec_: Seq<char>) -> Result<u16, KeyFault> {
    if k.len() == 0 {
        Err(KeyFault::NoKey { spec: spec_ })
    } else {
        match name_code(k) {
            Some(v) => Ok(v),
            None => if k.len() > 1 {
                Err(KeyFault::UnknownKey { key: k, spec: spec_ })
            } else if is_alphanumeric(k[0]) {
                Ok(character_code(k[0]))
            } else {
                Err(KeyFault::NoLayoutCode { key: k })
            },
        }
    }
}

/// The chord that a specification without white space around it writes.
pub open spec fn trimmed_chord_read(s: Seq<char>) -> Result<Chord, KeyFault> {
    if s.len() == 0 {
        Err(KeyFault::Empty)
    } else {
        let (section, key) = halves(s);
        match modifiers_read(segments(section), s) {
            Err(f) => Err(f),
            Ok(c) => match key_read(trimmed(key), s) {
                Err(f) => Err(f),
                Ok(v) => Ok(Chord { key: v, ..c }),
            },
        }
    }
}

/// The chord that a specification writes.
pub open spec fn chord_read(s: Seq<char>) -> Result<Chord, KeyFault> {
    trimmed_chord_read(trimmed(s))
}

/// What an executable result says, as a result over characters.
pub open spec fn chord_result(r: Result<Chord, KeyError>) -> Result<Chord, KeyFault> {
    match r {
        Ok(c) => Ok(c),
        Err(e) => Err(e@),
    }
}

fn split_halves(s: &Vec<char>) -> (r: (Vec<char>, Vec<char>))
    ensures
        (r.0@, r.1@) == halves(s@),
{
    let n: usize = s.len();
    let plus: Vec<char> = vec!['+'];
    assert(plus@ =~= seq!['+']);
    if same_chars(s, &plus) {
        let none: Vec<char> = Vec::new();
        (none, plus)
    } else if n >= 2 && s[n - 1] == '+' && s[n - 2] == '+' {
        let head = slice_of(s, 0, n - 2);
        assert(head@ =~= s@.take(n - 2));
        (head, plus)
    } else {
        match find_last(s, '+') {
            Some(i) => {
                proof {
                    lemma_last_place(s@, '+');
                }
                let head = slice_of(s, 0, i);
                let tail = slice_of(s, i + 1, n);
                assert(head@ =~= s@.take(i as int));
                assert(tail@ =~= s@.skip(i + 1));
                (head, tail)
            },
            None => {
                let none: Vec<char> = Vec::new();
                let all = slice_of(s, 0, n);
                assert(all@ =~= s@);
                (none, all)
            },
        }
    }
}

fn read_modifiers(segs: &Vec<Vec<char>>, spec_: &Vec<char>) -> (r: Result<Chord, KeyError>)
    ensures
        chord_result(r) == modifiers_read(char_rows(segs@), spec_@),
{
    let mut c = Chord { ctrl: false, shift: false, alt: false, win: false, key: 0 };
    let ghost rows = char_rows(segs@);
    for i in 0..segs.len()
        invariant
            rows == char_rows(segs@),
            modifiers_read(rows.take(i as int), spec_@) == Ok::<Chord, KeyFault>(c),
    {
        let m = lower(&trim(&segs[i]));
        let ghost next = rows.take(i + 1);
        assert(next.drop_last() =~= rows.take(i as int));
        assert(next.last() == segs@[i as int]@);
        match find_modifier(&m) {
            Some(Modifier::Ctrl) => {
                c.ctrl = true;
            },
            Some(Modifier::Shift) => {
                c.shift = true;
            },
            Some(Modifier::Alt) => {
                c.alt = true;
            },
            Some(Modifier::Win) => {
                c.win = true;
            },
            None => {
                proof {
                    lemma_modifiers_stop(rows, spec_@, i + 1);
                }
                if m.len() == 0 {
                    return Err(KeyError::EmptyModifier { spec: string_of(spec_) });
                }
                return Err(
                    KeyError::UnknownModifier { name: string_of(&m), spec: string_of(spec_) },
                );
            },
        }
    }
    assert(rows.take(rows.len() as int) =~= rows);
    Ok(c)
}

/// A segment that is refused decides the whole section.
proof fn lemma_modifiers_stop(rows: Seq<Seq<char>>, spec_: Seq<char>, i: int)
    requires
        0 <= i <= rows.len(),
        modifiers_read(rows.take(i), spec_) is Err,
    ensures
        modifiers_read(rows, spec_) == modifiers_read(rows.take(i), spec_),
    decreases rows.len(),
{
    if i == rows.len() {
        assert(rows.take(i) =~= rows);
    } else {
        assert(rows.drop_last().take(i) =~= rows.take(i));
        lemma_modifiers_stop(rows.drop_last(), spec_, i);
    }
}

fn parse_chord_chars(given: &Vec<char>) -> (r: Result<Chord, KeyError>)
    ensures
        chord_result(r) == chord_read(given@),
{
    let s = trim(given);
    if s.len() == 0 {
        return Err(KeyError::Empty);
    }
    let (section, key) = split_halves(&s);
    let segs: Vec<Vec<char>> = if trim(&section).len() == 0 {
        Vec::new()
    } else {
        split(&section, '+')
    };
    assert(char_rows(segs@) =~= segments(section@));
    let c = match read_modifiers(&segs, &s) {
        Ok(c) => c,
        Err(e) => {
            return Err(e);
        },
    };
    let k = trim(&key);
    if k.len() == 0 {
        return Err(KeyError::NoKey { spec: string_of(&s) });
    }
    let code: u16 = match named_chars(&k) {
        Some(v) => v,
        None => {
            if k.len() > 1 {
                return Err(KeyError::UnknownKey { key: string_of(&k), spec: string_of(&s) });
            }
            let x = k[0];
            if 'a' <= x && x <= 'z' {
                x as u16 - 32
            } else if ('A' <= x && x <= 'Z') || ('0' <= x && x <= '9') {
                x as u16
            } else {
                // A lone character that is no letter or digit has no code that
                // is the same on every layout - ':' is Shift+VK_OEM_1 on US
                // and elsewhere on JIS or AZERTY - so a guess would type the
                // wrong character into a path.
                return Err(KeyError::NoLayoutCode { key: string_of(&k) });
            }
        },
    };
    Ok(Chord { key: code, ..c })
}

/// Parses one chord, e.g. `Enter`, `Ctrl+S`, `Ctrl+Shift+P`, `F5`, `a`.
pub fn parse_chord(spec: &str) -> (r: Result<Chord, KeyError>)
    ensures
        chord_result(r) == chord_read(spec@),
{
    parse_chord_chars(&chars_of(spec))
}

/// The chords that the words write, or what is wrong with the first word that
/// writes none.
pub open spec fn chords_read(ws: Seq<Seq<char>>) -> Result<Seq<Chord>, KeyFault>
    decreases ws.len(),
{
    if ws.len() == 0 {
        Ok(Seq::<Chord>::empty())
    } else {
        match chords_read(ws.drop_last()) {
            Err(f) => Err(f),
            Ok(cs) => match chord_read(ws.last()) {
                Err(f) => Err(f),
                Ok(c) => Ok(cs.push(c)),
            },
        }
    }
}

/// The chords that a sequence writes.
pub open spec fn sequence_read(s: Seq<char>) -> Result<Seq<Chord>, KeyFault> {
    match chords_read(words(s)) {
        Err(f) => Err(f),
        Ok(cs) => if cs.len() == 0 {
            Err(KeyFault::NoKeys { spec: s })
        } else if cs.len() > MAX_CHORDS {
            Err(KeyFault::TooMany { count: cs.len() })
        } else {
            Ok(cs)
        },
    }
}

/// What an executable result says, as a result over sequences.
pub open spec fn sequence_result(r: Result<Vec<Chord>, KeyError>) -> Result<Seq<Chord>, KeyFault> {
    match r {
        Ok(cs) => Ok(cs@),
        Err(e) => Err(e@),
    }
}

proof fn lemma_chords_stop(ws: Seq<Seq<char>>, i: int)
    requires
        0 <= i <= ws.len(),
        chords_read(ws.take(i)) is Err,
    ensures
        chords_read(ws) == chords_read(ws.take(i)),
    decreases ws.len(),
{
    if i == ws.len() {
        assert(ws.take(i) =~= ws);
    } else {
        assert(ws.drop_last().take(i) =~= ws.take(i));
        lemma_chords_stop(ws.drop_last(), i);
    }
}

/// Parses a whitespace-separated sequence, e.g. `Ctrl+A Delete` or
/// `Home Shift+End Ctrl+C`. Order is preserved.
pub fn parse(spec: &str) -> (r: Result<Vec<Chord>, KeyError>)
    ensures
        sequence_result(r) == sequence_read(spec@),
{
    let ws = split_words(&chars_of(spec));
    let ghost rows = char_rows(ws@);
    let mut chords: Vec<Chord> = Vec::new();
    for i in 0..ws.len()
        invariant
            rows == char_rows(ws@),
            rows == words(spec@),
            chords_read(rows.take(i as int)) == Ok::<Seq<Chord>, KeyFault>(chords@),
    {
        let ghost next = rows.take(i + 1);
        assert(next.drop_last() =~= rows.take(i as int));
        assert(next.last() == ws@[i as int]@);
        match parse_chord_chars(&ws[i]) {
            Ok(c) => {
                chords.push(c);
            },
            Err(e) => {
                proof {
                    lemma_chords_stop(rows, i + 1);
                }
                return Err(e);
            },
        }
    }
    assert(rows.take(rows.len() as int) =~= rows);
    if chords.len() == 0 {
        return Err(KeyError::NoKeys { spec: string_of(&chars_of(spec)) });
    }
    if chords.len() > MAX_CHORDS {
        return Err(KeyError::TooMany { count: chords.len() });
    }
    Ok(chords)
}

proof fn lemma_lowered_modifiers(segs: Seq<Seq<char>>, a: Seq<char>, b: Seq<char>)
    ensures
        modifiers_read(lowered_rows(segs), a) is Ok <==> modifiers_read(segs, b) is Ok,
        modifiers_read(segs, b) is Ok ==> modifiers_read(lowered_rows(segs), a)->Ok_0
            == modifiers_read(segs, b)->Ok_0,
    decreases segs.len(),
{
    if segs.len() > 0 {
        assert(lowered_rows(segs).drop_last() =~= lowered_rows(segs.drop_last()));
        lemma_lowered_modifiers(segs.drop_last(), a, b);
        lemma_lowered_trimmed(segs.last());
        lemma_lowered_twice(trimmed(segs.last()));
    }
}

proof fn lemma_lowered_key(k: Seq<char>, a: Seq<char>, b: Seq<char>)
    ensures
        key_read(lowered(k), a) is Ok <==> key_read(k, b) is Ok,
        key_read(k, b) is Ok ==> key_read(lowered(k), a)->Ok_0 == key_read(k, b)->Ok_0,
{
    lemma_lowered_twice(k);
}

/// Capitals and small letters make no difference to a chord.
pub proof fn law_chord_ignores_case(s: Seq<char>)
    ensures
        chord_read(lowered(s)) is Ok <==> chord_read(s) is Ok,
        chord_read(s) is Ok ==> chord_read(lowered(s)) == chord_read(s),
{
    lemma_lowered_trimmed(s);
    let t = trimmed(s);
    let l = lowered(t);
    if t.len() > 0 {
        let n = t.len() as int;
        lemma_lower_char(t[n - 1]);
        if n >= 2 {
            lemma_lower_char(t[n - 2]);
        }
        lemma_lowered_last_place(t);
        lemma_last_place(t, '+');
        let (section, key) = halves(t);
        let (lsection, lkey) = halves(l);
        assert(t == seq!['+'] <==> l == seq!['+']) by {
            if t == seq!['+'] {
                assert(l =~= seq!['+']);
            }
            if l == seq!['+'] {
                assert(l[0] == '+');
                assert(t =~= seq!['+']);
            }
        }
        assert(lowered(seq!['+']) =~= seq!['+']);
        assert(lowered(Seq::<char>::empty()) =~= Seq::<char>::empty());
        assert(lsection =~= lowered(section));
        assert(lkey =~= lowered(key));
        lemma_lowered_trimmed(section);
        lemma_lowered_pieces(section);
        assert(segments(lsection) =~= lowered_rows(segments(section)));
        lemma_lowered_modifiers(segments(section), l, t);
        lemma_lowered_trimmed(key);
        lemma_lowered_key(trimmed(key), l, t);
    }
}

proof fn lemma_lowered_chords(ws: Seq<Seq<char>>)
    ensures
        chords_read(lowered_rows(ws)) is Ok <==> chords_read(ws) is Ok,
        chords_read(ws) is Ok ==> chords_read(lowered_rows(ws)) == chords_read(ws),
    decreases ws.len(),
{
    if ws.len() == 0 {
        assert(lowered_rows(ws) =~= ws);
    } else {
        assert(lowered_rows(ws).drop_last() =~= lowered_rows(ws.drop_last()));
        lemma_lowered_chords(ws.drop_last());
        law_chord_ignores_case(ws.last());
    }
}

/// Capitals and small letters make no difference to a sequence of keys.
pub proof fn law_sequence_ignores_case(s: Seq<char>)
    ensures
        sequence_read(lowered(s)) is Ok <==> sequence_read(s) is Ok,
        sequence_read(s) is Ok ==> sequence_read(lowered(s)) == sequence_read(s),
{
    lemma_lowered_words(s);
    lemma_lowered_chords(words(s));
}

/// A sequence that parses has the chord of each of its words, in order, and
/// is neither empty nor longer than the cap. A sequence of words that are all
/// chords, neither empty nor too long, parses.
pub proof fn law_sequence_keeps_order(s: Seq<char>)
    ensures
        sequence_read(s) is Ok ==> {
            let cs = sequence_read(s)->Ok_0;
            &&& 1 <= cs.len() <= MAX_CHORDS
            &&& cs.len() == words(s).len()
            &&& forall|i: int|
                0 <= i < cs.len() ==> chord_read(words(s)[i]) == Ok::<Chord, KeyFault>(
                    #[trigger] cs[i],
                )
        },
        1 <= words(s).len() <= MAX_CHORDS && (forall|i: int|
            0 <= i < words(s).len() ==> chord_read(#[trigger] words(s)[i]) is Ok) ==> sequence_read(
            s,
        ) is Ok,
{
    lemma_chords_of_words(words(s));
}

proof fn lemma_chords_of_words(ws: Seq<Seq<char>>)
    ensures
        chords_read(ws) is Ok ==> {
            let cs = chords_read(ws)->Ok_0;
            &&& cs.len() == ws.len()
            &&& forall|i: int|
                0 <= i < cs.len() ==> chord_read(ws[i]) == Ok::<Chord, KeyFault>(#[trigger] cs[i])
        },
        (forall|i: int| 0 <= i < ws.len() ==> chord_read(#[trigger] ws[i]) is Ok) ==> chords_read(
            ws,
        ) is Ok,
    decreases ws.len(),
{
    if ws.len() > 0 {
        let init = ws.drop_last();
        lemma_chords_of_words(init);
        if chords_read(ws) is Ok {
            let cs = chords_read(ws)->Ok_0;
            let before = chords_read(init)->Ok_0;
            assert forall|i: int| 0 <= i < cs.len() implies chord_read(ws[i]) == Ok::<
                Chord,
                KeyFault,
            >(#[trigger] cs[i]) by {
                if i < before.len() {
                    assert(cs[i] == before[i]);
                    assert(init[i] == ws[i]);
                }
            }
        }
        if forall|i: int| 0 <= i < ws.len() ==> chord_read(#[trigger] ws[i]) is Ok {
            assert forall|i: int| 0 <= i < init.len() implies chord_read(
                #[trigger] init[i],
            ) is Ok by {
                assert(init[i] == ws[i]);
            }
            assert(chord_read(ws[ws.len() - 1]) is Ok);
        }
    }
}

/// A single separator at the end is a mistake, never a keystroke.
pub proof fn law_dangling_separator_is_refused(s: Seq<char>)
    requires
        trimmed(s).len() >= 2,
        trimmed(s).last() == '+',
        trimmed(s)[trimmed(s).len() - 2] != '+',
    ensures
        chord_read(s) is Err,
{
    let t = trimmed(s);
    assert(last_place(t, '+') == t.len() - 1);
    let (section, key) = halves(t);
    assert(key =~= Seq::<char>::empty());
    assert(trimmed(key) =~= Seq::<char>::empty());
}

/// Some modifiers before a key, a plus sign after each.
pub open spec fn before_key(mods: Seq<Seq<char>>) -> Seq<char>
    decreases mods.len(),
{
    if mods.len() == 0 {
        Seq::<char>::empty()
    } else {
        before_key(mods.drop_last()) + mods.last().push('+')
    }
}

/// Whether one of some names stands for a modifier.
pub open spec fn names(mods: Seq<Seq<char>>, m: Modifier) -> bool {
    exists|i: int| 0 <= i < mods.len() && modifier_named(lowered(#[trigger] mods[i])) == Some(m)
}

/// Whether each of some names stands for a modifier.
pub open spec fn all_modifiers(mods: Seq<Seq<char>>) -> bool {
    forall|i: int| 0 <= i < mods.len() ==> modifier_named(lowered(#[trigger] mods[i])) is Some
}

/// A character that is neither white space nor a separator.
spec fn is_plain(c: char) -> bool {
    !is_space(c) && c != '+'
}

proof fn lemma_modifier_names(m: Seq<char>)
    requires
        modifier_named(m) is Some,
    ensures
        m.len() > 0,
        forall|i: int| 0 <= i < m.len() ==> is_plain(#[trigger] m[i]),
{
    reveal_strlit("ctrl");
    reveal_strlit("control");
    reveal_strlit("shift");
    reveal_strlit("alt");
    reveal_strlit("option");
    reveal_strlit("opt");
    reveal_strlit("win");
    reveal_strlit("meta");
    reveal_strlit("cmd");
    reveal_strlit("command");
    reveal_strlit("super");
}

proof fn lemma_modifier_text(m: Seq<char>)
    requires
        modifier_named(lowered(m)) is Some,
    ensures
        m.len() > 0,
        !is_space(m[0]),
        free_of(m, '+'),
        trimmed(m) == m,
{
    lemma_modifier_names(lowered(m));
    assert forall|i: int| 0 <= i < m.len() implies is_plain(#[trigger] m[i]) by {
        assert(is_plain(lowered(m)[i]));
        lemma_lower_char(m[i]);
    }
    assert(is_plain(m[0]) && is_plain(m[m.len() - 1]));
    assert forall|i: int| 0 <= i < m.len() implies #[trigger] m[i] != '+' by {
        assert(is_plain(m[i]));
    }
}

proof fn lemma_modifiers_named(mods: Seq<Seq<char>>, spec_: Seq<char>)
    requires
        all_modifiers(mods),
    ensures
        modifiers_read(mods, spec_) == Ok::<Chord, KeyFault>(
            Chord {
                ctrl: names(mods, Modifier::Ctrl),
                shift: names(mods, Modifier::Shift),
                alt: names(mods, Modifier::Alt),
                win: names(mods, Modifier::Win),
                key: 0,
            },
        ),
    decreases mods.len(),
{
    if mods.len() > 0 {
        let init = mods.drop_last();
        let m = mods[mods.len() - 1];
        assert forall|i: int| 0 <= i < init.len() implies modifier_named(
            lowered(#[trigger] init[i]),
        ) is Some by {
            assert(init[i] == mods[i]);
        }
        lemma_modifiers_named(init, spec_);
        assert(modifier_named(lowered(m)) is Some);
        lemma_modifier_text(m);
        lemma_names_with(mods, Modifier::Ctrl);
        lemma_names_with(mods, Modifier::Shift);
        lemma_names_with(mods, Modifier::Alt);
        lemma_names_with(mods, Modifier::Win);
    }
}

proof fn lemma_names_with(mods: Seq<Seq<char>>, m: Modifier)
    requires
        mods.len() > 0,
    ensures
        names(mods, m) == (names(mods.drop_last(), m) || modifier_named(lowered(mods.last()))
            == Some(m)),
{
    let init = mods.drop_last();
    if names(init, m) {
        let i = choose|i: int|
            0 <= i < init.len() && modifier_named(lowered(#[trigger] init[i])) == Some(m);
        assert(mods[i] == init[i]);
    }
    if modifier_named(lowered(mods.last())) == Some(m) {
        assert(modifier_named(lowered(mods[mods.len() - 1])) == Some(m));
    }
    if names(mods, m) {
        let i = choose|i: int|
            0 <= i < mods.len() && modifier_named(lowered(#[trigger] mods[i])) == Some(m);
        if i < init.len() {
            assert(init[i] == mods[i]);
        }
    }
}

/// The section that some modifiers make is split into them again.
proof fn lemma_section(mods: Seq<Seq<char>>)
    requires
        mods.len() > 0,
        all_modifiers(mods),
    ensures
        before_key(mods).len() > 0,
        before_key(mods).last() == '+',
        !is_space(before_key(mods)[0]),
        pieces(before_key(mods).drop_last(), '+') == mods,
        before_key(mods).drop_last().len() > 0,
    decreases mods.len(),
{
    let init = mods.drop_last();
    let m = mods.last();
    let all = before_key(mods);
    assert(m == mods[mods.len() - 1]);
    lemma_modifier_text(m);
    if init.len() == 0 {
        assert(before_key(init) =~= Seq::<char>::empty());
        assert(all =~= m.push('+'));
        assert(all.drop_last() =~= m);
        lemma_pieces_one(m, '+');
        assert(mods =~= seq![m]);
    } else {
        assert forall|i: int| 0 <= i < init.len() implies modifier_named(
            lowered(#[trigger] init[i]),
        ) is Some by {
            assert(init[i] == mods[i]);
        }
        lemma_section(init);
        let head = before_key(init);
        let stem = head.drop_last();
        assert(stem.push('+') =~= head);
        assert(all.drop_last() =~= stem.push('+') + m);
        lemma_pieces_begin(stem, m, '+');
        assert(init.push(m) =~= mods);
    }
}

proof fn lemma_key_alone(k: Seq<char>)
    requires
        free_of(k, '+'),
    ensures
        free_of(trim_back(k), '+'),
        free_of(trimmed(k), '+'),
        last_place(trim_back(k), '+') == -1,
        last_place(trimmed(k), '+') == -1,
{
    let back = trim_back(k);
    lemma_trim_back_twice(k);
    assert forall|i: int| 0 <= i < back.len() implies #[trigger] back[i] != '+' by {
        assert(back[i] == k[i]);
    }
    lemma_trims_commute(k);
    lemma_trim_front_is_part(back);
    lemma_last_place(back, '+');
    lemma_last_place(trimmed(k), '+');
}

proof fn lemma_trim_front_is_part(s: Seq<char>)
    requires
        free_of(s, '+'),
    ensures
        free_of(trim_front(s), '+'),
    decreases s.len(),
{
    if s.len() > 0 && is_space(s[0]) {
        let rest = s.drop_first();
        assert forall|i: int| 0 <= i < rest.len() implies #[trigger] rest[i] != '+' by {
            assert(rest[i] == s[i + 1]);
        }
        lemma_trim_front_is_part(rest);
    }
}

/// Whether a text writes a key without any modifier: it holds no '+', or is
/// the plus key itself. The plus key has to follow the separator directly, so
/// it has no white space before it.
pub open spec fn plain_key(k: Seq<char>) -> bool {
    free_of(k, '+') || trim_back(k) == seq!['+']
}

/// A chord of some modifiers and a key.
pub open spec fn chord_of(mods: Seq<Seq<char>>, key: u16) -> Chord {
    Chord {
        ctrl: names(mods, Modifier::Ctrl),
        shift: names(mods, Modifier::Shift),
        alt: names(mods, Modifier::Alt),
        win: names(mods, Modifier::Win),
        key,
    }
}

/// Modifiers before a plain key press that key with exactly the modifiers that
/// are named, in whatever order they come and however often.
pub proof fn law_modifiers_only_add_up(mods: Seq<Seq<char>>, k: Seq<char>)
    requires
        all_modifiers(mods),
        plain_key(k),
        chord_read(k) is Ok,
    ensures
        chord_read(before_key(mods) + k) == Ok::<Chord, KeyFault>(
            chord_of(mods, chord_read(k)->Ok_0.key),
        ),
{
    if free_of(k, '+') {
        lemma_modifiers_before_key(mods, k);
    } else {
        lemma_modifiers_before_plus(mods, k);
    }
}

proof fn lemma_modifiers_before_plus(mods: Seq<Seq<char>>, k: Seq<char>)
    requires
        all_modifiers(mods),
        trim_back(k) == seq!['+'],
        chord_read(k) is Ok,
    ensures
        chord_read(before_key(mods) + k) == Ok::<Chord, KeyFault>(
            chord_of(mods, chord_read(k)->Ok_0.key),
        ),
{
    let plus = seq!['+'];
    lemma_trims_commute(k);
    assert(!is_space(plus[0]));
    assert(trim_front(plus) == plus);
    assert(trim_back(plus) == plus);
    assert(trimmed(k) == plus);
    assert(trimmed(plus) == plus);
    assert(trimmed(Seq::<char>::empty()) =~= Seq::<char>::empty());
    lemma_modifiers_named(mods, plus);
    if mods.len() == 0 {
        assert(before_key(mods) + k =~= k);
        assert(mods =~= segments(Seq::<char>::empty()));
    } else {
        lemma_section(mods);
        let head = before_key(mods);
        lemma_trim_back_after(head, k);
        let t = head + plus;
        assert((head + k)[0] == head[0]);
        assert(trimmed(head + k) == t);
        let n = t.len() as int;
        assert(t[n - 1] == '+');
        assert(t[n - 2] == head[head.len() - 1]);
        assert(t != plus);
        let section = head.drop_last();
        assert(t.take(n - 2) =~= section);
        assert(halves(t) == (section, plus));
        assert(trimmed(section).len() > 0) by {
            lemma_trims_commute(section);
            lemma_not_blank(section);
        }
        assert(segments(section) == mods);
        lemma_modifiers_named(mods, t);
        assert(key_read(plus, t) is Ok);
    }
}

proof fn lemma_modifiers_before_key(mods: Seq<Seq<char>>, k: Seq<char>)
    requires
        all_modifiers(mods),
        free_of(k, '+'),
        chord_read(k) is Ok,
    ensures
        chord_read(before_key(mods) + k) == Ok::<Chord, KeyFault>(
            chord_of(mods, chord_read(k)->Ok_0.key),
        ),
{
    let bare = trimmed(k);
    let back = trim_back(k);
    lemma_key_alone(k);
    lemma_trims_commute(k);
    lemma_trim_back_twice(k);
    lemma_trim_back_twice(trim_front(k));
    assert(bare.len() > 0);
    assert(bare != seq!['+']) by {
        if bare == seq!['+'] {
            assert(bare[0] == '+');
        }
    }
    assert(bare[bare.len() - 1] != '+');
    assert(halves(bare) == (Seq::<char>::empty(), bare));
    assert(trimmed(Seq::<char>::empty()) =~= Seq::<char>::empty());
    assert(bare.len() > 0 ==> !is_space(bare[0])) by {
        lemma_trim_front_starts(back);
    }
    assert(trimmed(bare) == bare) by {
        assert(trim_front(bare) == bare);
    }
    assert(key_read(bare, bare) is Ok);
    assert(key_read(bare, bare)->Ok_0 == chord_read(k)->Ok_0.key);
    lemma_modifiers_named(mods, bare);
    if mods.len() == 0 {
        assert(before_key(mods) + k =~= k);
        lemma_modifiers_named(mods, bare);
        assert(mods =~= segments(Seq::<char>::empty()));
    } else {
        lemma_section(mods);
        let head = before_key(mods);
        let text = head + k;
        assert(back.len() > 0) by {
            if back.len() == 0 {
                assert(trim_front(back) =~= Seq::<char>::empty());
            }
        }
        lemma_trim_back_after(head, k);
        assert(text[0] == head[0]);
        let t = head + back;
        assert(trimmed(text) == t);
        lemma_last_place_in(head, back, '+');
        let n = t.len() as int;
        assert(t[n - 1] == back[back.len() - 1]);
        assert(back[back.len() - 1] != '+');
        assert(t != seq!['+']) by {
            assert(t.last() != '+');
        }
        let section = head.drop_last();
        assert(t.take(head.len() - 1) =~= section);
        assert(t.skip(head.len() as int) =~= back);
        assert(halves(t) == (section, back));
        assert(trimmed(section).len() > 0) by {
            lemma_trims_commute(section);
            lemma_not_blank(section);
        }
        assert(segments(section) == mods);
        lemma_modifiers_named(mods, t);
        assert(trimmed(back) == bare) by {
            lemma_trims_commute(back);
        }
        assert(key_read(bare, t) is Ok);
    }
}

proof fn lemma_trim_front_starts(s: Seq<char>)
    ensures
        trim_front(s).len() > 0 ==> !is_space(trim_front(s)[0]),
    decreases s.len(),
{
    if s.len() > 0 && is_space(s[0]) {
        lemma_trim_front_starts(s.drop_first());
    }
}

proof fn lemma_not_blank(s: Seq<char>)
    requires
        s.len() > 0,
        !is_space(s[0]),
    ensures
        trimmed(s).len() > 0,
    decreases s.len(),
{
    if is_space(s.last()) {
        assert(s.len() > 1);
        lemma_not_blank(s.drop_last());
    }
}

/// The order of the modifiers, and how often each is named, make no
/// difference.
pub proof fn law_modifier_order_is_free(a: Seq<Seq<char>>, b: Seq<Seq<char>>, k: Seq<char>)
    requires
        all_modifiers(a),
        all_modifiers(b),
        forall|m: Modifier| #[trigger] names(a, m) == names(b, m),
        plain_key(k),
        chord_read(k) is Ok,
    ensures
        chord_read(before_key(a) + k) == chord_read(before_key(b) + k),
{
    law_modifiers_only_add_up(a, k);
    law_modifiers_only_add_up(b, k);
    assert(names(a, Modifier::Ctrl) == names(b, Modifier::Ctrl));
    assert(names(a, Modifier::Shift) == names(b, Modifier::Shift));
    assert(names(a, Modifier::Alt) == names(b, Modifier::Alt));
    assert(names(a, Modifier::Win) == names(b, Modifier::Win));
}

proof fn lemma_names_differ()
    ensures
        "enter"@.len() == 5 && "enter"@[0] == 'e' && "enter"@[1] == 'n' && "enter"@[2] == 't',
        "return"@.len() == 6 && "return"@[0] == 'r' && "return"@[1] == 'e' && "return"@[2] == 't',
        "tab"@.len() == 3 && "tab"@[0] == 't' && "tab"@[1] == 'a' && "tab"@[2] == 'b',
        "esc"@.len() == 3 && "esc"@[0] == 'e' && "esc"@[1] == 's' && "esc"@[2] == 'c',
        "escape"@.len() == 6 && "escape"@[0] == 'e' && "escape"@[1] == 's' && "escape"@[2] == 'c',
        "space"@.len() == 5 && "space"@[0] == 's' && "space"@[1] == 'p' && "space"@[2] == 'a',
        "backspace"@.len() == 9 && "backspace"@[0] == 'b' && "backspace"@[1] == 'a' && "backspace"@[2] == 'c',
        "back"@.len() == 4 && "back"@[0] == 'b' && "back"@[1] == 'a' && "back"@[2] == 'c',
        "delete"@.len() == 6 && "delete"@[0] == 'd' && "delete"@[1] == 'e' && "delete"@[2] == 'l',
        "del"@.len() == 3 && "del"@[0] == 'd' && "del"@[1] == 'e' && "del"@[2] == 'l',
        "home"@.len() == 4 && "home"@[0] == 'h' && "home"@[1] == 'o' && "home"@[2] == 'm',
        "end"@.len() == 3 && "end"@[0] == 'e' && "end"@[1] == 'n' && "end"@[2] == 'd',
        "pageup"@.len() == 6 && "pageup"@[0] == 'p' && "pageup"@[1] == 'a' && "pageup"@[2] == 'g',
        "pgup"@.len() == 4 && "pgup"@[0] == 'p' && "pgup"@[1] == 'g' && "pgup"@[2] == 'u',
        "pagedown"@.len() == 8 && "pagedown"@[0] == 'p' && "pagedown"@[1] == 'a' && "pagedown"@[2] == 'g',
        "pgdn"@.len() == 4 && "pgdn"@[0] == 'p' && "pgdn"@[1] == 'g' && "pgdn"@[2] == 'd',
        "up"@.len() == 2 && "up"@[0] == 'u' && "up"@[1] == 'p',
        "down"@.len() == 4 && "down"@[0] == 'd' && "down"@[1] == 'o' && "down"@[2] == 'w',
        "left"@.len() == 4 && "left"@[0] == 'l' && "left"@[1] == 'e' && "left"@[2] == 'f',
        "right"@.len() == 5 && "right"@[0] == 'r' && "right"@[1] == 'i' && "right"@[2] == 'g',
        "plus"@.len() == 4 && "plus"@[0] == 'p' && "plus"@[1] == 'l' && "plus"@[2] == 'u',
        "+"@.len() == 1 && "+"@[0] == '+',
        "minus"@.len() == 5 && "minus"@[0] == 'm' && "minus"@[1] == 'i' && "minus"@[2] == 'n',
        "-"@.len() == 1 && "-"@[0] == '-',
{
    reveal_strlit("enter");
    reveal_strlit("return");
    reveal_strlit("tab");
    reveal_strlit("esc");
    reveal_strlit("escape");
    reveal_strlit("space");
    reveal_strlit("backspace");
    reveal_strlit("back");
    reveal_strlit("delete");
    reveal_strlit("del");
    reveal_strlit("home");
    reveal_strlit("end");
    reveal_strlit("pageup");
    reveal_strlit("pgup");
    reveal_strlit("pagedown");
    reveal_strlit("pgdn");
    reveal_strlit("up");
    reveal_strlit("down");
    reveal_strlit("left");
    reveal_strlit("right");
    reveal_strlit("plus");
    reveal_strlit("+");
    reveal_strlit("minus");
    reveal_strlit("-");
}

/// Each named key is found under its names and no other. A key by another
/// name is a function key.
pub proof fn law_named_keys(k: Seq<char>)
    ensures
        small_name_code(k) == Some(0x0Du16) <==> k == "enter"@ || k == "return"@,
        small_name_code(k) == Some(0x09u16) <==> k == "tab"@,
        small_name_code(k) == Some(0x1Bu16) <==> k == "esc"@ || k == "escape"@,
        small_name_code(k) == Some(0x20u16) <==> k == "space"@,
        small_name_code(k) == Some(0x08u16) <==> k == "backspace"@ || k == "back"@,
        small_name_code(k) == Some(0x2Eu16) <==> k == "delete"@ || k == "del"@,
        small_name_code(k) == Some(0x24u16) <==> k == "home"@,
        small_name_code(k) == Some(0x23u16) <==> k == "end"@,
        small_name_code(k) == Some(0x21u16) <==> k == "pageup"@ || k == "pgup"@,
        small_name_code(k) == Some(0x22u16) <==> k == "pagedown"@ || k == "pgdn"@,
        small_name_code(k) == Some(0x26u16) <==> k == "up"@,
        small_name_code(k) == Some(0x28u16) <==> k == "down"@,
        small_name_code(k) == Some(0x25u16) <==> k == "left"@,
        small_name_code(k) == Some(0x27u16) <==> k == "right"@,
        small_name_code(k) == Some(0xBBu16) <==> k == "plus"@ || k == "+"@,
        small_name_code(k) == Some(0xBDu16) <==> k == "minus"@ || k == "-"@,
        small_name_code(k) is Some && !(0x70 <= small_name_code(k)->0 <= 0x87)
            ==> small_name_code(k)->0 <= 0x2E || small_name_code(k)->0 >= 0xBB,
        small_name_code(k) matches Some(v) ==> 0x70 <= v <= 0x87 ==> k.len() > 1 && k[0] == 'f',
{
    lemma_names_differ();
}

/// The function keys follow one another from `F1` to `F24`, and no other
/// number has one.
pub proof fn law_function_keys_follow_one_another(n: nat)
    ensures
        small_name_code(seq!['f'] + decimal(n)) == if 1 <= n <= 24 {
            Some((0x6F + n) as u16)
        } else {
            None
        },
{
    let k = seq!['f'] + decimal(n);
    lemma_names_differ();
    law_decimal_reads_back(n as int);
    assert(k.drop_first() =~= decimal(n));
    assert(k[0] == 'f');
}

/// A letter or a digit alone is its own key, with nothing held: the code of
/// the capital, or of the digit. Any other character alone has a key only
/// where it is named, as the plus and the minus sign are.
pub proof fn law_character_is_its_own_key(c: char)
    requires
        !is_space(c),
    ensures
        ({
            let s = seq![c];
            let upper = if 'a' <= c <= 'z' {
                c as int - 32
            } else {
                c as int
            };
            let own = 'A' <= c <= 'Z' || 'a' <= c <= 'z' || '0' <= c <= '9';
            &&& own ==> chord_read(s) == Ok::<Chord, KeyFault>(
                Chord { ctrl: false, shift: false, alt: false, win: false, key: upper as u16 },
            )
            &&& !own && c != '+' && c != '-' ==> chord_read(s) == Err::<Chord, KeyFault>(
                KeyFault::NoLayoutCode { key: s },
            )
            &&& c == '+' ==> chord_read(s) == Ok::<Chord, KeyFault>(
                Chord { ctrl: false, shift: false, alt: false, win: false, key: 0xBB },
            )
            &&& c == '-' ==> chord_read(s) == Ok::<Chord, KeyFault>(
                Chord { ctrl: false, shift: false, alt: false, win: false, key: 0xBD },
            )
        }),
{
    let s = seq![c];
    lemma_names_differ();
    assert(s.last() == c && s[0] == c);
    assert(trimmed(s) == s);
    let l = lowered(s);
    assert(l.len() == 1);
    assert(l.drop_first() =~= Seq::<char>::empty());
    assert(unsigned_read(l.drop_first()) is None);
    if c == '+' {
        assert(s =~= seq!['+']);
        assert(l =~= "+"@);
    } else {
        assert(s.drop_last() =~= Seq::<char>::empty());
        assert(last_place(s, '+') == -1) by {
            assert(last_place(s.drop_last(), '+') == -1);
        }
        assert(s != seq!['+']) by {
            assert(seq!['+'][0] == '+');
        }
        assert(halves(s) == (Seq::<char>::empty(), s));
        lemma_lower_char(c);
        if c == '-' {
            assert(l =~= "-"@);
        } else {
            assert(l[0] != '-' && l[0] != '+');
            assert(name_code(s) is None);
        }
    }
    assert(trimmed(Seq::<char>::empty()) =~= Seq::<char>::empty());
    assert(segments(Seq::<char>::empty()) =~= Seq::<Seq<char>>::empty());
    assert(modifiers_read(Seq::<Seq<char>>::empty(), s) == Ok::<Chord, KeyFault>(bare_chord()));
}

/// Each modifier is found under its names and no other.
pub proof fn law_modifier_names(m: Seq<char>)
    ensures
        modifier_named(m) == Some(Modifier::Ctrl) <==> m == "ctrl"@ || m == "control"@,
        modifier_named(m) == Some(Modifier::Shift) <==> m == "shift"@,
        modifier_named(m) == Some(Modifier::Alt) <==> m == "alt"@ || m == "option"@ || m == "opt"@,
        modifier_named(m) == Some(Modifier::Win) <==> m == "win"@ || m == "meta"@ || m == "cmd"@
            || m == "command"@ || m == "super"@,
{
    reveal_strlit("ctrl");
    reveal_strlit("control");
    reveal_strlit("shift");
    reveal_strlit("alt");
    reveal_strlit("option");
    reveal_strlit("opt");
    reveal_strlit("win");
    reveal_strlit("meta");
    reveal_strlit("cmd");
    reveal_strlit("command");
    reveal_strlit("super");
    assert("ctrl"@.len() == 4 && "control"@.len() == 7 && "shift"@.len() == 5 && "alt"@.len() == 3
        && "option"@.len() == 6 && "opt"@.len() == 3 && "win"@.len() == 3 && "meta"@.len() == 4
        && "cmd"@.len() == 3 && "command"@.len() == 7 && "super"@.len() == 5);
    assert("ctrl"@[0] == 'c' && "meta"@[0] == 'm' && "control"@[2] == 'n' && "command"@[2] == 'm'
        && "shift"@[1] == 'h' && "super"@[1] == 'u' && "alt"@[0] == 'a' && "opt"@[0] == 'o'
        && "win"@[0] == 'w' && "cmd"@[0] == 'c');
}

/// A chord holds each modifier that it names, by its own key, once and no
/// other: control, alt, shift and the system key, in this order.
pub proof fn law_chord_holds_its_modifiers(c: Chord)
    ensures
        held(c).contains(0x11u16) <==> c.ctrl,
        held(c).contains(0x12u16) <==> c.alt,
        held(c).contains(0x10u16) <==> c.shift,
        held(c).contains(0x5Bu16) <==> c.win,
        forall|i: int|
            0 <= i < held(c).len() ==> {
                ||| #[trigger] held(c)[i] == 0x11
                ||| held(c)[i] == 0x12
                ||| held(c)[i] == 0x10
                ||| held(c)[i] == 0x5B
            },
        forall|i: int, j: int|
            #![trigger held(c)[i], held(c)[j]]
            0 <= i < j < held(c).len() ==> {
                ||| held(c)[i] == 0x11 && held(c)[j] != 0x11
                ||| held(c)[i] == 0x12 && (held(c)[j] == 0x10 || held(c)[j] == 0x5B)
                ||| held(c)[i] == 0x10 && held(c)[j] == 0x5B
            },
{
    let h = held(c);
    let a: int = if c.ctrl { 1 } else { 0 };
    let b: int = a + if c.alt { 1int } else { 0int };
    let d: int = b + if c.shift { 1int } else { 0int };
    assert(h.len() == d + if c.win { 1int } else { 0int });
    if c.ctrl {
        assert(h[0] == 0x11);
    }
    if c.alt {
        assert(h[a] == 0x12);
    }
    if c.shift {
        assert(h[b] == 0x10);
    }
    if c.win {
        assert(h[d] == 0x5B);
    }
}

/// A sequence of more than thirty-two words, or of none, is refused.
pub proof fn law_sequence_is_capped(s: Seq<char>)
    requires
        words(s).len() == 0 || words(s).len() > 32,
    ensures
        sequence_read(s) is Err,
{
    law_sequence_keeps_order(s);
}

proof fn lemma_bad_segment(segs: Seq<Seq<char>>, spec_: Seq<char>, i: int)
    requires
        0 <= i < segs.len(),
        modifier_named(lowered(trimmed(segs[i]))) is None,
    ensures
        modifiers_read(segs, spec_) is Err,
    decreases segs.len(),
{
    if i < segs.len() - 1 {
        assert(segs.drop_last()[i] == segs[i]);
        lemma_bad_segment(segs.drop_last(), spec_, i);
    }
}

/// A chord is read only where everything before its key is a modifier by
/// name: the segments of the section before the last separator, or before the
/// doubled one where the key is the plus sign.
pub proof fn law_only_modifiers_come_before_a_key(section: Seq<char>, key: Seq<char>, i: int)
    requires
        free_of(key, '+'),
        key.len() > 0,
        !is_space(key.last()),
        section.len() > 0,
        !is_space(section[0]),
        0 <= i < pieces(section, '+').len(),
        modifier_named(lowered(trimmed(pieces(section, '+')[i]))) is None,
    ensures
        chord_read(section.push('+') + key) is Err,
        chord_read(section.push('+').push('+')) is Err,
{
    let s = section.push('+') + key;
    let t = section.push('+').push('+');
    assert(s[0] == section[0] && t[0] == section[0]);
    assert(s.last() == key.last() && t.last() == '+');
    assert(trimmed(s) == s && trimmed(t) == t);
    lemma_last_place_in(section.push('+'), key, '+');
    assert(key[key.len() - 1] != '+');
    assert(s.take(section.len() as int) =~= section);
    assert(s.skip((section.len() + 1) as int) =~= key);
    assert(s.len() >= 2 && t.len() >= 2);
    assert(halves(s) == (section, key));
    assert(t.take(t.len() - 2) =~= section);
    assert(halves(t).0 == section);
    assert(trimmed(section).len() > 0) by {
        lemma_trims_commute(section);
        lemma_not_blank(section);
    }
    lemma_bad_segment(pieces(section, '+'), s, i);
    lemma_bad_segment(pieces(section, '+'), t, i);
}

/// A sequence is read exactly where it has from one to thirty-two words and
/// each of them is a chord.
pub proof fn law_sequences_that_are_read(s: Seq<char>)
    ensures
        sequence_read(s) is Ok <==> 1 <= words(s).len() <= 32 && forall|i: int|
            0 <= i < words(s).len() ==> chord_read(#[trigger] words(s)[i]) is Ok,
{
    law_sequence_keeps_order(s);
    if sequence_read(s) is Ok {
        let cs = sequence_read(s)->Ok_0;
        assert forall|i: int| 0 <= i < words(s).len() implies chord_read(
            #[trigger] words(s)[i],
        ) is Ok by {
            assert(chord_read(words(s)[i]) == Ok::<Chord, KeyFault>(cs[i]));
        }
    }
}

/// A sequence that is not read tells what is wrong with the first word that is
/// no chord; where each is one it tells that there are none, or how many there
/// are.
pub proof fn law_first_bad_word_is_told(s: Seq<char>, i: int)
    ensures
        words(s).len() == 0 ==> sequence_read(s) == Err::<Seq<Chord>, KeyFault>(
            KeyFault::NoKeys { spec: s },
        ),
        words(s).len() > 32 && (forall|j: int|
            0 <= j < words(s).len() ==> chord_read(#[trigger] words(s)[j]) is Ok) ==> sequence_read(
            s,
        ) == Err::<Seq<Chord>, KeyFault>(KeyFault::TooMany { count: words(s).len() }),
        0 <= i < words(s).len() && chord_read(words(s)[i]) is Err && (forall|j: int|
            0 <= j < i ==> chord_read(#[trigger] words(s)[j]) is Ok) ==> sequence_read(s) == Err::<
            Seq<Chord>,
            KeyFault,
        >(chord_read(words(s)[i])->Err_0),
{
    let ws = words(s);
    lemma_chords_of_words(ws);
    if 0 <= i < ws.len() && chord_read(ws[i]) is Err && (forall|j: int|
        0 <= j < i ==> chord_read(#[trigger] words(s)[j]) is Ok) {
        let before = ws.take(i);
        let upto = ws.take(i + 1);
        assert forall|j: int| 0 <= j < before.len() implies chord_read(
            #[trigger] before[j],
        ) is Ok by {
            assert(before[j] == words(s)[j]);
        }
        lemma_chords_of_words(before);
        assert(upto.drop_last() =~= before);
        assert(upto.last() == ws[i]);
        lemma_chords_stop(ws, i + 1);
    }
}

/// A word without a plus sign is a key by its name, whatever the case, with
/// nothing held; one of more than one character that names no key is told as
/// unknown. Nothing but white space is no key at all.
pub proof fn law_key_is_found_by_its_name(k: Seq<char>, blank: Seq<char>)
    requires
        free_of(k, '+'),
        trimmed(k) == k,
        k.len() >= 2,
        trimmed(blank).len() == 0,
    ensures
        match small_name_code(lowered(k)) {
            Some(v) => chord_read(k) == Ok::<Chord, KeyFault>(
                Chord { ctrl: false, shift: false, alt: false, win: false, key: v },
            ),
            None => chord_read(k) == Err::<Chord, KeyFault>(
                KeyFault::UnknownKey { key: k, spec: k },
            ),
        },
        chord_read(blank) == Err::<Chord, KeyFault>(KeyFault::Empty),
{
    lemma_last_place(k, '+');
    assert(k[k.len() - 1] != '+');
    assert(k != seq!['+']);
    assert(halves(k) == (Seq::<char>::empty(), k));
    assert(trimmed(Seq::<char>::empty()) =~= Seq::<char>::empty());
    assert(segments(Seq::<char>::empty()) =~= Seq::<Seq<char>>::empty());
    assert(modifiers_read(Seq::<Seq<char>>::empty(), k) == Ok::<Chord, KeyFault>(bare_chord()));
}

proof fn lemma_first_bad_segment(segs: Seq<Seq<char>>, spec_: Seq<char>, i: int)
    requires
        0 <= i < segs.len(),
        modifier_named(lowered(trimmed(segs[i]))) is None,
        forall|j: int|
            0 <= j < i ==> modifier_named(lowered(trimmed(#[trigger] segs[j]))) is Some,
    ensures
        modifiers_read(segs, spec_) == Err::<Chord, KeyFault>(
            if trimmed(segs[i]).len() == 0 {
                KeyFault::EmptyModifier { spec: spec_ }
            } else {
                KeyFault::UnknownModifier { name: lowered(trimmed(segs[i])), spec: spec_ }
            },
        ),
    decreases segs.len(),
{
    let init = segs.drop_last();
    assert forall|j: int| 0 <= j < i && j < init.len() implies modifier_named(
        lowered(trimmed(#[trigger] init[j])),
    ) is Some by {
        assert(init[j] == segs[j]);
    }
    if i < segs.len() - 1 {
        assert(init[i] == segs[i]);
        lemma_first_bad_segment(init, spec_, i);
    } else {
        lemma_good_segments(init, spec_);
    }
}

proof fn lemma_good_segments(segs: Seq<Seq<char>>, spec_: Seq<char>)
    requires
        forall|j: int|
            0 <= j < segs.len() ==> modifier_named(lowered(trimmed(#[trigger] segs[j]))) is Some,
    ensures
        modifiers_read(segs, spec_) is Ok,
    decreases segs.len(),
{
    if segs.len() > 0 {
        let init = segs.drop_last();
        assert forall|j: int| 0 <= j < init.len() implies modifier_named(
            lowered(trimmed(#[trigger] init[j])),
        ) is Some by {
            assert(init[j] == segs[j]);
        }
        lemma_good_segments(init, spec_);
        assert(modifier_named(lowered(trimmed(segs[segs.len() - 1]))) is Some);
    }
}

/// Where something before the key is no modifier, the first such segment is
/// what is told: that it is empty, or its name in small letters.
pub proof fn law_first_bad_modifier_is_told(section: Seq<char>, key: Seq<char>, i: int)
    requires
        free_of(key, '+'),
        key.len() > 0,
        !is_space(key.last()),
        section.len() > 0,
        !is_space(section[0]),
        0 <= i < pieces(section, '+').len(),
        modifier_named(lowered(trimmed(pieces(section, '+')[i]))) is None,
        forall|j: int|
            0 <= j < i ==> modifier_named(lowered(trimmed(#[trigger] pieces(section, '+')[j]))) is Some,
    ensures
        ({
            let s = section.push('+') + key;
            let bad = trimmed(pieces(section, '+')[i]);
            &&& bad.len() == 0 ==> chord_read(s) == Err::<Chord, KeyFault>(
                KeyFault::EmptyModifier { spec: s },
            )
            &&& bad.len() > 0 ==> chord_read(s) == Err::<Chord, KeyFault>(
                KeyFault::UnknownModifier { name: lowered(bad), spec: s },
            )
        }),
{
    let s = section.push('+') + key;
    assert(s[0] == section[0]);
    assert(s.last() == key.last());
    assert(trimmed(s) == s);
    lemma_last_place_in(section.push('+'), key, '+');
    assert(key[key.len() - 1] != '+');
    assert(s.take(section.len() as int) =~= section);
    assert(s.skip((section.len() + 1) as int) =~= key);
    assert(s.len() >= 2);
    assert(halves(s) == (section, key));
    assert(trimmed(section).len() > 0) by {
        lemma_trims_commute(section);
        lemma_not_blank(section);
    }
    lemma_first_bad_segment(pieces(section, '+'), s, i);
}

/// Modifiers with a separator after the last of them and no key are told to
/// have none.
pub proof fn law_modifiers_alone_have_no_key(mods: Seq<Seq<char>>)
    requires
        mods.len() > 0,
        all_modifiers(mods),
    ensures
        chord_read(before_key(mods)) == Err::<Chord, KeyFault>(
            KeyFault::NoKey { spec: before_key(mods) },
        ),
{
    let head = before_key(mods);
    let m = mods.last();
    assert(m == mods[mods.len() - 1]);
    assert(modifier_named(lowered(mods[mods.len() - 1])) is Some);
    lemma_modifier_text(m);
    lemma_section(mods);
    let n = head.len() as int;
    assert(head[n - 1] == '+');
    assert(head[n - 2] == m[m.len() - 1]);
    assert(!is_space('+'));
    assert(trim_front(head) == head);
    assert(trim_back(head) == head);
    assert(trimmed(head) == head);
    assert(last_place(head, '+') == n - 1);
    let section = head.drop_last();
    assert(head.take(n - 1) =~= section);
    assert(head.skip(n) =~= Seq::<char>::empty());
    assert(head != seq!['+']);
    assert(halves(head) == (section, Seq::<char>::empty()));
    assert(trimmed(section).len() > 0) by {
        lemma_trims_commute(section);
        lemma_not_blank(section);
    }
    assert(segments(section) == mods);
    lemma_modifiers_named(mods, head);
    assert(trimmed(Seq::<char>::empty()) =~= Seq::<char>::empty());
}

/// A result and its view agree: the chords are the same, a refusal is of the
/// same sort, and its texts have the same characters.
pub proof fn law_refusal_is_what_was_refused(
    one: Result<Chord, KeyError>,
    all: Result<Vec<Chord>, KeyError>,
    e: KeyError,
)
    ensures
        one matches Ok(c) ==> chord_result(one) == Ok::<Chord, KeyFault>(c),
        one matches Err(f) ==> chord_result(one) == Err::<Chord, KeyFault>(f@),
        all matches Ok(cs) ==> sequence_result(all) == Ok::<Seq<Chord>, KeyFault>(cs@),
        all matches Err(f) ==> sequence_result(all) == Err::<Seq<Chord>, KeyFault>(f@),
        e is Empty <==> e@ is Empty,
        e matches KeyError::EmptyModifier { spec } ==> e@ == (KeyFault::EmptyModifier {
            spec: spec@,
        }),
        e matches KeyError::UnknownModifier { name, spec } ==> e@ == (KeyFault::UnknownModifier {
            name: name@,
            spec: spec@,
        }),
        e matches KeyError::NoKey { spec } ==> e@ == (KeyFault::NoKey { spec: spec@ }),
        e matches KeyError::NoLayoutCode { key } ==> e@ == (KeyFault::NoLayoutCode { key: key@ }),
        e matches KeyError::UnknownKey { key, spec } ==> e@ == (KeyFault::UnknownKey {
            key: key@,
            spec: spec@,
        }),
        e matches KeyError::NoKeys { spec } ==> e@ == (KeyFault::NoKeys { spec: spec@ }),
        e matches KeyError::TooMany { count } ==> e@ == (KeyFault::TooMany { count: count as nat }),
{
}

/// A refusal in words names what was refused: the modifier or the key before
/// the specification that it stands in, or the number of keystrokes.
pub proof fn law_refusal_names_what_was_refused(
    name: Seq<char>,
    key: Seq<char>,
    spec_: Seq<char>,
    count: nat,
)
    ensures
        begins_with(
            fault_message(KeyFault::UnknownModifier { name, spec: spec_ }),
            "unknown modifier "@ + debug_text(name) + " in "@ + debug_text(spec_),
        ),
        begins_with(
            fault_message(KeyFault::UnknownKey { key, spec: spec_ }),
            "unknown key "@ + debug_text(key) + " in "@ + debug_text(spec_),
        ),
        begins_with(
            fault_message(KeyFault::EmptyModifier { spec: spec_ }),
            "empty modifier in "@ + debug_text(spec_),
        ),
        begins_with(fault_message(KeyFault::NoKey { spec: spec_ }), debug_text(spec_)),
        begins_with(fault_message(KeyFault::NoLayoutCode { key }), debug_text(key)),
        begins_with(
            fault_message(KeyFault::NoKeys { spec: spec_ }),
            "no keys in "@ + debug_text(spec_),
        ),
        begins_with(fault_message(KeyFault::TooMany { count }), decimal(count)),
{
    let a = fault_message(KeyFault::UnknownModifier { name, spec: spec_ });
    assert(a.take(a.len() as int) =~= a);
    let b = fault_message(KeyFault::UnknownKey { key, spec: spec_ });
    assert(b.take(b.len() as int) =~= b);
    let c = fault_message(KeyFault::EmptyModifier { spec: spec_ });
    assert(c.take(c.len() as int) =~= c);
    let d = fault_message(KeyFault::NoKey { spec: spec_ });
    assert(d.take(debug_text(spec_).len() as int) =~= debug_text(spec_));
    let f = fault_message(KeyFault::NoLayoutCode { key });
    assert(f.take(debug_text(key).len() as int) =~= debug_text(key));
    let g = fault_message(KeyFault::NoKeys { spec: spec_ });
    assert(g.take(g.len() as int) =~= g);
    let h = fault_message(KeyFault::TooMany { count });
    assert(h.take(decimal(count).len() as int) =~= decimal(count));
}

/// A doubled separator at the end is the plus key, after nothing or after
/// modifiers by name, and nothing else may stand before it.
pub proof fn law_doubled_separator_is_the_plus_key(section: Seq<char>)
    requires
        section.len() > 0 ==> !is_space(section[0]),
    ensures
        ({
            let r = chord_read(section.push('+').push('+'));
            &&& r is Ok <==> section.len() == 0 || forall|i: int|
                0 <= i < pieces(section, '+').len() ==> modifier_named(
                    lowered(trimmed(#[trigger] pieces(section, '+')[i])),
                ) is Some
            &&& r is Ok ==> r->Ok_0.key == 0xBB
        }),
{
    let t = section.push('+').push('+');
    let n = t.len() as int;
    let plus = seq!['+'];
    assert(t[n - 1] == '+' && t[n - 2] == '+');
    assert(!is_space(t[0]));
    assert(trim_front(t) == t);
    assert(trim_back(t) == t);
    assert(t != plus);
    assert(t.take(n - 2) =~= section);
    assert(halves(t) == (section, plus));
    assert(trimmed(plus) == plus) by {
        assert(!is_space(plus[0]));
        assert(trim_front(plus) == plus);
    }
    lemma_names_differ();
    assert(lowered(plus) =~= "+"@);
    assert(key_read(plus, t) == Ok::<u16, KeyFault>(0xBBu16));
    if section.len() == 0 {
        assert(section =~= Seq::<char>::empty());
        assert(trimmed(section) =~= Seq::<char>::empty());
    } else {
        lemma_not_blank(section);
        let segs = pieces(section, '+');
        if forall|i: int|
            0 <= i < segs.len() ==> modifier_named(
                lowered(trimmed(#[trigger] segs[i])),
            ) is Some {
            lemma_good_segments(segs, t);
        } else {
            let i = choose|i: int|
                0 <= i < segs.len() && modifier_named(
                    lowered(trimmed(#[trigger] segs[i])),
                ) is None;
            lemma_bad_segment(segs, t, i);
        }
    }
}

/// A separator with nothing before it holds nothing: what follows it is the
/// key, as it would be alone.
pub proof fn law_leading_separator_holds_nothing(k: Seq<char>)
    requires
        free_of(k, '+'),
        k.len() > 0,
        !is_space(k[0]),
        !is_space(k.last()),
        chord_read(k) is Ok,
    ensures
        chord_read(seq!['+'] + k) == chord_read(k),
{
    let s = seq!['+'] + k;
    let none = Seq::<char>::empty();
    assert(s[0] == '+' && s.last() == k.last());
    assert(trim_front(s) == s && trim_back(s) == s);
    assert(trim_front(k) == k && trim_back(k) == k);
    lemma_last_place_in(seq!['+'], k, '+');
    lemma_last_place(k, '+');
    assert(k[k.len() - 1] != '+');
    assert(k != seq!['+']) by {
        assert(seq!['+'][0] == '+');
    }
    assert(s != seq!['+']);
    assert(s.take(0) =~= none);
    assert(s.skip(1) =~= k);
    assert(halves(s) == (none, k));
    assert(halves(k) == (none, k));
    assert(trimmed(none) =~= none);
    assert(segments(none) =~= Seq::<Seq<char>>::empty());
    assert(modifiers_read(Seq::<Seq<char>>::empty(), s) == Ok::<Chord, KeyFault>(bare_chord()));
    assert(modifiers_read(Seq::<Seq<char>>::empty(), k) == Ok::<Chord, KeyFault>(bare_chord()));
}

} // verus!
