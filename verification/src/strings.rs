//! Text primitives that the parsers are built from.
//!
//! Everything here works on sequences of characters, so the contracts of the
//! parsers can speak of a string's characters and never of its bytes.

use vstd::prelude::*;

verus! {

/// The characters with the Unicode property `White_Space`.
pub open spec fn is_space(c: char) -> bool {
    ||| '\u{9}' <= c <= '\u{d}'
    ||| c == ' '
    ||| c == '\u{85}'
    ||| c == '\u{a0}'
    ||| c == '\u{1680}'
    ||| '\u{2000}' <= c <= '\u{200a}'
    ||| c == '\u{2028}'
    ||| c == '\u{2029}'
    ||| c == '\u{202f}'
    ||| c == '\u{205f}'
    ||| c == '\u{3000}'
}

/// Whether a character separates words.
pub fn is_white_space(c: char) -> (r: bool)
    ensures
        r == is_space(c),
{
    ('\u{9}' <= c && c <= '\u{d}') || c == ' ' || c == '\u{85}' || c == '\u{a0}' || c == '\u{1680}'
        || ('\u{2000}' <= c && c <= '\u{200a}') || c == '\u{2028}' || c == '\u{2029}' || c
        == '\u{202f}' || c == '\u{205f}' || c == '\u{3000}'
}

/// `s` without its leading white space.
pub open spec fn trim_front(s: Seq<char>) -> Seq<char>
    decreases s.len(),
{
    if s.len() > 0 && is_space(s[0]) {
        trim_front(s.drop_first())
    } else {
        s
    }
}

/// `s` without its trailing white space.
pub open spec fn trim_back(s: Seq<char>) -> Seq<char>
    decreases s.len(),
{
    if s.len() > 0 && is_space(s.last()) {
        trim_back(s.drop_last())
    } else {
        s
    }
}

/// `s` without the white space around it.
pub open spec fn trimmed(s: Seq<char>) -> Seq<char> {
    trim_back(trim_front(s))
}

/// `c` with an ASCII capital replaced by the small letter.
pub open spec fn lower_char(c: char) -> char {
    if 'A' <= c <= 'Z' {
        (c as u32 + 32) as char
    } else {
        c
    }
}

/// `s` with every ASCII capital replaced by the small letter.
pub open spec fn lowered(s: Seq<char>) -> Seq<char> {
    s.map_values(|c: char| lower_char(c))
}

/// Replaces an ASCII capital by the small letter.
pub fn to_lower_char(c: char) -> (r: char)
    ensures
        r == lower_char(c),
{
    if 'A' <= c && c <= 'Z' {
        (c as u8 + 32) as char
    } else {
        c
    }
}

/// The characters of `s` that lie between two separators `sep`, the outermost
/// pieces included. A string without a separator is one piece.
pub open spec fn pieces(s: Seq<char>, sep: char) -> Seq<Seq<char>>
    decreases s.len(),
{
    if s.len() == 0 {
        seq![Seq::<char>::empty()]
    } else {
        let before = pieces(s.drop_last(), sep);
        if s.last() == sep {
            before.push(Seq::<char>::empty())
        } else {
            before.drop_last().push(before.last().push(s.last()))
        }
    }
}

/// The words that `s` has completed, and the word that its last characters
/// have begun (empty where the last character is white space).
pub open spec fn word_scan(s: Seq<char>) -> (Seq<Seq<char>>, Seq<char>)
    decreases s.len(),
{
    if s.len() == 0 {
        (Seq::<Seq<char>>::empty(), Seq::<char>::empty())
    } else {
        let (done, open) = word_scan(s.drop_last());
        if !is_space(s.last()) {
            (done, open.push(s.last()))
        } else if open.len() == 0 {
            (done, open)
        } else {
            (done.push(open), Seq::<char>::empty())
        }
    }
}

/// The maximal runs of characters other than white space, in order.
pub open spec fn words(s: Seq<char>) -> Seq<Seq<char>> {
    let (done, open) = word_scan(s);
    if open.len() == 0 {
        done
    } else {
        done.push(open)
    }
}

/// The place of the last `c` in `s`, or -1.
pub open spec fn last_place(s: Seq<char>, c: char) -> int
    decreases s.len(),
{
    if s.len() == 0 {
        -1
    } else if s.last() == c {
        s.len() - 1
    } else {
        last_place(s.drop_last(), c)
    }
}

/// The characters of each vector.
pub open spec fn char_rows(v: Seq<Vec<char>>) -> Seq<Seq<char>> {
    v.map_values(|r: Vec<char>| r@)
}

/// The characters of each string.
pub open spec fn string_rows(v: Seq<String>) -> Seq<Seq<char>> {
    v.map_values(|r: String| r@)
}

/// The standard library's `String::push`: appends one character.
pub assume_specification[ String::push ](s: &mut String, c: char)
    ensures
        final(s)@ == old(s)@.push(c),
;

/// The characters of a string.
pub fn chars_of(s: &str) -> (r: Vec<char>)
    ensures
        r@ == s@,
{
    let mut out: Vec<char> = Vec::new();
    for c in it: s.chars()
        invariant
            it.seq() == s@,
            out@ == s@.take(it.index() as int),
    {
        out.push(c);
        assert(s@.take(it.index() as int).push(c) =~= s@.take(it.index() + 1));
    }
    assert(s@.take(s@.len() as int) =~= s@);
    out
}

/// The string of some characters.
pub fn string_of(v: &Vec<char>) -> (r: String)
    ensures
        r@ == v@,
{
    let mut out = String::new();
    for i in 0..v.len()
        invariant
            out@ == v@.take(i as int),
    {
        out.push(v[i]);
        assert(v@.take(i as int).push(v@[i as int]) =~= v@.take(i + 1));
    }
    assert(v@.take(v@.len() as int) =~= v@);
    out
}

/// The part of `v` from `from` up to `to`.
pub fn slice_of(v: &Vec<char>, from: usize, to: usize) -> (r: Vec<char>)
    requires
        from <= to <= v@.len(),
    ensures
        r@ == v@.subrange(from as int, to as int),
{
    let mut out: Vec<char> = Vec::new();
    for i in from..to
        invariant
            from <= to <= v@.len(),
            out@ == v@.subrange(from as int, i as int),
    {
        out.push(v[i]);
        assert(v@.subrange(from as int, i as int).push(v@[i as int]) =~= v@.subrange(
            from as int,
            i + 1,
        ));
    }
    out
}

/// Whether some characters are those of `s`.
pub fn same(v: &Vec<char>, s: &str) -> (r: bool)
    ensures
        r == (v@ == s@),
{
    let other = chars_of(s);
    same_chars(v, &other)
}

/// Whether two vectors hold the same characters.
pub fn same_chars(v: &Vec<char>, w: &Vec<char>) -> (r: bool)
    ensures
        r == (v@ == w@),
{
    if v.len() != w.len() {
        return false;
    }
    for i in 0..v.len()
        invariant
            v@.len() == w@.len(),
            forall|j: int| 0 <= j < i ==> v@[j] == w@[j],
    {
        if v[i] != w[i] {
            assert(v@[i as int] != w@[i as int]);
            return false;
        }
    }
    assert(v@ =~= w@);
    true
}

/// Whether two strings are the same.
pub fn same_text(a: &str, b: &str) -> (r: bool)
    ensures
        r == (a@ == b@),
{
    same(&chars_of(a), b)
}

/// Replaces every ASCII capital by the small letter.
pub fn lower(v: &Vec<char>) -> (r: Vec<char>)
    ensures
        r@ == lowered(v@),
{
    let mut out: Vec<char> = Vec::new();
    for i in 0..v.len()
        invariant
            out@ == lowered(v@.take(i as int)),
    {
        out.push(to_lower_char(v[i]));
        assert(lowered(v@.take(i as int)).push(lower_char(v@[i as int])) =~= lowered(
            v@.take(i + 1),
        ));
    }
    assert(v@.take(v@.len() as int) =~= v@);
    out
}

/// Removes the white space around some characters.
pub fn trim(v: &Vec<char>) -> (r: Vec<char>)
    ensures
        r@ == trimmed(v@),
{
    let mut from: usize = 0;
    assert(v@.skip(0) =~= v@);
    while from < v.len() && is_white_space(v[from])
        invariant
            from <= v@.len(),
            trim_front(v@) == trim_front(v@.skip(from as int)),
        decreases v@.len() - from,
    {
        assert(v@.skip(from as int).drop_first() =~= v@.skip(from + 1));
        from = from + 1;
    }
    assert(trim_front(v@) == v@.skip(from as int));
    let mut to: usize = v.len();
    assert(v@.subrange(from as int, to as int) =~= v@.skip(from as int));
    while from < to && is_white_space(v[to - 1])
        invariant
            from <= to <= v@.len(),
            trim_back(v@.skip(from as int)) == trim_back(v@.subrange(from as int, to as int)),
        decreases to,
    {
        assert(v@.subrange(from as int, to as int).drop_last() =~= v@.subrange(
            from as int,
            to - 1,
        ));
        to = to - 1;
    }
    slice_of(v, from, to)
}

/// Splits at every separator.
pub fn split(v: &Vec<char>, sep: char) -> (r: Vec<Vec<char>>)
    ensures
        char_rows(r@) == pieces(v@, sep),
{
    let mut out: Vec<Vec<char>> = Vec::new();
    let mut open: Vec<char> = Vec::new();
    assert(char_rows(out@).push(open@) =~= pieces(v@.take(0), sep));
    for i in 0..v.len()
        invariant
            char_rows(out@).push(open@) == pieces(v@.take(i as int), sep),
    {
        let ghost before = char_rows(out@).push(open@);
        assert(v@.take(i + 1).drop_last() =~= v@.take(i as int));
        assert(v@.take(i + 1).last() == v@[i as int]);
        assert(before.drop_last() =~= char_rows(out@));
        assert(before.last() == open@);
        if v[i] == sep {
            out.push(open);
            open = Vec::new();
            assert(char_rows(out@) =~= before);
        } else {
            open.push(v[i]);
        }
        assert(char_rows(out@).push(open@) =~= pieces(v@.take(i + 1), sep));
    }
    assert(v@.take(v@.len() as int) =~= v@);
    let ghost before = char_rows(out@).push(open@);
    out.push(open);
    assert(char_rows(out@) =~= before);
    out
}

/// Splits into words.
pub fn split_words(v: &Vec<char>) -> (r: Vec<Vec<char>>)
    ensures
        char_rows(r@) == words(v@),
{
    let mut out: Vec<Vec<char>> = Vec::new();
    let mut open: Vec<char> = Vec::new();
    assert(char_rows(out@) =~= Seq::<Seq<char>>::empty());
    for i in 0..v.len()
        invariant
            word_scan(v@.take(i as int)) == (char_rows(out@), open@),
    {
        let ghost before = char_rows(out@);
        assert(v@.take(i + 1).drop_last() =~= v@.take(i as int));
        assert(v@.take(i + 1).last() == v@[i as int]);
        if !is_white_space(v[i]) {
            open.push(v[i]);
        } else if open.len() > 0 {
            let ghost word = open@;
            out.push(open);
            open = Vec::new();
            assert(char_rows(out@) =~= before.push(word));
        }
    }
    assert(v@.take(v@.len() as int) =~= v@);
    if open.len() > 0 {
        let ghost before = char_rows(out@);
        let ghost word = open@;
        out.push(open);
        assert(char_rows(out@) =~= before.push(word));
    }
    out
}

/// Finds the last `c`.
pub fn find_last(v: &Vec<char>, c: char) -> (r: Option<usize>)
    ensures
        match r {
            Some(i) => i == last_place(v@, c),
            None => last_place(v@, c) == -1,
        },
{
    let mut to: usize = v.len();
    assert(v@.take(to as int) =~= v@);
    while to > 0
        invariant
            to <= v@.len(),
            last_place(v@, c) == last_place(v@.take(to as int), c),
        decreases to,
    {
        assert(v@.take(to as int).last() == v@[to - 1]);
        assert(v@.take(to as int).drop_last() =~= v@.take(to - 1));
        if v[to - 1] == c {
            return Some(to - 1);
        }
        to = to - 1;
    }
    None
}

/// A decimal digit.
pub open spec fn is_digit(c: char) -> bool {
    '0' <= c <= '9'
}

/// Whether every character is a decimal digit.
pub open spec fn all_digits(s: Seq<char>) -> bool {
    forall|i: int| 0 <= i < s.len() ==> is_digit(#[trigger] s[i])
}

/// The number that some decimal digits write.
pub open spec fn digits_value(s: Seq<char>) -> int
    decreases s.len(),
{
    if s.len() == 0 {
        0
    } else {
        10 * digits_value(s.drop_last()) + (s.last() as int - '0' as int)
    }
}

/// The number that `s` writes: one or more digits and nothing else.
pub open spec fn digits_read(s: Seq<char>) -> Option<int> {
    if s.len() > 0 && all_digits(s) {
        Some(digits_value(s))
    } else {
        None
    }
}

/// The number that `s` writes: digits, with a plus sign before them or not.
pub open spec fn unsigned_read(s: Seq<char>) -> Option<int> {
    if s.len() > 0 && s[0] == '+' {
        digits_read(s.drop_first())
    } else {
        digits_read(s)
    }
}

/// The number that `s` writes: digits, with a sign before them or not.
pub open spec fn signed_read(s: Seq<char>) -> Option<int> {
    if s.len() > 0 && s[0] == '-' {
        match digits_read(s.drop_first()) {
            Some(n) => Some(-n),
            None => None,
        }
    } else {
        unsigned_read(s)
    }
}

/// The number in `found` where it lies between `low` and `high`.
pub open spec fn in_range(found: Option<int>, low: int, high: int) -> Option<int> {
    match found {
        Some(n) if low <= n <= high => Some(n),
        _ => None,
    }
}

/// Reading more digits never makes the number smaller.
proof fn lemma_digits_grow(s: Seq<char>, i: int)
    requires
        all_digits(s),
        0 <= i <= s.len(),
    ensures
        0 <= digits_value(s.take(i)) <= digits_value(s),
    decreases s.len(),
{
    if s.len() == 0 {
        assert(s.take(i) =~= s);
    } else {
        let t = s.drop_last();
        assert(all_digits(t));
        assert(is_digit(s.last()));
        if i == s.len() {
            assert(s.take(i) =~= s);
            lemma_digits_grow(t, t.len() as int);
            assert(t.take(t.len() as int) =~= t);
        } else {
            lemma_digits_grow(t, i);
            assert(s.take(i) =~= t.take(i));
        }
    }
}

/// Reads the digits from place `from` on, where they write at most `max`.
fn read_digits(v: &Vec<char>, from: usize, max: u64) -> (r: Option<u64>)
    requires
        from <= v@.len(),
    ensures
        match r {
            Some(n) => in_range(digits_read(v@.skip(from as int)), 0, max as int) == Some(n as int),
            None => in_range(digits_read(v@.skip(from as int)), 0, max as int) is None,
        },
{
    let ghost s = v@.skip(from as int);
    if from == v.len() {
        return None;
    }
    let mut n: u128 = 0;
    for i in from..v.len()
        invariant
            from < v@.len(),
            s == v@.skip(from as int),
            n == digits_value(s.take(i - from)),
            n <= max,
            forall|j: int| 0 <= j < i - from ==> is_digit(#[trigger] s[j]),
    {
        let c = v[i];
        assert(s[i - from] == c);
        if !('0' <= c && c <= '9') {
            return None;
        }
        assert(s.take(i - from + 1).drop_last() =~= s.take(i - from));
        n = n * 10 + (c as u128 - '0' as u128);
        assert(n == digits_value(s.take(i - from + 1)));
        if n > max as u128 {
            proof {
                if all_digits(s) {
                    lemma_digits_grow(s, i - from + 1);
                }
            }
            return None;
        }
    }
    assert(s.take(s.len() as int) =~= s);
    Some(n as u64)
}

/// Reads an unsigned number of at most `max`.
pub fn read_unsigned(v: &Vec<char>, max: u64) -> (r: Option<u64>)
    ensures
        match r {
            Some(n) => in_range(unsigned_read(v@), 0, max as int) == Some(n as int),
            None => in_range(unsigned_read(v@), 0, max as int) is None,
        },
{
    assert(v@.skip(0) =~= v@);
    if v.len() > 0 && v[0] == '+' {
        assert(v@.skip(1) =~= v@.drop_first());
        read_digits(v, 1, max)
    } else {
        read_digits(v, 0, max)
    }
}

/// Reads a number that fits `i32`.
pub fn read_i32(v: &Vec<char>) -> (r: Option<i32>)
    ensures
        match r {
            Some(n) => in_range(signed_read(v@), i32::MIN as int, i32::MAX as int) == Some(n as int),
            None => in_range(signed_read(v@), i32::MIN as int, i32::MAX as int) is None,
        },
{
    proof {
        lemma_reads_are_natural(v@);
        if v@.len() > 0 {
            lemma_reads_are_natural(v@.drop_first());
        }
    }
    if v.len() > 0 && v[0] == '-' {
        assert(v@.skip(1) =~= v@.drop_first());
        match read_digits(v, 1, 0x8000_0000) {
            Some(n) => Some((-(n as i64)) as i32),
            None => None,
        }
    } else {
        match read_unsigned(v, 0x7fff_ffff) {
            Some(n) => Some(n as i32),
            None => None,
        }
    }
}

/// Reads a number that fits `isize`.
pub fn read_isize(v: &Vec<char>) -> (r: Option<isize>)
    ensures
        match r {
            Some(n) => in_range(signed_read(v@), isize::MIN as int, isize::MAX as int) == Some(
                n as int,
            ),
            None => in_range(signed_read(v@), isize::MIN as int, isize::MAX as int) is None,
        },
{
    proof {
        lemma_reads_are_natural(v@);
        if v@.len() > 0 {
            lemma_reads_are_natural(v@.drop_first());
        }
    }
    let max: u64 = isize::MAX as u64;
    if v.len() > 0 && v[0] == '-' {
        assert(v@.skip(1) =~= v@.drop_first());
        match read_digits(v, 1, max + 1) {
            Some(n) => if n > max {
                Some(isize::MIN)
            } else {
                Some(-(n as isize))
            },
            None => None,
        }
    } else {
        match read_unsigned(v, max) {
            Some(n) => Some(n as isize),
            None => None,
        }
    }
}

pub(crate) proof fn lemma_reads_are_natural(s: Seq<char>)
    ensures
        digits_read(s) matches Some(n) ==> n >= 0,
        unsigned_read(s) matches Some(n) ==> n >= 0,
{
    if all_digits(s) {
        lemma_digits_grow(s, s.len() as int);
        assert(s.take(s.len() as int) =~= s);
    }
    if s.len() > 0 && all_digits(s.drop_first()) {
        let t = s.drop_first();
        lemma_digits_grow(t, t.len() as int);
        assert(t.take(t.len() as int) =~= t);
    }
}

/// The digit for a number below ten.
pub open spec fn digit_char(d: int) -> char {
    ('0' as int + d) as char
}

/// How a number is written in decimal.
pub open spec fn decimal(n: nat) -> Seq<char>
    decreases n,
{
    if n < 10 {
        seq![digit_char(n as int)]
    } else {
        decimal(n / 10).push(digit_char((n % 10) as int))
    }
}

/// How an integer is written in decimal.
pub open spec fn decimal_int(n: int) -> Seq<char> {
    if n < 0 {
        seq!['-'] + decimal((-n) as nat)
    } else {
        decimal(n as nat)
    }
}

/// Writes a number in decimal.
pub fn write_decimal(n: u64) -> (r: String)
    ensures
        r@ == decimal(n as nat),
    decreases n,
{
    let last = (48 + (n % 10) as u8) as char;
    assert(last == digit_char((n % 10) as int));
    if n < 10 {
        let mut out = String::new();
        out.push(last);
        assert(out@ =~= decimal(n as nat));
        out
    } else {
        let mut out = write_decimal(n / 10);
        out.push(last);
        out
    }
}

/// Writes an integer in decimal.
pub fn write_integer(n: i64) -> (r: String)
    ensures
        r@ == decimal_int(n as int),
{
    if n < 0 {
        let mut out = String::new();
        out.push('-');
        assert(out@ =~= seq!['-']);
        let size: u64 = (-(n as i128)) as u64;
        out.append(write_decimal(size).as_str());
        out
    } else {
        write_decimal(n as u64)
    }
}

/// The text that the standard library's `Debug` formatting gives for a string:
/// the string in double quotes, with the escapes of `str::escape_debug`.
pub uninterp spec fn debug_text(s: Seq<char>) -> Seq<char>;

/// Formats a string with the standard library's `Debug` for `str`. The text is
/// a function of the characters alone; which characters it escapes follows
/// Unicode's tables and is left to the name.
#[verifier::external_body]
pub(crate) fn quoted(s: &str) -> (r: String)
    ensures
        r@ == debug_text(s@),
{
    format!("{s:?}")
}

/// Each row with its capitals replaced.
pub open spec fn lowered_rows(rows: Seq<Seq<char>>) -> Seq<Seq<char>> {
    rows.map_values(|r: Seq<char>| lowered(r))
}

pub(crate) proof fn lemma_lower_char(c: char)
    ensures
        lower_char(lower_char(c)) == lower_char(c),
        is_space(lower_char(c)) == is_space(c),
        lower_char(c) == '+' <==> c == '+',
{
}

pub(crate) proof fn lemma_lowered_twice(s: Seq<char>)
    ensures
        lowered(lowered(s)) == lowered(s),
{
    assert(lowered(lowered(s)) =~= lowered(s));
}

pub(crate) proof fn lemma_lowered_trim_front(s: Seq<char>)
    ensures
        trim_front(lowered(s)) == lowered(trim_front(s)),
    decreases s.len(),
{
    if s.len() > 0 {
        lemma_lower_char(s[0]);
        if is_space(s[0]) {
            assert(lowered(s).drop_first() =~= lowered(s.drop_first()));
            lemma_lowered_trim_front(s.drop_first());
        }
    }
}

pub(crate) proof fn lemma_lowered_trim_back(s: Seq<char>)
    ensures
        trim_back(lowered(s)) == lowered(trim_back(s)),
    decreases s.len(),
{
    if s.len() > 0 {
        lemma_lower_char(s.last());
        if is_space(s.last()) {
            assert(lowered(s).drop_last() =~= lowered(s.drop_last()));
            lemma_lowered_trim_back(s.drop_last());
        }
    }
}

pub(crate) proof fn lemma_lowered_trimmed(s: Seq<char>)
    ensures
        trimmed(lowered(s)) == lowered(trimmed(s)),
{
    lemma_lowered_trim_front(s);
    lemma_lowered_trim_back(trim_front(s));
}

pub(crate) proof fn lemma_pieces_some(s: Seq<char>, sep: char)
    ensures
        pieces(s, sep).len() > 0,
    decreases s.len(),
{
    if s.len() > 0 {
        lemma_pieces_some(s.drop_last(), sep);
    }
}

pub(crate) proof fn lemma_lowered_pieces(s: Seq<char>)
    ensures
        pieces(lowered(s), '+') == lowered_rows(pieces(s, '+')),
    decreases s.len(),
{
    if s.len() == 0 {
        assert(lowered(s) =~= s);
        assert(lowered_rows(pieces(s, '+')) =~= pieces(s, '+')) by {
            assert(lowered(Seq::<char>::empty()) =~= Seq::<char>::empty());
        }
    } else {
        let init = s.drop_last();
        lemma_pieces_some(init, '+');
        lemma_lowered_pieces(init);
        lemma_lower_char(s.last());
        assert(lowered(s).drop_last() =~= lowered(init));
        let before = pieces(init, '+');
        if s.last() == '+' {
            assert(lowered(Seq::<char>::empty()) =~= Seq::<char>::empty());
            assert(pieces(lowered(s), '+') =~= lowered_rows(pieces(s, '+')));
        } else {
            assert(lowered(before.last().push(s.last())) =~= lowered(before.last()).push(
                lower_char(s.last()),
            ));
            assert(pieces(lowered(s), '+') =~= lowered_rows(pieces(s, '+')));
        }
    }
}

pub(crate) proof fn lemma_lowered_last_place(s: Seq<char>)
    ensures
        last_place(lowered(s), '+') == last_place(s, '+'),
    decreases s.len(),
{
    if s.len() > 0 {
        lemma_lower_char(s.last());
        assert(lowered(s).drop_last() =~= lowered(s.drop_last()));
        lemma_lowered_last_place(s.drop_last());
    }
}

pub(crate) proof fn lemma_lowered_word_scan(s: Seq<char>)
    ensures
        word_scan(lowered(s)).0 == lowered_rows(word_scan(s).0),
        word_scan(lowered(s)).1 == lowered(word_scan(s).1),
    decreases s.len(),
{
    if s.len() == 0 {
        assert(lowered(s) =~= s);
        assert(lowered_rows(word_scan(s).0) =~= word_scan(s).0);
        assert(lowered(word_scan(s).1) =~= word_scan(s).1);
    } else {
        let init = s.drop_last();
        lemma_lowered_word_scan(init);
        lemma_lower_char(s.last());
        assert(lowered(s).drop_last() =~= lowered(init));
        let (done, open) = word_scan(init);
        assert(lowered(open.push(s.last())) =~= lowered(open).push(lower_char(s.last())));
        assert(lowered_rows(done.push(open)) =~= lowered_rows(done).push(lowered(open)));
        assert(lowered(Seq::<char>::empty()) =~= Seq::<char>::empty());
    }
}

pub(crate) proof fn lemma_lowered_words(s: Seq<char>)
    ensures
        words(lowered(s)) == lowered_rows(words(s)),
{
    lemma_lowered_word_scan(s);
    let (done, open) = word_scan(s);
    assert(lowered_rows(done.push(open)) =~= lowered_rows(done).push(lowered(open)));
}

proof fn lemma_decimal(n: nat)
    ensures
        decimal(n).len() > 0,
        all_digits(decimal(n)),
        digits_value(decimal(n)) == n,
    decreases n,
{
    let s = decimal(n);
    let d = (n % 10) as int;
    assert(is_digit(digit_char(d)));
    assert(digit_char(d) as int - '0' as int == d);
    if n < 10 {
        assert(s =~= seq![digit_char(d)]);
        assert(digits_value(s.drop_last()) == 0);
    } else {
        lemma_decimal(n / 10);
        let init = decimal(n / 10);
        assert(s =~= init.push(digit_char(d)));
        assert(s.drop_last() =~= init);
        assert(s.last() == digit_char(d));
        assert forall|i: int| 0 <= i < s.len() implies is_digit(#[trigger] s[i]) by {
            if i < init.len() {
                assert(s[i] == init[i]);
            }
        }
    }
}

/// A number that was written in decimal reads back as itself.
pub proof fn law_decimal_reads_back(n: int)
    ensures
        signed_read(decimal_int(n)) == Some(n),
        n >= 0 ==> unsigned_read(decimal_int(n)) == Some(n),
{
    let size = if n < 0 {
        (-n) as nat
    } else {
        n as nat
    };
    lemma_decimal(size);
    let digits = decimal(size);
    assert(is_digit(digits[0]));
    if n < 0 {
        assert(decimal_int(n).drop_first() =~= digits);
    }
}

/// Whether a character stands nowhere in a text.
pub open spec fn free_of(s: Seq<char>, c: char) -> bool {
    forall|i: int| 0 <= i < s.len() ==> #[trigger] s[i] != c
}

/// Characters other than the separator lengthen the last piece.
pub(crate) proof fn lemma_pieces_lengthen(s: Seq<char>, t: Seq<char>, sep: char)
    requires
        free_of(t, sep),
    ensures
        pieces(s + t, sep) == pieces(s, sep).drop_last().push(pieces(s, sep).last() + t),
    decreases t.len(),
{
    lemma_pieces_some(s, sep);
    let rows = pieces(s, sep);
    if t.len() == 0 {
        assert(s + t =~= s);
        assert(rows.last() + t =~= rows.last());
        assert(rows.drop_last().push(rows.last()) =~= rows);
    } else {
        let init = t.drop_last();
        assert forall|i: int| 0 <= i < init.len() implies #[trigger] init[i] != sep by {
            assert(init[i] == t[i]);
        }
        lemma_pieces_lengthen(s, init, sep);
        assert((s + t).drop_last() =~= s + init);
        assert(t[t.len() - 1] != sep);
        let longer = rows.drop_last().push(rows.last() + init);
        assert(longer.drop_last() =~= rows.drop_last());
        assert((rows.last() + init).push(t.last()) =~= rows.last() + t);
    }
}

/// A separator begins a piece.
pub(crate) proof fn lemma_pieces_begin(s: Seq<char>, t: Seq<char>, sep: char)
    requires
        free_of(t, sep),
    ensures
        pieces(s.push(sep) + t, sep) == pieces(s, sep).push(t),
{
    assert(s.push(sep).drop_last() =~= s);
    lemma_pieces_lengthen(s.push(sep), t, sep);
    let rows = pieces(s, sep).push(Seq::<char>::empty());
    assert(rows.drop_last() =~= pieces(s, sep));
    assert(Seq::<char>::empty() + t =~= t);
}

/// A text without the separator is one piece.
pub(crate) proof fn lemma_pieces_one(t: Seq<char>, sep: char)
    requires
        free_of(t, sep),
    ensures
        pieces(t, sep) == seq![t],
{
    lemma_pieces_lengthen(Seq::<char>::empty(), t, sep);
    assert(Seq::<char>::empty() + t =~= t);
    assert(pieces(Seq::<char>::empty(), sep).drop_last().push(t) =~= seq![t]);
}

pub(crate) proof fn lemma_decimal_int_free(n: int, c: char)
    requires
        !is_digit(c),
        c != '-',
    ensures
        free_of(decimal_int(n), c),
{
    let size = if n < 0 {
        (-n) as nat
    } else {
        n as nat
    };
    lemma_decimal(size);
    let s = decimal_int(n);
    assert forall|i: int| 0 <= i < s.len() implies #[trigger] s[i] != c by {
        if n >= 0 {
            assert(is_digit(decimal(size)[i]));
        } else if i > 0 {
            assert(is_digit(decimal(size)[i - 1]));
        }
    }
}

/// `s` without trailing white space, seen from its first character.
proof fn lemma_trim_back_first(s: Seq<char>)
    requires
        s.len() > 0,
    ensures
        trim_back(s) == if trim_back(s.drop_first()).len() > 0 {
            seq![s[0]] + trim_back(s.drop_first())
        } else if is_space(s[0]) {
            Seq::<char>::empty()
        } else {
            seq![s[0]]
        },
    decreases s.len(),
{
    let rest = s.drop_first();
    if s.len() == 1 {
        assert(rest =~= Seq::<char>::empty());
        assert(s.drop_last() =~= Seq::<char>::empty());
        assert(s =~= seq![s[0]]);
    } else {
        assert(s.last() == rest.last());
        if is_space(s.last()) {
            let init = s.drop_last();
            assert(init.drop_first() =~= rest.drop_last());
            lemma_trim_back_first(init);
        } else {
            assert(s =~= seq![s[0]] + rest);
        }
    }
}

/// It makes no difference which end is trimmed first.
pub(crate) proof fn lemma_trims_commute(s: Seq<char>)
    ensures
        trim_front(trim_back(s)) == trimmed(s),
    decreases s.len(),
{
    if s.len() > 0 {
        let rest = s.drop_first();
        lemma_trim_back_first(s);
        lemma_trims_commute(rest);
        let back = trim_back(rest);
        if back.len() > 0 {
            assert((seq![s[0]] + back).drop_first() =~= back);
        } else if is_space(s[0]) {
            assert(trim_back(rest) =~= Seq::<char>::empty());
        }
    }
}

pub(crate) proof fn lemma_trim_back_twice(s: Seq<char>)
    ensures
        trim_back(trim_back(s)) == trim_back(s),
        trim_back(s).len() > 0 ==> !is_space(trim_back(s).last()),
        trim_back(s).len() <= s.len(),
        trim_back(s) == s.take(trim_back(s).len() as int),
    decreases s.len(),
{
    if s.len() > 0 && is_space(s.last()) {
        let init = s.drop_last();
        lemma_trim_back_twice(init);
        assert(init.take(trim_back(init).len() as int) =~= s.take(trim_back(init).len() as int));
    } else {
        assert(s.take(s.len() as int) =~= s);
    }
}

/// What stands before a text that is not blank is kept when the end is trimmed.
pub(crate) proof fn lemma_trim_back_after(s: Seq<char>, t: Seq<char>)
    requires
        trim_back(t).len() > 0,
    ensures
        trim_back(s + t) == s + trim_back(t),
    decreases t.len(),
{
    assert(t.len() > 0);
    assert((s + t).last() == t.last());
    if is_space(t.last()) {
        assert((s + t).drop_last() =~= s + t.drop_last());
        lemma_trim_back_after(s, t.drop_last());
    }
}

/// The last place of a character is a place where it stands, with none after.
pub(crate) proof fn lemma_last_place(s: Seq<char>, c: char)
    ensures
        -1 <= last_place(s, c) < s.len(),
        last_place(s, c) >= 0 ==> s[last_place(s, c)] == c,
        forall|j: int| last_place(s, c) < j < s.len() ==> s[j] != c,
    decreases s.len(),
{
    if s.len() > 0 && s.last() != c {
        lemma_last_place(s.drop_last(), c);
        assert forall|j: int| last_place(s, c) < j < s.len() implies s[j] != c by {
            if j < s.len() - 1 {
                assert(s.drop_last()[j] == s[j]);
            }
        }
    }
}

pub(crate) proof fn lemma_last_place_in(s: Seq<char>, t: Seq<char>, c: char)
    requires
        s.len() > 0,
        s.last() == c,
        free_of(t, c),
    ensures
        last_place(s + t, c) == s.len() - 1,
    decreases t.len(),
{
    if t.len() == 0 {
        assert(s + t =~= s);
    } else {
        let init = t.drop_last();
        assert forall|i: int| 0 <= i < init.len() implies #[trigger] init[i] != c by {
            assert(init[i] == t[i]);
        }
        assert(t[t.len() - 1] != c);
        assert((s + t).drop_last() =~= s + init);
        lemma_last_place_in(s, init, c);
    }
}

/// Whether two characters are the same, or a capital and a small letter of
/// ASCII that are the same letter.
pub open spec fn same_ascii_letter(c: char, d: char) -> bool {
    ||| c == d
    ||| 'A' <= c <= 'Z' && d as int == c as int + 32
    ||| 'A' <= d <= 'Z' && c as int == d as int + 32
}

/// Whether two texts are the same but for the case of ASCII letters.
pub open spec fn same_but_ascii_case(s: Seq<char>, t: Seq<char>) -> bool {
    &&& s.len() == t.len()
    &&& forall|i: int| 0 <= i < s.len() ==> same_ascii_letter(#[trigger] s[i], t[i])
}

/// Two texts are one in small letters exactly where they are the same but for
/// the case of ASCII letters.
pub proof fn law_lowered_ignores_ascii_case(s: Seq<char>, t: Seq<char>)
    ensures
        same_but_ascii_case(s, t) <==> lowered(s) == lowered(t),
        lowered(s).len() == s.len(),
        forall|i: int|
            0 <= i < s.len() ==> !('A' <= #[trigger] lowered(s)[i] <= 'Z') && same_ascii_letter(
                s[i],
                lowered(s)[i],
            ),
{
    let a = lowered(s);
    let b = lowered(t);
    if same_but_ascii_case(s, t) {
        assert forall|i: int| 0 <= i < a.len() implies a[i] == b[i] by {
            assert(same_ascii_letter(s[i], t[i]));
        }
        assert(a =~= b);
    }
    if a == b {
        assert(a.len() == b.len());
        assert forall|i: int| 0 <= i < s.len() implies same_ascii_letter(#[trigger] s[i], t[i]) by {
            assert(a[i] == b[i]);
            lemma_same_lower(s[i], t[i]);
        }
    }
    assert forall|i: int| 0 <= i < s.len() implies !('A' <= #[trigger] lowered(s)[i] <= 'Z')
        && same_ascii_letter(s[i], lowered(s)[i]) by {
        lemma_lower_alone(s[i]);
    }
}

proof fn lemma_lower_alone(c: char)
    ensures
        !('A' <= lower_char(c) <= 'Z'),
        same_ascii_letter(c, lower_char(c)),
{
}

proof fn lemma_same_lower(c: char, d: char)
    requires
        lower_char(c) == lower_char(d),
    ensures
        same_ascii_letter(c, d),
{
}

/// Trimming takes off white space and nothing else, and all of it at both
/// ends.
pub proof fn law_trimming_takes_white_space_alone(s: Seq<char>) -> (r: (Seq<char>, Seq<char>))
    ensures
        s == r.0 + trimmed(s) + r.1,
        forall|i: int| 0 <= i < r.0.len() ==> is_space(#[trigger] r.0[i]),
        forall|i: int| 0 <= i < r.1.len() ==> is_space(#[trigger] r.1[i]),
        trimmed(s).len() > 0 ==> !is_space(trimmed(s)[0]) && !is_space(trimmed(s).last()),
{
    let (front, rest) = lemma_front(s);
    let (kept, back) = lemma_back(rest);
    assert(s =~= front + kept + back);
    lemma_trims_commute(s);
    if kept.len() > 0 {
        assert(kept[0] == rest[0]);
    }
    (front, back)
}

proof fn lemma_front(s: Seq<char>) -> (r: (Seq<char>, Seq<char>))
    ensures
        s == r.0 + r.1,
        r.1 == trim_front(s),
        forall|i: int| 0 <= i < r.0.len() ==> is_space(#[trigger] r.0[i]),
        r.1.len() > 0 ==> !is_space(r.1[0]),
    decreases s.len(),
{
    if s.len() > 0 && is_space(s[0]) {
        let (a, b) = lemma_front(s.drop_first());
        let front = seq![s[0]] + a;
        assert(s =~= seq![s[0]] + s.drop_first());
        assert(seq![s[0]] + (a + b) =~= front + b);
        assert forall|i: int| 0 <= i < front.len() implies is_space(#[trigger] front[i]) by {
            if i > 0 {
                assert(front[i] == a[i - 1]);
            }
        }
        (front, b)
    } else {
        assert(Seq::<char>::empty() + s =~= s);
        (Seq::<char>::empty(), s)
    }
}

proof fn lemma_back(s: Seq<char>) -> (r: (Seq<char>, Seq<char>))
    ensures
        s == r.0 + r.1,
        r.0 == trim_back(s),
        forall|i: int| 0 <= i < r.1.len() ==> is_space(#[trigger] r.1[i]),
        r.0.len() > 0 ==> !is_space(r.0.last()),
    decreases s.len(),
{
    if s.len() > 0 && is_space(s.last()) {
        let (a, b) = lemma_back(s.drop_last());
        let back = b.push(s.last());
        assert(s =~= s.drop_last().push(s.last()));
        assert((a + b).push(s.last()) =~= a + back);
        assert forall|i: int| 0 <= i < back.len() implies is_space(#[trigger] back[i]) by {
            if i < b.len() {
                assert(back[i] == b[i]);
            }
        }
        (a, back)
    } else {
        assert(s + Seq::<char>::empty() =~= s);
        (s, Seq::<char>::empty())
    }
}

proof fn lemma_scan_on(s: Seq<char>, t: Seq<char>)
    requires
        word_scan(s).1.len() == 0,
    ensures
        word_scan(s + t).0 == word_scan(s).0 + word_scan(t).0,
        word_scan(s + t).1 == word_scan(t).1,
    decreases t.len(),
{
    if t.len() == 0 {
        assert(s + t =~= s);
        assert(word_scan(s).0 + word_scan(t).0 =~= word_scan(s).0);
        assert(word_scan(s).1 =~= word_scan(t).1);
    } else {
        let init = t.drop_last();
        lemma_scan_on(s, init);
        assert((s + t).drop_last() =~= s + init);
        assert((s + t).last() == t.last());
        let (done, open) = word_scan(init);
        assert(word_scan(s).0 + done.push(open) =~= (word_scan(s).0 + done).push(open));
    }
}

/// White space parts words: the words of two texts with white space between
/// them are those of the one and those of the other. A text without any white
/// space is one word, and one with nothing in it none.
pub proof fn law_white_space_parts_words(s: Seq<char>, c: char, t: Seq<char>, w: Seq<char>)
    requires
        is_space(c),
        w.len() > 0,
        forall|i: int| 0 <= i < w.len() ==> !is_space(#[trigger] w[i]),
    ensures
        words(s.push(c) + t) == words(s) + words(t),
        words(w) == seq![w],
        words(Seq::<char>::empty()) == Seq::<Seq<char>>::empty(),
{
    let head = s.push(c);
    assert(head.drop_last() =~= s);
    let (done, open) = word_scan(s);
    assert(word_scan(head).0 =~= words(s));
    assert(word_scan(head).1.len() == 0);
    lemma_scan_on(head, t);
    let (rest, last) = word_scan(t);
    assert(words(s) + rest.push(last) =~= (words(s) + rest).push(last));
    lemma_one_word(w);
    assert(Seq::<Seq<char>>::empty().push(w) =~= seq![w]);
}

proof fn lemma_one_word(w: Seq<char>)
    requires
        forall|i: int| 0 <= i < w.len() ==> !is_space(#[trigger] w[i]),
    ensures
        word_scan(w).0 == Seq::<Seq<char>>::empty(),
        word_scan(w).1 == w,
    decreases w.len(),
{
    if w.len() > 0 {
        let init = w.drop_last();
        assert forall|i: int| 0 <= i < init.len() implies !is_space(#[trigger] init[i]) by {
            assert(init[i] == w[i]);
        }
        lemma_one_word(init);
        assert(!is_space(w[w.len() - 1]));
        assert(init.push(w.last()) =~= w);
    } else {
        assert(w =~= Seq::<char>::empty());
    }
}

/// A separator parts pieces: the pieces of two texts with a separator between
/// them are those of the one and those of the other. A text without a
/// separator is one piece.
pub proof fn law_separator_parts_pieces(s: Seq<char>, sep: char, t: Seq<char>, w: Seq<char>)
    requires
        free_of(w, sep),
    ensures
        pieces(s.push(sep) + t, sep) == pieces(s, sep) + pieces(t, sep),
        pieces(w, sep) == seq![w],
    decreases t.len(),
{
    lemma_pieces_one(w, sep);
    let head = s.push(sep);
    if t.len() == 0 {
        assert(head + t =~= head);
        assert(head.drop_last() =~= s);
        assert(pieces(s, sep) + pieces(t, sep) =~= pieces(s, sep).push(Seq::<char>::empty()));
    } else {
        let init = t.drop_last();
        law_separator_parts_pieces(s, sep, init, w);
        lemma_pieces_some(init, sep);
        assert((head + t).drop_last() =~= head + init);
        assert((head + t).last() == t.last());
        let a = pieces(s, sep);
        let b = pieces(init, sep);
        if t.last() == sep {
            assert((a + b).push(Seq::<char>::empty()) =~= a + b.push(Seq::<char>::empty()));
        } else {
            assert((a + b).drop_last().push((a + b).last().push(t.last())) =~= a
                + b.drop_last().push(b.last().push(t.last())));
        }
    }
}

/// The last place of a character is where it stands with none after it; there
/// is none exactly where it stands nowhere.
pub proof fn law_last_place(s: Seq<char>, c: char)
    ensures
        last_place(s, c) < 0 <==> free_of(s, c),
        last_place(s, c) >= 0 ==> last_place(s, c) < s.len() && s[last_place(s, c)] == c,
        forall|j: int| last_place(s, c) < j < s.len() ==> s[j] != c,
{
    lemma_last_place(s, c);
}

/// Numbers are written in base ten, the highest digit first, without leading
/// zeros, and with a minus sign where they are negative.
pub proof fn law_decimal_is_base_ten(n: nat, d: nat)
    requires
        d < 10,
    ensures
        decimal(d).len() == 1 && decimal(d)[0] as int == 48 + d,
        n > 0 ==> decimal(10 * n + d) == decimal(n) + decimal(d),
        n > 0 ==> decimal_int(-(n as int)) == seq!['-'] + decimal(n),
        decimal_int(n as int) == decimal(n),
{
    if n > 0 {
        let m = 10 * n + d;
        assert(m / 10 == n && m % 10 == d);
        assert(decimal(m) =~= decimal(n) + decimal(d));
    }
}

/// Digits are read in base ten; a sign before them counts, and anything else
/// among them makes them no number.
pub proof fn law_digits_are_read_in_base_ten(s: Seq<char>, c: char)
    requires
        s.len() > 0,
    ensures
        digits_read(s.push(c)) is Some <==> digits_read(s) is Some && 48 <= c as int <= 57,
        digits_read(s.push(c)) matches Some(n) ==> n == 10 * digits_read(s)->0 + (c as int - 48),
        digits_read(seq![c]) is Some <==> 48 <= c as int <= 57,
        digits_read(seq![c]) matches Some(n) ==> n == c as int - 48,
        signed_read(seq!['-'] + s) matches Some(n) ==> digits_read(s) == Some(-n),
        digits_read(s) is Some ==> {
            &&& signed_read(seq!['-'] + s) == Some(-digits_read(s)->0)
            &&& signed_read(s) == digits_read(s)
            &&& unsigned_read(s) == digits_read(s)
            &&& unsigned_read(seq!['+'] + s) == digits_read(s)
            &&& signed_read(seq!['+'] + s) == digits_read(s)
        },
{
    let t = s.push(c);
    assert(t.drop_last() =~= s);
    if all_digits(t) {
        assert forall|i: int| 0 <= i < s.len() implies is_digit(#[trigger] s[i]) by {
            assert(s[i] == t[i]);
        }
        assert(is_digit(t[s.len() as int]));
    }
    if all_digits(s) && is_digit(c) {
        assert forall|i: int| 0 <= i < t.len() implies is_digit(#[trigger] t[i]) by {
            if i < s.len() {
                assert(t[i] == s[i]);
            }
        }
    }
    let one = seq![c];
    assert(one.drop_last() =~= Seq::<char>::empty());
    assert(one[0] == c && one.last() == c);
    assert(digits_value(one.drop_last()) == 0);
    assert(digits_value(one) == c as int - 48);
    assert((seq!['-'] + s).drop_first() =~= s);
    assert((seq!['+'] + s).drop_first() =~= s);
    if digits_read(s) is Some {
        assert(is_digit(s[0]));
    }
}

/// The code points that Unicode gives the property `White_Space`.
pub open spec fn white_space_points() -> Seq<int> {
    seq![
        0x9, 0xA, 0xB, 0xC, 0xD, 0x20, 0x85, 0xA0, 0x1680, 0x2000, 0x2001, 0x2002, 0x2003, 0x2004,
        0x2005, 0x2006, 0x2007, 0x2008, 0x2009, 0x200A, 0x2028, 0x2029, 0x202F, 0x205F, 0x3000,
    ]
}

/// Words are parted by the characters that Unicode counts as white space, and
/// by no others.
pub proof fn law_white_space_is_unicodes(c: char)
    ensures
        is_space(c) <==> white_space_points().contains(c as int),
{
    let all = white_space_points();
    if is_space(c) {
        let n = c as int;
        let i: int = if n <= 0xD {
            n - 9
        } else if n == 0x20 {
            5
        } else if n == 0x85 {
            6
        } else if n == 0xA0 {
            7
        } else if n == 0x1680 {
            8
        } else if n <= 0x200A {
            n - 0x2000 + 9
        } else if n == 0x2028 {
            20
        } else if n == 0x2029 {
            21
        } else if n == 0x202F {
            22
        } else if n == 0x205F {
            23
        } else {
            24
        };
        assert(all[i] == n);
    }
}

/// A number that a reader bounds is the number itself where it lies within the
/// bounds, both of them counted in, and nothing elsewhere.
pub proof fn law_bounds_are_counted_in(n: int, low: int, high: int)
    ensures
        in_range(Some(n), low, high) == Some(n) <==> low <= n && n <= high,
        in_range(Some(n), low, high) is None <==> n < low || high < n,
        in_range(None, low, high) is None,
{
}

proof fn lemma_scanned_words(s: Seq<char>)
    ensures
        forall|i: int, j: int|
            0 <= i < word_scan(s).0.len() && 0 <= j < word_scan(s).0[i].len() ==> !is_space(
                #[trigger] word_scan(s).0[i][j],
            ),
        forall|i: int|
            0 <= i < word_scan(s).0.len() ==> (#[trigger] word_scan(s).0[i]).len() > 0,
        forall|j: int| 0 <= j < word_scan(s).1.len() ==> !is_space(#[trigger] word_scan(s).1[j]),
    decreases s.len(),
{
    if s.len() > 0 {
        let init = s.drop_last();
        lemma_scanned_words(init);
        let (done, open) = word_scan(init);
        let all = done.push(open);
        assert forall|i: int| 0 <= i < all.len() && open.len() > 0 implies (#[trigger] all[i]).len()
            > 0 && (forall|j: int| 0 <= j < all[i].len() ==> !is_space(#[trigger] all[i][j])) by {
            if i < done.len() {
                assert(all[i] == done[i]);
            } else {
                assert(all[i] == open);
            }
        }
        assert(word_scan(s).0 == done || (open.len() > 0 && word_scan(s).0 == all));
        assert forall|i: int, j: int|
            0 <= i < word_scan(s).0.len() && 0 <= j < word_scan(s).0[i].len() implies !is_space(
            #[trigger] word_scan(s).0[i][j],
        ) by {
            if word_scan(s).0 == done {
                assert(!is_space(done[i][j]));
            } else {
                assert(!is_space(all[i][j]));
            }
        }
        assert forall|i: int| 0 <= i < word_scan(s).0.len() implies (#[trigger] word_scan(
            s,
        ).0[i]).len() > 0 by {
            if word_scan(s).0 == done {
                assert(done[i].len() > 0);
            } else {
                assert(all[i].len() > 0);
            }
        }
    }
}

/// No word is empty, and no word has white space in it.
pub proof fn law_words_have_no_white_space(s: Seq<char>)
    ensures
        forall|i: int| 0 <= i < words(s).len() ==> (#[trigger] words(s)[i]).len() > 0,
        forall|i: int, j: int|
            0 <= i < words(s).len() && 0 <= j < words(s)[i].len() ==> !is_space(
                #[trigger] words(s)[i][j],
            ),
{
    lemma_scanned_words(s);
}

/// An empty text is no number, with or without a sign.
pub proof fn law_a_number_has_a_digit()
    ensures
        digits_read(Seq::<char>::empty()) is None,
        unsigned_read(Seq::<char>::empty()) is None,
        signed_read(Seq::<char>::empty()) is None,
        unsigned_read(seq!['+']) is None,
        signed_read(seq!['-']) is None,
        forall|s: Seq<char>| #[trigger] unsigned_read(s) is Some && s[0] != '+' ==> '0' <= s[0] <= '9',
{
    assert(seq!['+'].drop_first() =~= Seq::<char>::empty());
    assert(seq!['-'].drop_first() =~= Seq::<char>::empty());
    assert forall|s: Seq<char>| #[trigger] unsigned_read(s) is Some && s[0] != '+' implies '0'
        <= s[0] <= '9' by {
        assert(is_digit(s[0]));
    }
}

/// The rows of a list are the characters of its entries, one row for each, in
/// order.
pub proof fn law_rows_are_those_of_the_list(v: Seq<Vec<char>>, w: Seq<String>, i: int)
    ensures
        char_rows(v).len() == v.len(),
        string_rows(w).len() == w.len(),
        0 <= i < v.len() ==> char_rows(v)[i] == v[i]@,
        0 <= i < w.len() ==> string_rows(w)[i] == w[i]@,
{
}

/// Whether a text begins with another.
pub open spec fn begins_with(s: Seq<char>, t: Seq<char>) -> bool {
    t.len() <= s.len() && s.take(t.len() as int) == t
}

} // verus!
