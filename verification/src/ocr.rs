//! Finding text that was read off the screen.

use vstd::prelude::*;
use vstd::string::*;

use crate::capture::diff::Share;
use crate::capture::encode::Prep;
#[allow(unused_imports)]
use crate::capture::encode::prep_name;
use crate::strings::{chars_of, lower, same_chars, string_of};
#[allow(unused_imports)]
use crate::strings::{
    begins_with, law_lowered_ignores_ascii_case, lowered, same_but_ascii_case, string_rows,
};
use crate::text::{to_lower_case, to_nfkc, MatchTier};
#[allow(unused_imports)]
use crate::text::{lower_case, nfkc_form};
use crate::uia::entity::{centre_fits, centre_of, Bounds};
#[allow(unused_imports)]
use crate::uia::entity::{centre, has_centre};

verus! {

/// A line that was found, and where to click it.
#[derive(Debug)]
pub struct TextMatch {
    pub text: String,
    pub click_at: (i32, i32),
    pub x: i32,
    pub y: i32,
    pub w: i32,
    pub h: i32,
    pub granularity: String,
    pub matched_by: MatchTier,
}

/// A [`TextMatch`] with the characters of its strings.
pub struct MatchView {
    pub text: Seq<char>,
    pub click_at: (i32, i32),
    pub x: i32,
    pub y: i32,
    pub w: i32,
    pub h: i32,
    pub granularity: Seq<char>,
    pub matched_by: MatchTier,
}

impl View for TextMatch {
    type V = MatchView;

    open spec fn view(&self) -> MatchView {
        MatchView {
            text: self.text@,
            click_at: self.click_at,
            x: self.x,
            y: self.y,
            w: self.w,
            h: self.h,
            granularity: self.granularity@,
            matched_by: self.matched_by,
        }
    }
}

/// The matches of a list with the characters of their strings.
pub open spec fn match_views(v: Seq<TextMatch>) -> Seq<MatchView> {
    Seq::new(v.len(), |i: int| v[i]@)
}

/// What a recogniser made of an image.
#[derive(Debug)]
pub struct TextResult {
    pub language: String,
    pub available_languages: Vec<String>,
    pub matches: Vec<TextMatch>,
    pub lines_seen: usize,
    /// The magnification that was applied.
    pub scale: Share,
    pub prep: String,
}

/// A line as a recogniser saw it: its likeliest reading, where it has one,
/// and its place on the desktop.
#[derive(Debug)]
pub struct Sighting {
    pub text: Option<String>,
    pub bounds: Bounds,
}

/// Whether a text holds another somewhere.
pub open spec fn has_part(text: Seq<char>, part: Seq<char>) -> bool {
    exists|i: int| #[trigger] part_at(text, part, i)
}

/// Whether a text holds another at a place.
pub open spec fn part_at(text: Seq<char>, part: Seq<char>, i: int) -> bool {
    0 <= i && i + part.len() <= text.len() && text.subrange(i, i + part.len()) == part
}

fn contains_part(text: &Vec<char>, part: &Vec<char>) -> (r: bool)
    ensures
        r == has_part(text@, part@),
{
    let size: usize = text.len();
    let need: usize = part.len();
    if need > size {
        return false;
    }
    let mut i: usize = 0;
    while i <= size - need
        invariant
            size == text@.len(),
            need == part@.len(),
            need <= size,
            i <= size - need + 1,
            forall|j: int| 0 <= j < i ==> !#[trigger] part_at(text@, part@, j),
        decreases size + 1 - i,
    {
        let mut k: usize = 0;
        while k < need && text[i + k] == part[k]
            invariant
                size == text@.len(),
                need == part@.len(),
                i + need <= size,
                k <= need,
                forall|j: int| 0 <= j < k ==> text@[i + j] == part@[j],
            decreases need - k,
        {
            k = k + 1;
        }
        if k == need {
            assert(text@.subrange(i as int, i + need) =~= part@);
            assert(part_at(text@, part@, i as int));
            return true;
        }
        assert(text@.subrange(i as int, i + need)[k as int] != part@[k as int]);
        assert(!part_at(text@, part@, i as int));
        i = i + 1;
    }
    assert forall|j: int| !#[trigger] part_at(text@, part@, j) by {}
    false
}

fn str_contains(text: &str, part: &str) -> (r: bool)
    ensures
        r == has_part(text@, part@),
{
    contains_part(&chars_of(text), &chars_of(part))
}

/// The glyph that stands for all those a recogniser takes for it, among
/// characters in lower case.
pub open spec fn glyph(c: char) -> char {
    if c == '1' || c == 'i' || c == 'l' {
        'l'
    } else if c == '0' || c == 'o' {
        'o'
    } else if c == '5' || c == 's' {
        's'
    } else {
        c
    }
}

/// A text with one glyph for all those that are taken for one another.
pub open spec fn glyphs(s: Seq<char>) -> Seq<char> {
    s.map_values(|c: char| glyph(c))
}

fn fold_glyphs(s: &str) -> (r: String)
    ensures
        r@ == glyphs(s@),
{
    let v = chars_of(s);
    let mut out: Vec<char> = Vec::new();
    for i in 0..v.len()
        invariant
            v@ == s@,
            out@ == glyphs(v@.take(i as int)),
    {
        let c = v[i];
        let g = if c == '1' || c == 'i' || c == 'l' {
            'l'
        } else if c == '0' || c == 'o' {
            'o'
        } else if c == '5' || c == 's' {
            's'
        } else {
            c
        };
        out.push(g);
        assert(glyphs(v@.take(i + 1)) =~= glyphs(v@.take(i as int)).push(g));
    }
    assert(v@.take(v@.len() as int) =~= v@);
    string_of(&out)
}

/// The tightest tier at which a text holds what was asked for, given both as
/// they are, in lower case, in the lower case of their normal forms, and in
/// that with glyphs folded.
pub open spec fn part_tier(
    raw: (Seq<char>, Seq<char>),
    lower: (Seq<char>, Seq<char>),
    plain: (Seq<char>, Seq<char>),
    folded: (Seq<char>, Seq<char>),
) -> Option<MatchTier> {
    if has_part(raw.0, raw.1) {
        Some(MatchTier::Exact)
    } else if has_part(lower.0, lower.1) {
        Some(MatchTier::Case)
    } else if has_part(plain.0, plain.1) {
        Some(MatchTier::Normalized)
    } else if has_part(folded.0, folded.1) {
        Some(MatchTier::Glyphs)
    } else {
        None
    }
}

/// The tightest tier at which a text holds what was asked for, given the
/// forms of both.
pub fn part_by_forms(
    raw: (&str, &str),
    lower: (&str, &str),
    plain: (&str, &str),
    folded: (&str, &str),
) -> (r: Option<MatchTier>)
    ensures
        r == part_tier(
            (raw.0@, raw.1@),
            (lower.0@, lower.1@),
            (plain.0@, plain.1@),
            (folded.0@, folded.1@),
        ),
{
    if str_contains(raw.0, raw.1) {
        Some(MatchTier::Exact)
    } else if str_contains(lower.0, lower.1) {
        Some(MatchTier::Case)
    } else if str_contains(plain.0, plain.1) {
        Some(MatchTier::Normalized)
    } else if str_contains(folded.0, folded.1) {
        Some(MatchTier::Glyphs)
    } else {
        None
    }
}

/// The tightest tier at which a text holds what was asked for.
pub open spec fn tier_within(text: Seq<char>, query: Seq<char>) -> Option<MatchTier> {
    part_tier(
        (text, query),
        (lower_case(text), lower_case(query)),
        (lower_case(nfkc_form(text)), lower_case(nfkc_form(query))),
        (glyphs(lower_case(nfkc_form(text))), glyphs(lower_case(nfkc_form(query)))),
    )
}

/// The tightest tier at which a text that was read off the screen holds what
/// was asked for. Folds case, then Unicode composition and full-width forms,
/// then falls back to glyphs that a recogniser confuses, whatever their case.
pub fn matches_text(text: &str, query: &str) -> (r: Option<MatchTier>)
    ensures
        r == tier_within(text@, query@),
{
    let text_form = to_nfkc(text);
    let query_form = to_nfkc(query);
    let text_lower = to_lower_case(text);
    let query_lower = to_lower_case(query);
    let text_plain = to_lower_case(text_form.as_str());
    let query_plain = to_lower_case(query_form.as_str());
    let text_folded = fold_glyphs(text_plain.as_str());
    let query_folded = fold_glyphs(query_plain.as_str());
    part_by_forms(
        (text, query),
        (text_lower.as_str(), query_lower.as_str()),
        (text_plain.as_str(), query_plain.as_str()),
        (text_folded.as_str(), query_folded.as_str()),
    )
}

/// The match of a line that was seen, given how closely it matched.
pub open spec fn match_of(s: Sighting, tier: Option<MatchTier>) -> Option<MatchView> {
    if s.text is Some && tier is Some {
        Some(
            MatchView {
                text: s.text->0@,
                click_at: (centre(s.bounds).0 as i32, centre(s.bounds).1 as i32),
                x: s.bounds.x,
                y: s.bounds.y,
                w: s.bounds.w,
                h: s.bounds.h,
                granularity: "line"@,
                matched_by: tier->0,
            },
        )
    } else {
        None
    }
}

/// The first matches among some lines, at most so many, in the order in which
/// the lines were seen.
pub open spec fn matches_in(
    seen: Seq<Sighting>,
    tiers: Seq<Option<MatchTier>>,
    max: usize,
) -> Seq<MatchView>
    decreases seen.len(),
{
    if seen.len() == 0 {
        Seq::<MatchView>::empty()
    } else {
        let before = matches_in(seen.drop_last(), tiers, max);
        let found = match_of(seen.last(), tiers[seen.len() - 1]);
        if before.len() < max && found is Some {
            before.push(found->0)
        } else {
            before
        }
    }
}

proof fn lemma_matches_full(
    seen: Seq<Sighting>,
    tiers: Seq<Option<MatchTier>>,
    max: usize,
    n: int,
)
    requires
        0 <= n <= seen.len(),
        matches_in(seen.take(n), tiers, max).len() >= max,
    ensures
        matches_in(seen, tiers, max) == matches_in(seen.take(n), tiers, max),
    decreases seen.len(),
{
    if n < seen.len() {
        assert(seen.drop_last().take(n) =~= seen.take(n));
        lemma_matches_full(seen.drop_last(), tiers, max, n);
    } else {
        assert(seen.take(n) =~= seen);
    }
}

/// Whether a line is one of the first matches among some lines.
pub open spec fn is_match(
    seen: Seq<Sighting>,
    tiers: Seq<Option<MatchTier>>,
    max: usize,
    i: int,
) -> bool {
    matches_in(seen.take(i), tiers, max).len() < max && match_of(seen[i], tiers[i]) is Some
}

/// Whether each of the first matches among some lines can be clicked: whether
/// it has a centre on the desktop.
pub open spec fn centred(seen: Seq<Sighting>, tiers: Seq<Option<MatchTier>>, max: usize) -> bool {
    forall|i: int|
        0 <= i < seen.len() && #[trigger] is_match(seen, tiers, max, i) ==> has_centre(
            seen[i].bounds,
        )
}

/// Checks that each of the first matches among some lines has a centre.
pub fn check_centres(seen: &Vec<Sighting>, tiers: &Vec<Option<MatchTier>>, max: usize) -> (r: bool)
    requires
        tiers@.len() == seen@.len(),
    ensures
        r == centred(seen@, tiers@, max),
{
    let mut count: usize = 0;
    for i in 0..seen.len()
        invariant
            tiers@.len() == seen@.len(),
            count == matches_in(seen@.take(i as int), tiers@, max).len(),
            count <= max,
            forall|j: int|
                0 <= j < i && #[trigger] is_match(seen@, tiers@, max, j) ==> has_centre(
                    seen@[j].bounds,
                ),
    {
        let ghost upto = seen@.take(i + 1);
        assert(upto.drop_last() =~= seen@.take(i as int));
        assert(upto.last() == seen@[i as int]);
        if count < max && seen[i].text.is_some() && tiers[i].is_some() {
            assert(is_match(seen@, tiers@, max, i as int));
            if !centre_fits(seen[i].bounds) {
                return false;
            }
            count = count + 1;
        }
    }
    true
}

/// Collects the first matches among some lines, given how closely each line
/// matched.
pub fn collect_matches(seen: &Vec<Sighting>, tiers: &Vec<Option<MatchTier>>, max: usize) -> (r: Vec<
    TextMatch,
>)
    requires
        tiers@.len() == seen@.len(),
        centred(seen@, tiers@, max),
    ensures
        match_views(r@) == matches_in(seen@, tiers@, max),
{
    let mut out: Vec<TextMatch> = Vec::new();
    let mut i: usize = 0;
    while i < seen.len() && out.len() < max
        invariant
            i <= seen@.len(),
            tiers@.len() == seen@.len(),
            centred(seen@, tiers@, max),
            match_views(out@) == matches_in(seen@.take(i as int), tiers@, max),
        decreases seen@.len() - i,
    {
        let ghost before = match_views(out@);
        let ghost upto = seen@.take(i + 1);
        assert(upto.drop_last() =~= seen@.take(i as int));
        assert(upto.last() == seen@[i as int]);
        let s = &seen[i];
        if let Some(text) = &s.text {
            if let Some(matched_by) = tiers[i] {
                let b = s.bounds;
                assert(is_match(seen@, tiers@, max, i as int));
                let m = TextMatch {
                    text: text.clone(),
                    click_at: centre_of(b),
                    x: b.x,
                    y: b.y,
                    w: b.w,
                    h: b.h,
                    granularity: "line".to_string(),
                    matched_by,
                };
                assert(match_of(*s, tiers@[i as int]) == Some(m@));
                let ghost added = m@;
                out.push(m);
                assert(match_views(out@) =~= before.push(added));
            }
        }
        i = i + 1;
    }
    proof {
        if i < seen@.len() {
            lemma_matches_full(seen@, tiers@, max, i as int);
        } else {
            assert(seen@.take(i as int) =~= seen@);
        }
    }
    out
}

/// How closely a line matches: by what was asked for, or exactly where
/// nothing was.
pub open spec fn sighting_tier(s: Sighting, query: Option<Seq<char>>) -> Option<MatchTier> {
    match query {
        None => Some(MatchTier::Exact),
        Some(q) => match s.text {
            Some(text) => tier_within(text@, q),
            None => None,
        },
    }
}

/// How closely each of some lines matches.
pub open spec fn sighting_tiers(seen: Seq<Sighting>, query: Option<Seq<char>>) -> Seq<
    Option<MatchTier>,
> {
    Seq::new(seen.len(), |i: int| sighting_tier(seen[i], query))
}

/// What was asked for, where something was.
pub open spec fn asked_for(query: Option<&str>) -> Option<Seq<char>> {
    match query {
        Some(q) => Some(q@),
        None => None,
    }
}

/// Finds the first matches among some lines. Without a query every line that
/// has a reading is one. `None` where one of them lies so far outside the
/// desktop that it has no centre to click.
pub fn find_matches(seen: &Vec<Sighting>, query: Option<&str>, max: usize) -> (r: Option<
    Vec<TextMatch>,
>)
    ensures
        ({
            let tiers = sighting_tiers(seen@, asked_for(query));
            match r {
                Some(found) => centred(seen@, tiers, max) && match_views(found@) == matches_in(
                    seen@,
                    tiers,
                    max,
                ),
                None => !centred(seen@, tiers, max),
            }
        }),
{
    let ghost asked = asked_for(query);
    let mut tiers: Vec<Option<MatchTier>> = Vec::new();
    for i in 0..seen.len()
        invariant
            asked == asked_for(query),
            tiers@.len() == i,
            forall|j: int| 0 <= j < i ==> #[trigger] tiers@[j] == sighting_tier(seen@[j], asked),
    {
        let tier = match query {
            None => Some(MatchTier::Exact),
            Some(q) => match &seen[i].text {
                Some(text) => matches_text(text.as_str(), q),
                None => None,
            },
        };
        tiers.push(tier);
    }
    assert(tiers@ =~= sighting_tiers(seen@, asked));
    if check_centres(seen, &tiers, max) {
        Some(collect_matches(seen, &tiers, max))
    } else {
        None
    }
}

/// Some names with a separator between each two.
pub open spec fn listed(names: Seq<Seq<char>>, sep: Seq<char>) -> Seq<char>
    decreases names.len(),
{
    if names.len() == 0 {
        Seq::<char>::empty()
    } else if names.len() == 1 {
        names[0]
    } else {
        listed(names.drop_last(), sep) + sep + names.last()
    }
}

fn list_names(names: &Vec<String>, sep: &str) -> (r: String)
    ensures
        r@ == listed(string_rows(names@), sep@),
{
    let ghost rows = string_rows(names@);
    let mut out = String::new();
    for i in 0..names.len()
        invariant
            rows == string_rows(names@),
            out@ == listed(rows.take(i as int), sep@),
    {
        let ghost upto = rows.take(i + 1);
        assert(upto.drop_last() =~= rows.take(i as int));
        assert(rows[i as int] == names@[i as int]@);
        if i > 0 {
            out.append(sep);
        }
        out.append(names[i].as_str());
        assert(out@ =~= listed(upto, sep@));
    }
    assert(rows.take(names@.len() as int) =~= rows);
    out
}

/// What is said of a language that no recogniser reads.
pub open spec fn language_message(lang: Seq<char>, available: Seq<Seq<char>>) -> Seq<char> {
    "unsupported OCR language "@ + lang + "; available: "@ + listed(available, ", "@)
}

/// Whether a language is among those that can be read, but for ASCII case.
pub open spec fn is_available(lang: Seq<char>, available: Seq<Seq<char>>) -> bool {
    exists|i: int| 0 <= i < available.len() && lowered(#[trigger] available[i]) == lowered(lang)
}

/// Checks that a language can be read.
pub fn check_language(lang: &str, available: &Vec<String>) -> (r: Result<(), String>)
    ensures
        match r {
            Ok(_) => is_available(lang@, string_rows(available@)),
            Err(e) => !is_available(lang@, string_rows(available@)) && e@ == language_message(
                lang@,
                string_rows(available@),
            ),
        },
{
    let ghost rows = string_rows(available@);
    let wanted = lower(&chars_of(lang));
    for i in 0..available.len()
        invariant
            rows == string_rows(available@),
            wanted@ == lowered(lang@),
            forall|j: int| 0 <= j < i ==> lowered(#[trigger] rows[j]) != lowered(lang@),
    {
        assert(rows[i as int] == available@[i as int]@);
        if same_chars(&lower(&chars_of(available[i].as_str())), &wanted) {
            return Ok(());
        }
    }
    let names = list_names(available, ", ");
    let mut out = String::new();
    out.append("unsupported OCR language ");
    out.append(lang);
    out.append("; available: ");
    out.append(names.as_str());
    assert(out@ =~= language_message(lang@, rows));
    Err(out)
}

/// What a recogniser made of an image: the languages that it used, those that
/// it can read, and the first matches among the lines that it saw. `None`
/// where one of those has no centre to click.
pub fn find_text(
    used: &Vec<String>,
    available: Vec<String>,
    seen: &Vec<Sighting>,
    query: Option<&str>,
    max: usize,
    scale: Share,
    prep: Prep,
) -> (r: Option<TextResult>)
    ensures
        ({
            let tiers = sighting_tiers(seen@, asked_for(query));
            match r {
                Some(found) => {
                    &&& centred(seen@, tiers, max)
                    &&& found.language@ == listed(string_rows(used@), ","@)
                    &&& found.available_languages == available
                    &&& match_views(found.matches@) == matches_in(seen@, tiers, max)
                    &&& found.lines_seen == seen@.len()
                    &&& found.scale == scale
                    &&& found.prep@ == prep_name(prep)
                },
                None => !centred(seen@, tiers, max),
            }
        }),
{
    match find_matches(seen, query, max) {
        Some(matches) => Some(
            TextResult {
                language: list_names(used, ","),
                available_languages: available,
                matches,
                lines_seen: seen.len(),
                scale,
                prep: prep.name().to_string(),
            },
        ),
        None => None,
    }
}

/// No more matches come back than were asked for, and none that is not one of
/// the lines.
pub proof fn law_matches_are_bounded(
    seen: Seq<Sighting>,
    tiers: Seq<Option<MatchTier>>,
    max: usize,
)
    ensures
        matches_in(seen, tiers, max).len() <= max,
        matches_in(seen, tiers, max).len() <= seen.len(),
        forall|k: int|
            0 <= k < matches_in(seen, tiers, max).len() ==> exists|i: int|
                0 <= i < seen.len() && #[trigger] match_of(seen[i], tiers[i]) == Some(
                    #[trigger] matches_in(seen, tiers, max)[k],
                ),
    decreases seen.len(),
{
    if seen.len() > 0 {
        let init = seen.drop_last();
        law_matches_are_bounded(init, tiers, max);
        let before = matches_in(init, tiers, max);
        let after = matches_in(seen, tiers, max);
        assert forall|k: int| 0 <= k < after.len() implies exists|i: int|
            0 <= i < seen.len() && #[trigger] match_of(seen[i], tiers[i]) == Some(
                #[trigger] after[k],
            ) by {
            if k < before.len() {
                assert(after[k] == before[k]);
                let i = choose|i: int|
                    0 <= i < init.len() && #[trigger] match_of(init[i], tiers[i]) == Some(before[k]);
                assert(match_of(seen[i], tiers[i]) == Some(after[k]));
            } else {
                let i = seen.len() - 1;
                assert(match_of(seen[i], tiers[i]) == Some(after[k]));
            }
        }
    }
}

/// Glyphs are confused whatever the case that was asked for: where one query
/// is found by its glyphs, another that differs from it in case alone is
/// found too.
pub proof fn law_glyphs_ignore_case(text: Seq<char>, a: Seq<char>, b: Seq<char>)
    requires
        lower_case(nfkc_form(a)) == lower_case(nfkc_form(b)),
    ensures
        tier_within(text, a) == Some(MatchTier::Glyphs) ==> tier_within(text, b) is Some,
{
}

/// A text that holds what was asked for as written is found at the tightest
/// tier, wherever in it that stands.
pub proof fn law_part_is_found_as_written(before: Seq<char>, query: Seq<char>, after: Seq<char>)
    ensures
        tier_within(before + query + after, query) == Some(MatchTier::Exact),
{
    let text = before + query + after;
    let i = before.len() as int;
    assert(text.subrange(i, i + query.len()) =~= query);
    assert(part_at(text, query, i));
}

/// Whether a recogniser may take one character in lower case for another.
pub open spec fn confused(c: char, d: char) -> bool {
    ||| c == d
    ||| (c == '1' || c == 'i' || c == 'l') && (d == '1' || d == 'i' || d == 'l')
    ||| (c == '0' || c == 'o') && (d == '0' || d == 'o')
    ||| (c == '5' || c == 's') && (d == '5' || d == 's')
}

/// Two characters fold together exactly where a recogniser may take one for
/// the other.
pub proof fn law_confused_glyphs_fold_together(c: char, d: char)
    ensures
        glyph(c) == glyph(d) <==> confused(c, d),
{
}

/// Whether a text is made of something before a part, the part, and something
/// after it.
pub open spec fn holds(text: Seq<char>, part: Seq<char>) -> bool {
    exists|before: Seq<char>, after: Seq<char>| #[trigger] (before + part + after) == text
}

/// A text has a part exactly where it is made of it and what stands around it.
pub proof fn law_part_with_what_stands_around_it(text: Seq<char>, part: Seq<char>)
    ensures
        has_part(text, part) <==> holds(text, part),
{
    if has_part(text, part) {
        let i = choose|i: int| #[trigger] part_at(text, part, i);
        let before = text.take(i);
        let after = text.skip(i + part.len());
        assert(before + part + after =~= text);
    }
    if holds(text, part) {
        let (before, after) = choose|before: Seq<char>, after: Seq<char>| #[trigger]
            (before + part + after) == text;
        let i = before.len() as int;
        assert(text.subrange(i, i + part.len()) =~= part);
        assert(part_at(text, part, i));
    }
}

/// Whether what stands at a place of a text may be what was asked for, read
/// with some characters taken for others.
pub open spec fn confused_at(text: Seq<char>, query: Seq<char>, at: int) -> bool {
    &&& 0 <= at
    &&& at + query.len() <= text.len()
    &&& forall|i: int| 0 <= i < query.len() ==> confused(#[trigger] text[at + i], query[i])
}

proof fn lemma_glyphs_at(text: Seq<char>, query: Seq<char>, at: int)
    ensures
        part_at(glyphs(text), glyphs(query), at) == confused_at(text, query, at),
{
    let t = glyphs(text);
    let q = glyphs(query);
    if part_at(t, q, at) {
        assert forall|i: int| 0 <= i < query.len() implies confused(
            #[trigger] text[at + i],
            query[i],
        ) by {
            assert(t.subrange(at, at + q.len())[i] == q[i]);
            law_confused_glyphs_fold_together(text[at + i], query[i]);
        }
    }
    if confused_at(text, query, at) {
        assert forall|i: int| 0 <= i < q.len() implies t.subrange(at, at + q.len())[i] == q[i] by {
            law_confused_glyphs_fold_together(text[at + i], query[i]);
        }
        assert(t.subrange(at, at + q.len()) =~= q);
    }
}

/// A text is found at the tightest way in which it holds what was asked for:
/// as written; but for case; but for case, composition and width; and last
/// but for characters that a recogniser takes for one another. One that holds
/// it in none of these ways is not found.
pub proof fn law_text_is_found_at_the_tightest_tier(text: Seq<char>, query: Seq<char>)
    ensures
        ({
            let t = lower_case(nfkc_form(text));
            let q = lower_case(nfkc_form(query));
            let written = holds(text, query);
            let cased = holds(lower_case(text), lower_case(query));
            let plain = holds(t, q);
            let misread = exists|at: int| #[trigger] confused_at(t, q, at);
            &&& tier_within(text, query) == Some(MatchTier::Exact) <==> written
            &&& tier_within(text, query) == Some(MatchTier::Case) <==> !written && cased
            &&& tier_within(text, query) == Some(MatchTier::Normalized) <==> !written && !cased
                && plain
            &&& tier_within(text, query) == Some(MatchTier::Glyphs) <==> !written && !cased
                && !plain && misread
            &&& tier_within(text, query) is Some <==> written || cased || misread
        }),
{
    let t = lower_case(nfkc_form(text));
    let q = lower_case(nfkc_form(query));
    law_part_with_what_stands_around_it(text, query);
    law_part_with_what_stands_around_it(lower_case(text), lower_case(query));
    law_part_with_what_stands_around_it(t, q);
    assert(has_part(glyphs(t), glyphs(q)) <==> exists|at: int| #[trigger] confused_at(t, q, at)) by {
        if has_part(glyphs(t), glyphs(q)) {
            let at = choose|at: int| #[trigger] part_at(glyphs(t), glyphs(q), at);
            lemma_glyphs_at(t, q, at);
            assert(confused_at(t, q, at));
        }
        if exists|at: int| #[trigger] confused_at(t, q, at) {
            let at = choose|at: int| #[trigger] confused_at(t, q, at);
            lemma_glyphs_at(t, q, at);
            assert(part_at(glyphs(t), glyphs(q), at));
        }
    }
    if has_part(t, q) {
        let at = choose|at: int| #[trigger] part_at(t, q, at);
        assert forall|i: int| 0 <= i < q.len() implies confused(#[trigger] t[at + i], q[i]) by {
            assert(t.subrange(at, at + q.len())[i] == q[i]);
        }
        assert(confused_at(t, q, at));
    }
}

/// A text that the recogniser misread within the glyphs it confuses is found.
pub proof fn law_misread_text_is_found(text: Seq<char>, query: Seq<char>, at: int)
    requires
        confused_at(lower_case(nfkc_form(text)), lower_case(nfkc_form(query)), at),
    ensures
        tier_within(text, query) is Some,
{
    law_text_is_found_at_the_tightest_tier(text, query);
}

/// A match carries the line as it was read and its place on the screen, with
/// the middle of it to click. A line without a reading, or that was not
/// found, is none.
pub proof fn law_match_tells_the_line(s: Sighting, tier: Option<MatchTier>)
    requires
        has_centre(s.bounds),
    ensures
        match_of(s, tier) is Some <==> s.text is Some && tier is Some,
        match_of(s, tier) matches Some(m) ==> {
            let b = s.bounds;
            &&& m.text == s.text->0@
            &&& (m.x, m.y, m.w, m.h) == (b.x, b.y, b.w, b.h)
            &&& Some(m.matched_by) == tier
            &&& b.w >= 0 ==> b.w - 1 <= 2 * (m.click_at.0 - b.x) <= b.w
            &&& b.w < 0 ==> b.w <= 2 * (m.click_at.0 - b.x) <= b.w + 1
            &&& b.h >= 0 ==> b.h - 1 <= 2 * (m.click_at.1 - b.y) <= b.h
            &&& b.h < 0 ==> b.h <= 2 * (m.click_at.1 - b.y) <= b.h + 1
        },
{
}

/// How many of some lines match.
pub open spec fn matching(seen: Seq<Sighting>, tiers: Seq<Option<MatchTier>>) -> nat
    decreases seen.len(),
{
    if seen.len() == 0 {
        0
    } else {
        matching(seen.drop_last(), tiers) + if seen.last().text is Some && tiers[seen.len()
            - 1] is Some {
            1nat
        } else {
            0nat
        }
    }
}

proof fn lemma_matching(seen: Seq<Sighting>, tiers: Seq<Option<MatchTier>>, max: usize)
    ensures
        matches_in(seen, tiers, max).len() == if matching(seen, tiers) < max {
            matching(seen, tiers)
        } else {
            max as nat
        },
    decreases seen.len(),
{
    if seen.len() > 0 {
        lemma_matching(seen.drop_last(), tiers, max);
    }
}

/// Each line that matches is returned, at the place that the matching lines
/// before it leave for it, as long as there is room; and as many come back as
/// match, or as were asked for.
pub proof fn law_each_matching_line_is_returned(
    seen: Seq<Sighting>,
    tiers: Seq<Option<MatchTier>>,
    max: usize,
    i: int,
)
    requires
        0 <= i < seen.len(),
        seen[i].text is Some,
        tiers[i] is Some,
        matching(seen.take(i), tiers) < max,
    ensures
        matching(seen.take(i), tiers) < matches_in(seen, tiers, max).len(),
        Some(matches_in(seen, tiers, max)[matching(seen.take(i), tiers) as int]) == match_of(
            seen[i],
            tiers[i],
        ),
        matches_in(seen, tiers, max).len() == if matching(seen, tiers) < max {
            matching(seen, tiers)
        } else {
            max as nat
        },
    decreases seen.len(),
{
    lemma_matching(seen, tiers, max);
    lemma_matching(seen.take(i), tiers, max);
    let init = seen.drop_last();
    if i < seen.len() - 1 {
        assert(init.take(i) =~= seen.take(i));
        assert(init[i] == seen[i]);
        law_each_matching_line_is_returned(init, tiers, max, i);
    } else {
        assert(seen.take(i) =~= init);
    }
}

/// Without anything asked for, each line that has a reading matches; with
/// something, each that holds it.
pub proof fn law_lines_match_what_is_asked(seen: Seq<Sighting>, query: Option<Seq<char>>, i: int)
    requires
        0 <= i < seen.len(),
        seen[i].text is Some,
    ensures
        sighting_tiers(seen, query).len() == seen.len(),
        query is None ==> sighting_tiers(seen, query)[i] == Some(MatchTier::Exact),
        query matches Some(q) ==> sighting_tiers(seen, query)[i] == tier_within(
            seen[i].text->0@,
            q,
        ),
{
}

/// Joined names are joined part by part.
pub proof fn law_listing_joins(a: Seq<Seq<char>>, b: Seq<Seq<char>>, sep: Seq<char>, name: Seq<char>)
    requires
        a.len() > 0,
        b.len() > 0,
    ensures
        listed(a + b, sep) == listed(a, sep) + sep + listed(b, sep),
        listed(seq![name], sep) == name,
    decreases b.len(),
{
    let c = a + b;
    assert(c.drop_last() =~= a + b.drop_last());
    assert(c.last() == b.last());
    if b.len() == 1 {
        assert(a + b.drop_last() =~= a);
        assert(b.last() == b[0]);
    } else {
        law_listing_joins(a, b.drop_last(), sep, name);
        assert(listed(a, sep) + sep + listed(b, sep) =~= listed(a, sep) + sep + listed(
            b.drop_last(),
            sep,
        ) + sep + b.last());
    }
}

/// A language is available exactly where it is one of the list but for the
/// case of ASCII letters.
pub proof fn law_language_but_for_case(lang: Seq<char>, available: Seq<Seq<char>>)
    ensures
        is_available(lang, available) <==> exists|i: int|
            0 <= i < available.len() && same_but_ascii_case(#[trigger] available[i], lang),
{
    assert forall|i: int| 0 <= i < available.len() implies same_but_ascii_case(
        #[trigger] available[i],
        lang,
    ) == (lowered(available[i]) == lowered(lang)) by {
        law_lowered_ignores_ascii_case(available[i], lang);
    }
    if is_available(lang, available) {
        let i = choose|i: int|
            0 <= i < available.len() && lowered(#[trigger] available[i]) == lowered(lang);
        assert(same_but_ascii_case(available[i], lang));
    }
}

/// Where no limit cuts the matches short, they can all be clicked exactly where
/// each line that has a reading and matches has a centre; where nothing may
/// come back nothing has to be clicked.
pub proof fn law_each_match_can_be_clicked(
    seen: Seq<Sighting>,
    tiers: Seq<Option<MatchTier>>,
    max: usize,
)
    ensures
        max >= seen.len() ==> (centred(seen, tiers, max) <==> forall|i: int|
            0 <= i < seen.len() && (#[trigger] seen[i]).text is Some && tiers[i] is Some
                ==> has_centre(seen[i].bounds)),
        max == 0 ==> centred(seen, tiers, max),
{
    if max >= seen.len() {
        assert forall|i: int| 0 <= i < seen.len() implies (is_match(seen, tiers, max, i)
            <==> seen[i].text is Some && tiers[i] is Some) by {
            law_matches_are_bounded(seen.take(i), tiers, max);
        }
        if centred(seen, tiers, max) {
            assert forall|i: int|
                0 <= i < seen.len() && (#[trigger] seen[i]).text is Some
                    && tiers[i] is Some implies has_centre(seen[i].bounds) by {
                assert(is_match(seen, tiers, max, i));
            }
        }
    }
}

/// A match and its view agree in every field.
pub proof fn law_match_is_what_it_says(m: TextMatch, all: Seq<TextMatch>, i: int)
    ensures
        m@.text == m.text@,
        m@.click_at == m.click_at,
        m@.x == m.x && m@.y == m.y && m@.w == m.w && m@.h == m.h,
        m@.granularity == m.granularity@,
        m@.matched_by == m.matched_by,
        match_views(all).len() == all.len(),
        0 <= i < all.len() ==> match_views(all)[i] == all[i]@,
{
}

/// What is said of a language that cannot be read names it, and then all that
/// can.
pub proof fn law_refused_language_is_named(lang: Seq<char>, available: Seq<Seq<char>>)
    ensures
        begins_with(
            language_message(lang, available),
            "unsupported OCR language "@ + lang + "; available: "@,
        ),
        language_message(lang, available).skip(
            ("unsupported OCR language "@ + lang + "; available: "@).len() as int,
        ) == listed(available, ", "@),
{
    let head = "unsupported OCR language "@ + lang + "; available: "@;
    let all = language_message(lang, available);
    assert(all.take(head.len() as int) =~= head);
    assert(all.skip(head.len() as int) =~= listed(available, ", "@));
}

} // verus!
