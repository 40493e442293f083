//! Matching labels across locales.
//!
//! A label is matched leniently but in strict order: as written, then without
//! regard to case, then with Unicode composition, full-width forms and white
//! space folded, then without the decoration that a localised menu puts after
//! it. Only the tightest tier that matched anything is kept, so leniency can
//! never turn a selector that used to resolve one element into an ambiguous
//! one.

use unicode_normalization::UnicodeNormalization;
use vstd::prelude::*;

use crate::strings::{
    chars_of, is_white_space, same_chars, same_text, slice_of, split_words,
};
#[allow(unused_imports)]
use crate::keys::is_alphanumeric;
#[allow(unused_imports)]
use crate::strings::{
    char_rows, is_space, law_white_space_parts_words, law_words_have_no_white_space, trim_back,
    words,
};

verus! {

/// How closely a label matched, the closest first.
#[derive(Debug, Clone, Copy, PartialEq, Eq, Structural)]
pub enum MatchTier {
    /// The label as written.
    Exact,
    /// The label but for case.
    Case,
    /// The label but for case, Unicode composition, width and white space.
    Normalized,
    /// The label but for a mnemonic like the `(F)` in `ファイル(F)`.
    Affix,
    /// The text but for glyphs that a recogniser takes for one another.
    Glyphs,
}

/// The place of a tier in the order.
pub open spec fn tier_rank(t: MatchTier) -> int {
    match t {
        MatchTier::Exact => 0,
        MatchTier::Case => 1,
        MatchTier::Normalized => 2,
        MatchTier::Affix => 3,
        MatchTier::Glyphs => 4,
    }
}

/// The place of a tier in the order.
pub fn rank(t: MatchTier) -> (r: u8)
    ensures
        r == tier_rank(t),
{
    match t {
        MatchTier::Exact => 0,
        MatchTier::Case => 1,
        MatchTier::Normalized => 2,
        MatchTier::Affix => 3,
        MatchTier::Glyphs => 4,
    }
}

/// A text in lower case, by Unicode's case tables.
pub uninterp spec fn lower_case(s: Seq<char>) -> Seq<char>;

/// A text in Unicode Normalization Form KC.
pub uninterp spec fn nfkc_form(s: Seq<char>) -> Seq<char>;

/// Calls the standard library's `str::to_lowercase`: the lower case of a text
/// by Unicode's tables, without regard to locale.
#[verifier::external_body]
pub(crate) fn to_lower_case(s: &str) -> (r: String)
    ensures
        r@ == lower_case(s@),
{
    s.to_lowercase()
}

/// Calls `unicode_normalization`'s `nfkc`: compatibility decomposition followed
/// by canonical composition.
#[verifier::external_body]
pub(crate) fn to_nfkc(s: &str) -> (r: String)
    ensures
        r@ == nfkc_form(s@),
{
    s.nfkc().collect()
}

/// Some words with a space between each two.
pub open spec fn spaced(ws: Seq<Seq<char>>) -> Seq<char>
    decreases ws.len(),
{
    if ws.len() == 0 {
        Seq::<char>::empty()
    } else if ws.len() == 1 {
        ws[0]
    } else {
        spaced(ws.drop_last()).push(' ') + ws.last()
    }
}

/// A text with every run of white space made one space, and none around it.
pub open spec fn single_spaced(s: Seq<char>) -> Seq<char> {
    spaced(words(s))
}

/// A folded label without the mnemonic after it: one letter or digit in
/// parentheses. A label that is nothing but a mnemonic keeps it.
pub open spec fn undecorated(s: Seq<char>) -> Seq<char> {
    let n = s.len() as int;
    if n > 3 && s[n - 3] == '(' && is_alphanumeric(s[n - 2]) && s[n - 1] == ')' {
        trim_back(s.take(n - 3))
    } else {
        s
    }
}

/// The tightest tier at which a label matches what was asked for, given the
/// lower case of both and the lower case of their normal forms. Decoration is
/// taken off one side only: two labels with different mnemonics are different
/// labels.
pub open spec fn tier_of_forms(
    label: Seq<char>,
    wanted: Seq<char>,
    lower: (Seq<char>, Seq<char>),
    plain: (Seq<char>, Seq<char>),
) -> Option<MatchTier> {
    let a = single_spaced(plain.0);
    let b = single_spaced(plain.1);
    if label == wanted {
        Some(MatchTier::Exact)
    } else if lower.0 == lower.1 {
        Some(MatchTier::Case)
    } else if a == b {
        Some(MatchTier::Normalized)
    } else if undecorated(a) == b || a == undecorated(b) {
        Some(MatchTier::Affix)
    } else {
        None
    }
}

/// The tightest tier at which a label matches what was asked for.
pub open spec fn tier_between(label: Seq<char>, wanted: Seq<char>) -> Option<MatchTier> {
    tier_of_forms(
        label,
        wanted,
        (lower_case(label), lower_case(wanted)),
        (lower_case(nfkc_form(label)), lower_case(nfkc_form(wanted))),
    )
}

fn join_words(ws: &Vec<Vec<char>>) -> (r: Vec<char>)
    ensures
        r@ == spaced(char_rows(ws@)),
{
    let ghost rows = char_rows(ws@);
    let mut out: Vec<char> = Vec::new();
    for i in 0..ws.len()
        invariant
            rows == char_rows(ws@),
            out@ == spaced(rows.take(i as int)),
    {
        let ghost next = rows.take(i + 1);
        assert(next.drop_last() =~= rows.take(i as int));
        assert(next.last() == ws@[i as int]@);
        let mut word = slice_of(&ws[i], 0, ws[i].len());
        assert(word@ =~= ws@[i as int]@);
        if i > 0 {
            out.push(' ');
        }
        out.append(&mut word);
        assert(out@ =~= spaced(next));
    }
    assert(rows.take(rows.len() as int) =~= rows);
    out
}

fn is_mnemonic(c: char) -> (r: bool)
    ensures
        r == is_alphanumeric(c),
{
    ('a' <= c && c <= 'z') || ('A' <= c && c <= 'Z') || ('0' <= c && c <= '9')
}

fn undecorate(v: &Vec<char>) -> (r: Vec<char>)
    ensures
        r@ == undecorated(v@),
{
    let n: usize = v.len();
    if n > 3 && v[n - 3] == '(' && is_mnemonic(v[n - 2]) && v[n - 1] == ')' {
        let mut to: usize = n - 3;
        while to > 0 && is_white_space(v[to - 1])
            invariant
                to <= n - 3,
                n == v@.len(),
                n > 3,
                trim_back(v@.take(n - 3)) == trim_back(v@.take(to as int)),
            decreases to,
        {
            assert(v@.take(to as int).drop_last() =~= v@.take(to - 1));
            to = to - 1;
        }
        let out = slice_of(v, 0, to);
        assert(out@ =~= v@.take(to as int));
        out
    } else {
        let out = slice_of(v, 0, n);
        assert(out@ =~= v@);
        out
    }
}

/// The tightest tier at which a label matches what was asked for, given the
/// lower case of both and the lower case of their normal forms.
pub fn tier_by_forms(label: &str, wanted: &str, lower: (&str, &str), plain: (&str, &str)) -> (r:
    Option<MatchTier>)
    ensures
        r == tier_of_forms(
            label@,
            wanted@,
            (lower.0@, lower.1@),
            (plain.0@, plain.1@),
        ),
{
    if same_text(label, wanted) {
        return Some(MatchTier::Exact);
    }
    if same_text(lower.0, lower.1) {
        return Some(MatchTier::Case);
    }
    let a = join_words(&split_words(&chars_of(plain.0)));
    let b = join_words(&split_words(&chars_of(plain.1)));
    if same_chars(&a, &b) {
        return Some(MatchTier::Normalized);
    }
    if same_chars(&undecorate(&a), &b) || same_chars(&a, &undecorate(&b)) {
        return Some(MatchTier::Affix);
    }
    None
}

/// The tightest tier at which a label matches what was asked for.
pub fn tier_of(label: &str, wanted: &str) -> (r: Option<MatchTier>)
    ensures
        r == tier_between(label@, wanted@),
{
    let label_lower = to_lower_case(label);
    let wanted_lower = to_lower_case(wanted);
    let label_plain = to_lower_case(to_nfkc(label).as_str());
    let wanted_plain = to_lower_case(to_nfkc(wanted).as_str());
    tier_by_forms(
        label,
        wanted,
        (label_lower.as_str(), wanted_lower.as_str()),
        (label_plain.as_str(), wanted_plain.as_str()),
    )
}

/// A candidate by its place in a list, and how closely it matched.
#[derive(Debug, Clone, Copy, PartialEq, Eq, Structural)]
pub struct Hit {
    pub place: usize,
    pub tier: MatchTier,
}

/// The closest rank among some hits, one past the last where there are none.
pub open spec fn best_rank(hits: Seq<Hit>) -> int
    decreases hits.len(),
{
    if hits.len() == 0 {
        5
    } else if tier_rank(hits.last().tier) < best_rank(hits.drop_last()) {
        tier_rank(hits.last().tier)
    } else {
        best_rank(hits.drop_last())
    }
}

/// The hits of one rank, in order.
pub open spec fn of_rank(hits: Seq<Hit>, r: int) -> Seq<Hit>
    decreases hits.len(),
{
    if hits.len() == 0 {
        Seq::<Hit>::empty()
    } else if tier_rank(hits.last().tier) == r {
        of_rank(hits.drop_last(), r).push(hits.last())
    } else {
        of_rank(hits.drop_last(), r)
    }
}

/// The hits of the closest tier that has any, in order.
pub open spec fn best_hits(hits: Seq<Hit>) -> Seq<Hit> {
    of_rank(hits, best_rank(hits))
}

/// Keeps only the hits of the tightest tier that matched anything.
pub fn keep_best(hits: &Vec<Hit>) -> (r: Vec<Hit>)
    ensures
        r@ == best_hits(hits@),
{
    let mut best: u8 = 5;
    for i in 0..hits.len()
        invariant
            best == best_rank(hits@.take(i as int)),
    {
        assert(hits@.take(i + 1).drop_last() =~= hits@.take(i as int));
        if rank(hits[i].tier) < best {
            best = rank(hits[i].tier);
        }
    }
    assert(hits@.take(hits@.len() as int) =~= hits@);
    let mut out: Vec<Hit> = Vec::new();
    for i in 0..hits.len()
        invariant
            best == best_rank(hits@),
            out@ == of_rank(hits@.take(i as int), best as int),
    {
        assert(hits@.take(i + 1).drop_last() =~= hits@.take(i as int));
        if rank(hits[i].tier) == best {
            out.push(hits[i]);
        }
    }
    assert(hits@.take(hits@.len() as int) =~= hits@);
    out
}

proof fn lemma_of_rank(hits: Seq<Hit>, r: int)
    ensures
        forall|i: int|
            0 <= i < of_rank(hits, r).len() ==> {
                &&& tier_rank((#[trigger] of_rank(hits, r)[i]).tier) == r
                &&& hits.contains(of_rank(hits, r)[i])
            },
        forall|i: int|
            0 <= i < hits.len() && tier_rank((#[trigger] hits[i]).tier) == r ==> of_rank(
                hits,
                r,
            ).contains(hits[i]),
    decreases hits.len(),
{
    if hits.len() > 0 {
        let init = hits.drop_last();
        let before = of_rank(init, r);
        let after = of_rank(hits, r);
        lemma_of_rank(init, r);
        assert forall|i: int| 0 <= i < after.len() implies tier_rank((#[trigger] after[i]).tier)
            == r && hits.contains(after[i]) by {
            if i < before.len() {
                assert(after[i] == before[i]);
                let j = choose|j: int| 0 <= j < init.len() && init[j] == before[i];
                assert(hits[j] == after[i]);
            } else {
                assert(hits[hits.len() - 1] == after[i]);
            }
        }
        assert forall|i: int|
            0 <= i < hits.len() && tier_rank(
                (#[trigger] hits[i]).tier,
            ) == r implies after.contains(hits[i]) by {
            if i < init.len() {
                assert(init[i] == hits[i]);
                let j = choose|j: int| 0 <= j < before.len() && before[j] == init[i];
                assert(after[j] == hits[i]);
            } else {
                assert(after[after.len() - 1] == hits[i]);
            }
        }
    }
}

proof fn lemma_best_rank(hits: Seq<Hit>)
    ensures
        forall|i: int| 0 <= i < hits.len() ==> best_rank(hits) <= tier_rank((#[trigger] hits[i]).tier),
        hits.len() > 0 ==> exists|i: int|
            0 <= i < hits.len() && tier_rank((#[trigger] hits[i]).tier) == best_rank(hits),
        hits.len() == 0 ==> best_rank(hits) == 5,
    decreases hits.len(),
{
    if hits.len() > 0 {
        let init = hits.drop_last();
        lemma_best_rank(init);
        assert forall|i: int| 0 <= i < hits.len() implies best_rank(hits) <= tier_rank(
            (#[trigger] hits[i]).tier,
        ) by {
            if i < init.len() {
                assert(init[i] == hits[i]);
            }
        }
        if tier_rank(hits.last().tier) < best_rank(init) || init.len() == 0 {
            assert(tier_rank(hits[hits.len() - 1].tier) == best_rank(hits));
        } else {
            let i = choose|i: int|
                0 <= i < init.len() && tier_rank((#[trigger] init[i]).tier) == best_rank(init);
            assert(hits[i] == init[i]);
        }
    }
}

pub(crate) proof fn lemma_best_hits_are_hits(hits: Seq<Hit>)
    ensures
        forall|i: int|
            0 <= i < best_hits(hits).len() ==> hits.contains(#[trigger] best_hits(hits)[i]),
{
    lemma_of_rank(hits, best_rank(hits));
}

/// Something is kept exactly where something was found.
pub proof fn law_best_is_not_lost(hits: Seq<Hit>)
    ensures
        best_hits(hits).len() > 0 <==> hits.len() > 0,
{
    lemma_best_rank(hits);
    lemma_of_rank(hits, best_rank(hits));
    if hits.len() > 0 {
        let i = choose|i: int|
            0 <= i < hits.len() && tier_rank((#[trigger] hits[i]).tier) == best_rank(hits);
        assert(best_hits(hits).contains(hits[i]));
    }
}

/// Leniency never makes a selector ambiguous: a hit that is looser than one
/// that is there makes no difference to what is kept, wherever it stands.
pub proof fn law_leniency_never_blurs(hits: Seq<Hit>, looser: Hit, at: int, i: int)
    requires
        0 <= at <= hits.len(),
        0 <= i < hits.len(),
        tier_rank(hits[i].tier) < tier_rank(looser.tier),
    ensures
        best_hits(hits.insert(at, looser)) == best_hits(hits),
{
    lemma_best_rank(hits);
    assert(best_rank(hits) <= tier_rank(hits[i].tier));
    lemma_rank_with(hits, looser, at);
    lemma_others_of_rank(hits, looser, at, best_rank(hits));
}

proof fn lemma_others_of_rank(hits: Seq<Hit>, other: Hit, at: int, r: int)
    requires
        0 <= at <= hits.len(),
        tier_rank(other.tier) != r,
    ensures
        of_rank(hits.insert(at, other), r) == of_rank(hits, r),
    decreases hits.len(),
{
    let more = hits.insert(at, other);
    if at < hits.len() {
        assert(more.drop_last() =~= hits.drop_last().insert(at, other));
        assert(more.last() == hits.last());
        lemma_others_of_rank(hits.drop_last(), other, at, r);
    } else {
        assert(more.drop_last() =~= hits);
        assert(more.last() == other);
    }
}

proof fn lemma_rank_with(hits: Seq<Hit>, other: Hit, at: int)
    requires
        0 <= at <= hits.len(),
    ensures
        best_rank(hits.insert(at, other)) == if best_rank(hits) < tier_rank(other.tier) {
            best_rank(hits)
        } else {
            tier_rank(other.tier)
        },
    decreases hits.len(),
{
    let more = hits.insert(at, other);
    if at < hits.len() {
        assert(more.drop_last() =~= hits.drop_last().insert(at, other));
        assert(more.last() == hits.last());
        lemma_rank_with(hits.drop_last(), other, at);
    } else {
        assert(more.drop_last() =~= hits);
        assert(more.last() == other);
    }
}

/// A hit that is closer than every other is the one that is kept.
pub proof fn law_closest_hit_is_kept(hits: Seq<Hit>, i: int)
    requires
        0 <= i < hits.len(),
        forall|j: int|
            0 <= j < hits.len() && j != i ==> tier_rank(hits[i].tier) < tier_rank(
                (#[trigger] hits[j]).tier,
            ),
    ensures
        best_hits(hits) == seq![hits[i]],
{
    lemma_best_rank(hits);
    let k = choose|k: int|
        0 <= k < hits.len() && tier_rank((#[trigger] hits[k]).tier) == best_rank(hits);
    assert(best_rank(hits) <= tier_rank(hits[i].tier));
    assert(k == i);
    lemma_only_one(hits, best_rank(hits), i);
}

proof fn lemma_only_one(hits: Seq<Hit>, r: int, i: int)
    requires
        0 <= i <= hits.len(),
        forall|j: int|
            0 <= j < hits.len() ==> ((tier_rank((#[trigger] hits[j]).tier) == r) == (j == i)),
    ensures
        of_rank(hits, r) == if i < hits.len() {
            seq![hits[i]]
        } else {
            Seq::<Hit>::empty()
        },
    decreases hits.len(),
{
    if hits.len() > 0 {
        let init = hits.drop_last();
        assert forall|j: int| 0 <= j < init.len() implies ((tier_rank((#[trigger] init[j]).tier)
            == r) == (j == i)) by {
            assert(init[j] == hits[j]);
        }
        if i == hits.len() {
            lemma_only_one(init, r, init.len() as int);
        } else {
            lemma_only_one(init, r, i);
        }
        assert(hits[hits.len() - 1] == hits.last());
    }
}

/// A label is always found as written.
pub proof fn law_label_matches_itself(label: Seq<char>)
    ensures
        tier_between(label, label) == Some(MatchTier::Exact),
{
}

/// It makes no difference which of two labels was asked for.
pub proof fn law_matching_is_symmetric(a: Seq<char>, b: Seq<char>)
    ensures
        tier_between(a, b) == tier_between(b, a),
{
}

/// The tiers stand in this order: as written, but for case, but for form, but
/// for decoration, but for glyphs.
pub proof fn law_tiers_in_order()
    ensures
        tier_rank(MatchTier::Exact) < tier_rank(MatchTier::Case),
        tier_rank(MatchTier::Case) < tier_rank(MatchTier::Normalized),
        tier_rank(MatchTier::Normalized) < tier_rank(MatchTier::Affix),
        tier_rank(MatchTier::Affix) < tier_rank(MatchTier::Glyphs),
{
}

proof fn lemma_spaced_words(ws: Seq<Seq<char>>)
    requires
        forall|i: int| 0 <= i < ws.len() ==> (#[trigger] ws[i]).len() > 0,
        forall|i: int, j: int|
            0 <= i < ws.len() && 0 <= j < ws[i].len() ==> !is_space(#[trigger] ws[i][j]),
    ensures
        words(spaced(ws)) == ws,
    decreases ws.len(),
{
    if ws.len() == 0 {
        law_white_space_parts_words(spaced(ws), ' ', spaced(ws), seq!['a']);
        assert(ws =~= Seq::<Seq<char>>::empty());
    } else {
        let init = ws.drop_last();
        let w = ws[ws.len() - 1];
        assert forall|i: int| 0 <= i < init.len() implies (#[trigger] init[i]).len() > 0 by {
            assert(init[i] == ws[i]);
        }
        assert forall|i: int, j: int| 0 <= i < init.len() && 0 <= j < init[i].len() implies !is_space(
            #[trigger] init[i][j],
        ) by {
            assert(init[i] == ws[i]);
            assert(!is_space(ws[i][j]));
        }
        lemma_spaced_words(init);
        law_white_space_parts_words(spaced(init), ' ', w, w);
        if ws.len() == 1 {
            assert(ws =~= seq![w]);
        } else {
            assert(init + seq![w] =~= ws);
        }
    }
}

/// Folding white space keeps the words and their order, and two texts fold to
/// one exactly where they have the same words.
pub proof fn law_folding_keeps_words(s: Seq<char>, t: Seq<char>)
    ensures
        words(single_spaced(s)) == words(s),
        single_spaced(s) == single_spaced(t) <==> words(s) == words(t),
{
    law_words_have_no_white_space(s);
    law_words_have_no_white_space(t);
    lemma_spaced_words(words(s));
    lemma_spaced_words(words(t));
}

/// In a folded text there is one space between two words, and none around
/// them.
pub proof fn law_folded_words_are_a_space_apart(s: Seq<char>, t: Seq<char>, w: Seq<char>)
    requires
        words(s).len() > 0,
        words(w) == seq![w],
        words(t) == words(s) + seq![w],
    ensures
        single_spaced(t) == single_spaced(s) + seq![' '] + w,
        single_spaced(w) == w,
{
    let ws = words(t);
    assert(ws.drop_last() =~= words(s));
    assert(ws.last() == w);
    assert(single_spaced(s).push(' ') + w =~= single_spaced(s) + seq![' '] + w);
}

/// A mnemonic, which is a letter or a digit in parentheses at the end, is taken
/// off with the white space before it, unless it is all there is.
pub proof fn law_mnemonic_is_taken_off(t: Seq<char>, gap: Seq<char>, m: char)
    requires
        t.len() > 0,
        !is_space(t.last()),
        forall|i: int| 0 <= i < gap.len() ==> is_space(#[trigger] gap[i]),
        'a' <= m <= 'z' || 'A' <= m <= 'Z' || '0' <= m <= '9',
    ensures
        undecorated(t + gap + seq!['(', m, ')']) == t,
        undecorated(seq!['(', m, ')']) == seq!['(', m, ')'],
{
    let s = t + gap + seq!['(', m, ')'];
    let n = s.len() as int;
    assert(s.take(n - 3) =~= t + gap);
    lemma_trim_gap(t, gap);
}

proof fn lemma_trim_gap(t: Seq<char>, gap: Seq<char>)
    requires
        t.len() > 0,
        !is_space(t.last()),
        forall|i: int| 0 <= i < gap.len() ==> is_space(#[trigger] gap[i]),
    ensures
        trim_back(t + gap) == t,
    decreases gap.len(),
{
    if gap.len() == 0 {
        assert(t + gap =~= t);
    } else {
        assert((t + gap).last() == gap[gap.len() - 1]);
        assert((t + gap).drop_last() =~= t + gap.drop_last());
        lemma_trim_gap(t, gap.drop_last());
    }
}

/// What does not end in a letter or a digit in parentheses keeps its end.
pub proof fn law_other_endings_stay(t: Seq<char>, a: char, m: char, b: char)
    requires
        a != '(' || b != ')' || !('a' <= m <= 'z' || 'A' <= m <= 'Z' || '0' <= m <= '9'),
    ensures
        undecorated(t + seq![a, m, b]) == t + seq![a, m, b],
{
    let s = t + seq![a, m, b];
    let n = s.len() as int;
    assert(s[n - 3] == a && s[n - 2] == m && s[n - 1] == b);
}

/// A label is found at the tightest tier that it meets: as written; else where
/// the lower case is the same; else where the lower case of the normal forms
/// has the same words; else where one of those two is the other without its
/// mnemonic; and it is not found where it meets none of these.
pub proof fn law_label_is_found_at_the_tightest_tier(label: Seq<char>, wanted: Seq<char>)
    ensures
        ({
            let a = lower_case(nfkc_form(label));
            let b = lower_case(nfkc_form(wanted));
            let written = label == wanted;
            let case = lower_case(label) == lower_case(wanted);
            let form = words(a) == words(b);
            let affix = undecorated(single_spaced(a)) == single_spaced(b) || single_spaced(a)
                == undecorated(single_spaced(b));
            let tier = tier_between(label, wanted);
            &&& tier == Some(MatchTier::Exact) <==> written
            &&& tier == Some(MatchTier::Case) <==> !written && case
            &&& tier == Some(MatchTier::Normalized) <==> !written && !case && form
            &&& tier == Some(MatchTier::Affix) <==> !written && !case && !form && affix
            &&& tier is None <==> !written && !case && !form && !affix
        }),
{
    law_folding_keeps_words(lower_case(nfkc_form(label)), lower_case(nfkc_form(wanted)));
}

/// What is kept of some hits are those than which none is closer, all of them,
/// in order.
pub proof fn law_closest_hits_are_kept(hits: Seq<Hit>)
    ensures
        best_hits(hits) == hits.filter(
            |h: Hit|
                forall|j: int|
                    0 <= j < hits.len() ==> tier_rank(h.tier) <= tier_rank(
                        (#[trigger] hits[j]).tier,
                    ),
        ),
{
    let p = |h: Hit|
        forall|j: int|
            0 <= j < hits.len() ==> tier_rank(h.tier) <= tier_rank((#[trigger] hits[j]).tier);
    lemma_best_rank(hits);
    assert forall|i: int| 0 <= i < hits.len() implies (p(#[trigger] hits[i]) <==> tier_rank(
        hits[i].tier,
    ) == best_rank(hits)) by {
        let k = choose|k: int|
            0 <= k < hits.len() && tier_rank((#[trigger] hits[k]).tier) == best_rank(hits);
        assert(best_rank(hits) <= tier_rank(hits[i].tier));
    }
    lemma_of_rank_filters(hits, best_rank(hits), p);
}

proof fn lemma_of_rank_filters(hits: Seq<Hit>, r: int, p: spec_fn(Hit) -> bool)
    requires
        forall|i: int|
            0 <= i < hits.len() ==> (p(#[trigger] hits[i]) <==> tier_rank(hits[i].tier) == r),
    ensures
        of_rank(hits, r) == hits.filter(p),
    decreases hits.len(),
{
    reveal(Seq::filter);
    if hits.len() > 0 {
        let init = hits.drop_last();
        assert forall|i: int| 0 <= i < init.len() implies (p(#[trigger] init[i]) <==> tier_rank(
            init[i].tier,
        ) == r) by {
            assert(init[i] == hits[i]);
        }
        lemma_of_rank_filters(init, r, p);
        assert(p(hits[hits.len() - 1]) <==> tier_rank(hits[hits.len() - 1].tier) == r);
    }
}

} // verus!
