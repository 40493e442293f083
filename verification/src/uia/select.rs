//! Selecting elements by what they are rather than where they sat.

use vstd::prelude::*;
use vstd::string::*;

use crate::strings::{chars_of, lower, quoted, same, same_chars, same_text};
#[allow(unused_imports)]
use crate::strings::{
    begins_with, debug_text, law_lowered_ignores_ascii_case, lowered, same_but_ascii_case,
};
use crate::text::{tier_of, MatchTier};
#[allow(unused_imports)]
use crate::text::tier_between;
use crate::uia::entity::Entity;
#[allow(unused_imports)]
use crate::uia::entity::EntityView;

verus! {

/// What a caller wants back. `Actionable` is the default because a caller
/// asking "what can I do here" is served badly by a wall of layout containers.
#[derive(Debug, Clone, Copy, PartialEq, Eq, Structural)]
pub enum Filter {
    /// Things you can actually click, type into, toggle, expand or select.
    Actionable,
    /// Everything that exposes at least one action, containers and unnamed
    /// elements included. Elements with no action at all are never returned:
    /// there is nothing to act on and no action list to hand back.
    All,
}

/// The filter of a name.
pub open spec fn filter_named(s: Seq<char>) -> Option<Filter> {
    if s == "actionable"@ {
        Some(Filter::Actionable)
    } else if s == "all"@ {
        Some(Filter::All)
    } else {
        None
    }
}

/// What is said of a name that no filter has.
pub open spec fn unknown_filter_message(s: Seq<char>) -> Seq<char> {
    "unknown filter '"@ + s + "' (actionable|all)"@
}

impl Filter {
    /// Finds a filter by name.
    pub fn from_name(s: &str) -> (r: Result<Filter, String>)
        ensures
            match r {
                Ok(f) => filter_named(s@) == Some(f),
                Err(e) => filter_named(s@) is None && e@ == unknown_filter_message(s@),
            },
    {
        let v = chars_of(s);
        if same(&v, "actionable") {
            Ok(Filter::Actionable)
        } else if same(&v, "all") {
            Ok(Filter::All)
        } else {
            let mut out = String::new();
            out.append("unknown filter '");
            out.append(s);
            out.append("' (actionable|all)");
            assert(out@ =~= unknown_filter_message(s@));
            Err(out)
        }
    }
}

impl core::str::FromStr for Filter {
    type Err = String;

    /// Finds a filter by name.
    fn from_str(s: &str) -> (r: Result<Filter, String>)
        ensures
            match r {
                Ok(f) => filter_named(s@) == Some(f),
                Err(e) => filter_named(s@) is None && e@ == unknown_filter_message(s@),
            },
    {
        Filter::from_name(s)
    }
}

/// Identify an element by what it is rather than where it sat.
///
/// A child-index path is the fastest way to reach an element and the most
/// fragile: expand a tree node between discovering and acting and every index
/// after it shifts. A selector is resolved against the live tree, so the same
/// reshape is survivable.
#[derive(Debug)]
pub struct Selector {
    /// The visible label, matched leniently but in strict order.
    pub name: Option<String>,
    /// Exact, case-sensitive: automation ids are identifiers, not labels.
    pub automation_id: Option<String>,
    /// As reported with the element, e.g. "button", "menu item".
    pub control_type: Option<String>,
}

/// The characters of a string, where there is one.
pub open spec fn text_in(s: Option<String>) -> Option<Seq<char>> {
    match s {
        Some(t) => Some(t@),
        None => None,
    }
}

/// A [`Selector`] with the characters of its strings.
pub struct SelectorView {
    pub name: Option<Seq<char>>,
    pub automation_id: Option<Seq<char>>,
    pub control_type: Option<Seq<char>>,
}

impl View for Selector {
    type V = SelectorView;

    open spec fn view(&self) -> SelectorView {
        SelectorView {
            name: text_in(self.name),
            automation_id: text_in(self.automation_id),
            control_type: text_in(self.control_type),
        }
    }
}

impl Default for Selector {
    /// The selector that names nothing.
    fn default() -> (r: Selector)
        ensures
            r@ == (SelectorView { name: None, automation_id: None, control_type: None }),
    {
        Selector { name: None, automation_id: None, control_type: None }
    }
}

/// One field of a description, where it was given.
pub open spec fn described(label: Seq<char>, value: Option<Seq<char>>) -> Seq<Seq<char>> {
    match value {
        Some(v) => seq![label + debug_text(v)],
        None => Seq::<Seq<char>>::empty(),
    }
}

/// Some parts with a space between each two.
pub open spec fn joined(parts: Seq<Seq<char>>) -> Seq<char>
    decreases parts.len(),
{
    if parts.len() == 0 {
        Seq::<char>::empty()
    } else if parts.len() == 1 {
        parts[0]
    } else {
        joined(parts.drop_last()) + " "@ + parts.last()
    }
}

/// The fields that a selector names, in order.
pub open spec fn description_parts(s: SelectorView) -> Seq<Seq<char>> {
    described("name="@, s.name) + described("automation_id="@, s.automation_id) + described(
        "control_type="@,
        s.control_type,
    )
}

fn add_part(out: &mut String, any: bool, label: &str, value: &Option<String>, Ghost(parts): Ghost<
    Seq<Seq<char>>,
>) -> (r: bool)
    requires
        old(out)@ == joined(parts),
        any == (parts.len() > 0),
    ensures
        final(out)@ == joined(parts + described(label@, text_in(*value))),
        r == ((parts + described(label@, text_in(*value))).len() > 0),
{
    let ghost all = parts + described(label@, text_in(*value));
    match value {
        None => {
            assert(all =~= parts);
            any
        },
        Some(v) => {
            assert(all.drop_last() =~= parts);
            if any {
                out.append(" ");
            }
            out.append(label);
            out.append(quoted(v.as_str()).as_str());
            assert(out@ =~= joined(all));
            true
        },
    }
}

impl Selector {
    /// Whether the selector names nothing.
    pub fn is_empty(&self) -> (r: bool)
        ensures
            r == (self.name is None && self.automation_id is None && self.control_type is None),
    {
        self.name.is_none() && self.automation_id.is_none() && self.control_type.is_none()
    }

    /// The fields that were given, in words. The description ends up in a
    /// message that says what to narrow.
    pub fn describe(&self) -> (r: String)
        ensures
            r@ == joined(description_parts(self@)),
    {
        let mut out = String::new();
        let ghost none = Seq::<Seq<char>>::empty();
        let ghost one = none + described("name="@, self@.name);
        let ghost two = one + described("automation_id="@, self@.automation_id);
        let any = add_part(&mut out, false, "name=", &self.name, Ghost(none));
        let any = add_part(&mut out, any, "automation_id=", &self.automation_id, Ghost(one));
        let any = add_part(&mut out, any, "control_type=", &self.control_type, Ghost(two));
        assert(one =~= described("name="@, self@.name));
        out
    }
}

/// The tier at which an element meets a selector. Every field that the
/// selector names has to match: the name by the ladder, the automation id
/// exactly, the control type but for ASCII case.
pub open spec fn selection(e: EntityView, sel: SelectorView) -> Option<MatchTier> {
    let by_id = match sel.automation_id {
        None => true,
        Some(a) => a == e.automation_id,
    };
    let by_type = match sel.control_type {
        None => true,
        Some(c) => lowered(c) == lowered(e.control_type),
    };
    if by_id && by_type {
        match sel.name {
            None => Some(MatchTier::Exact),
            Some(n) => tier_between(e.name, n),
        }
    } else {
        None
    }
}

fn same_but_for_case(a: &str, b: &str) -> (r: bool)
    ensures
        r == (lowered(a@) == lowered(b@)),
{
    same_chars(&lower(&chars_of(a)), &lower(&chars_of(b)))
}

/// Whether an entity satisfies a selector, and at which tier.
///
/// The rule by which an element is acted on is the rule by which it is waited
/// for: if the two differed, waiting for a control and then acting on it could
/// disagree.
pub fn entity_matches(e: &Entity, sel: &Selector) -> (r: Option<MatchTier>)
    ensures
        r == selection(e@, sel@),
{
    let by_id = match &sel.automation_id {
        None => true,
        Some(a) => same_text(a.as_str(), e.automation_id.as_str()),
    };
    let by_type = match &sel.control_type {
        None => true,
        Some(c) => same_but_for_case(c.as_str(), e.control_type.as_str()),
    };
    if by_id && by_type {
        match &sel.name {
            None => Some(MatchTier::Exact),
            Some(n) => tier_of(e.name.as_str(), n.as_str()),
        }
    } else {
        None
    }
}

/// A selector that names nothing is met by every element.
pub proof fn law_empty_selector_is_met(e: EntityView, sel: SelectorView)
    requires
        sel.name is None,
        sel.automation_id is None,
        sel.control_type is None,
    ensures
        selection(e, sel) == Some(MatchTier::Exact),
{
}

/// An element meets a selector only where every field that the selector names
/// matches.
pub proof fn law_every_field_counts(e: EntityView, sel: SelectorView)
    ensures
        selection(e, sel) is Some <==> {
            &&& sel.name is Some ==> tier_between(e.name, sel.name->0) is Some
            &&& sel.automation_id is Some ==> sel.automation_id->0 == e.automation_id
            &&& sel.control_type is Some ==> lowered(sel.control_type->0) == lowered(
                e.control_type,
            )
        },
{
}

/// The names of the filters, and nothing else, find them.
pub proof fn law_filter_names(s: Seq<char>)
    ensures
        filter_named(s) == Some(Filter::Actionable) <==> s == "actionable"@,
        filter_named(s) == Some(Filter::All) <==> s == "all"@,
{
    reveal_strlit("actionable");
    reveal_strlit("all");
    assert("actionable"@.len() != "all"@.len());
}

/// An element that meets a selector meets it at the tier of its name, or as
/// written where no name was asked for; a control type matches but for the
/// case of ASCII letters, an automation id only as it is.
pub proof fn law_selection_is_at_the_tier_of_the_name(e: EntityView, sel: SelectorView)
    ensures
        ({
            let others = {
                &&& sel.automation_id is Some ==> sel.automation_id->0 == e.automation_id
                &&& sel.control_type is Some ==> same_but_ascii_case(
                    sel.control_type->0,
                    e.control_type,
                )
            };
            &&& !others ==> selection(e, sel) is None
            &&& others && sel.name is None ==> selection(e, sel) == Some(MatchTier::Exact)
            &&& others && sel.name is Some ==> selection(e, sel) == tier_between(
                e.name,
                sel.name->0,
            )
        }),
{
    if sel.control_type is Some {
        law_lowered_ignores_ascii_case(sel.control_type->0, e.control_type);
    }
}

/// A description names the fields that were given and no others: the name
/// first, then the automation id, then the control type, a space apart.
pub proof fn law_description_names_what_was_given(s: SelectorView)
    ensures
        ({
            let parts = description_parts(s);
            let before: int = if s.name is Some {
                1
            } else {
                0
            };
            &&& parts.len() == before + (if s.automation_id is Some {
                1int
            } else {
                0
            }) + (if s.control_type is Some {
                1int
            } else {
                0
            })
            &&& s.name is Some ==> parts[0] == "name="@ + debug_text(s.name->0)
            &&& s.automation_id is Some ==> parts[before] == "automation_id="@ + debug_text(
                s.automation_id->0,
            )
            &&& s.control_type is Some ==> parts.last() == "control_type="@ + debug_text(
                s.control_type->0,
            )
        }),
{
}

/// Parts are joined in order by one space between each two.
pub proof fn law_parts_are_a_space_apart(parts: Seq<Seq<char>>, p: Seq<char>)
    ensures
        joined(Seq::<Seq<char>>::empty()) == Seq::<char>::empty(),
        joined(seq![p]) == p,
        parts.len() > 0 ==> joined(parts.push(p)) == joined(parts) + seq![' '] + p,
{
    reveal_strlit(" ");
    assert(" "@ =~= seq![' ']);
    assert(parts.push(p).drop_last() =~= parts);
    assert(joined(seq![p]) == seq![p][0]);
}

/// A selector and its view agree in every field: a field is given in the one
/// exactly where it is in the other, with the same characters.
pub proof fn law_selector_is_what_it_says(s: Selector)
    ensures
        s@.name is Some <==> s.name is Some,
        s@.automation_id is Some <==> s.automation_id is Some,
        s@.control_type is Some <==> s.control_type is Some,
        s.name matches Some(t) ==> s@.name == Some(t@),
        s.automation_id matches Some(t) ==> s@.automation_id == Some(t@),
        s.control_type matches Some(t) ==> s@.control_type == Some(t@),
{
}

/// What is said of a name that no filter has gives the name back.
pub proof fn law_unknown_filter_is_named(s: Seq<char>)
    ensures
        begins_with(unknown_filter_message(s), "unknown filter '"@ + s + "'"@),
{
    reveal_strlit("'");
    reveal_strlit("' (actionable|all)");
    let head = "unknown filter '"@ + s + "'"@;
    assert(unknown_filter_message(s).take(head.len() as int) =~= head);
}

} // verus!
