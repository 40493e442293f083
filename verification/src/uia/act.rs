//! The rules by which an element may be acted on.
//!
//! Nothing is dispatched without a [`Permit`], and a permit is given only for
//! an element that was seen, that is still the same element, and that offers
//! the action. Looking at the window, and carrying the action out, is left to
//! the caller.

use vstd::prelude::*;
use vstd::string::*;

use crate::capture::diff::ChangedRegion;
#[allow(unused_imports)]
use crate::lease::{law_signed_scope_reads_back, lease_read, reasoned, signed_text};
use crate::macos::input::{prepare, validate_text, Key};
#[allow(unused_imports)]
use crate::keys::{fault_message, Chord};
#[allow(unused_imports)]
use crate::keys::sequence_read;
#[allow(unused_imports)]
use crate::macos::input::{
    all_native, any_needs_layout, native_keys, prepare_message, refusal_message, text_refusal,
    PrepareError,
};
use crate::strings::{same_text, write_decimal};
#[allow(unused_imports)]
use crate::input::units_of;
#[allow(unused_imports)]
use crate::macos::input::law_text_that_can_be_sent;
#[allow(unused_imports)]
use crate::strings::{begins_with, decimal, free_of, string_rows};
use crate::text::{keep_best, Hit, MatchTier};
#[allow(unused_imports)]
use crate::text::{best_hits, law_best_is_not_lost, law_closest_hit_is_kept, tier_rank};
use crate::uia::entity::{copy_path, Entity};
#[allow(unused_imports)]
use crate::uia::entity::EntityView;
use crate::uia::select::{entity_matches, Selector};
#[allow(unused_imports)]
use crate::uia::select::{selection, text_in, SelectorView};
use crate::uia::snapshot::{Scope, SnapshotStore};
#[allow(unused_imports)]
use crate::uia::snapshot::{
    granted, is_store, law_scope_finds_its_snapshot, lemma_granted, renewed, scope_after, Shot,
};
use crate::uia::walk::{Node, Truncation};
#[allow(unused_imports)]
use crate::uia::walk::{node_views, truncation_message, NodeView};

verus! {

/// What to do, and to which element.
#[derive(Debug)]
pub struct ActArgs {
    pub scope: String,
    /// Resolved against the window as it is when acting, instead of trusting
    /// the path. Takes precedence when present.
    pub select: Option<Selector>,
    /// The child-index path of an entity that was seen.
    pub path: Vec<u32>,
    pub action: String,
    pub value: Option<String>,
}

/// What was done, and what was seen afterwards.
#[derive(Debug)]
pub struct ActResult {
    pub ok: bool,
    pub action: String,
    /// `ok` | `identity_changed` | `disabled` | `pattern_gone` |
    /// `not_found` | `ambiguous` | `error` | `stopped`
    ///
    /// `not_found` means the target genuinely is not there; `error` means the
    /// lookup itself failed and says nothing about the target. A caller that
    /// retries on one should not retry on the other.
    pub status: String,
    /// How the element was located: "path" or "selector".
    pub resolved_by: String,
    /// How closely the caller's name matched the one that was reported, when a
    /// name was involved at all.
    pub matched_by: Option<MatchTier>,
    /// A scope for the window as it is *now*, minted after the action.
    ///
    /// Acting frequently changes what a window says of itself, and having to
    /// discover again after every successful action would be a round trip per
    /// keystroke on a heavy application. So a successful action hands back a
    /// fresh scope for the same window. Paths are unaffected, so a caller can
    /// keep acting with the paths it already has. Absent when the action
    /// failed, because then the old scope is exactly what should be
    /// re-examined.
    pub next_scope: Option<String>,
    /// What the screen did immediately after a click that was sent by
    /// coordinate.
    pub screen_changed: Option<ChangedRegion>,
    pub target: String,
    pub detail: Option<String>,
}

/// An [`ActResult`] with the characters of its strings.
pub struct ActView {
    pub ok: bool,
    pub action: Seq<char>,
    pub status: Seq<char>,
    pub resolved_by: Seq<char>,
    pub matched_by: Option<MatchTier>,
    pub next_scope: Option<Seq<char>>,
    pub screen_changed: Option<ChangedRegion>,
    pub target: Seq<char>,
    pub detail: Option<Seq<char>>,
}

impl View for ActResult {
    type V = ActView;

    open spec fn view(&self) -> ActView {
        ActView {
            ok: self.ok,
            action: self.action@,
            status: self.status@,
            resolved_by: self.resolved_by@,
            matched_by: self.matched_by,
            next_scope: text_in(self.next_scope),
            screen_changed: self.screen_changed,
            target: self.target@,
            detail: text_in(self.detail),
        }
    }
}

/// In which way an action was refused.
#[derive(Debug, Clone, Copy, PartialEq, Eq, Structural)]
pub enum Status {
    IdentityChanged,
    Disabled,
    PatternGone,
    NotFound,
    Ambiguous,
    Error,
    Stopped,
}

/// The name of a refusal.
pub open spec fn status_name(s: Status) -> Seq<char> {
    match s {
        Status::IdentityChanged => "identity_changed"@,
        Status::Disabled => "disabled"@,
        Status::PatternGone => "pattern_gone"@,
        Status::NotFound => "not_found"@,
        Status::Ambiguous => "ambiguous"@,
        Status::Error => "error"@,
        Status::Stopped => "stopped"@,
    }
}

impl Status {
    /// The name of the refusal.
    pub fn name(self) -> (r: &'static str)
        ensures
            r@ == status_name(self),
    {
        match self {
            Status::IdentityChanged => "identity_changed",
            Status::Disabled => "disabled",
            Status::PatternGone => "pattern_gone",
            Status::NotFound => "not_found",
            Status::Ambiguous => "ambiguous",
            Status::Error => "error",
            Status::Stopped => "stopped",
        }
    }
}

/// Why an action was not carried out.
#[derive(Debug)]
pub struct Refusal {
    pub status: Status,
    pub detail: String,
}

/// A [`Refusal`] with the characters of its string.
pub struct Objection {
    pub status: Status,
    pub detail: Seq<char>,
}

impl View for Refusal {
    type V = Objection;

    open spec fn view(&self) -> Objection {
        Objection { status: self.status, detail: self.detail@ }
    }
}

fn refuse(status: Status, detail: &str) -> (r: Refusal)
    ensures
        r@ == (Objection { status, detail: detail@ }),
{
    Refusal { status, detail: detail.to_string() }
}

/// The nodes that meet a selector, in order.
pub open spec fn hits_in(nodes: Seq<NodeView>, sel: SelectorView) -> Seq<Hit>
    decreases nodes.len(),
{
    if nodes.len() == 0 {
        Seq::<Hit>::empty()
    } else {
        match selection(nodes.last().entity, sel) {
            Some(tier) => hits_in(nodes.drop_last(), sel).push(
                Hit { place: (nodes.len() - 1) as usize, tier },
            ),
            None => hits_in(nodes.drop_last(), sel),
        }
    }
}

/// The place of the first node with a path; one before the first where there
/// is none.
pub open spec fn place_of_path(nodes: Seq<NodeView>, path: Seq<u32>) -> int
    decreases nodes.len(),
{
    if nodes.len() == 0 {
        -1
    } else if place_of_path(nodes.drop_last(), path) >= 0 {
        place_of_path(nodes.drop_last(), path)
    } else if nodes.last().entity.path == path {
        nodes.len() - 1
    } else {
        -1
    }
}

/// What is said where a selector does not lead to one element.
pub open spec fn hits_message(n: nat) -> Seq<char> {
    "selector resolved "@ + decimal(n) + " elements; discover again or narrow it"@
}

/// What is said where a walk was cut short before it came to an element that
/// meets a selector.
pub open spec fn cut_message(t: Truncation) -> Seq<char> {
    "lookup was cut short: "@ + truncation_message(t)
}

/// The one hit of the closest tier, or why there is none. Where nothing was
/// hit, the element is missing only if nothing was left unexamined.
pub open spec fn picked(hits: Seq<Hit>, cut: Option<Truncation>) -> Result<Hit, Objection> {
    let best = best_hits(hits);
    if best.len() == 1 {
        Ok(best[0])
    } else if best.len() > 1 {
        Err(Objection { status: Status::Ambiguous, detail: hits_message(best.len()) })
    } else {
        match cut {
            Some(t) => Err(Objection { status: Status::Error, detail: cut_message(t) }),
            None => Err(Objection { status: Status::NotFound, detail: hits_message(0) }),
        }
    }
}

/// A result with the characters of its refusal.
pub open spec fn objecting<T>(r: Result<T, Refusal>) -> Result<T, Objection> {
    match r {
        Ok(t) => Ok(t),
        Err(e) => Err(e@),
    }
}

/// Finds the nodes that meet a selector.
pub fn find_hits(nodes: &Vec<Node>, sel: &Selector) -> (r: Vec<Hit>)
    ensures
        r@ == hits_in(node_views(nodes@), sel@),
{
    let ghost all = node_views(nodes@);
    let mut out: Vec<Hit> = Vec::new();
    for i in 0..nodes.len()
        invariant
            all == node_views(nodes@),
            out@ == hits_in(all.take(i as int), sel@),
    {
        let ghost upto = all.take(i + 1);
        assert(upto.drop_last() =~= all.take(i as int));
        assert(upto.last() == nodes@[i as int]@);
        if let Some(tier) = entity_matches(&nodes[i].entity, sel) {
            out.push(Hit { place: i, tier });
        }
    }
    assert(all.take(nodes@.len() as int) =~= all);
    out
}

/// Picks the one hit of the closest tier. `cut` says what cut the walk short
/// that the hits come from.
pub fn pick_hit(hits: &Vec<Hit>, cut: Option<Truncation>) -> (r: Result<Hit, Refusal>)
    ensures
        objecting(r) == picked(hits@, cut),
{
    let best = keep_best(hits);
    if best.len() == 1 {
        return Ok(best[0]);
    }
    if best.len() == 0 {
        if let Some(t) = cut {
            let mut detail = String::new();
            detail.append("lookup was cut short: ");
            detail.append(t.message().as_str());
            assert(detail@ =~= cut_message(t));
            return Err(Refusal { status: Status::Error, detail });
        }
    }
    let mut detail = String::new();
    detail.append("selector resolved ");
    detail.append(write_decimal(best.len() as u64).as_str());
    detail.append(" elements; discover again or narrow it");
    assert(detail@ =~= hits_message(best@.len()));
    let status = if best.len() == 0 {
        Status::NotFound
    } else {
        Status::Ambiguous
    };
    Err(Refusal { status, detail })
}

fn same_path(a: &Vec<u32>, b: &Vec<u32>) -> (r: bool)
    ensures
        r == (a@ == b@),
{
    if a.len() != b.len() {
        return false;
    }
    for i in 0..a.len()
        invariant
            a@.len() == b@.len(),
            forall|j: int| 0 <= j < i ==> a@[j] == b@[j],
    {
        if a[i] != b[i] {
            assert(a@[i as int] != b@[i as int]);
            return false;
        }
    }
    assert(a@ =~= b@);
    true
}

proof fn lemma_path_prefix(nodes: Seq<NodeView>, n: int, path: Seq<u32>)
    requires
        0 <= n <= nodes.len(),
        place_of_path(nodes.take(n), path) >= 0,
    ensures
        place_of_path(nodes, path) == place_of_path(nodes.take(n), path),
    decreases nodes.len(),
{
    if n < nodes.len() {
        assert(nodes.drop_last().take(n) =~= nodes.take(n));
        lemma_path_prefix(nodes.drop_last(), n, path);
    } else {
        assert(nodes.take(n) =~= nodes);
    }
}

fn find_path(nodes: &Vec<Node>, path: &Vec<u32>) -> (r: Option<usize>)
    ensures
        match r {
            Some(i) => i == place_of_path(node_views(nodes@), path@) && i < nodes@.len(),
            None => place_of_path(node_views(nodes@), path@) == -1,
        },
{
    let ghost all = node_views(nodes@);
    for i in 0..nodes.len()
        invariant
            all == node_views(nodes@),
            place_of_path(all.take(i as int), path@) == -1,
    {
        let ghost upto = all.take(i + 1);
        assert(upto.drop_last() =~= all.take(i as int));
        assert(upto.last() == nodes@[i as int]@);
        if same_path(&nodes[i].entity.path, path) {
            proof {
                lemma_path_prefix(all, i + 1, path@);
            }
            return Some(i);
        }
    }
    assert(all.take(nodes@.len() as int) =~= all);
    None
}

/// Where an element is looked for: by a selector in the window as it is now,
/// by a path in what was seen.
pub open spec fn searched(
    nodes: Seq<NodeView>,
    live: Seq<NodeView>,
    select: Option<SelectorView>,
) -> Seq<NodeView> {
    if select is Some {
        live
    } else {
        nodes
    }
}

/// How closely a name matched, where a name was involved at all.
pub open spec fn name_tier(sel: SelectorView, tier: MatchTier) -> Option<MatchTier> {
    if sel.name is Some {
        Some(tier)
    } else {
        None
    }
}

/// The node that is meant, with the tier at which its name matched, or why
/// none is. `nodes` is what was seen, `live` is the window as it is now, and
/// `cut` says what left a part of it unexamined.
pub open spec fn meant(
    nodes: Seq<NodeView>,
    live: Seq<NodeView>,
    cut: Option<Truncation>,
    select: Option<SelectorView>,
    path: Seq<u32>,
) -> Result<(int, Option<MatchTier>), Objection> {
    match select {
        Some(sel) => match picked(hits_in(live, sel), cut) {
            Ok(hit) => Ok((hit.place as int, name_tier(sel, hit.tier))),
            Err(e) => Err(e),
        },
        None => if place_of_path(nodes, path) >= 0 {
            Ok((place_of_path(nodes, path), None))
        } else {
            Err(Objection { status: Status::NotFound, detail: "path was not observed"@ })
        },
    }
}

/// A selector, where there is one.
pub open spec fn selector_in(s: Option<Selector>) -> Option<SelectorView> {
    match s {
        Some(sel) => Some(sel@),
        None => None,
    }
}

/// The objection where nothing is kept under a scope.
pub open spec fn evicted() -> Objection {
    Objection {
        status: Status::IdentityChanged,
        detail: "snapshot expired or evicted; discover again"@,
    }
}

/// What a caller brings that speaks against acting at all: a missing
/// permission, a stop that was called, an authorisation that does not hold,
/// or one whose snapshot is gone.
pub open spec fn barred(
    held: Seq<Shot>,
    trusted: bool,
    stop: Option<Seq<char>>,
    scope: Result<Scope, Seq<char>>,
) -> Option<Objection> {
    if !trusted {
        Some(Objection { status: Status::Error, detail: "Accessibility permission missing"@ })
    } else if stop is Some {
        Some(Objection { status: Status::Stopped, detail: stop->0 })
    } else {
        match scope {
            Err(why) => Some(Objection { status: Status::IdentityChanged, detail: why }),
            Ok(scope) => if granted(held, scope) >= 0 {
                None
            } else {
                Some(evicted())
            },
        }
    }
}

/// An element that was found to be meant, as it was seen.
#[derive(Debug)]
pub struct Target {
    hwnd: isize,
    element: u64,
    expected: Entity,
    matched_by: Option<MatchTier>,
}

impl Target {
    /// The window.
    pub closed spec fn window_id(&self) -> isize {
        self.hwnd
    }

    /// The element.
    pub closed spec fn element_id(&self) -> u64 {
        self.element
    }

    /// What the element was when it was seen.
    pub closed spec fn seen_as(&self) -> EntityView {
        self.expected@
    }

    /// How closely the name matched, where one was involved.
    pub closed spec fn tier(&self) -> Option<MatchTier> {
        self.matched_by
    }

    /// The window.
    pub fn hwnd(&self) -> (r: isize)
        ensures
            r == self.window_id(),
    {
        self.hwnd
    }

    /// The path that leads to the element again.
    pub fn path(&self) -> (r: Vec<u32>)
        ensures
            r@ == self.seen_as().path,
    {
        copy_path(&self.expected.path)
    }

    /// How closely the name matched, where one was involved.
    pub fn matched_by(&self) -> (r: Option<MatchTier>)
        ensures
            r == self.tier(),
    {
        self.matched_by
    }
}

/// Whether a target is a node of a window.
pub open spec fn is_target(
    t: Target,
    hwnd: isize,
    nodes: Seq<NodeView>,
    found: (int, Option<MatchTier>),
) -> bool {
    &&& t.window_id() == hwnd
    &&& 0 <= found.0 < nodes.len()
    &&& t.element_id() == nodes[found.0].element
    &&& t.seen_as() == nodes[found.0].entity
    &&& t.tier() == found.1
}

proof fn lemma_hits_are_nodes(nodes: Seq<NodeView>, sel: SelectorView)
    requires
        nodes.len() <= usize::MAX,
    ensures
        forall|i: int|
            0 <= i < hits_in(nodes, sel).len() ==> (#[trigger] hits_in(nodes, sel)[i]).place
                < nodes.len(),
        forall|i: int|
            0 <= i < best_hits(hits_in(nodes, sel)).len() ==> (#[trigger] best_hits(
                hits_in(nodes, sel),
            )[i]).place < nodes.len(),
    decreases nodes.len(),
{
    if nodes.len() > 0 {
        lemma_hits_are_nodes(nodes.drop_last(), sel);
    }
    crate::text::lemma_best_hits_are_hits(hits_in(nodes, sel));
    let hits = hits_in(nodes, sel);
    let best = best_hits(hits);
    assert forall|i: int| 0 <= i < best.len() implies (#[trigger] best[i]).place < nodes.len() by {
        assert(hits.contains(best[i]));
        let j = choose|j: int| 0 <= j < hits.len() && hits[j] == best[i];
        assert(hits[j].place < nodes.len());
    }
}

/// Checks whether an element may be looked for, and under which scope.
///
/// `trusted` says whether the process may use the accessibility service,
/// `stop` is what to say where a stop was called, and `scope` is what the
/// authorisation of the request was read as.
pub fn check_entry(
    store: &SnapshotStore,
    trusted: bool,
    stop: Option<String>,
    scope: Result<Scope, String>,
) -> (r: Result<Scope, Refusal>)
    ensures
        objecting(r) == match barred(store.held(), trusted, text_in(stop), reasoned(scope)) {
            Some(e) => Err::<Scope, Objection>(e),
            None => Ok(scope->Ok_0),
        },
{
    if !trusted {
        return Err(refuse(Status::Error, "Accessibility permission missing"));
    }
    if let Some(why) = stop {
        return Err(Refusal { status: Status::Stopped, detail: why });
    }
    match scope {
        Err(why) => Err(Refusal { status: Status::IdentityChanged, detail: why }),
        Ok(scope) => match store.find(scope) {
            Some(_) => Ok(scope),
            None => Err(
                refuse(Status::IdentityChanged, "snapshot expired or evicted; discover again"),
            ),
        },
    }
}

/// Finds the element that is meant: by its path among what was seen under the
/// scope, or by a selector in the window as it is now.
///
/// `live` is what a walk over the window of the scope has just seen, and `cut`
/// says what left a part of it unexamined. Both matter to a selector alone.
pub fn resolve(
    store: &SnapshotStore,
    args: &ActArgs,
    scope: Scope,
    live: &Vec<Node>,
    cut: Option<Truncation>,
) -> (r: Result<Target, Refusal>)
    ensures
        granted(store.held(), scope) < 0 ==> objecting(r) == Err::<Target, Objection>(evicted()),
        granted(store.held(), scope) >= 0 ==> {
            let shot = store.held()[granted(store.held(), scope)];
            let seen = node_views(live@);
            let select = selector_in(args.select);
            match meant(shot.nodes, seen, cut, select, args.path@) {
                Err(e) => objecting(r) == Err::<Target, Objection>(e),
                Ok(found) => r is Ok && is_target(
                    r->Ok_0,
                    scope.hwnd,
                    searched(shot.nodes, seen, select),
                    found,
                ),
            }
        },
{
    proof {
        lemma_granted(store.held(), scope);
    }
    let snapshot = match store.find(scope) {
        Some(snapshot) => snapshot,
        None => {
            return Err(
                refuse(Status::IdentityChanged, "snapshot expired or evicted; discover again"),
            );
        },
    };
    let (node, matched_by): (&Node, Option<MatchTier>) = match &args.select {
        Some(sel) => {
            let count: usize = live.len();
            let hits = find_hits(live, sel);
            proof {
                assert(node_views(live@).len() == count);
                lemma_hits_are_nodes(node_views(live@), sel@);
            }
            match pick_hit(&hits, cut) {
                Ok(hit) => (
                    &live[hit.place],
                    match &sel.name {
                        Some(_) => Some(hit.tier),
                        None => None,
                    },
                ),
                Err(e) => {
                    return Err(e);
                },
            }
        },
        None => match find_path(&snapshot.nodes, &args.path) {
            Some(i) => (&snapshot.nodes[i], None),
            None => {
                return Err(refuse(Status::NotFound, "path was not observed"));
            },
        },
    };
    Ok(
        Target {
            hwnd: scope.hwnd,
            element: node.element,
            expected: node.entity.duplicate(),
            matched_by,
        },
    )
}

/// The child that a path goes on to, or why it does not.
pub open spec fn child_at(children: Seq<u64>, index: u32) -> Result<u64, Objection> {
    if index < children.len() {
        Ok(children[index as int])
    } else {
        Err(Objection { status: Status::Error, detail: "path changed; discover again"@ })
    }
}

/// Goes one element down a path.
pub fn follow(children: &Vec<u64>, index: u32) -> (r: Result<u64, Refusal>)
    ensures
        objecting(r) == child_at(children@, index),
{
    if (index as usize) < children.len() {
        Ok(children[index as usize])
    } else {
        Err(refuse(Status::Error, "path changed; discover again"))
    }
}

/// The refusal where the window of a target is not there any more.
pub fn window_closed() -> (r: Refusal)
    ensures
        r@ == (Objection { status: Status::Error, detail: "window closed"@ }),
{
    refuse(Status::Error, "window closed")
}

/// What speaks against acting on an element that was found again. `same` says
/// whether it is the very element that was seen: a sibling that has taken its
/// place must never inherit its authority.
pub open spec fn objection(
    expected: EntityView,
    same: bool,
    current: EntityView,
    action: Seq<char>,
    stop: Option<Seq<char>>,
) -> Option<Objection> {
    if !same || current.name != expected.name || current.control_type != expected.control_type
        || current.automation_id != expected.automation_id {
        Some(
            Objection {
                status: Status::IdentityChanged,
                detail: "element changed; discover again"@,
            },
        )
    } else if !current.enabled {
        Some(Objection { status: Status::Disabled, detail: "control reports AXEnabled=false"@ })
    } else if !current.actions.contains(action) {
        Some(
            Objection {
                status: Status::PatternGone,
                detail: "action not supported; use actions returned by discover"@,
            },
        )
    } else if stop is Some {
        Some(Objection { status: Status::Stopped, detail: stop->0 })
    } else {
        None
    }
}

/// Leave to carry out one action on one element.
#[derive(Debug)]
pub struct Permit {
    action: String,
    on_window: bool,
}

impl Permit {
    /// The action.
    pub closed spec fn action(&self) -> Seq<char> {
        self.action@
    }

    /// Whether the element is a window.
    pub closed spec fn on_window(&self) -> bool {
        self.on_window
    }
}

fn has_action(actions: &Vec<String>, action: &str) -> (r: bool)
    ensures
        r == string_rows(actions@).contains(action@),
{
    let ghost rows = string_rows(actions@);
    for i in 0..actions.len()
        invariant
            rows == string_rows(actions@),
            forall|j: int| 0 <= j < i ==> rows[j] != action@,
    {
        assert(rows[i as int] == actions@[i as int]@);
        if same_text(actions[i].as_str(), action) {
            return true;
        }
    }
    false
}

/// Gives leave to act on an element that was found again, where nothing
/// speaks against it.
pub fn authorise(
    target: &Target,
    element: u64,
    current: &Entity,
    action: &str,
    stop: Option<String>,
) -> (r: Result<Permit, Refusal>)
    ensures
        match objection(
            target.seen_as(),
            element == target.element_id(),
            current@,
            action@,
            text_in(stop),
        ) {
            Some(e) => objecting(r) == Err::<Permit, Objection>(e),
            None => {
                &&& r is Ok
                &&& r->Ok_0.action() == action@
                &&& r->Ok_0.on_window() == (current.control_type@ == "window"@)
            },
        },
{
    let expected = &target.expected;
    if element != target.element || !same_text(current.name.as_str(), expected.name.as_str())
        || !same_text(current.control_type.as_str(), expected.control_type.as_str()) || !same_text(
        current.automation_id.as_str(),
        expected.automation_id.as_str(),
    ) {
        return Err(refuse(Status::IdentityChanged, "element changed; discover again"));
    }
    if !current.enabled {
        return Err(refuse(Status::Disabled, "control reports AXEnabled=false"));
    }
    if !has_action(&current.actions, action) {
        return Err(
            refuse(Status::PatternGone, "action not supported; use actions returned by discover"),
        );
    }
    if let Some(why) = stop {
        return Err(Refusal { status: Status::Stopped, detail: why });
    }
    Ok(
        Permit {
            action: action.to_string(),
            on_window: same_text(current.control_type.as_str(), "window"),
        },
    )
}

/// What has to have the focus before a key is sent.
#[derive(Debug, Clone, Copy, PartialEq, Eq, Structural)]
pub enum Focus {
    /// The element itself, after it was given the focus.
    Control,
    /// The window, which has to be the focused one of its application.
    Window,
}

/// What is to be done to an element.
#[derive(Debug)]
pub enum Dispatch {
    Press,
    Raise,
    SetValue(String),
    Expand,
    Select,
    Keys(Vec<Key>, Focus),
    Text(String, Focus),
}

/// What is said of a key sequence that cannot be sent.
pub open spec fn keys_fault(s: Seq<char>, us_layout: bool) -> Option<Seq<char>> {
    match sequence_read(s) {
        Err(f) => Some(fault_message(f)),
        Ok(cs) => if any_needs_layout(cs) && !us_layout {
            Some(prepare_message(PrepareError::Layout))
        } else if !all_native(cs) {
            Some(prepare_message(PrepareError::Unsupported))
        } else {
            None
        },
    }
}

/// What is said of an action that cannot be carried out with its value. Keys
/// and text are validated whole, before the focus moves or anything is sent.
pub open spec fn plan_fault(action: Seq<char>, value: Option<Seq<char>>, us_layout: bool) -> Option<
    Seq<char>,
> {
    if action == "click"@ || action == "toggle"@ || action == "raise"@ {
        None
    } else if action == "type"@ {
        if value is Some {
            None
        } else {
            Some("type requires value"@)
        }
    } else if action == "expand"@ || action == "select"@ {
        None
    } else if action == "key"@ || action == "type_keys"@ {
        if value is None {
            Some("keyboard action requires value"@)
        } else if action == "key"@ {
            keys_fault(value->0, us_layout)
        } else {
            match text_refusal(value->0) {
                Some(e) => Some(refusal_message(e)),
                None => None,
            }
        }
    } else {
        Some("unsupported action"@)
    }
}

/// What has to have the focus for a key to reach an element.
pub open spec fn focus_for(on_window: bool) -> Focus {
    if on_window {
        Focus::Window
    } else {
        Focus::Control
    }
}

/// Whether a dispatch carries out an action.
pub open spec fn carries_out(
    d: Dispatch,
    action: Seq<char>,
    value: Option<Seq<char>>,
    on_window: bool,
) -> bool {
    match d {
        Dispatch::Press => action == "click"@ || action == "toggle"@,
        Dispatch::Raise => action == "raise"@,
        Dispatch::SetValue(s) => action == "type"@ && value == Some(s@),
        Dispatch::Expand => action == "expand"@,
        Dispatch::Select => action == "select"@,
        Dispatch::Keys(keys, focus) => {
            &&& action == "key"@
            &&& value is Some
            &&& sequence_read(value->0) is Ok
            &&& keys@ == native_keys(sequence_read(value->0)->Ok_0)
            &&& focus == focus_for(on_window)
        },
        Dispatch::Text(s, focus) => {
            &&& action == "type_keys"@
            &&& value == Some(s@)
            &&& focus == focus_for(on_window)
        },
    }
}

impl Permit {
    /// What is to be done. `us_layout` says whether the keyboard has the
    /// layout that key codes are made for.
    pub fn plan(&self, value: Option<&str>, us_layout: bool) -> (r: Result<Dispatch, Refusal>)
        ensures
            match plan_fault(
                self.action(),
                match value {
                    Some(v) => Some(v@),
                    None => None,
                },
                us_layout,
            ) {
                Some(detail) => objecting(r) == Err::<Dispatch, Objection>(
                    Objection { status: Status::Error, detail },
                ),
                None => r is Ok && carries_out(
                    r->Ok_0,
                    self.action(),
                    match value {
                        Some(v) => Some(v@),
                        None => None,
                    },
                    self.on_window(),
                ),
            },
    {
        let action = self.action.as_str();
        let focus = if self.on_window {
            Focus::Window
        } else {
            Focus::Control
        };
        proof {
            lemma_action_names();
        }
        if same_text(action, "click") || same_text(action, "toggle") {
            return Ok(Dispatch::Press);
        }
        if same_text(action, "raise") {
            return Ok(Dispatch::Raise);
        }
        if same_text(action, "type") {
            return match value {
                Some(v) => Ok(Dispatch::SetValue(v.to_string())),
                None => Err(refuse(Status::Error, "type requires value")),
            };
        }
        if same_text(action, "expand") {
            return Ok(Dispatch::Expand);
        }
        if same_text(action, "select") {
            return Ok(Dispatch::Select);
        }
        let is_key = same_text(action, "key");
        if !is_key && !same_text(action, "type_keys") {
            return Err(refuse(Status::Error, "unsupported action"));
        }
        match value {
            None => Err(refuse(Status::Error, "keyboard action requires value")),
            Some(v) => if is_key {
                match prepare(v, us_layout) {
                    Ok(keys) => Ok(Dispatch::Keys(keys, focus)),
                    Err(e) => Err(Refusal { status: Status::Error, detail: e.message() }),
                }
            } else {
                match validate_text(v) {
                    Ok(_) => Ok(Dispatch::Text(v.to_string(), focus)),
                    Err(e) => Err(refuse(Status::Error, e.message())),
                }
            },
        }
    }
}

proof fn lemma_action_names()
    ensures
        "type"@ != "expand"@,
        "type"@ != "select"@,
        "type"@ != "key"@,
        "type"@ != "type_keys"@,
        "key"@ != "type_keys"@,
{
    reveal_strlit("type");
    reveal_strlit("expand");
    reveal_strlit("select");
    reveal_strlit("key");
    reveal_strlit("type_keys");
    assert("type"@.len() == 4 && "expand"@.len() == 6 && "select"@.len() == 6 && "key"@.len() == 3
        && "type_keys"@.len() == 9);
}

/// What is said where the focus is not where a key would have to go.
pub open spec fn focus_fault(focus: Focus) -> Seq<char> {
    match focus {
        Focus::Control => "control did not accept focus; no keyboard input sent"@,
        Focus::Window =>
            "target is not this application's focused window; no keyboard input sent"@,
    }
}

/// Confirms that the focus is where a key has to go.
pub fn confirm_focus(focus: Focus, confirmed: bool) -> (r: Result<(), Refusal>)
    ensures
        objecting(r) == if confirmed {
            Ok::<(), Objection>(())
        } else {
            Err(Objection { status: Status::Error, detail: focus_fault(focus) })
        },
{
    if confirmed {
        Ok(())
    } else {
        match focus {
            Focus::Control => Err(
                refuse(Status::Error, "control did not accept focus; no keyboard input sent"),
            ),
            Focus::Window => Err(
                refuse(
                    Status::Error,
                    "target is not this application's focused window; no keyboard input sent",
                ),
            ),
        }
    }
}

/// Checks once more, before a key is sent, that no stop was called.
pub fn check_stop(stop: Option<String>) -> (r: Result<(), Refusal>)
    ensures
        objecting(r) == match text_in(stop) {
            None => Ok::<(), Objection>(()),
            Some(why) => Err(Objection { status: Status::Error, detail: why }),
        },
{
    match stop {
        None => Ok(()),
        Some(why) => Err(Refusal { status: Status::Error, detail: why }),
    }
}

/// How the element of a request is located.
pub open spec fn located_by(args: ActArgs) -> Seq<char> {
    if args.select is Some {
        "selector"@
    } else {
        "path"@
    }
}

/// What is said of an action that was dispatched. A chord that was posted to
/// an application in the background may have been dropped, because a key
/// equivalent is matched by the active one.
pub open spec fn dispatched_message(dropped: bool) -> Seq<char> {
    let said =
        "Native action dispatched. Discover again to verify the resulting UI."@;
    if dropped {
        said
            + " The target application was not frontmost; macOS may have discarded this chord. Re-read the UI, or use type_keys, which is unaffected."@
    } else {
        said
    }
}

fn resolved_by(args: &ActArgs) -> (r: String)
    ensures
        r@ == located_by(*args),
{
    match &args.select {
        Some(_) => "selector".to_string(),
        None => "path".to_string(),
    }
}

/// The report of an action that was dispatched.
pub open spec fn dispatched_report(
    args: ActArgs,
    matched_by: Option<MatchTier>,
    target: Seq<char>,
    dropped: bool,
    next_scope: Seq<char>,
) -> ActView {
    ActView {
        ok: true,
        action: args.action@,
        status: "ok"@,
        resolved_by: located_by(args),
        matched_by,
        next_scope: Some(next_scope),
        screen_changed: None,
        target,
        detail: Some(dispatched_message(dropped)),
    }
}

/// The report of an action that was refused.
pub open spec fn refused_report(
    args: ActArgs,
    matched_by: Option<MatchTier>,
    target: Seq<char>,
    why: Objection,
) -> ActView {
    ActView {
        ok: false,
        action: args.action@,
        status: status_name(why.status),
        resolved_by: located_by(args),
        matched_by,
        next_scope: None,
        screen_changed: None,
        target,
        detail: Some(why.detail),
    }
}

/// Reports an action that was dispatched. `next_scope` is the signed text of
/// the scope under which what was seen is now kept, and `frontmost` says
/// whether the application was the active one when it was sent.
pub fn dispatched(
    args: &ActArgs,
    target: &Target,
    current: &Entity,
    dispatch: &Dispatch,
    frontmost: bool,
    next_scope: String,
) -> (r: ActResult)
    ensures
        r@ == dispatched_report(
            *args,
            target.tier(),
            current.name@,
            dispatch is Keys && !frontmost,
            next_scope@,
        ),
{
    let mut detail = String::new();
    detail.append("Native action dispatched. Discover again to verify the resulting UI.");
    let keys = matches!(dispatch, Dispatch::Keys(_, _));
    if keys && !frontmost {
        detail.append(
            " The target application was not frontmost; macOS may have discarded this chord. Re-read the UI, or use type_keys, which is unaffected.",
        );
    }
    assert(detail@ =~= dispatched_message(dispatch is Keys && !frontmost));
    ActResult {
        ok: true,
        action: args.action.clone(),
        status: "ok".to_string(),
        resolved_by: resolved_by(args),
        matched_by: target.matched_by,
        next_scope: Some(next_scope),
        screen_changed: None,
        target: current.name.clone(),
        detail: Some(detail),
    }
}

/// Reports an action that was refused. `matched_by` and `target` tell what was
/// known of the element by then.
pub fn refused(
    args: &ActArgs,
    matched_by: Option<MatchTier>,
    target: &str,
    refusal: &Refusal,
) -> (r: ActResult)
    ensures
        r@ == refused_report(*args, matched_by, target@, refusal@),
{
    ActResult {
        ok: false,
        action: args.action.clone(),
        status: refusal.status.name().to_string(),
        resolved_by: resolved_by(args),
        matched_by,
        next_scope: None,
        screen_changed: None,
        target: target.to_string(),
        detail: Some(refusal.detail.clone()),
    }
}

/// Leave is given exactly where the element is the very one that was seen and
/// still what it was, is enabled, offers the action, and no stop was called.
pub proof fn law_leave_takes_everything(
    expected: EntityView,
    same: bool,
    current: EntityView,
    action: Seq<char>,
    stop: Option<Seq<char>>,
)
    ensures
        objection(expected, same, current, action, stop) is None <==> {
            &&& same
            &&& current.name == expected.name
            &&& current.control_type == expected.control_type
            &&& current.automation_id == expected.automation_id
            &&& current.enabled
            &&& current.actions.contains(action)
            &&& stop is None
        },
{
}

/// Once a stop was called nothing more is found or given leave to, and where
/// nothing else is wrong the answer says so.
pub proof fn law_stop_bars_everything(
    held: Seq<Shot>,
    trusted: bool,
    why: Seq<char>,
    scope: Result<Scope, Seq<char>>,
    expected: EntityView,
    same: bool,
    current: EntityView,
    action: Seq<char>,
)
    ensures
        barred(held, trusted, Some(why), scope) is Some,
        trusted ==> barred(held, trusted, Some(why), scope) == Some(
            Objection { status: Status::Stopped, detail: why },
        ),
        objection(expected, same, current, action, Some(why)) is Some,
        objection(expected, same, current, action, None) is None ==> objection(
            expected,
            same,
            current,
            action,
            Some(why),
        ) == Some(Objection { status: Status::Stopped, detail: why }),
{
}

/// A report carries a fresh scope exactly where the action was carried out,
/// and only then does its status read "ok".
pub proof fn law_fresh_scope_on_success_alone(
    args: ActArgs,
    matched_by: Option<MatchTier>,
    target: Seq<char>,
    dropped: bool,
    next_scope: Seq<char>,
    why: Objection,
)
    ensures
        ({
            let done = dispatched_report(args, matched_by, target, dropped, next_scope);
            let not = refused_report(args, matched_by, target, why);
            &&& done.ok && done.status == "ok"@ && done.next_scope == Some(next_scope)
            &&& !not.ok && not.status != "ok"@ && not.next_scope is None
        }),
{
    law_no_refusal_reads_ok(why.status);
}

/// A refusal is never reported as a success.
pub proof fn law_no_refusal_reads_ok(s: Status)
    ensures
        status_name(s) != "ok"@,
{
    reveal_strlit("ok");
    reveal_strlit("identity_changed");
    reveal_strlit("disabled");
    reveal_strlit("pattern_gone");
    reveal_strlit("not_found");
    reveal_strlit("ambiguous");
    reveal_strlit("error");
    reveal_strlit("stopped");
    assert("ok"@.len() == 2);
    assert(status_name(s).len() > 2);
}

proof fn lemma_place_of_path(nodes: Seq<NodeView>, path: Seq<u32>)
    ensures
        -1 <= place_of_path(nodes, path) < nodes.len(),
        place_of_path(nodes, path) >= 0 ==> nodes[place_of_path(nodes, path)].entity.path == path,
        place_of_path(nodes, path) < 0 ==> forall|i: int|
            0 <= i < nodes.len() ==> (#[trigger] nodes[i]).entity.path != path,
    decreases nodes.len(),
{
    if nodes.len() > 0 {
        let init = nodes.drop_last();
        lemma_place_of_path(init, path);
        if place_of_path(nodes, path) < 0 {
            assert forall|i: int| 0 <= i < nodes.len() implies (#[trigger] nodes[i]).entity.path
                != path by {
                if i < init.len() {
                    assert(init[i] == nodes[i]);
                }
            }
        }
    }
}

/// The scope of a snapshot that is kept and the path of one of its entities
/// lead back to that very entity, where no two of them have one path.
pub proof fn law_scope_and_path_lead_back(
    held: Seq<Shot>,
    last: u64,
    scope: Scope,
    k: int,
    i: int,
    live: Seq<NodeView>,
    cut: Option<Truncation>,
)
    requires
        is_store(held, last),
        0 <= k < held.len(),
        held[k].generation == scope.generation,
        held[k].hwnd == scope.hwnd,
        0 <= i < held[k].nodes.len(),
        forall|a: int, b: int|
            #![trigger held[k].nodes[a], held[k].nodes[b]]
            0 <= a < b < held[k].nodes.len() ==> held[k].nodes[a].entity.path
                != held[k].nodes[b].entity.path,
    ensures
        barred(held, true, None, Ok(scope)) is None,
        granted(held, scope) == k,
        meant(held[k].nodes, live, cut, None, held[k].nodes[i].entity.path) == Ok::<
            (int, Option<MatchTier>),
            Objection,
        >((i, None)),
{
    law_scope_finds_its_snapshot(held, last, scope, k);
    let nodes = held[k].nodes;
    let path = nodes[i].entity.path;
    lemma_place_of_path(nodes, path);
    let j = place_of_path(nodes, path);
    if j < i {
        assert(j < 0 || nodes[j].entity.path != nodes[i].entity.path);
    } else if i < j {
        assert(nodes[i].entity.path != nodes[j].entity.path);
    }
}

/// After an action every path still means the element that it meant before:
/// the fresh scope opens the same window, and in it each path leads to the
/// same node, or to none where it led to none.
pub proof fn law_paths_outlast_an_action(
    held: Seq<Shot>,
    last: u64,
    scope: Scope,
    now: u64,
    ttl_secs: u64,
    path: Seq<u32>,
    live: Seq<NodeView>,
    cut: Option<Truncation>,
)
    requires
        granted(held, scope) >= 0,
    ensures
        ({
            let fresh = scope_after(last, scope.hwnd, now, ttl_secs);
            let after = renewed(held, scope, now, fresh);
            let then = held[granted(held, scope)].nodes;
            let there = after[granted(after, fresh)].nodes;
            &&& barred(after, true, None, Ok(fresh)) is None
            &&& fresh.hwnd == scope.hwnd
            &&& searched(there, live, None) == searched(then, live, None)
            &&& meant(there, live, cut, None, path) == meant(then, live, cut, None, path)
        }),
{
    let fresh = scope_after(last, scope.hwnd, now, ttl_secs);
    let after = renewed(held, scope, now, fresh);
    assert(granted(after, fresh) == after.len() - 1);
}

/// A selector that one element of the window meets more closely than every
/// other leads to that element, however many others meet it more loosely,
/// and whatever was seen before.
pub proof fn law_closest_entity_is_meant(
    nodes: Seq<NodeView>,
    live: Seq<NodeView>,
    cut: Option<Truncation>,
    sel: SelectorView,
    path: Seq<u32>,
    h: int,
)
    requires
        0 <= h < hits_in(live, sel).len(),
        forall|j: int|
            0 <= j < hits_in(live, sel).len() && j != h ==> tier_rank(hits_in(live, sel)[h].tier)
                < tier_rank((#[trigger] hits_in(live, sel)[j]).tier),
    ensures
        meant(nodes, live, cut, Some(sel), path) == Ok::<(int, Option<MatchTier>), Objection>(
            (hits_in(live, sel)[h].place as int, name_tier(sel, hits_in(live, sel)[h].tier)),
        ),
{
    law_closest_hit_is_kept(hits_in(live, sel), h);
}

proof fn lemma_only_hit(nodes: Seq<NodeView>, sel: SelectorView, i: int)
    requires
        nodes.len() <= usize::MAX,
        0 <= i < nodes.len(),
        selection(nodes[i].entity, sel) is Some,
        forall|j: int|
            0 <= j < nodes.len() && j != i ==> selection((#[trigger] nodes[j]).entity, sel) is None,
    ensures
        hits_in(nodes, sel) == seq![
            Hit { place: i as usize, tier: selection(nodes[i].entity, sel)->0 },
        ],
    decreases nodes.len(),
{
    let init = nodes.drop_last();
    if i == nodes.len() - 1 {
        assert forall|j: int| 0 <= j < init.len() implies selection(
            (#[trigger] init[j]).entity,
            sel,
        ) is None by {
            assert(init[j] == nodes[j]);
        }
        lemma_no_hit(init, sel);
    } else {
        assert(nodes.last() == nodes[nodes.len() - 1]);
        assert(init[i] == nodes[i]);
        assert forall|j: int| 0 <= j < init.len() && j != i implies selection(
            (#[trigger] init[j]).entity,
            sel,
        ) is None by {
            assert(init[j] == nodes[j]);
        }
        lemma_only_hit(init, sel, i);
    }
}

proof fn lemma_no_hit(nodes: Seq<NodeView>, sel: SelectorView)
    requires
        forall|j: int|
            0 <= j < nodes.len() ==> selection((#[trigger] nodes[j]).entity, sel) is None,
    ensures
        hits_in(nodes, sel) == Seq::<Hit>::empty(),
    decreases nodes.len(),
{
    if nodes.len() > 0 {
        let init = nodes.drop_last();
        assert forall|j: int| 0 <= j < init.len() implies selection(
            (#[trigger] init[j]).entity,
            sel,
        ) is None by {
            assert(init[j] == nodes[j]);
        }
        lemma_no_hit(init, sel);
        assert(nodes.last() == nodes[nodes.len() - 1]);
    }
}

/// A selector survives a reshape of the window: the one element that meets it
/// now is the one that is meant, wherever it sits and whatever was seen when
/// the scope was given.
pub proof fn law_selector_survives_a_reshape(
    nodes: Seq<NodeView>,
    live: Seq<NodeView>,
    cut: Option<Truncation>,
    sel: SelectorView,
    path: Seq<u32>,
    i: int,
)
    requires
        live.len() <= usize::MAX,
        0 <= i < live.len(),
        selection(live[i].entity, sel) is Some,
        forall|j: int|
            0 <= j < live.len() && j != i ==> selection((#[trigger] live[j]).entity, sel) is None,
    ensures
        meant(nodes, live, cut, Some(sel), path) == Ok::<(int, Option<MatchTier>), Objection>(
            (i, name_tier(sel, selection(live[i].entity, sel)->0)),
        ),
{
    lemma_only_hit(live, sel, i);
    law_closest_entity_is_meant(nodes, live, cut, sel, path, 0);
}

proof fn lemma_hit_of(nodes: Seq<NodeView>, sel: SelectorView, i: int)
    requires
        0 <= i < nodes.len(),
        selection(nodes[i].entity, sel) is Some,
    ensures
        hits_in(nodes, sel).len() > 0,
    decreases nodes.len(),
{
    if i < nodes.len() - 1 {
        assert(nodes.drop_last()[i] == nodes[i]);
        lemma_hit_of(nodes.drop_last(), sel, i);
    }
}

/// An element that a selector names is reported missing exactly where nothing
/// in the window meets the selector and nothing was left unexamined. Where
/// nothing met it and a part was left, the lookup has failed and says nothing
/// of the element.
pub proof fn law_missing_means_not_there(
    nodes: Seq<NodeView>,
    live: Seq<NodeView>,
    cut: Option<Truncation>,
    sel: SelectorView,
    path: Seq<u32>,
)
    ensures
        ({
            let r = meant(nodes, live, cut, Some(sel), path);
            let none = forall|j: int|
                0 <= j < live.len() ==> selection((#[trigger] live[j]).entity, sel) is None;
            &&& (r is Err && r->Err_0.status == Status::NotFound) == (none && cut is None)
            &&& none && cut is Some ==> r is Err && r->Err_0.status == Status::Error
        }),
{
    law_best_is_not_lost(hits_in(live, sel));
    if forall|j: int|
        0 <= j < live.len() ==> selection((#[trigger] live[j]).entity, sel) is None {
        lemma_no_hit(live, sel);
    } else {
        let j = choose|j: int|
            0 <= j < live.len() && selection((#[trigger] live[j]).entity, sel) is Some;
        lemma_hit_of(live, sel, j);
    }
}

/// An element is looked for exactly where the process is trusted, no stop was
/// called, the authorisation holds, and a snapshot of its window under its
/// number is kept.
pub proof fn law_search_takes_a_valid_scope(
    held: Seq<Shot>,
    trusted: bool,
    stop: Option<Seq<char>>,
    scope: Result<Scope, Seq<char>>,
)
    ensures
        barred(held, trusted, stop, scope) is None <==> {
            &&& trusted
            &&& stop is None
            &&& scope is Ok
            &&& exists|k: int|
                0 <= k < held.len() && (#[trigger] held[k]).generation == scope->Ok_0.generation
                    && held[k].hwnd == scope->Ok_0.hwnd
        },
{
    if scope is Ok {
        lemma_granted(held, scope->Ok_0);
        let k = granted(held, scope->Ok_0);
        if k >= 0 {
            assert(held[k].generation == scope->Ok_0.generation);
        }
    }
}

/// A scope that has expired opens nothing, even where what was seen under it
/// is still kept; until then it opens what is kept under it.
pub proof fn law_scope_opens_until_it_expires(
    held: Seq<Shot>,
    scope: Scope,
    key: Seq<u8>,
    now: u64,
)
    ensures
        now > scope.exp ==> barred(
            held,
            true,
            None,
            lease_read(signed_text(key, scope), key, now),
        ) == Some(
            Objection {
                status: Status::IdentityChanged,
                detail: "scope expired; discover again"@,
            },
        ),
        now <= scope.exp && granted(held, scope) >= 0 ==> barred(
            held,
            true,
            None,
            lease_read(signed_text(key, scope), key, now),
        ) is None,
{
    law_signed_scope_reads_back(scope, key, now);
}

proof fn lemma_actions_differ()
    ensures
        "click"@.len() == 5 && "click"@[0] == 'c',
        "toggle"@.len() == 6 && "toggle"@[0] == 't',
        "raise"@.len() == 5 && "raise"@[0] == 'r',
        "type"@.len() == 4,
        "expand"@.len() == 6 && "expand"@[0] == 'e',
        "select"@.len() == 6 && "select"@[0] == 's',
        "key"@.len() == 3,
        "type_keys"@.len() == 9,
{
    reveal_strlit("click");
    reveal_strlit("toggle");
    reveal_strlit("raise");
    reveal_strlit("type");
    reveal_strlit("expand");
    reveal_strlit("select");
    reveal_strlit("key");
    reveal_strlit("type_keys");
}

/// Each action is carried out in its own way and no other: a click and a
/// toggle by a press, the others as they are named; what is typed or sent is
/// the value; and a key goes to the window exactly where the element is one,
/// to the control elsewhere.
pub proof fn law_each_action_is_carried_out_its_way(
    d: Dispatch,
    action: Seq<char>,
    value: Option<Seq<char>>,
    on_window: bool,
)
    requires
        carries_out(d, action, value, on_window),
    ensures
        d is Press <==> action == "click"@ || action == "toggle"@,
        d is Raise <==> action == "raise"@,
        d is SetValue <==> action == "type"@,
        d is Expand <==> action == "expand"@,
        d is Select <==> action == "select"@,
        d is Keys <==> action == "key"@,
        d is Text <==> action == "type_keys"@,
        d matches Dispatch::SetValue(s) ==> value == Some(s@),
        d matches Dispatch::Text(s, focus) ==> value == Some(s@) && (focus == Focus::Window
            <==> on_window),
        d matches Dispatch::Keys(keys, focus) ==> {
            &&& value is Some
            &&& sequence_read(value->0) is Ok
            &&& keys@ == native_keys(sequence_read(value->0)->Ok_0)
            &&& focus == Focus::Window <==> on_window
        },
{
    lemma_actions_differ();
}

/// What can be planned: an action that has no value always; typing, keys and
/// text only with a value; keys only where the whole sequence reads, every key
/// of it has a native code and none depends on a layout that is not there;
/// text only where there is some, not too long and without a NUL; nothing
/// else.
pub proof fn law_what_can_be_planned(
    action: Seq<char>,
    value: Option<Seq<char>>,
    us_layout: bool,
)
    ensures
        ({
            let fault = plan_fault(action, value, us_layout);
            let bare = action == "click"@ || action == "toggle"@ || action == "raise"@ || action
                == "expand"@ || action == "select"@;
            &&& bare ==> fault is None
            &&& action == "type"@ ==> (fault is None <==> value is Some)
            &&& action == "type"@ && value is None ==> fault == Some("type requires value"@)
            &&& action == "key"@ || action == "type_keys"@ ==> (value is None ==> fault == Some(
                "keyboard action requires value"@,
            ))
            &&& action == "key"@ && value is Some ==> (fault is None <==> {
                &&& sequence_read(value->0) is Ok
                &&& us_layout || !any_needs_layout(sequence_read(value->0)->Ok_0)
                &&& all_native(sequence_read(value->0)->Ok_0)
            })
            &&& action == "type_keys"@ && value is Some ==> (fault is None <==> value->0.len() > 0
                && units_of(value->0).len() <= 2048 && free_of(value->0, '\0'))
            &&& !bare && action != "type"@ && action != "key"@ && action != "type_keys"@ ==> fault
                == Some("unsupported action"@)
        }),
{
    lemma_actions_differ();
    if value is Some {
        law_text_that_can_be_sent(value->0);
    }
}

/// A path leads to the first node that has it, and to none exactly where no
/// node has it.
pub proof fn law_path_leads_to_the_first_node(nodes: Seq<NodeView>, path: Seq<u32>)
    ensures
        ({
            let at = place_of_path(nodes, path);
            &&& at < 0 <==> forall|i: int|
                0 <= i < nodes.len() ==> (#[trigger] nodes[i]).entity.path != path
            &&& at >= 0 ==> at < nodes.len() && nodes[at].entity.path == path
            &&& forall|i: int| 0 <= i < at ==> (#[trigger] nodes[i]).entity.path != path
        }),
    decreases nodes.len(),
{
    lemma_place_of_path(nodes, path);
    if nodes.len() > 0 {
        let init = nodes.drop_last();
        law_path_leads_to_the_first_node(init, path);
        let at = place_of_path(nodes, path);
        assert forall|i: int| 0 <= i < at implies (#[trigger] nodes[i]).entity.path != path by {
            assert(init[i] == nodes[i]);
        }
    }
}

/// The hits of a selector are the nodes that meet it, each once, in order,
/// with its place and the tier at which it meets the selector.
pub proof fn law_hits_are_the_nodes_that_match(nodes: Seq<NodeView>, sel: SelectorView, i: int)
    requires
        nodes.len() <= usize::MAX,
    ensures
        ({
            let hits = hits_in(nodes, sel);
            &&& forall|h: int|
                0 <= h < hits.len() ==> {
                    &&& (#[trigger] hits[h]).place < nodes.len()
                    &&& selection(nodes[hits[h].place as int].entity, sel) == Some(hits[h].tier)
                }
            &&& forall|h: int, k: int|
                #![trigger hits[h], hits[k]]
                0 <= h < k < hits.len() ==> hits[h].place < hits[k].place
            &&& 0 <= i < nodes.len() && selection(nodes[i].entity, sel) is Some ==> exists|h: int|
                0 <= h < hits.len() && (#[trigger] hits[h]).place == i
        }),
    decreases nodes.len(),
{
    if nodes.len() > 0 {
        let init = nodes.drop_last();
        let before = hits_in(init, sel);
        let hits = hits_in(nodes, sel);
        law_hits_are_the_nodes_that_match(init, sel, i);
        assert forall|h: int| 0 <= h < hits.len() implies (#[trigger] hits[h]).place < nodes.len()
            && selection(nodes[hits[h].place as int].entity, sel) == Some(hits[h].tier) by {
            if h < before.len() {
                assert(hits[h] == before[h]);
                assert(init[before[h].place as int] == nodes[before[h].place as int]);
            }
        }
        assert forall|h: int, k: int|
            #![trigger hits[h], hits[k]]
            0 <= h < k < hits.len() implies hits[h].place < hits[k].place by {
            assert(hits[h] == before[h]);
            if k < before.len() {
                assert(hits[k] == before[k]);
            }
        }
        if 0 <= i < nodes.len() && selection(nodes[i].entity, sel) is Some {
            if i < init.len() {
                assert(init[i] == nodes[i]);
                let h = choose|h: int| 0 <= h < before.len() && (#[trigger] before[h]).place == i;
                assert(hits[h] == before[h]);
            } else {
                assert(hits[hits.len() - 1].place == i);
            }
        }
    }
}

/// A selector leads to an element exactly where the closest tier has one hit,
/// and is ambiguous exactly where it has more; a path leads to the node that
/// was seen under it. The tier is told exactly where a name was asked for.
pub proof fn law_one_closest_hit_is_meant(
    nodes: Seq<NodeView>,
    live: Seq<NodeView>,
    cut: Option<Truncation>,
    sel: SelectorView,
    path: Seq<u32>,
)
    ensures
        ({
            let best = best_hits(hits_in(live, sel));
            let r = meant(nodes, live, cut, Some(sel), path);
            let by_path = meant(nodes, live, cut, None, path);
            &&& r is Ok <==> best.len() == 1
            &&& r is Ok && sel.name is Some ==> r->Ok_0 == (best[0].place as int, Some(best[0].tier))
            &&& r is Ok && sel.name is None ==> r->Ok_0 == (
                best[0].place as int,
                None::<MatchTier>,
            )
            &&& (r is Err && r->Err_0.status == Status::Ambiguous) <==> best.len() >= 2
            &&& searched(nodes, live, Some(sel)) == live && searched(nodes, live, None) == nodes
            &&& by_path is Ok <==> exists|i: int|
                0 <= i < nodes.len() && (#[trigger] nodes[i]).entity.path == path
            &&& by_path is Ok ==> 0 <= by_path->Ok_0.0 < nodes.len()
                && nodes[by_path->Ok_0.0].entity.path == path && by_path->Ok_0.1 is None
            &&& by_path is Err ==> by_path->Err_0 == (Objection {
                status: Status::NotFound,
                detail: "path was not observed"@,
            })
        }),
{
    law_path_leads_to_the_first_node(nodes, path);
}

/// What bars a search: first that the process is not trusted, then a stop,
/// then what is wrong with the authorisation, then that its snapshot is gone.
pub proof fn law_first_bar_is_told(
    held: Seq<Shot>,
    trusted: bool,
    stop: Option<Seq<char>>,
    scope: Result<Scope, Seq<char>>,
)
    ensures
        ({
            let bar = barred(held, trusted, stop, scope);
            &&& !trusted ==> bar == Some(
                Objection { status: Status::Error, detail: "Accessibility permission missing"@ },
            )
            &&& trusted && stop is Some ==> bar == Some(
                Objection { status: Status::Stopped, detail: stop->0 },
            )
            &&& trusted && stop is None && scope is Err ==> bar == Some(
                Objection { status: Status::IdentityChanged, detail: scope->Err_0 },
            )
            &&& trusted && stop is None && scope is Ok ==> (bar is Some <==> forall|k: int|
                0 <= k < held.len() ==> (#[trigger] held[k]).generation != scope->Ok_0.generation
                    || held[k].hwnd != scope->Ok_0.hwnd)
            &&& trusted && stop is None && scope is Ok && bar is Some ==> bar->0.status
                == Status::IdentityChanged
        }),
{
    law_search_takes_a_valid_scope(held, trusted, stop, scope);
}

/// What speaks against an action: first that the element is not the one that
/// was seen or no longer says the same of itself, then that it is disabled,
/// then that it does not offer the action, then a stop.
pub proof fn law_first_objection_is_told(
    expected: EntityView,
    same: bool,
    current: EntityView,
    action: Seq<char>,
    stop: Option<Seq<char>>,
)
    ensures
        ({
            let o = objection(expected, same, current, action, stop);
            let changed = !same || current.name != expected.name || current.control_type
                != expected.control_type || current.automation_id != expected.automation_id;
            let offers = exists|i: int|
                0 <= i < current.actions.len() && #[trigger] current.actions[i] == action;
            &&& (o is Some && o->0.status == Status::IdentityChanged) <==> changed
            &&& (o is Some && o->0.status == Status::Disabled) <==> !changed && !current.enabled
            &&& (o is Some && o->0.status == Status::PatternGone) <==> !changed && current.enabled
                && !offers
            &&& (o is Some && o->0.status == Status::Stopped) <==> !changed && current.enabled
                && offers && stop is Some
            &&& o is Some && o->0.status == Status::Stopped ==> o->0.detail == stop->0
        }),
{
    if current.actions.contains(action) {
        let i = choose|i: int| 0 <= i < current.actions.len() && current.actions[i] == action;
        assert(current.actions[i] == action);
    }
}

/// A path goes on to the child with the index, and fails exactly where there
/// are not so many children.
pub proof fn law_path_goes_on_to_the_child(children: Seq<u64>, index: u32)
    ensures
        child_at(children, index) is Ok <==> index < children.len(),
        child_at(children, index) matches Ok(e) ==> e == children[index as int],
        child_at(children, index) matches Err(o) ==> o.status == Status::Error,
{
}

/// The statuses by name.
pub proof fn law_status_names()
    ensures
        status_name(Status::IdentityChanged) == "identity_changed"@,
        status_name(Status::Disabled) == "disabled"@,
        status_name(Status::PatternGone) == "pattern_gone"@,
        status_name(Status::NotFound) == "not_found"@,
        status_name(Status::Ambiguous) == "ambiguous"@,
        status_name(Status::Error) == "error"@,
        status_name(Status::Stopped) == "stopped"@,
{
}

/// A report names the action that was asked for, says that it went by the
/// selector exactly where one was given, and carries over how closely the name
/// matched, the name of the target and, for a refusal, what was objected. Of
/// what was dispatched it warns exactly where a chord may have been dropped.
pub proof fn law_report_tells_of_the_request(
    args: ActArgs,
    matched_by: Option<MatchTier>,
    target: Seq<char>,
    dropped: bool,
    next_scope: Seq<char>,
    why: Objection,
)
    ensures
        ({
            let done = dispatched_report(args, matched_by, target, dropped, next_scope);
            let not = refused_report(args, matched_by, target, why);
            &&& done.action == args.action@ && not.action == args.action@
            &&& args.select is Some ==> done.resolved_by == "selector"@ && not.resolved_by
                == "selector"@
            &&& args.select is None ==> done.resolved_by == "path"@ && not.resolved_by == "path"@
            &&& done.matched_by == matched_by && not.matched_by == matched_by
            &&& done.target == target && not.target == target
            &&& not.detail == Some(why.detail) && not.status == status_name(why.status)
            &&& done.detail is Some && (dropped <==> done.detail->0.len()
                > dispatched_message(false).len())
            &&& done.detail->0.take(dispatched_message(false).len() as int) == dispatched_message(
                false,
            )
            &&& done.screen_changed is None && not.screen_changed is None
        }),
{
    let said = "Native action dispatched. Discover again to verify the resulting UI."@;
    let more =
        " The target application was not frontmost; macOS may have discarded this chord. Re-read the UI, or use type_keys, which is unaffected."@;
    reveal_strlit(
        " The target application was not frontmost; macOS may have discarded this chord. Re-read the UI, or use type_keys, which is unaffected.",
    );
    assert(more.len() > 0);
    assert((said + more).take(said.len() as int) =~= said);
    assert(said.take(said.len() as int) =~= said);
}

/// A report and its view agree in every field, and so do a refusal and its
/// view; a result over views is the same result.
pub proof fn law_report_is_what_it_says<T>(
    a: ActResult,
    e: Refusal,
    r: Result<T, Refusal>,
    sel: Option<Selector>,
)
    ensures
        a@.ok == a.ok,
        a@.action == a.action@,
        a@.status == a.status@,
        a@.resolved_by == a.resolved_by@,
        a@.matched_by == a.matched_by,
        a@.screen_changed == a.screen_changed,
        a@.target == a.target@,
        a@.next_scope is Some <==> a.next_scope is Some,
        a.next_scope matches Some(s) ==> a@.next_scope == Some(s@),
        a@.detail is Some <==> a.detail is Some,
        a.detail matches Some(s) ==> a@.detail == Some(s@),
        e@.status == e.status && e@.detail == e.detail@,
        r matches Ok(t) ==> objecting(r) == Ok::<T, Objection>(t),
        r matches Err(x) ==> objecting(r) == Err::<T, Objection>(x@),
        sel matches Some(s) ==> selector_in(sel) == Some(s@),
        sel is None ==> selector_in(sel) is None,
{
}

/// A target is the node that was found: its element, what was seen of it, the
/// window that it is in and the tier at which its name matched.
pub proof fn law_target_is_the_node(
    t: Target,
    hwnd: isize,
    nodes: Seq<NodeView>,
    found: (int, Option<MatchTier>),
)
    requires
        is_target(t, hwnd, nodes, found),
    ensures
        t.window_id() == hwnd,
        0 <= found.0 < nodes.len(),
        t.element_id() == nodes[found.0].element,
        t.seen_as() == nodes[found.0].entity,
        t.tier() == found.1,
{
}

/// What is said where a selector does not lead to one element tells how many
/// it led to; where the lookup was cut short, what cut it.
pub proof fn law_lookup_tells_its_numbers(n: nat, t: Truncation)
    ensures
        begins_with(hits_message(n), "selector resolved "@ + decimal(n) + " elements"@),
        begins_with(cut_message(t), "lookup was cut short: "@ + truncation_message(t)),
{
    reveal_strlit(" elements");
    reveal_strlit(" elements; discover again or narrow it");
    let a = "selector resolved "@ + decimal(n) + " elements"@;
    assert(hits_message(n).take(a.len() as int) =~= a);
    assert(cut_message(t).take(cut_message(t).len() as int) =~= cut_message(t));
}

} // verus!
