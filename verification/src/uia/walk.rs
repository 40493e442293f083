//! Walking the elements of a window, within a budget.
//!
//! The walk decides which element comes next and when to stop. Reading an
//! element, and telling the time, is left to the caller.

use vstd::prelude::*;
use vstd::string::*;

use crate::strings::write_decimal;
#[allow(unused_imports)]
use crate::strings::{begins_with, decimal};
use crate::uia::entity::{copy_path, entity, Entity, Probe};
#[allow(unused_imports)]
use crate::uia::entity::{entity_of, has_centre, EntityView};
use crate::uia::select::Filter;

verus! {

/// The most elements that one walk examines.
pub const MAX_ELEMENTS: usize = 2000;

/// The deepest level that a walk goes down to.
pub const MAX_DEPTH: u32 = 64;

/// How long one walk may take, in milliseconds. An unresponsive application
/// must not hold everyone else up for longer than this.
pub const WALK_BUDGET_MS: u64 = 5000;

/// What to look for in a window.
#[derive(Debug)]
pub struct DiscoverArgs {
    pub hwnd: Option<isize>,
    pub max_depth: u32,
    pub max_elements: usize,
    pub ttl_secs: u64,
    pub filter: Filter,
    pub verbose: bool,
}

/// An element that was examined.
#[derive(Debug)]
pub struct Node {
    pub element: u64,
    pub entity: Entity,
}

/// A [`Node`] with the characters of its strings.
pub struct NodeView {
    pub element: u64,
    pub entity: EntityView,
}

impl View for Node {
    type V = NodeView;

    open spec fn view(&self) -> NodeView {
        NodeView { element: self.element, entity: self.entity@ }
    }
}

/// The nodes of a list with the characters of their strings.
pub open spec fn node_views(v: Seq<Node>) -> Seq<NodeView> {
    Seq::new(v.len(), |i: int| v[i]@)
}

/// An element that is still to be examined, and where it is.
#[derive(Debug)]
pub struct Step {
    pub element: u64,
    pub path: Vec<u32>,
}

/// A [`Step`] with the numbers of its path.
pub struct Place {
    pub element: u64,
    pub path: Seq<u32>,
}

impl View for Step {
    type V = Place;

    open spec fn view(&self) -> Place {
        Place { element: self.element, path: self.path@ }
    }
}

/// The steps of a list with the numbers of their paths.
pub open spec fn places(v: Seq<Step>) -> Seq<Place> {
    Seq::new(v.len(), |i: int| v[i]@)
}

/// Which limit cut a walk short, and how much is left behind. A caller that
/// is only told "truncated" cannot tell a small window from a cut one.
#[derive(Debug, Clone, Copy, PartialEq, Eq, Structural)]
pub enum Truncation {
    Elements { cap: usize, examined: usize, left: usize },
    Time { examined: usize, left: usize },
    Depth { max: u32 },
}

/// The words for what is left behind.
pub open spec fn left_behind(examined: usize, left: usize) -> Seq<char> {
    " reached; examined "@ + decimal(examined as nat) + ", at least "@ + decimal(left as nat)
        + " not visited"@
}

/// What is said of a walk that was cut short.
pub open spec fn truncation_message(t: Truncation) -> Seq<char> {
    match t {
        Truncation::Elements { cap, examined, left } => "element cap "@ + decimal(cap as nat)
            + left_behind(examined, left),
        Truncation::Time { examined, left } => "time budget "@ + decimal(WALK_BUDGET_MS as nat)
            + "ms"@ + left_behind(examined, left),
        Truncation::Depth { max } => "depth cap "@ + decimal(max as nat) + " reached"@,
    }
}

fn add_left_behind(out: &mut String, examined: usize, left: usize)
    ensures
        final(out)@ == old(out)@ + left_behind(examined, left),
{
    let ghost before = out@;
    out.append(" reached; examined ");
    out.append(write_decimal(examined as u64).as_str());
    out.append(", at least ");
    out.append(write_decimal(left as u64).as_str());
    out.append(" not visited");
    assert(out@ =~= before + left_behind(examined, left));
}

impl Truncation {
    /// What is said of the walk.
    pub fn message(&self) -> (r: String)
        ensures
            r@ == truncation_message(*self),
    {
        let mut out = String::new();
        match self {
            Truncation::Elements { cap, examined, left } => {
                out.append("element cap ");
                out.append(write_decimal(*cap as u64).as_str());
                add_left_behind(&mut out, *examined, *left);
            },
            Truncation::Time { examined, left } => {
                out.append("time budget ");
                out.append(write_decimal(WALK_BUDGET_MS).as_str());
                out.append("ms");
                add_left_behind(&mut out, *examined, *left);
            },
            Truncation::Depth { max } => {
                out.append("depth cap ");
                out.append(write_decimal(*max as u64).as_str());
                out.append(" reached");
            },
        }
        assert(out@ =~= truncation_message(*self));
        out
    }
}

/// A number moved into a range.
pub open spec fn clamped(n: int, low: int, high: int) -> int {
    if n < low {
        low
    } else if n > high {
        high
    } else {
        n
    }
}

/// The level at which a walk goes no deeper.
pub open spec fn depth_limit(max_depth: u32) -> int {
    if max_depth < MAX_DEPTH {
        max_depth as int
    } else {
        MAX_DEPTH as int
    }
}

/// What a walk holds.
#[verifier::ext_equal]
pub struct WalkView {
    /// The elements still to be examined, the next one last.
    pub pending: Seq<Place>,
    pub nodes: Seq<NodeView>,
    pub truncated: Option<Truncation>,
    pub cap: int,
    pub max_depth: u32,
    pub verbose: bool,
}

/// A walk over the elements of a window.
#[derive(Debug)]
pub struct Walk {
    pub pending: Vec<Step>,
    pub nodes: Vec<Node>,
    pub truncated: Option<Truncation>,
    pub cap: usize,
    pub max_depth: u32,
    pub verbose: bool,
}

impl View for Walk {
    type V = WalkView;

    open spec fn view(&self) -> WalkView {
        WalkView {
            pending: places(self.pending@),
            nodes: node_views(self.nodes@),
            truncated: self.truncated,
            cap: self.cap as int,
            max_depth: self.max_depth,
            verbose: self.verbose,
        }
    }
}

/// A walk that is about to start.
pub open spec fn fresh_walk(root: u64, max_elements: usize, max_depth: u32, verbose: bool) -> WalkView {
    WalkView {
        pending: seq![Place { element: root, path: Seq::<u32>::empty() }],
        nodes: Seq::<NodeView>::empty(),
        truncated: None,
        cap: clamped(max_elements as int, 1, MAX_ELEMENTS as int),
        max_depth,
        verbose,
    }
}

/// Why a walk with something left to examine stops before it.
pub open spec fn stopped_by(w: WalkView, late: bool) -> Option<Truncation> {
    if w.nodes.len() >= w.cap {
        Some(
            Truncation::Elements {
                cap: w.cap as usize,
                examined: w.nodes.len() as usize,
                left: w.pending.len() as usize,
            },
        )
    } else if late {
        Some(
            Truncation::Time {
                examined: w.nodes.len() as usize,
                left: w.pending.len() as usize,
            },
        )
    } else {
        None
    }
}

/// Whether a walk ends here: nothing is left, or it may not go on.
pub open spec fn is_over(w: WalkView, late: bool) -> bool {
    w.pending.len() == 0 || stopped_by(w, late) is Some
}

/// A walk that has ended, with the limit that left something unexamined.
pub open spec fn ended(w: WalkView, late: bool) -> WalkView {
    if w.pending.len() == 0 {
        w
    } else {
        WalkView { truncated: stopped_by(w, late), ..w }
    }
}

/// A walk that has taken up its next element.
pub open spec fn after_next(w: WalkView) -> WalkView {
    WalkView { pending: w.pending.drop_last(), ..w }
}

/// Whether a walk goes on to the children of an element.
pub open spec fn goes_deeper(w: WalkView, at: Place) -> bool {
    at.path.len() < depth_limit(w.max_depth)
}

/// A walk that has examined an element.
pub open spec fn after_visit(w: WalkView, at: Place, p: Probe) -> WalkView {
    WalkView {
        nodes: w.nodes.push(
            NodeView { element: at.element, entity: entity_of(p, at.path, w.verbose) },
        ),
        truncated: if goes_deeper(w, at) {
            w.truncated
        } else {
            Some(Truncation::Depth { max: w.max_depth })
        },
        ..w
    }
}

/// The children of an element, each with its place.
pub open spec fn branches(path: Seq<u32>, children: Seq<u64>) -> Seq<Place> {
    Seq::new(
        children.len(),
        |i: int| Place { element: children[i], path: path.push(i as u32) },
    )
}

/// A walk that has been told the children of an element: the first child
/// comes next.
pub open spec fn after_children(w: WalkView, at: Place, children: Seq<u64>) -> WalkView {
    WalkView { pending: w.pending + branches(at.path, children).reverse(), ..w }
}

impl Walk {
    /// A walk that starts at the element of a window.
    pub fn new(root: u64, args: &DiscoverArgs) -> (w: Walk)
        ensures
            w@ == fresh_walk(root, args.max_elements, args.max_depth, args.verbose),
    {
        let mut pending: Vec<Step> = Vec::new();
        pending.push(Step { element: root, path: Vec::new() });
        let cap: usize = if args.max_elements < 1 {
            1
        } else if args.max_elements > MAX_ELEMENTS {
            MAX_ELEMENTS
        } else {
            args.max_elements
        };
        let w = Walk {
            pending,
            nodes: Vec::new(),
            truncated: None,
            cap,
            max_depth: args.max_depth,
            verbose: args.verbose,
        };
        assert(w.pending@[0]@ == (Place { element: root, path: Seq::<u32>::empty() }));
        assert(w@ =~= fresh_walk(root, args.max_elements, args.max_depth, args.verbose));
        w
    }

    /// A walk over a window as it is now, to find an element by what it is. It
    /// goes as far as any walk may.
    pub fn live(root: u64) -> (w: Walk)
        ensures
            w@ == fresh_walk(root, MAX_ELEMENTS, MAX_DEPTH, true),
    {
        Walk::new(
            root,
            &DiscoverArgs {
                hwnd: None,
                max_depth: MAX_DEPTH,
                max_elements: MAX_ELEMENTS,
                ttl_secs: 0,
                filter: Filter::All,
                verbose: true,
            },
        )
    }

    /// The next element to examine; `None` where nothing is left, or where
    /// the walk has examined as much as it may or is out of time.
    pub fn next(&mut self, late: bool) -> (r: Option<Step>)
        ensures
            match r {
                Some(step) => {
                    &&& !is_over(old(self)@, late)
                    &&& step@ == old(self)@.pending.last()
                    &&& final(self)@ == after_next(old(self)@)
                },
                None => is_over(old(self)@, late) && final(self)@ == ended(old(self)@, late),
            },
    {
        let ghost before = self@;
        let left: usize = self.pending.len();
        let examined: usize = self.nodes.len();
        if left == 0 {
            return None;
        }
        if examined >= self.cap {
            self.truncated = Some(Truncation::Elements { cap: self.cap, examined, left });
            return None;
        }
        if late {
            self.truncated = Some(Truncation::Time { examined, left });
            return None;
        }
        let step = self.pending.pop();
        assert(self@.pending =~= before.pending.drop_last());
        step
    }

    /// Notes what an element is. Returns whether to go on to its children.
    pub fn visit(&mut self, at: &Step, probe: &Probe) -> (deeper: bool)
        requires
            probe.bounds matches Some(b) ==> has_centre(b),
        ensures
            final(self)@ == after_visit(old(self)@, at@, *probe),
            deeper == goes_deeper(old(self)@, at@),
    {
        let ghost before = self@;
        let found = entity(probe, copy_path(&at.path), self.verbose);
        self.nodes.push(Node { element: at.element, entity: found });
        assert(self@.nodes =~= after_visit(before, at@, *probe).nodes);
        let limit: u32 = if self.max_depth < MAX_DEPTH {
            self.max_depth
        } else {
            MAX_DEPTH
        };
        if at.path.len() >= limit as usize {
            self.truncated = Some(Truncation::Depth { max: self.max_depth });
            false
        } else {
            true
        }
    }

    /// Takes the children of an element, to be examined next.
    pub fn descend(&mut self, at: &Step, children: &Vec<u64>)
        requires
            children@.len() <= u32::MAX,
        ensures
            final(self)@ == after_children(old(self)@, at@, children@),
    {
        let ghost before = self@;
        let ghost all = branches(at.path@, children@);
        let ghost total = children@.len() as int;
        let mut i: usize = children.len();
        while i > 0
            invariant
                i <= children@.len() <= u32::MAX,
                total == children@.len(),
                all == branches(at.path@, children@),
                self@.pending == before.pending + all.reverse().take(total - i),
                self@.nodes == before.nodes,
                self@.truncated == before.truncated,
                self@.cap == before.cap,
                self@.max_depth == before.max_depth,
                self@.verbose == before.verbose,
            decreases i,
        {
            let ghost held = self@.pending;
            i = i - 1;
            let mut path = copy_path(&at.path);
            path.push(i as u32);
            let step = Step { element: children[i], path };
            assert(step@ == all[i as int]);
            self.pending.push(step);
            assert(self@.pending =~= held.push(all[i as int]));
            assert(all.reverse().take(total - i) =~= all.reverse().take(total - i - 1).push(
                all[i as int],
            ));
            assert(self@.pending =~= before.pending + all.reverse().take(total - i));
        }
        assert(all.reverse().take(total) =~= all.reverse());
        assert(self@ =~= after_children(before, at@, children@));
    }
}

/// The order in which a walk sees an element and what is below it, where
/// `kids` tells the children of each element.
pub open spec fn preorder(kids: spec_fn(u64) -> Seq<u64>, limit: int, at: Place, depth: int) -> Seq<
    Place,
>
    decreases limit - depth, 0nat,
{
    if depth >= limit {
        seq![at]
    } else {
        seq![at] + forest(kids, limit, branches(at.path, kids(at.element)), depth + 1)
    }
}

/// The order in which a walk sees some elements of one level in turn.
pub open spec fn forest(
    kids: spec_fn(u64) -> Seq<u64>,
    limit: int,
    steps: Seq<Place>,
    depth: int,
) -> Seq<Place>
    decreases limit - depth, steps.len(),
    when depth <= limit
{
    if steps.len() == 0 {
        Seq::<Place>::empty()
    } else {
        preorder(kids, limit, steps[0], depth) + forest(kids, limit, steps.drop_first(), depth)
    }
}

/// What a walk with these elements pending will see.
pub open spec fn outlook(kids: spec_fn(u64) -> Seq<u64>, limit: int, pending: Seq<Place>) -> Seq<
    Place,
>
    decreases pending.len(),
{
    if pending.len() == 0 {
        Seq::<Place>::empty()
    } else {
        preorder(kids, limit, pending.last(), pending.last().path.len() as int) + outlook(
            kids,
            limit,
            pending.drop_last(),
        )
    }
}

/// What a walk has seen.
pub open spec fn visited(nodes: Seq<NodeView>) -> Seq<Place> {
    Seq::new(
        nodes.len(),
        |i: int| Place { element: nodes[i].element, path: nodes[i].entity.path },
    )
}

/// A walk after one more element, where `probes` tells what each element
/// says of itself. A walk that is done or that may not go on stays as it is.
pub open spec fn after_round(
    w: WalkView,
    kids: spec_fn(u64) -> Seq<u64>,
    probes: spec_fn(u64) -> Probe,
) -> WalkView {
    if w.pending.len() == 0 || w.nodes.len() >= w.cap {
        w
    } else {
        let at = w.pending.last();
        let seen = after_visit(after_next(w), at, probes(at.element));
        if goes_deeper(w, at) {
            after_children(seen, at, kids(at.element))
        } else {
            seen
        }
    }
}

/// A walk after some more elements.
pub open spec fn after_rounds(
    w: WalkView,
    kids: spec_fn(u64) -> Seq<u64>,
    probes: spec_fn(u64) -> Probe,
    n: nat,
) -> WalkView
    decreases n,
{
    if n == 0 {
        w
    } else {
        after_round(after_rounds(w, kids, probes, (n - 1) as nat), kids, probes)
    }
}

proof fn lemma_outlook_of_level(
    kids: spec_fn(u64) -> Seq<u64>,
    limit: int,
    rest: Seq<Place>,
    steps: Seq<Place>,
    depth: int,
)
    requires
        depth <= limit,
        forall|i: int| 0 <= i < steps.len() ==> (#[trigger] steps[i]).path.len() == depth,
    ensures
        outlook(kids, limit, rest + steps.reverse()) == forest(kids, limit, steps, depth) + outlook(
            kids,
            limit,
            rest,
        ),
    decreases steps.len(),
{
    let stack = rest + steps.reverse();
    if steps.len() == 0 {
        assert(stack =~= rest);
        assert(forest(kids, limit, steps, depth) + outlook(kids, limit, rest) =~= outlook(
            kids,
            limit,
            rest,
        ));
    } else {
        let others = steps.drop_first();
        assert(stack.last() == steps[0]);
        assert(stack.drop_last() =~= rest + others.reverse());
        assert forall|i: int| 0 <= i < others.len() implies (#[trigger] others[i]).path.len()
            == depth by {
            assert(others[i] == steps[i + 1]);
        }
        lemma_outlook_of_level(kids, limit, rest, others, depth);
        assert(forest(kids, limit, steps, depth) + outlook(kids, limit, rest) =~= preorder(
            kids,
            limit,
            steps[0],
            depth,
        ) + (forest(kids, limit, others, depth) + outlook(kids, limit, rest)));
    }
}

proof fn lemma_round(w: WalkView, kids: spec_fn(u64) -> Seq<u64>, probes: spec_fn(u64) -> Probe)
    ensures
        visited(after_round(w, kids, probes).nodes) + outlook(
            kids,
            depth_limit(w.max_depth),
            after_round(w, kids, probes).pending,
        ) == visited(w.nodes) + outlook(kids, depth_limit(w.max_depth), w.pending),
        after_round(w, kids, probes).max_depth == w.max_depth,
        after_round(w, kids, probes).cap == w.cap,
{
    let limit = depth_limit(w.max_depth);
    let r = after_round(w, kids, probes);
    if w.pending.len() > 0 && w.nodes.len() < w.cap {
        let at = w.pending.last();
        let rest = w.pending.drop_last();
        let depth = at.path.len() as int;
        assert(visited(r.nodes) =~= visited(w.nodes).push(at));
        if depth < limit {
            let steps = branches(at.path, kids(at.element));
            lemma_outlook_of_level(kids, limit, rest, steps, depth + 1);
            assert(r.pending == rest + steps.reverse());
            assert(visited(w.nodes).push(at) + (forest(kids, limit, steps, depth + 1) + outlook(
                kids,
                limit,
                rest,
            )) =~= visited(w.nodes) + (preorder(kids, limit, at, depth) + outlook(
                kids,
                limit,
                rest,
            )));
        } else {
            assert(visited(w.nodes).push(at) + outlook(kids, limit, rest) =~= visited(w.nodes) + (
            seq![at] + outlook(kids, limit, rest)));
        }
    }
}

proof fn lemma_rounds(
    w: WalkView,
    kids: spec_fn(u64) -> Seq<u64>,
    probes: spec_fn(u64) -> Probe,
    n: nat,
)
    requires
        w.nodes.len() <= w.cap,
        w.truncated is None,
        forall|i: int|
            0 <= i < w.nodes.len() ==> (#[trigger] w.nodes[i]).entity.path.len() < depth_limit(
                w.max_depth,
            ),
    ensures
        visited(after_rounds(w, kids, probes, n).nodes) + outlook(
            kids,
            depth_limit(w.max_depth),
            after_rounds(w, kids, probes, n).pending,
        ) == visited(w.nodes) + outlook(kids, depth_limit(w.max_depth), w.pending),
        after_rounds(w, kids, probes, n).max_depth == w.max_depth,
        after_rounds(w, kids, probes, n).cap == w.cap,
        after_rounds(w, kids, probes, n).nodes.len() <= w.cap,
        after_rounds(w, kids, probes, n).truncated is None ==> forall|i: int|
            0 <= i < after_rounds(w, kids, probes, n).nodes.len() ==> (#[trigger] after_rounds(
                w,
                kids,
                probes,
                n,
            ).nodes[i]).entity.path.len() < depth_limit(w.max_depth),
    decreases n,
{
    if n > 0 {
        lemma_rounds(w, kids, probes, (n - 1) as nat);
        lemma_round(after_rounds(w, kids, probes, (n - 1) as nat), kids, probes);
    }
}

proof fn lemma_preorder_is_closed(
    kids: spec_fn(u64) -> Seq<u64>,
    limit: int,
    at: Place,
    i: int,
    k: int,
)
    requires
        at.path.len() <= limit,
        0 <= i < preorder(kids, limit, at, at.path.len() as int).len(),
        preorder(kids, limit, at, at.path.len() as int)[i].path.len() < limit,
        0 <= k < kids(preorder(kids, limit, at, at.path.len() as int)[i].element).len(),
    ensures
        preorder(kids, limit, at, at.path.len() as int).contains(
            branches(
                preorder(kids, limit, at, at.path.len() as int)[i].path,
                kids(preorder(kids, limit, at, at.path.len() as int)[i].element),
            )[k],
        ),
    decreases limit - at.path.len(), 0nat, 0nat,
{
    let depth = at.path.len() as int;
    let all = preorder(kids, limit, at, depth);
    let child = branches(all[i].path, kids(all[i].element))[k];
    if depth < limit {
        let below = branches(at.path, kids(at.element));
        let rest = forest(kids, limit, below, depth + 1);
        if i == 0 {
            assert(all[0] == at);
            assert(below[k] == child);
            lemma_forest_has_roots(kids, limit, below, depth + 1, k);
            let j = choose|j: int| 0 <= j < rest.len() && rest[j] == child;
            assert(all[j + 1] == child);
        } else {
            assert(all[i] == rest[i - 1]);
            lemma_forest_is_closed(kids, limit, below, depth + 1, i - 1, k);
            let j = choose|j: int| 0 <= j < rest.len() && rest[j] == child;
            assert(all[j + 1] == child);
        }
    }
}

proof fn lemma_forest_has_roots(
    kids: spec_fn(u64) -> Seq<u64>,
    limit: int,
    steps: Seq<Place>,
    depth: int,
    k: int,
)
    requires
        depth <= limit,
        0 <= k < steps.len(),
    ensures
        forest(kids, limit, steps, depth).contains(steps[k]),
    decreases steps.len(),
{
    let all = forest(kids, limit, steps, depth);
    let first = preorder(kids, limit, steps[0], depth);
    if k == 0 {
        assert(first[0] == steps[0]);
        assert(all[0] == steps[0]);
    } else {
        let rest = forest(kids, limit, steps.drop_first(), depth);
        lemma_forest_has_roots(kids, limit, steps.drop_first(), depth, k - 1);
        assert(steps.drop_first()[k - 1] == steps[k]);
        let j = choose|j: int| 0 <= j < rest.len() && rest[j] == steps[k];
        assert(all[first.len() + j] == steps[k]);
    }
}

proof fn lemma_forest_is_closed(
    kids: spec_fn(u64) -> Seq<u64>,
    limit: int,
    steps: Seq<Place>,
    depth: int,
    i: int,
    k: int,
)
    requires
        depth <= limit,
        forall|m: int| 0 <= m < steps.len() ==> (#[trigger] steps[m]).path.len() == depth,
        0 <= i < forest(kids, limit, steps, depth).len(),
        forest(kids, limit, steps, depth)[i].path.len() < limit,
        0 <= k < kids(forest(kids, limit, steps, depth)[i].element).len(),
    ensures
        forest(kids, limit, steps, depth).contains(
            branches(
                forest(kids, limit, steps, depth)[i].path,
                kids(forest(kids, limit, steps, depth)[i].element),
            )[k],
        ),
    decreases limit - depth, 1nat, steps.len(),
{
    let all = forest(kids, limit, steps, depth);
    let child = branches(all[i].path, kids(all[i].element))[k];
    if steps.len() > 0 {
        let first = preorder(kids, limit, steps[0], depth);
        let others = steps.drop_first();
        let rest = forest(kids, limit, others, depth);
        if i < first.len() {
            assert(all[i] == first[i]);
            lemma_preorder_is_closed(kids, limit, steps[0], i, k);
            let j = choose|j: int| 0 <= j < first.len() && first[j] == child;
            assert(all[j] == child);
        } else {
            assert(all[i] == rest[i - first.len()]);
            assert forall|m: int| 0 <= m < others.len() implies (#[trigger] others[m]).path.len()
                == depth by {
                assert(others[m] == steps[m + 1]);
            }
            lemma_forest_is_closed(kids, limit, others, depth, i - first.len(), k);
            let j = choose|j: int| 0 <= j < rest.len() && rest[j] == child;
            assert(all[first.len() + j] == child);
        }
    }
}

proof fn lemma_bounds_stay_out(
    w: WalkView,
    kids: spec_fn(u64) -> Seq<u64>,
    probes: spec_fn(u64) -> Probe,
    n: nat,
)
    requires
        !w.verbose,
        forall|i: int| 0 <= i < w.nodes.len() ==> (#[trigger] w.nodes[i]).entity.bounds is None,
    ensures
        !after_rounds(w, kids, probes, n).verbose,
        forall|i: int|
            0 <= i < after_rounds(w, kids, probes, n).nodes.len() ==> (#[trigger] after_rounds(
                w,
                kids,
                probes,
                n,
            ).nodes[i]).entity.bounds is None,
    decreases n,
{
    if n > 0 {
        lemma_bounds_stay_out(w, kids, probes, (n - 1) as nat);
    }
}

/// A walk that is not asked for rectangles gives none back.
pub proof fn law_bounds_only_when_asked(
    root: u64,
    max_elements: usize,
    max_depth: u32,
    kids: spec_fn(u64) -> Seq<u64>,
    probes: spec_fn(u64) -> Probe,
    n: nat,
    i: int,
)
    requires
        0 <= i < after_rounds(
            fresh_walk(root, max_elements, max_depth, false),
            kids,
            probes,
            n,
        ).nodes.len(),
    ensures
        after_rounds(
            fresh_walk(root, max_elements, max_depth, false),
            kids,
            probes,
            n,
        ).nodes[i].entity.bounds is None,
{
    lemma_bounds_stay_out(fresh_walk(root, max_elements, max_depth, false), kids, probes, n);
}

/// However far a walk has come, it has seen the first elements of the
/// window in preorder, each below the depth limit, and never more than it
/// may. One with nothing left has seen all of them.
pub proof fn law_walk_is_preorder(
    root: u64,
    max_elements: usize,
    max_depth: u32,
    verbose: bool,
    kids: spec_fn(u64) -> Seq<u64>,
    probes: spec_fn(u64) -> Probe,
    n: nat,
)
    ensures
        ({
            let w = after_rounds(
                fresh_walk(root, max_elements, max_depth, verbose),
                kids,
                probes,
                n,
            );
            let all = preorder(
                kids,
                depth_limit(max_depth),
                Place { element: root, path: Seq::<u32>::empty() },
                0,
            );
            &&& w.nodes.len() <= w.cap
            &&& w.cap == clamped(max_elements as int, 1, MAX_ELEMENTS as int)
            &&& w.nodes.len() <= all.len()
            &&& visited(w.nodes) == all.take(w.nodes.len() as int)
            &&& w.pending.len() == 0 ==> visited(w.nodes) == all
        }),
{
    let start = fresh_walk(root, max_elements, max_depth, verbose);
    let limit = depth_limit(max_depth);
    lemma_rounds(start, kids, probes, n);
    let w = after_rounds(start, kids, probes, n);
    let at = Place { element: root, path: Seq::<u32>::empty() };
    let all = preorder(kids, limit, at, 0);
    assert(start.pending.last() == at);
    assert(start.pending.drop_last() =~= Seq::<Place>::empty());
    assert(outlook(kids, limit, Seq::<Place>::empty()) =~= Seq::<Place>::empty());
    assert(visited(start.nodes) + outlook(kids, limit, start.pending) =~= all);
    let seen = visited(w.nodes);
    let left = outlook(kids, limit, w.pending);
    assert(seen + left == all);
    assert(seen =~= (seen + left).take(seen.len() as int));
    if w.pending.len() == 0 {
        assert(seen + left =~= seen);
    }
}

/// A walk that ended and was not cut short has seen the whole window: with
/// every element it has seen each of its children.
pub proof fn law_uncut_walk_is_whole(
    root: u64,
    max_elements: usize,
    max_depth: u32,
    verbose: bool,
    kids: spec_fn(u64) -> Seq<u64>,
    probes: spec_fn(u64) -> Probe,
    n: nat,
    i: int,
    k: int,
)
    requires
        ({
            let w = after_rounds(
                fresh_walk(root, max_elements, max_depth, verbose),
                kids,
                probes,
                n,
            );
            &&& w.pending.len() == 0
            &&& w.truncated is None
            &&& 0 <= i < w.nodes.len()
            &&& 0 <= k < kids(w.nodes[i].element).len()
        }),
    ensures
        ({
            let w = after_rounds(
                fresh_walk(root, max_elements, max_depth, verbose),
                kids,
                probes,
                n,
            );
            visited(w.nodes).contains(
                branches(w.nodes[i].entity.path, kids(w.nodes[i].element))[k],
            )
        }),
{
    let start = fresh_walk(root, max_elements, max_depth, verbose);
    let limit = depth_limit(max_depth);
    lemma_rounds(start, kids, probes, n);
    law_walk_is_preorder(root, max_elements, max_depth, verbose, kids, probes, n);
    let w = after_rounds(start, kids, probes, n);
    let at = Place { element: root, path: Seq::<u32>::empty() };
    let all = preorder(kids, limit, at, 0);
    assert(all[i] == visited(w.nodes)[i]);
    lemma_preorder_is_closed(kids, limit, at, i, k);
}

/// Whether a place lies at or below another.
pub open spec fn under(p: Place, at: Place) -> bool {
    p.path.len() >= at.path.len() && p.path.take(at.path.len() as int) == at.path
}

proof fn lemma_preorder_is_under(kids: spec_fn(u64) -> Seq<u64>, limit: int, at: Place, i: int)
    requires
        at.path.len() <= limit,
        0 <= i < preorder(kids, limit, at, at.path.len() as int).len(),
    ensures
        under(preorder(kids, limit, at, at.path.len() as int)[i], at),
        i > 0 ==> preorder(kids, limit, at, at.path.len() as int)[i].path.len() > at.path.len(),
    decreases limit - at.path.len(), 0nat, 0nat,
{
    let depth = at.path.len() as int;
    let all = preorder(kids, limit, at, depth);
    if i == 0 {
        assert(all[0] == at);
        assert(at.path.take(depth) =~= at.path);
    } else {
        let below = branches(at.path, kids(at.element));
        let rest = forest(kids, limit, below, depth + 1);
        assert(all[i] == rest[i - 1]);
        let m = lemma_forest_is_under(kids, limit, below, depth + 1, i - 1);
        assert(all[i].path.take(depth) =~= all[i].path.take(depth + 1).take(depth));
        assert(below[m].path.take(depth) =~= at.path);
    }
}

proof fn lemma_forest_is_under(
    kids: spec_fn(u64) -> Seq<u64>,
    limit: int,
    steps: Seq<Place>,
    depth: int,
    i: int,
) -> (m: int)
    requires
        depth <= limit,
        forall|k: int| 0 <= k < steps.len() ==> (#[trigger] steps[k]).path.len() == depth,
        0 <= i < forest(kids, limit, steps, depth).len(),
    ensures
        0 <= m < steps.len(),
        under(forest(kids, limit, steps, depth)[i], steps[m]),
    decreases limit - depth, 1nat, steps.len(),
{
    let all = forest(kids, limit, steps, depth);
    let first = preorder(kids, limit, steps[0], depth);
    if i < first.len() {
        assert(all[i] == first[i]);
        lemma_preorder_is_under(kids, limit, steps[0], i);
        0
    } else {
        let others = steps.drop_first();
        let rest = forest(kids, limit, others, depth);
        assert(all[i] == rest[i - first.len()]);
        assert forall|k: int| 0 <= k < others.len() implies (#[trigger] others[k]).path.len()
            == depth by {
            assert(others[k] == steps[k + 1]);
        }
        let m = lemma_forest_is_under(kids, limit, others, depth, i - first.len());
        assert(others[m] == steps[m + 1]);
        m + 1
    }
}

/// Whether a path comes before another: at the first index in which they
/// differ it has the smaller one, and a path comes before those that go on
/// from it.
pub open spec fn path_before(a: Seq<u32>, b: Seq<u32>) -> bool
    decreases a.len(),
{
    if b.len() == 0 {
        false
    } else if a.len() == 0 {
        true
    } else if a[0] != b[0] {
        a[0] < b[0]
    } else {
        path_before(a.drop_first(), b.drop_first())
    }
}

proof fn lemma_not_before_itself(a: Seq<u32>)
    ensures
        !path_before(a, a),
    decreases a.len(),
{
    if a.len() > 0 {
        lemma_not_before_itself(a.drop_first());
    }
}

proof fn lemma_start_is_before(a: Seq<u32>, b: Seq<u32>)
    requires
        a.len() < b.len(),
        b.take(a.len() as int) == a,
    ensures
        path_before(a, b),
    decreases a.len(),
{
    if a.len() > 0 {
        assert(b.take(a.len() as int)[0] == b[0]);
        assert(b.drop_first().take(a.len() - 1) =~= b.take(a.len() as int).drop_first());
        lemma_start_is_before(a.drop_first(), b.drop_first());
    }
}

proof fn lemma_branch_is_before(a: Seq<u32>, b: Seq<u32>, d: int)
    requires
        0 <= d < a.len(),
        d < b.len(),
        a.take(d) == b.take(d),
        a[d] < b[d],
    ensures
        path_before(a, b),
    decreases d,
{
    if d > 0 {
        assert(a.take(d)[0] == a[0] && b.take(d)[0] == b[0]);
        assert(a.drop_first().take(d - 1) =~= a.take(d).drop_first());
        assert(b.drop_first().take(d - 1) =~= b.take(d).drop_first());
        lemma_branch_is_before(a.drop_first(), b.drop_first(), d - 1);
    }
}

/// Whether some places are branches of one element, in order.
spec fn are_branches(steps: Seq<Place>, depth: int) -> bool {
    &&& depth >= 1
    &&& forall|k: int| 0 <= k < steps.len() ==> (#[trigger] steps[k]).path.len() == depth
    &&& forall|a: int, b: int|
        #![trigger steps[a], steps[b]]
        0 <= a < b < steps.len() ==> steps[a].path.take(depth - 1) == steps[b].path.take(depth - 1)
            && steps[a].path[depth - 1] < steps[b].path[depth - 1]
}

proof fn lemma_preorder_is_ordered(
    kids: spec_fn(u64) -> Seq<u64>,
    limit: int,
    at: Place,
    i: int,
    j: int,
)
    requires
        forall|e: u64| (#[trigger] kids(e)).len() <= u32::MAX,
        at.path.len() <= limit,
        0 <= i < j < preorder(kids, limit, at, at.path.len() as int).len(),
    ensures
        path_before(
            preorder(kids, limit, at, at.path.len() as int)[i].path,
            preorder(kids, limit, at, at.path.len() as int)[j].path,
        ),
    decreases limit - at.path.len(), 0nat, 0nat,
{
    let depth = at.path.len() as int;
    let all = preorder(kids, limit, at, depth);
    lemma_preorder_is_under(kids, limit, at, j);
    if i == 0 {
        assert(all[0] == at);
        lemma_start_is_before(at.path, all[j].path);
    } else {
        let below = branches(at.path, kids(at.element));
        let rest = forest(kids, limit, below, depth + 1);
        assert(all[i] == rest[i - 1] && all[j] == rest[j - 1]);
        assert(are_branches(below, depth + 1)) by {
            assert forall|a: int, b: int|
                #![trigger below[a], below[b]]
                0 <= a < b < below.len() implies below[a].path.take(depth) == below[b].path.take(
                depth,
            ) && below[a].path[depth] < below[b].path[depth] by {
                assert(below[a].path.take(depth) =~= at.path);
                assert(below[b].path.take(depth) =~= at.path);
                assert(below[a].path[depth] == a as u32);
                assert(below[b].path[depth] == b as u32);
            }
        }
        lemma_forest_is_ordered(kids, limit, below, depth + 1, i - 1, j - 1);
    }
}

proof fn lemma_forest_is_ordered(
    kids: spec_fn(u64) -> Seq<u64>,
    limit: int,
    steps: Seq<Place>,
    depth: int,
    i: int,
    j: int,
)
    requires
        forall|e: u64| (#[trigger] kids(e)).len() <= u32::MAX,
        depth <= limit,
        are_branches(steps, depth),
        0 <= i < j < forest(kids, limit, steps, depth).len(),
    ensures
        path_before(
            forest(kids, limit, steps, depth)[i].path,
            forest(kids, limit, steps, depth)[j].path,
        ),
    decreases limit - depth, 1nat, steps.len(),
{
    let all = forest(kids, limit, steps, depth);
    let first = preorder(kids, limit, steps[0], depth);
    let others = steps.drop_first();
    let rest = forest(kids, limit, others, depth);
    assert(are_branches(others, depth)) by {
        assert forall|k: int| 0 <= k < others.len() implies (#[trigger] others[k]).path.len()
            == depth by {
            assert(others[k] == steps[k + 1]);
        }
        assert forall|a: int, b: int|
            #![trigger others[a], others[b]]
            0 <= a < b < others.len() implies others[a].path.take(depth - 1)
            == others[b].path.take(depth - 1) && others[a].path[depth - 1] < others[b].path[depth
            - 1] by {
            assert(others[a] == steps[a + 1] && others[b] == steps[b + 1]);
        }
    }
    if j < first.len() {
        assert(all[i] == first[i] && all[j] == first[j]);
        lemma_preorder_is_ordered(kids, limit, steps[0], i, j);
    } else if i < first.len() {
        assert(all[i] == first[i] && all[j] == rest[j - first.len()]);
        lemma_preorder_is_under(kids, limit, steps[0], i);
        let m = lemma_forest_is_under(kids, limit, others, depth, j - first.len());
        assert(others[m] == steps[m + 1]);
        let p = all[i].path;
        let q = all[j].path;
        let a = steps[0].path;
        let b = steps[m + 1].path;
        assert(p.take(depth) == a && q.take(depth) == b);
        assert(p.take(depth - 1) =~= a.take(depth - 1));
        assert(q.take(depth - 1) =~= b.take(depth - 1));
        assert(p[depth - 1] == p.take(depth)[depth - 1]);
        assert(q[depth - 1] == q.take(depth)[depth - 1]);
        lemma_branch_is_before(p, q, depth - 1);
    } else {
        assert(all[i] == rest[i - first.len()] && all[j] == rest[j - first.len()]);
        lemma_forest_is_ordered(kids, limit, others, depth, i - first.len(), j - first.len());
    }
}

proof fn lemma_preorder_depth(
    kids: spec_fn(u64) -> Seq<u64>,
    limit: int,
    at: Place,
    i: int,
)
    requires
        at.path.len() <= limit,
        0 <= i < preorder(kids, limit, at, at.path.len() as int).len(),
    ensures
        preorder(kids, limit, at, at.path.len() as int)[i].path.len() <= limit,
    decreases limit - at.path.len(), 0nat, 0nat,
{
    let depth = at.path.len() as int;
    let all = preorder(kids, limit, at, depth);
    if i == 0 {
        assert(all[0] == at);
    } else {
        let below = branches(at.path, kids(at.element));
        assert(all[i] == forest(kids, limit, below, depth + 1)[i - 1]);
        lemma_forest_depth(kids, limit, below, depth + 1, i - 1);
    }
}

proof fn lemma_forest_depth(
    kids: spec_fn(u64) -> Seq<u64>,
    limit: int,
    steps: Seq<Place>,
    depth: int,
    i: int,
)
    requires
        depth <= limit,
        forall|k: int| 0 <= k < steps.len() ==> (#[trigger] steps[k]).path.len() == depth,
        0 <= i < forest(kids, limit, steps, depth).len(),
    ensures
        forest(kids, limit, steps, depth)[i].path.len() <= limit,
    decreases limit - depth, 1nat, steps.len(),
{
    let all = forest(kids, limit, steps, depth);
    let first = preorder(kids, limit, steps[0], depth);
    if i < first.len() {
        assert(all[i] == first[i]);
        lemma_preorder_depth(kids, limit, steps[0], i);
    } else {
        let others = steps.drop_first();
        assert(all[i] == forest(kids, limit, others, depth)[i - first.len()]);
        assert forall|k: int| 0 <= k < others.len() implies (#[trigger] others[k]).path.len()
            == depth by {
            assert(others[k] == steps[k + 1]);
        }
        lemma_forest_depth(kids, limit, others, depth, i - first.len());
    }
}

/// The paths of the elements that a walk has seen grow strictly, in the order
/// of [`path_before`], and none is longer than the depth limit.
pub proof fn law_paths_grow(
    root: u64,
    max_elements: usize,
    max_depth: u32,
    verbose: bool,
    kids: spec_fn(u64) -> Seq<u64>,
    probes: spec_fn(u64) -> Probe,
    n: nat,
    i: int,
    j: int,
)
    requires
        forall|e: u64| (#[trigger] kids(e)).len() <= u32::MAX,
        0 <= i < after_rounds(
            fresh_walk(root, max_elements, max_depth, verbose),
            kids,
            probes,
            n,
        ).nodes.len(),
    ensures
        ({
            let w = after_rounds(
                fresh_walk(root, max_elements, max_depth, verbose),
                kids,
                probes,
                n,
            );
            &&& w.nodes[i].entity.path.len() <= depth_limit(max_depth)
            &&& i < j < w.nodes.len() ==> path_before(
                w.nodes[i].entity.path,
                w.nodes[j].entity.path,
            )
        }),
{
    let limit = depth_limit(max_depth);
    law_walk_is_preorder(root, max_elements, max_depth, verbose, kids, probes, n);
    let w = after_rounds(fresh_walk(root, max_elements, max_depth, verbose), kids, probes, n);
    let at = Place { element: root, path: Seq::<u32>::empty() };
    let all = preorder(kids, limit, at, 0);
    assert(all[i] == visited(w.nodes)[i]);
    lemma_preorder_depth(kids, limit, at, i);
    if i < j < w.nodes.len() {
        assert(all[j] == visited(w.nodes)[j]);
        lemma_preorder_is_ordered(kids, limit, at, i, j);
    }
}

/// No two elements that a walk has seen have one path, so a path together
/// with a walk names one element.
pub proof fn law_paths_tell_elements_apart(
    root: u64,
    max_elements: usize,
    max_depth: u32,
    verbose: bool,
    kids: spec_fn(u64) -> Seq<u64>,
    probes: spec_fn(u64) -> Probe,
    n: nat,
    i: int,
    j: int,
)
    requires
        forall|e: u64| (#[trigger] kids(e)).len() <= u32::MAX,
        0 <= i < j < after_rounds(
            fresh_walk(root, max_elements, max_depth, verbose),
            kids,
            probes,
            n,
        ).nodes.len(),
    ensures
        ({
            let w = after_rounds(
                fresh_walk(root, max_elements, max_depth, verbose),
                kids,
                probes,
                n,
            );
            w.nodes[i].entity.path != w.nodes[j].entity.path
        }),
{
    law_paths_grow(root, max_elements, max_depth, verbose, kids, probes, n, i, j);
    let w = after_rounds(fresh_walk(root, max_elements, max_depth, verbose), kids, probes, n);
    lemma_not_before_itself(w.nodes[i].entity.path);
}

/// The element that a path leads to from another, where `kids` tells the
/// children of each element: each index is that of a child of the element
/// before it.
pub open spec fn led_to(kids: spec_fn(u64) -> Seq<u64>, from: u64, path: Seq<u32>) -> Option<u64>
    decreases path.len(),
{
    if path.len() == 0 {
        Some(from)
    } else {
        match led_to(kids, from, path.drop_last()) {
            Some(e) if path.last() < kids(e).len() => Some(kids(e)[path.last() as int]),
            _ => None,
        }
    }
}

/// Whether everything that a walk holds is where its path leads, and was told
/// of as it told of itself.
spec fn in_place(
    w: WalkView,
    kids: spec_fn(u64) -> Seq<u64>,
    probes: spec_fn(u64) -> Probe,
    root: u64,
) -> bool {
    &&& forall|i: int|
        0 <= i < w.pending.len() ==> led_to(kids, root, (#[trigger] w.pending[i]).path) == Some(
            w.pending[i].element,
        )
    &&& forall|i: int|
        0 <= i < w.nodes.len() ==> led_to(kids, root, (#[trigger] w.nodes[i]).entity.path) == Some(
            w.nodes[i].element,
        ) && w.nodes[i].entity == entity_of(
            probes(w.nodes[i].element),
            w.nodes[i].entity.path,
            w.verbose,
        )
}

proof fn lemma_round_in_place(
    w: WalkView,
    kids: spec_fn(u64) -> Seq<u64>,
    probes: spec_fn(u64) -> Probe,
    root: u64,
)
    requires
        forall|e: u64| (#[trigger] kids(e)).len() <= u32::MAX,
        in_place(w, kids, probes, root),
    ensures
        in_place(after_round(w, kids, probes), kids, probes, root),
        after_round(w, kids, probes).verbose == w.verbose,
{
    let r = after_round(w, kids, probes);
    if w.pending.len() > 0 && w.nodes.len() < w.cap {
        let at = w.pending.last();
        let rest = w.pending.drop_last();
        assert(w.pending[w.pending.len() - 1] == at);
        assert forall|i: int| 0 <= i < r.nodes.len() implies led_to(
            kids,
            root,
            (#[trigger] r.nodes[i]).entity.path,
        ) == Some(r.nodes[i].element) && r.nodes[i].entity == entity_of(
            probes(r.nodes[i].element),
            r.nodes[i].entity.path,
            r.verbose,
        ) by {
            if i < w.nodes.len() {
                assert(r.nodes[i] == w.nodes[i]);
            }
        }
        let steps = branches(at.path, kids(at.element));
        assert forall|i: int| 0 <= i < r.pending.len() implies led_to(
            kids,
            root,
            (#[trigger] r.pending[i]).path,
        ) == Some(r.pending[i].element) by {
            if i < rest.len() {
                assert(r.pending[i] == w.pending[i]);
            } else {
                let k = steps.len() - 1 - (i - rest.len());
                assert(r.pending[i] == steps[k]);
                assert(at.path.push(k as u32).drop_last() =~= at.path);
                assert(at.path.push(k as u32).last() == k as u32);
                assert(k as u32 == k);
            }
        }
    }
}

proof fn lemma_rounds_in_place(
    w: WalkView,
    kids: spec_fn(u64) -> Seq<u64>,
    probes: spec_fn(u64) -> Probe,
    root: u64,
    n: nat,
)
    requires
        forall|e: u64| (#[trigger] kids(e)).len() <= u32::MAX,
        in_place(w, kids, probes, root),
    ensures
        in_place(after_rounds(w, kids, probes, n), kids, probes, root),
        after_rounds(w, kids, probes, n).verbose == w.verbose,
    decreases n,
{
    if n > 0 {
        lemma_rounds_in_place(w, kids, probes, root, (n - 1) as nat);
        lemma_round_in_place(after_rounds(w, kids, probes, (n - 1) as nat), kids, probes, root);
    }
}

/// The path of an element that a walk has seen leads to that very element from
/// the root, child by child, and what is told of it is what it told of itself,
/// with rectangles where they were asked for.
pub proof fn law_path_leads_to_its_element(
    root: u64,
    max_elements: usize,
    max_depth: u32,
    verbose: bool,
    kids: spec_fn(u64) -> Seq<u64>,
    probes: spec_fn(u64) -> Probe,
    n: nat,
    i: int,
)
    requires
        forall|e: u64| (#[trigger] kids(e)).len() <= u32::MAX,
        0 <= i < after_rounds(
            fresh_walk(root, max_elements, max_depth, verbose),
            kids,
            probes,
            n,
        ).nodes.len(),
    ensures
        ({
            let node = after_rounds(
                fresh_walk(root, max_elements, max_depth, verbose),
                kids,
                probes,
                n,
            ).nodes[i];
            &&& led_to(kids, root, node.entity.path) == Some(node.element)
            &&& node.entity == entity_of(probes(node.element), node.entity.path, verbose)
        }),
{
    let start = fresh_walk(root, max_elements, max_depth, verbose);
    assert(start.pending[0].path.len() == 0);
    assert(in_place(start, kids, probes, root));
    lemma_rounds_in_place(start, kids, probes, root, n);
}

/// A number that is moved into a range is the one of the range that is nearest
/// to it.
pub proof fn law_clamping_is_nearest(n: int, low: int, high: int, m: int)
    requires
        low <= m <= high,
    ensures
        low <= clamped(n, low, high) <= high,
        m <= clamped(n, low, high) <= n || n <= clamped(n, low, high) <= m || clamped(
            n,
            low,
            high,
        ) == n,
{
}

/// A walk examines as many elements as it was asked to, but at least one and
/// at most two thousand; it starts at the root with nothing seen and nothing
/// cut short.
pub proof fn law_walk_starts_at_the_root(
    root: u64,
    max_elements: usize,
    max_depth: u32,
    verbose: bool,
)
    ensures
        ({
            let w = fresh_walk(root, max_elements, max_depth, verbose);
            &&& 1 <= max_elements <= 2000 ==> w.cap == max_elements
            &&& max_elements == 0 ==> w.cap == 1
            &&& max_elements > 2000 ==> w.cap == 2000
            &&& w.max_depth == max_depth && w.verbose == verbose
            &&& w.pending.len() == 1 && w.pending[0].element == root && w.pending[0].path.len() == 0
            &&& w.nodes.len() == 0 && w.truncated is None
        }),
{
}

/// A walk ends where nothing is left, where it has examined as many elements
/// as it may, or where it is late. Where something is left it says which of
/// the two limits it was, the number of elements before the time, and how much
/// was examined and how much is left.
pub proof fn law_walk_ends_where_it_has_to(w: WalkView, late: bool)
    requires
        w.nodes.len() <= usize::MAX,
        w.pending.len() <= usize::MAX,
        0 <= w.cap <= usize::MAX,
    ensures
        is_over(w, late) <==> w.pending.len() == 0 || w.nodes.len() >= w.cap || late,
        ended(w, late).nodes == w.nodes && ended(w, late).pending == w.pending,
        w.pending.len() == 0 ==> ended(w, late).truncated == w.truncated,
        w.pending.len() > 0 && w.nodes.len() >= w.cap ==> {
            &&& ended(w, late).truncated is Some
            &&& ended(w, late).truncated->0 is Elements
            &&& ended(w, late).truncated->0->cap == w.cap
            &&& ended(w, late).truncated->0->Elements_examined == w.nodes.len()
            &&& ended(w, late).truncated->0->Elements_left == w.pending.len()
        },
        w.pending.len() > 0 && w.nodes.len() < w.cap && late ==> {
            &&& ended(w, late).truncated is Some
            &&& ended(w, late).truncated->0 is Time
            &&& ended(w, late).truncated->0->Time_examined == w.nodes.len()
            &&& ended(w, late).truncated->0->Time_left == w.pending.len()
        },
{
}

/// A walk goes on to the children of an element exactly where the element lies
/// above the depth that was asked for and above the sixty-fourth level;
/// elsewhere it says that the depth cut it short.
pub proof fn law_walk_goes_down_to_its_depth(w: WalkView, at: Place, p: Probe)
    ensures
        goes_deeper(w, at) <==> at.path.len() < w.max_depth && at.path.len() < 64,
        !goes_deeper(w, at) ==> after_visit(w, at, p).truncated == Some(
            Truncation::Depth { max: w.max_depth },
        ),
        goes_deeper(w, at) ==> after_visit(w, at, p).truncated == w.truncated,
        after_visit(w, at, p).nodes.len() == w.nodes.len() + 1,
        after_visit(w, at, p).nodes.last().element == at.element,
        after_visit(w, at, p).pending == w.pending,
{
}

/// The children of an element come next, the first of them before the others,
/// each under its number among them, and what was pending stays pending below
/// them.
pub proof fn law_children_come_next(w: WalkView, at: Place, children: Seq<u64>, k: int)
    requires
        children.len() <= u32::MAX,
        0 <= k < children.len(),
    ensures
        ({
            let after = after_children(w, at, children).pending;
            let place = after[after.len() - 1 - k];
            &&& after.len() == w.pending.len() + children.len()
            &&& after.take(w.pending.len() as int) == w.pending
            &&& place.element == children[k]
            &&& place.path.len() == at.path.len() + 1
            &&& place.path.drop_last() == at.path
            &&& place.path.last() == k
        }),
{
    let steps = branches(at.path, children);
    let after = after_children(w, at, children).pending;
    assert(after.take(w.pending.len() as int) =~= w.pending);
    assert(after[after.len() - 1 - k] == steps[k]);
    assert(steps[k].path.drop_last() =~= at.path);
    assert(k as u32 == k);
}

/// What is said of a walk that was cut short tells the limit, how many elements
/// were examined and how many are left, each by its number.
pub proof fn law_cut_walk_tells_its_numbers(cap: usize, examined: usize, left: usize, max: u32)
    ensures
        begins_with(
            truncation_message(Truncation::Elements { cap, examined, left }),
            "element cap "@ + decimal(cap as nat) + " reached; examined "@ + decimal(
                examined as nat,
            ) + ", at least "@ + decimal(left as nat),
        ),
        begins_with(
            truncation_message(Truncation::Time { examined, left }),
            "time budget "@ + decimal(5000) + "ms reached; examined "@ + decimal(examined as nat)
                + ", at least "@ + decimal(left as nat),
        ),
        begins_with(
            truncation_message(Truncation::Depth { max }),
            "depth cap "@ + decimal(max as nat),
        ),
{
    reveal_strlit("ms");
    reveal_strlit(" reached; examined ");
    reveal_strlit("ms reached; examined ");
    assert("ms"@ + " reached; examined "@ =~= "ms reached; examined "@);
    let a = "element cap "@ + decimal(cap as nat) + " reached; examined "@ + decimal(
        examined as nat,
    ) + ", at least "@ + decimal(left as nat);
    assert(truncation_message(Truncation::Elements { cap, examined, left }).take(a.len() as int)
        =~= a);
    let b = "time budget "@ + decimal(5000) + ("ms"@ + " reached; examined "@) + decimal(
        examined as nat,
    ) + ", at least "@ + decimal(left as nat);
    assert(truncation_message(Truncation::Time { examined, left }).take(b.len() as int) =~= b);
    let c = "depth cap "@ + decimal(max as nat);
    assert(truncation_message(Truncation::Depth { max }).take(c.len() as int) =~= c);
}

/// What a walk, a node or a step holds and its view agree in every field, and
/// lists do entry by entry.
pub proof fn law_walk_is_what_it_holds(w: Walk, nodes: Seq<Node>, steps: Seq<Step>, i: int)
    ensures
        w@.pending == places(w.pending@),
        w@.nodes == node_views(w.nodes@),
        w@.truncated == w.truncated,
        w@.cap == w.cap,
        w@.max_depth == w.max_depth,
        w@.verbose == w.verbose,
        node_views(nodes).len() == nodes.len(),
        places(steps).len() == steps.len(),
        0 <= i < nodes.len() ==> node_views(nodes)[i].element == nodes[i].element
            && node_views(nodes)[i].entity == nodes[i].entity@,
        0 <= i < steps.len() ==> places(steps)[i].element == steps[i].element
            && places(steps)[i].path == steps[i].path@,
{
}

} // verus!
