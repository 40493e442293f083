//! What was seen of a window, kept for as long as it may be acted on.

use vstd::prelude::*;

use crate::uia::entity::Entity;
#[allow(unused_imports)]
use crate::uia::entity::EntityView;
use crate::uia::select::Filter;
use crate::uia::walk::{Node, Truncation};
#[allow(unused_imports)]
use crate::uia::entity::Probe;
#[allow(unused_imports)]
use crate::uia::walk::{
    after_rounds, branches, clamped, depth_limit, ended, fresh_walk, is_over,
    law_bounds_only_when_asked, law_paths_grow, law_uncut_walk_is_whole, law_walk_is_preorder,
    node_views, path_before, visited, NodeView, MAX_ELEMENTS,
};
use crate::uia::windows::WindowInfo;

verus! {

/// The most snapshots that are kept. An element has no durable identifier,
/// so what was seen has to be held on to, and storage is bounded.
pub const MAX_SNAPSHOTS: usize = 64;

/// The longest time that a snapshot may be acted on, in seconds.
pub const MAX_TTL_SECS: u64 = 300;

/// The key that authorisations are signed with.
#[derive(Debug)]
pub struct EngineConfig {
    pub lease_key: Vec<u8>,
}

/// What an authorisation grants: one window, as it was seen at one time.
#[derive(Debug, Clone, Copy, PartialEq, Eq, Structural)]
pub struct Scope {
    pub hwnd: isize,
    pub generation: u64,
    pub exp: u64,
}

/// What was seen of a window at one time.
#[derive(Debug)]
pub struct Snapshot {
    pub generation: u64,
    pub hwnd: isize,
    pub expires: u64,
    pub nodes: Vec<Node>,
}

/// A [`Snapshot`] with the characters of its strings.
pub struct Shot {
    pub generation: u64,
    pub hwnd: isize,
    pub expires: u64,
    pub nodes: Seq<NodeView>,
}

impl View for Snapshot {
    type V = Shot;

    open spec fn view(&self) -> Shot {
        Shot {
            generation: self.generation,
            hwnd: self.hwnd,
            expires: self.expires,
            nodes: node_views(self.nodes@),
        }
    }
}

/// The snapshots of a list with the characters of their strings.
pub open spec fn shots(v: Seq<Snapshot>) -> Seq<Shot> {
    Seq::new(v.len(), |i: int| v[i]@)
}

/// The snapshots that have not expired, in order.
pub open spec fn unexpired(s: Seq<Shot>, now: u64) -> Seq<Shot>
    decreases s.len(),
{
    if s.len() == 0 {
        Seq::<Shot>::empty()
    } else if s.last().expires >= now {
        unexpired(s.drop_last(), now).push(s.last())
    } else {
        unexpired(s.drop_last(), now)
    }
}

/// The snapshots with room for one more: where they are as many as may be
/// kept, the oldest is left out.
pub open spec fn with_room(s: Seq<Shot>) -> Seq<Shot> {
    if s.len() >= MAX_SNAPSHOTS {
        s.drop_first()
    } else {
        s
    }
}

/// What the next authorisation grants, given the last number that was used.
pub open spec fn scope_after(last: u64, hwnd: isize, now: u64, ttl_secs: u64) -> Scope {
    Scope {
        hwnd,
        generation: (last + 1) as u64,
        exp: (now + clamped(ttl_secs as int, 1, MAX_TTL_SECS as int)) as u64,
    }
}

/// The snapshots after the one of a scope was kept once more, under a scope of
/// its own.
pub open spec fn renewed(s: Seq<Shot>, scope: Scope, now: u64, fresh: Scope) -> Seq<Shot> {
    with_room(unexpired(s, now)).push(
        Shot {
            generation: fresh.generation,
            hwnd: fresh.hwnd,
            expires: fresh.exp,
            nodes: s[granted(s, scope)].nodes,
        },
    )
}

/// What holds of every store: the snapshots stand in the order in which they
/// were taken, each under a number of its own, and they are bounded.
pub open spec fn is_store(s: Seq<Shot>, last: u64) -> bool {
    &&& s.len() <= MAX_SNAPSHOTS
    &&& forall|i: int| 0 <= i < s.len() ==> 0 < (#[trigger] s[i]).generation <= last
    &&& forall|i: int, j: int|
        #![trigger s[i], s[j]]
        0 <= i < j < s.len() ==> s[i].generation < s[j].generation
}

/// The place of the snapshot that a scope was given for; one before the first
/// where there is none.
pub open spec fn granted(s: Seq<Shot>, scope: Scope) -> int
    decreases s.len(),
{
    if s.len() == 0 {
        -1
    } else if s.last().generation == scope.generation && s.last().hwnd == scope.hwnd {
        s.len() - 1
    } else {
        granted(s.drop_last(), scope)
    }
}

pub(crate) proof fn lemma_granted(s: Seq<Shot>, scope: Scope)
    ensures
        -1 <= granted(s, scope) < s.len(),
        granted(s, scope) >= 0 ==> s[granted(s, scope)].generation == scope.generation && s[granted(
            s,
            scope,
        )].hwnd == scope.hwnd,
        granted(s, scope) < 0 ==> forall|i: int|
            0 <= i < s.len() ==> (#[trigger] s[i]).generation != scope.generation || s[i].hwnd
                != scope.hwnd,
    decreases s.len(),
{
    if s.len() > 0 {
        lemma_granted(s.drop_last(), scope);
        if granted(s, scope) < 0 {
            assert forall|i: int| 0 <= i < s.len() implies (#[trigger] s[i]).generation
                != scope.generation || s[i].hwnd != scope.hwnd by {
                if i < s.len() - 1 {
                    assert(s.drop_last()[i] == s[i]);
                }
            }
        }
    }
}

proof fn lemma_unexpired(s: Seq<Shot>, now: u64, last: u64)
    requires
        is_store(s, last),
    ensures
        is_store(unexpired(s, now), last),
        unexpired(s, now).len() <= s.len(),
        forall|i: int|
            0 <= i < unexpired(s, now).len() ==> {
                &&& (#[trigger] unexpired(s, now)[i]).expires >= now
                &&& s.contains(unexpired(s, now)[i])
            },
        forall|i: int|
            0 <= i < s.len() && (#[trigger] s[i]).expires >= now ==> unexpired(s, now).contains(
                s[i],
            ),
    decreases s.len(),
{
    if s.len() > 0 {
        let init = s.drop_last();
        let before = unexpired(init, now);
        let after = unexpired(s, now);
        assert(is_store(init, last));
        lemma_unexpired(init, now, last);
        assert forall|i: int| 0 <= i < after.len() implies (#[trigger] after[i]).expires >= now
            && s.contains(after[i]) by {
            if i < before.len() {
                assert(after[i] == before[i]);
                let j = choose|j: int| 0 <= j < init.len() && init[j] == before[i];
                assert(s[j] == after[i]);
            } else {
                assert(s[s.len() - 1] == after[i]);
            }
        }
        assert forall|i: int|
            0 <= i < s.len() && (#[trigger] s[i]).expires >= now implies after.contains(s[i]) by {
            if i < init.len() {
                assert(init[i] == s[i]);
                let j = choose|j: int| 0 <= j < before.len() && before[j] == init[i];
                assert(after[j] == s[i]);
            } else {
                assert(after[after.len() - 1] == s[i]);
            }
        }
        assert forall|i: int| 0 <= i < after.len() implies 0 < (#[trigger] after[i]).generation
            <= last by {
            let j = choose|j: int| 0 <= j < s.len() && s[j] == after[i];
            assert(s[j] == after[i]);
        }
        assert forall|i: int, j: int|
            #![trigger after[i], after[j]]
            0 <= i < j < after.len() implies after[i].generation < after[j].generation by {
            assert(after[i] == before[i]);
            if j < before.len() {
                assert(after[j] == before[j]);
            } else {
                let k = choose|k: int| 0 <= k < init.len() && init[k] == before[i];
                assert(s[k] == after[i]);
                assert(s[s.len() - 1] == after[j]);
            }
        }
    }
}

/// The snapshots that are kept.
#[derive(Debug)]
pub struct SnapshotStore {
    pub snapshots: Vec<Snapshot>,
    pub last_generation: u64,
}

impl SnapshotStore {
    /// The snapshots with the characters of their strings, the oldest first.
    pub open spec fn held(&self) -> Seq<Shot> {
        shots(self.snapshots@)
    }

    /// Whether the store is as its methods leave it.
    pub open spec fn valid(&self) -> bool {
        is_store(self.held(), self.last_generation)
    }

    /// A store with nothing in it.
    pub fn new() -> (r: SnapshotStore)
        ensures
            r.valid(),
            r.held() == Seq::<Shot>::empty(),
            r.last_generation == 0,
    {
        let r = SnapshotStore { snapshots: Vec::new(), last_generation: 0 };
        assert(r.held() =~= Seq::<Shot>::empty());
        r
    }

    /// Makes room for a snapshot of a window, and says what an authorisation
    /// for it grants.
    pub fn make_room(&mut self, hwnd: isize, now: u64, ttl_secs: u64) -> (scope: Scope)
        requires
            old(self).valid(),
            old(self).last_generation < u64::MAX,
            now + MAX_TTL_SECS <= u64::MAX,
        ensures
            final(self).held() == with_room(unexpired(old(self).held(), now)),
            final(self).last_generation == old(self).last_generation + 1,
            final(self).valid(),
            final(self).held().len() < MAX_SNAPSHOTS,
            forall|i: int|
                0 <= i < final(self).held().len() ==> (#[trigger] final(self).held()[i]).generation
                    < scope.generation,
            scope == scope_after(old(self).last_generation, hwnd, now, ttl_secs),
    {
        let ghost all = self.held();
        let ghost last = self.last_generation;
        let ghost mut taken = 0int;
        let mut i: usize = 0;
        while i < self.snapshots.len()
            invariant
                is_store(all, last),
                last == self.last_generation,
                0 <= taken <= all.len(),
                i <= self.snapshots@.len(),
                self.snapshots@.len() - i == all.len() - taken,
                self.held().take(i as int) == unexpired(all.take(taken), now),
                self.held().skip(i as int) == all.skip(taken),
            decreases self.snapshots@.len() - i,
        {
            let ghost here = self.held();
            let ghost upto = all.take(taken + 1);
            proof {
                assert(here.skip(i as int)[0] == here[i as int]);
                assert(all.skip(taken)[0] == all[taken]);
                assert(upto.drop_last() =~= all.take(taken));
                assert(upto.last() == here[i as int]);
            }
            if self.snapshots[i].expires >= now {
                i = i + 1;
                proof {
                    assert(here.take(i as int) =~= here.take(i - 1).push(here[i - 1]));
                    assert(here.skip(i as int) =~= here.skip(i - 1).skip(1));
                    assert(all.skip(taken + 1) =~= all.skip(taken).skip(1));
                }
            } else {
                self.snapshots.remove(i);
                proof {
                    assert(self.held() =~= here.remove(i as int));
                    assert(self.held().take(i as int) =~= here.take(i as int));
                    assert(self.held().skip(i as int) =~= here.skip(i as int).skip(1));
                    assert(all.skip(taken + 1) =~= all.skip(taken).skip(1));
                }
            }
            proof {
                taken = taken + 1;
            }
        }
        proof {
            assert(self.held().take(i as int) =~= self.held());
            assert(all.take(taken) =~= all);
            lemma_unexpired(all, now, last);
        }
        let ghost kept = self.held();
        if self.snapshots.len() >= MAX_SNAPSHOTS {
            self.snapshots.remove(0);
            assert(self.held() =~= kept.drop_first());
        }
        self.last_generation = self.last_generation + 1;
        let ttl: u64 = if ttl_secs < 1 {
            1
        } else if ttl_secs > MAX_TTL_SECS {
            MAX_TTL_SECS
        } else {
            ttl_secs
        };
        Scope { hwnd, generation: self.last_generation, exp: now + ttl }
    }

    /// Keeps what was seen under the scope that was made for it.
    pub fn insert(&mut self, scope: Scope, nodes: Vec<Node>)
        requires
            old(self).valid(),
            old(self).held().len() < MAX_SNAPSHOTS,
            scope.generation == old(self).last_generation,
            scope.generation > 0,
            forall|i: int|
                0 <= i < old(self).held().len() ==> (#[trigger] old(self).held()[i]).generation
                    < scope.generation,
        ensures
            final(self).held() == old(self).held().push(
                Shot {
                    generation: scope.generation,
                    hwnd: scope.hwnd,
                    expires: scope.exp,
                    nodes: node_views(nodes@),
                },
            ),
            final(self).last_generation == old(self).last_generation,
            final(self).valid(),
    {
        let ghost before = self.held();
        let shot = Snapshot {
            generation: scope.generation,
            hwnd: scope.hwnd,
            expires: scope.exp,
            nodes,
        };
        let ghost added = shot@;
        self.snapshots.push(shot);
        assert(self.held() =~= before.push(added));
    }

    /// Keeps what was seen under a scope once more, under a fresh scope for the
    /// same window: an action changes what a window says of itself, but not
    /// the paths that lead to its elements. `None` where nothing is kept under
    /// the scope.
    pub fn renew(&mut self, scope: Scope, now: u64, ttl_secs: u64) -> (r: Option<Scope>)
        requires
            old(self).valid(),
            old(self).last_generation < u64::MAX,
            now + MAX_TTL_SECS <= u64::MAX,
        ensures
            final(self).valid(),
            match r {
                Some(fresh) => {
                    &&& granted(old(self).held(), scope) >= 0
                    &&& fresh == scope_after(
                        old(self).last_generation,
                        scope.hwnd,
                        now,
                        ttl_secs,
                    )
                    &&& final(self).held() == renewed(old(self).held(), scope, now, fresh)
                    &&& final(self).last_generation == fresh.generation
                },
                None => {
                    &&& granted(old(self).held(), scope) == -1
                    &&& final(self).held() == old(self).held()
                    &&& final(self).last_generation == old(self).last_generation
                },
            },
    {
        let nodes = match self.find(scope) {
            None => {
                return None;
            },
            Some(s) => copy_nodes(&s.nodes),
        };
        let fresh = self.make_room(scope.hwnd, now, ttl_secs);
        self.insert(fresh, nodes);
        Some(fresh)
    }

    /// The snapshot that a scope was given for.
    pub fn find(&self, scope: Scope) -> (r: Option<&Snapshot>)
        ensures
            match r {
                Some(s) => granted(self.held(), scope) >= 0 && s@ == self.held()[granted(
                    self.held(),
                    scope,
                )],
                None => granted(self.held(), scope) == -1,
            },
    {
        let ghost all = self.held();
        let mut i: usize = self.snapshots.len();
        assert(all.take(i as int) =~= all);
        while i > 0
            invariant
                all == self.held(),
                i <= self.snapshots@.len(),
                granted(all, scope) == granted(all.take(i as int), scope),
            decreases i,
        {
            let ghost upto = all.take(i as int);
            assert(upto.drop_last() =~= all.take(i - 1));
            assert(upto.last() == all[i - 1]);
            i = i - 1;
            if self.snapshots[i].generation == scope.generation && self.snapshots[i].hwnd
                == scope.hwnd {
                return Some(&self.snapshots[i]);
            }
        }
        None
    }
}

/// What was found in a window.
#[derive(Debug)]
pub struct Discovery {
    pub window: WindowInfo,
    /// Signed, expiring authorisation for this window at this generation.
    /// To be passed back together with the path of an entity.
    pub scope: String,
    pub generation: u64,
    pub entities: Vec<Entity>,
    /// Set when a limit stopped the walk, so a caller is never silently
    /// handed a partial view.
    pub truncated: Option<Truncation>,
}

fn copy_nodes(v: &Vec<Node>) -> (r: Vec<Node>)
    ensures
        node_views(r@) == node_views(v@),
{
    let mut out: Vec<Node> = Vec::new();
    for i in 0..v.len()
        invariant
            out@.len() == i,
            forall|j: int| 0 <= j < i ==> (#[trigger] out@[j])@ == v@[j]@,
    {
        out.push(Node { element: v[i].element, entity: v[i].entity.duplicate() });
    }
    assert(node_views(out@) =~= node_views(v@));
    out
}

/// Whether an entity is given back under a filter. One without any action is
/// never given back: there is nothing to act on and no action list to hand
/// back.
pub open spec fn shown(filter: Filter, e: EntityView) -> bool {
    match filter {
        Filter::Actionable => e.actions.len() > 0,
        Filter::All => e.actions.len() > 0,
    }
}

/// The entities of some nodes that a filter gives back, in order.
pub open spec fn shown_entities(filter: Filter, nodes: Seq<NodeView>) -> Seq<EntityView>
    decreases nodes.len(),
{
    if nodes.len() == 0 {
        Seq::<EntityView>::empty()
    } else if shown(filter, nodes.last().entity) {
        shown_entities(filter, nodes.drop_last()).push(nodes.last().entity)
    } else {
        shown_entities(filter, nodes.drop_last())
    }
}

/// The entities of a list with the characters of their strings.
pub open spec fn entity_views(v: Seq<Entity>) -> Seq<EntityView> {
    Seq::new(v.len(), |i: int| v[i]@)
}

/// The entities of some nodes that a filter gives back, in order.
pub fn entities_of(filter: Filter, nodes: &Vec<Node>) -> (r: Vec<Entity>)
    ensures
        entity_views(r@) == shown_entities(filter, node_views(nodes@)),
        forall|i: int|
            0 <= i < entity_views(r@).len() ==> (#[trigger] entity_views(r@)[i]).actions.len() > 0,
{
    let ghost all = node_views(nodes@);
    let mut out: Vec<Entity> = Vec::new();
    for i in 0..nodes.len()
        invariant
            all == node_views(nodes@),
            entity_views(out@) == shown_entities(filter, all.take(i as int)),
    {
        let ghost before = entity_views(out@);
        let ghost upto = all.take(i + 1);
        assert(upto.drop_last() =~= all.take(i as int));
        assert(upto.last() == nodes@[i as int]@);
        let e = &nodes[i].entity;
        let wanted = match filter {
            Filter::Actionable => e.actions.len() > 0,
            Filter::All => e.actions.len() > 0,
        };
        if wanted {
            out.push(e.duplicate());
            assert(entity_views(out@) =~= before.push(e@));
        }
    }
    assert(all.take(nodes@.len() as int) =~= all);
    proof {
        lemma_shown(filter, all);
    }
    out
}

proof fn lemma_shown(filter: Filter, nodes: Seq<NodeView>)
    ensures
        shown_entities(filter, nodes).len() <= nodes.len(),
        forall|i: int|
            0 <= i < shown_entities(filter, nodes).len() ==> shown(
                filter,
                #[trigger] shown_entities(filter, nodes)[i],
            ),
    decreases nodes.len(),
{
    if nodes.len() > 0 {
        lemma_shown(filter, nodes.drop_last());
    }
}

proof fn lemma_shown_place(filter: Filter, nodes: Seq<NodeView>, i: int) -> (m: int)
    requires
        0 <= i < shown_entities(filter, nodes).len(),
    ensures
        0 <= m < nodes.len(),
        nodes[m].entity == shown_entities(filter, nodes)[i],
    decreases nodes.len(),
{
    let init = nodes.drop_last();
    let before = shown_entities(filter, init);
    if i < before.len() {
        let m = lemma_shown_place(filter, init, i);
        assert(init[m] == nodes[m]);
        m
    } else {
        nodes.len() - 1
    }
}

proof fn lemma_shown_in_order(filter: Filter, nodes: Seq<NodeView>)
    requires
        forall|a: int, b: int|
            #![trigger nodes[a], nodes[b]]
            0 <= a < b < nodes.len() ==> path_before(nodes[a].entity.path, nodes[b].entity.path),
    ensures
        forall|i: int, j: int|
            #![trigger shown_entities(filter, nodes)[i], shown_entities(filter, nodes)[j]]
            0 <= i < j < shown_entities(filter, nodes).len() ==> path_before(
                shown_entities(filter, nodes)[i].path,
                shown_entities(filter, nodes)[j].path,
            ),
    decreases nodes.len(),
{
    if nodes.len() > 0 {
        let init = nodes.drop_last();
        let before = shown_entities(filter, init);
        let after = shown_entities(filter, nodes);
        assert forall|a: int, b: int|
            #![trigger init[a], init[b]]
            0 <= a < b < init.len() implies path_before(
            init[a].entity.path,
            init[b].entity.path,
        ) by {
            assert(init[a] == nodes[a] && init[b] == nodes[b]);
        }
        lemma_shown_in_order(filter, init);
        assert forall|i: int, j: int|
            #![trigger after[i], after[j]]
            0 <= i < j < after.len() implies path_before(after[i].path, after[j].path) by {
            assert(after[i] == before[i]);
            if j < before.len() {
                assert(after[j] == before[j]);
            } else {
                let m = lemma_shown_place(filter, init, i);
                assert(init[m] == nodes[m]);
                assert(after[j] == nodes[nodes.len() - 1].entity);
            }
        }
    }
}

/// What a discovery gives back, from a walk that has ended however it did: the
/// entities in strictly growing order of their paths, none deeper and no more
/// of them than was asked for, each with something to act on, and rectangles
/// only where they were asked for. Where a limit left an element of the window
/// unexamined, the walk says so. The discovery is numbered above every one
/// before it: `last` is the number that was used last, and `earlier` that of
/// any discovery so far.
pub proof fn law_discovery(
    root: u64,
    max_elements: usize,
    max_depth: u32,
    verbose: bool,
    kids: spec_fn(u64) -> Seq<u64>,
    probes: spec_fn(u64) -> Probe,
    n: nat,
    late: bool,
    filter: Filter,
    last: u64,
    earlier: u64,
    hwnd: isize,
    now: u64,
    ttl_secs: u64,
)
    requires
        earlier <= last < u64::MAX,
        forall|e: u64| (#[trigger] kids(e)).len() <= u32::MAX,
        is_over(
            after_rounds(fresh_walk(root, max_elements, max_depth, verbose), kids, probes, n),
            late,
        ),
    ensures
        ({
            let w = ended(
                after_rounds(fresh_walk(root, max_elements, max_depth, verbose), kids, probes, n),
                late,
            );
            let es = shown_entities(filter, w.nodes);
            &&& es.len() <= clamped(max_elements as int, 1, MAX_ELEMENTS as int)
            &&& forall|i: int|
                0 <= i < es.len() ==> {
                    &&& (#[trigger] es[i]).path.len() <= depth_limit(max_depth)
                    &&& es[i].actions.len() > 0
                    &&& !verbose ==> es[i].bounds is None
                }
            &&& forall|i: int, j: int|
                #![trigger es[i], es[j]]
                0 <= i < j < es.len() ==> path_before(es[i].path, es[j].path)
            &&& w.nodes.len() == 0 ==> w.truncated is Some
            &&& forall|i: int, k: int|
                #![trigger branches(w.nodes[i].entity.path, kids(w.nodes[i].element))[k]]
                0 <= i < w.nodes.len() && 0 <= k < kids(w.nodes[i].element).len()
                    && !visited(w.nodes).contains(
                    branches(w.nodes[i].entity.path, kids(w.nodes[i].element))[k],
                ) ==> w.truncated is Some
            &&& scope_after(last, hwnd, now, ttl_secs).generation > earlier
        }),
{
    let walk = after_rounds(fresh_walk(root, max_elements, max_depth, verbose), kids, probes, n);
    let w = ended(walk, late);
    let es = shown_entities(filter, w.nodes);
    law_walk_is_preorder(root, max_elements, max_depth, verbose, kids, probes, n);
    lemma_shown(filter, w.nodes);
    assert forall|i: int| 0 <= i < es.len() implies {
        &&& (#[trigger] es[i]).path.len() <= depth_limit(max_depth)
        &&& es[i].actions.len() > 0
        &&& !verbose ==> es[i].bounds is None
    } by {
        let m = lemma_shown_place(filter, w.nodes, i);
        law_paths_grow(root, max_elements, max_depth, verbose, kids, probes, n, m, m);
        if !verbose {
            law_bounds_only_when_asked(root, max_elements, max_depth, kids, probes, n, m);
        }
    }
    assert forall|a: int, b: int|
        #![trigger w.nodes[a], w.nodes[b]]
        0 <= a < b < w.nodes.len() implies path_before(
        w.nodes[a].entity.path,
        w.nodes[b].entity.path,
    ) by {
        law_paths_grow(root, max_elements, max_depth, verbose, kids, probes, n, a, b);
    }
    lemma_shown_in_order(filter, w.nodes);
    assert forall|i: int, k: int|
        #![trigger branches(w.nodes[i].entity.path, kids(w.nodes[i].element))[k]]
        0 <= i < w.nodes.len() && 0 <= k < kids(w.nodes[i].element).len() && !visited(
            w.nodes,
        ).contains(
            branches(w.nodes[i].entity.path, kids(w.nodes[i].element))[k],
        ) implies w.truncated is Some by {
        if w.truncated is None {
            law_uncut_walk_is_whole(
                root,
                max_elements,
                max_depth,
                verbose,
                kids,
                probes,
                n,
                i,
                k,
            );
        }
    }
}

/// A scope leads to the snapshot that it was made for, at once and for as
/// long as that is kept.
pub proof fn law_scope_finds_its_snapshot(s: Seq<Shot>, last: u64, scope: Scope, i: int)
    requires
        is_store(s, last),
        0 <= i < s.len(),
        s[i].generation == scope.generation,
        s[i].hwnd == scope.hwnd,
    ensures
        granted(s, scope) == i,
{
    lemma_granted(s, scope);
    let k = granted(s, scope);
    if k < i {
        assert(s[k].generation < s[i].generation);
    } else if i < k {
        assert(s[i].generation < s[k].generation);
    }
}

/// A scope leads to no snapshot of another window, and to none under a number
/// that is not its own.
pub proof fn law_scope_finds_no_other(s: Seq<Shot>, scope: Scope)
    requires
        granted(s, scope) >= 0,
    ensures
        s[granted(s, scope)].hwnd == scope.hwnd,
        s[granted(s, scope)].generation == scope.generation,
{
    lemma_granted(s, scope);
}

/// Making room drops every snapshot that has expired, and beyond those at
/// most one: the oldest, where the store is full of snapshots that have not.
pub proof fn law_what_is_dropped(s: Seq<Shot>, last: u64, now: u64, i: int)
    requires
        is_store(s, last),
        0 <= i < s.len(),
    ensures
        s[i].expires < now ==> !with_room(unexpired(s, now)).contains(s[i]),
        s[i].expires >= now && (i > 0 || s.len() < MAX_SNAPSHOTS) ==> with_room(
            unexpired(s, now),
        ).contains(s[i]),
        with_room(unexpired(s, now)).len() < MAX_SNAPSHOTS,
{
    lemma_unexpired(s, now, last);
    let kept = unexpired(s, now);
    let room = with_room(kept);
    if s[i].expires < now {
        if room.contains(s[i]) {
            let j = choose|j: int| 0 <= j < room.len() && room[j] == s[i];
            let k = if kept.len() >= MAX_SNAPSHOTS {
                j + 1
            } else {
                j
            };
            assert(kept[k].expires >= now);
        }
    } else if i > 0 || s.len() < MAX_SNAPSHOTS {
        let j = choose|j: int| 0 <= j < kept.len() && kept[j] == s[i];
        if kept.len() >= MAX_SNAPSHOTS {
            if j == 0 {
                assert(kept[0] == s[i]);
                lemma_all_unexpired(s, now, last);
                assert(s[0].generation < s[i].generation);
            } else {
                assert(room[j - 1] == s[i]);
            }
        } else {
            assert(room[j] == s[i]);
        }
    }
}

proof fn lemma_all_unexpired(s: Seq<Shot>, now: u64, last: u64)
    requires
        is_store(s, last),
        unexpired(s, now).len() == s.len(),
    ensures
        unexpired(s, now) == s,
    decreases s.len(),
{
    if s.len() > 0 {
        let init = s.drop_last();
        assert(is_store(init, last));
        lemma_unexpired(init, now, last);
        lemma_all_unexpired(init, now, last);
        assert(init.push(s.last()) =~= s);
    }
}

/// An authorisation is for the window that was asked for, under the next
/// number, and lasts as long as was asked for, but at least one second and at
/// most five minutes.
pub proof fn law_scope_lasts_as_asked(last: u64, hwnd: isize, now: u64, ttl_secs: u64)
    requires
        last < u64::MAX,
        now + 300 <= u64::MAX,
    ensures
        scope_after(last, hwnd, now, ttl_secs).hwnd == hwnd,
        scope_after(last, hwnd, now, ttl_secs).generation == last + 1,
        1 <= ttl_secs <= 300 ==> scope_after(last, hwnd, now, ttl_secs).exp == now + ttl_secs,
        ttl_secs == 0 ==> scope_after(last, hwnd, now, ttl_secs).exp == now + 1,
        ttl_secs > 300 ==> scope_after(last, hwnd, now, ttl_secs).exp == now + 300,
{
}

/// What has not expired are the snapshots whose time is not before now, all of
/// them, in order.
pub proof fn law_only_the_expired_go(s: Seq<Shot>, now: u64)
    ensures
        unexpired(s, now) == s.filter(|x: Shot| now <= x.expires),
    decreases s.len(),
{
    reveal(Seq::filter);
    if s.len() > 0 {
        law_only_the_expired_go(s.drop_last(), now);
    }
}

/// A store of sixty-four loses its oldest snapshot to make room, and a smaller
/// one loses none.
pub proof fn law_only_the_oldest_makes_room(s: Seq<Shot>)
    requires
        s.len() <= 64,
    ensures
        s.len() < 64 ==> with_room(s) == s,
        s.len() == 64 ==> with_room(s) == s.subrange(1, 64),
{
    if s.len() == 64 {
        assert(with_room(s) =~= s.subrange(1, 64));
    }
}

/// To renew keeps the very nodes of the snapshot of a scope, last of all, under
/// the fresh scope, and beside it what room was made among.
pub proof fn law_renewing_keeps_the_nodes(s: Seq<Shot>, scope: Scope, now: u64, fresh: Scope, i: int)
    requires
        0 <= i < s.len(),
        s[i].generation == scope.generation,
        s[i].hwnd == scope.hwnd,
        forall|j: int| i < j < s.len() ==> (#[trigger] s[j]).generation != scope.generation,
    ensures
        ({
            let after = renewed(s, scope, now, fresh);
            &&& after.last().nodes == s[i].nodes
            &&& after.last().hwnd == fresh.hwnd
            &&& after.last().generation == fresh.generation
            &&& after.last().expires == fresh.exp
            &&& after.drop_last() == with_room(unexpired(s, now))
        }),
{
    lemma_last_granted(s, scope, i);
    let after = renewed(s, scope, now, fresh);
    assert(after.drop_last() =~= with_room(unexpired(s, now)));
}

proof fn lemma_last_granted(s: Seq<Shot>, scope: Scope, i: int)
    requires
        0 <= i < s.len(),
        s[i].generation == scope.generation,
        s[i].hwnd == scope.hwnd,
        forall|j: int| i < j < s.len() ==> (#[trigger] s[j]).generation != scope.generation,
    ensures
        granted(s, scope) == i,
    decreases s.len(),
{
    if i < s.len() - 1 {
        let init = s.drop_last();
        assert(s[s.len() - 1].generation != scope.generation);
        assert forall|j: int| i < j < init.len() implies (#[trigger] init[j]).generation
            != scope.generation by {
            assert(init[j] == s[j]);
        }
        lemma_last_granted(init, scope, i);
    }
}

/// Under either filter an entity is given back exactly where it has something
/// to act on, in the order in which the elements were seen.
pub proof fn law_what_can_be_acted_on_is_given_back(
    filter: Filter,
    a: Seq<NodeView>,
    b: Seq<NodeView>,
    x: NodeView,
)
    ensures
        shown_entities(filter, a + b) == shown_entities(filter, a) + shown_entities(filter, b),
        shown_entities(filter, seq![x]) == if x.entity.actions.len() > 0 {
            seq![x.entity]
        } else {
            Seq::<EntityView>::empty()
        },
    decreases b.len(),
{
    let one = seq![x];
    assert(one.drop_last() =~= Seq::<NodeView>::empty());
    assert(shown_entities(filter, Seq::<NodeView>::empty()) =~= Seq::<EntityView>::empty());
    assert(one.last() == x);
    assert(Seq::<EntityView>::empty().push(x.entity) =~= seq![x.entity]);
    if b.len() == 0 {
        assert(a + b =~= a);
        assert(shown_entities(filter, a) + shown_entities(filter, b) =~= shown_entities(filter, a));
    } else {
        assert((a + b).drop_last() =~= a + b.drop_last());
        assert((a + b).last() == b.last());
        law_what_can_be_acted_on_is_given_back(filter, a, b.drop_last(), x);
        assert(shown_entities(filter, a + b) =~= shown_entities(filter, a) + shown_entities(
            filter,
            b,
        ));
    }
}

/// A snapshot and its view agree in every field, and a store holds the views
/// of its snapshots in order.
pub proof fn law_store_is_what_it_holds(s: Snapshot, all: Seq<Snapshot>, i: int, es: Seq<Entity>)
    ensures
        s@.generation == s.generation,
        s@.hwnd == s.hwnd,
        s@.expires == s.expires,
        s@.nodes == node_views(s.nodes@),
        shots(all).len() == all.len(),
        0 <= i < all.len() ==> shots(all)[i] == all[i]@,
        entity_views(es).len() == es.len(),
        0 <= i < es.len() ==> entity_views(es)[i] == es[i]@,
{
}

} // verus!
