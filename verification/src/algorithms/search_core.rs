use vstd::prelude::*;
use std::collections::HashMap;
use crate::model::adjacency_array::{AdjacencyArray, Arc};
use crate::model::priority_heap_item::PriorityHeapItem;
use crate::model::min_heap::{MinHeap, HeapKey};
use crate::algorithms::paths::{reaches, reaches_in, none_shorter, is_route, arcs_within, consistent,
    lemma_reaches_self, lemma_reaches_extend, lemma_crossing, lemma_consistent_along, lemma_route_prepend};

verus! {

/// Largest estimate that a guided search accepts for a node: a priority
/// (length so far plus estimate) then always fits its type.
pub const MAX_ESTIMATE: u64 = 0xffff_ffff_0000_0000;

/// The arcs of `graph` that do not lead to a node in `hidden`.
pub open spec fn visible_arcs(graph: &AdjacencyArray, hidden: Set<u32>) -> Set<Arc> {
    Set::new(|a: Arc| graph.arcs().contains(a) && !hidden.contains(a.1 as u32))
}

/// The nodes that a search leaves out, as a set.
pub open spec fn hidden_nodes(removed: Option<&HashMap<u32, bool>>) -> Set<u32> {
    match removed {
        Some(m) => m@.dom(),
        None => Set::empty(),
    }
}

/// The estimates that a search works with: those given, or zero for every
/// node where none are given.
pub open spec fn estimates(h: Option<&Vec<u64>>, n: int) -> Seq<u64> {
    match h {
        Some(v) => v@,
        None => Seq::new(n as nat, |i: int| 0u64),
    }
}

/// Sum of the entries of `s`.
pub open spec fn total(s: Seq<u32>) -> nat
    decreases s.len(),
{
    if s.len() == 0 {
        0
    } else {
        total(s.drop_last()) + s.last() as nat
    }
}

/// Lowering one entry lowers the sum.
pub proof fn lemma_total_update(s: Seq<u32>, i: int, x: u32)
    requires
        0 <= i < s.len(),
        x < s[i],
    ensures
        total(s.update(i, x)) < total(s),
    decreases s.len(),
{
    let t = s.update(i, x);
    if i == s.len() - 1 {
        assert(t.drop_last() =~= s.drop_last());
    } else {
        assert(t.drop_last() =~= s.drop_last().update(i, x));
        lemma_total_update(s.drop_last(), i, x);
    }
}

/// What one step of a search did.
pub(crate) enum Popped {
    /// The heap was empty: nothing changed.
    Empty,
    /// The item taken from the heap was out of date and was dropped.
    Stale,
    /// The node was given its label and its neighbours were offered theirs.
    Settled(u32),
}

/// The state that all label-setting searches share: the heap of tentative
/// labels, and for every node its length from the source and the node it was
/// reached over (`u32::MAX` both while the node has no label).
pub(crate) struct SearchCore {
    pub(crate) heap: MinHeap<PriorityHeapItem>,
    pub(crate) distances: Vec<u32>,
    pub(crate) previous_nodes: Vec<u32>,
    pub(crate) source_node: u32,
    pub(crate) amount_nodes_popped: u32,
    /// For a labelled node, how many nodes were labelled before it.
    pub(crate) rank: Ghost<Seq<nat>>,
    pub(crate) settled_count: Ghost<nat>,
    /// The estimates the priorities on the heap were computed with.
    pub(crate) potentials: Ghost<Seq<u64>>,
    /// Whether the labels are known to be shortest lengths.
    pub(crate) tight: Ghost<bool>,
}

impl SearchCore {
    pub(crate) open spec fn n(&self) -> int {
        self.distances@.len() as int
    }

    pub(crate) open spec fn settled(&self, v: int) -> bool {
        0 <= v < self.n() && self.distances@[v] != u32::MAX
    }

    pub(crate) open spec fn dist(&self, v: int) -> nat {
        self.distances@[v] as nat
    }

    pub(crate) open spec fn src(&self) -> int {
        self.source_node as int
    }

    pub(crate) open spec fn is_init(&self, it: PriorityHeapItem) -> bool {
        it.node_id == self.source_node && it.previous_node == self.source_node && it.distance == 0
    }

    /// What holds of every item on the heap.
    pub(crate) open spec fn item_ok(&self, arcs: Set<Arc>, it: PriorityHeapItem) -> bool {
        &&& it.node_id < self.n()
        &&& it.previous_node < self.n()
        &&& it.distance < u32::MAX
        &&& self.is_init(it) || {
            &&& self.settled(it.previous_node as int)
            &&& exists|w: nat| #[trigger]
                arcs.contains((it.previous_node as int, it.node_id as int, w)) && self.dist(
                    it.previous_node as int,
                ) + w <= it.distance
            &&& self.settled(it.node_id as int) ==> self.rank@[it.previous_node as int]
                < self.rank@[it.node_id as int]
        }
    }

    /// What holds of every labelled node: it hangs on a labelled node of
    /// lower rank, over an arc that its label accounts for.
    pub(crate) open spec fn tree_ok(&self, arcs: Set<Arc>, v: int) -> bool {
        &&& self.rank@[v] < self.settled_count@
        &&& if v == self.src() {
            self.previous_nodes@[v] == self.source_node && self.distances@[v] == 0
        } else {
            let u = self.previous_nodes@[v] as int;
            &&& self.settled(u)
            &&& self.rank@[u] < self.rank@[v]
            &&& exists|w: nat| #[trigger] arcs.contains((u, v, w)) && self.dist(u) + w <= self.dist(v)
        }
    }

    /// The heap item that offering the arc `a` puts on the heap.
    pub(crate) open spec fn offer(&self, a: Arc) -> PriorityHeapItem {
        PriorityHeapItem {
            node_id: a.1 as u32,
            distance: (self.dist(a.0) + a.2) as u32,
            priority: (self.dist(a.0) + a.2 + self.potentials@[a.1]) as u64,
            previous_node: a.0 as u32,
        }
    }

    /// The arc `a` out of a labelled node has been dealt with.
    pub(crate) open spec fn relaxed(&self, a: Arc) -> bool {
        ||| self.settled(a.1)
        ||| self.dist(a.0) + a.2 >= u32::MAX
        ||| self.heap@.contains(self.offer(a))
    }

    /// The part of the invariant that holds whatever the estimates are.
    #[verifier::opaque]
    pub(crate) open spec fn inv_base(&self, arcs: Set<Arc>) -> bool {
        &&& self.n() <= u32::MAX
        &&& self.previous_nodes@.len() == self.n()
        &&& self.rank@.len() == self.n()
        &&& self.potentials@.len() == self.n()
        &&& self.source_node < self.n()
        &&& self.heap.wf()
        &&& arcs_within(arcs, self.n())
        &&& forall|v: int| #[trigger] self.settled(v) ==> self.tree_ok(arcs, v)
        &&& forall|it: PriorityHeapItem| #[trigger] self.heap@.contains(it) ==> self.item_ok(arcs, it)
        &&& !self.settled(self.src()) ==> self.heap@.len() > 0 && forall|v: int| !self.settled(v)
    }

    /// The part of the invariant that makes labels shortest lengths; the
    /// arcs in `pending` are still to be offered.
    #[verifier::opaque]
    pub(crate) open spec fn inv_tight(&self, arcs: Set<Arc>, pending: Set<Arc>) -> bool {
        &&& consistent(arcs, self.potentials@)
        &&& forall|v: int| #[trigger]
            self.settled(v) ==> reaches(arcs, self.src(), v, self.dist(v)) && none_shorter(
                arcs,
                self.src(),
                v,
                self.dist(v),
            )
        &&& forall|it: PriorityHeapItem| #[trigger]
            self.heap@.contains(it) ==> self.is_init(it) || (it.priority == it.distance
                + self.potentials@[it.node_id as int] && reaches(
                arcs,
                self.src(),
                it.node_id as int,
                it.distance as nat,
            ))
        &&& forall|a: Arc| #[trigger]
            arcs.contains(a) && self.settled(a.0) && !pending.contains(a) ==> self.relaxed(a)
    }

    pub(crate) open spec fn inv_with(&self, arcs: Set<Arc>, pending: Set<Arc>) -> bool {
        &&& self.inv_base(arcs)
        &&& self.tight@ ==> self.inv_tight(arcs, pending)
    }

    /// The invariant of a search over `arcs`.
    pub(crate) open spec fn inv(&self, arcs: Set<Arc>) -> bool {
        self.inv_with(arcs, Set::empty())
    }

    /// What a search is sure to bring down with every step that does not
    /// find the heap empty.
    pub(crate) open spec fn weight(&self) -> nat {
        total(self.distances@)
    }

    /// The search runs without estimates.
    pub(crate) open spec fn plain(&self) -> bool {
        forall|i: int| 0 <= i < self.potentials@.len() ==> #[trigger] self.potentials@[i] == 0
    }

    /// No item on the heap ranks below the label of a node.
    pub(crate) open spec fn ordered(&self) -> bool {
        forall|v: int, it: PriorityHeapItem| #[trigger]
            self.settled(v) && #[trigger] self.heap@.contains(it) ==> self.dist(v) <= it.priority
    }

    /// Every node that got a label was counted when it was taken from the
    /// heap, as far as the count has not stopped at `u32::MAX`.
    pub(crate) open spec fn counted(&self) -> bool {
        self.amount_nodes_popped == u32::MAX || self.amount_nodes_popped >= self.settled_count@
    }

    /// No node has a label above that of `v`.
    pub(crate) open spec fn latest(&self, v: int) -> bool {
        forall|x: int| #[trigger] self.settled(x) ==> self.dist(x) <= self.dist(v)
    }
}

/// In a search without estimates whose heap holds no item below a label,
/// the label that the item of lowest rank gives is no lower than any
/// label given before, and no item left on the heap ranks below it.
pub(crate) proof fn lemma_settle_ordered(before: &SearchCore, after: &SearchCore, arcs: Set<Arc>, it: PriorityHeapItem)
    requires
        before.inv(arcs),
        before.tight@,
        before.plain(),
        before.ordered(),
        before.heap@.contains(it),
        forall|other: PriorityHeapItem| before.heap@.contains(other) ==> it.key() <= #[trigger] other.key(),
        it.distance < before.distances@[it.node_id as int],
        after.distances@ == before.distances@.update(it.node_id as int, it.distance),
        after.heap@ == before.heap@.remove(it),
    ensures
        after.ordered(),
        after.latest(it.node_id as int),
        forall|x: int| before.settled(x) ==> before.dist(x) <= it.distance,
{
    reveal(SearchCore::inv_base);
    reveal(SearchCore::inv_tight);
    let v = it.node_id as int;
    assert(before.item_ok(arcs, it));
    if before.is_init(it) {
        if before.settled(before.src()) {
            assert(before.tree_ok(arcs, before.src()));
        }
        assert(forall|x: int| !before.settled(x));
    } else {
        assert(it.priority == it.distance + before.potentials@[v]);
        assert(before.potentials@[v] == 0);
    }
    assert forall|x: int| before.settled(x) implies before.dist(x) <= it.distance by {
        assert(before.settled(x) && before.heap@.contains(it));
    }
    assert(0 <= v < before.n());
    assert(after.dist(v) == it.distance);
    assert forall|x: int| #[trigger] after.settled(x) implies after.dist(x) <= after.dist(v) by {
        if x != v {
            assert(before.settled(x));
            assert(after.dist(x) == before.dist(x));
        }
    }
    assert forall|x: int, other: PriorityHeapItem| #[trigger]
        after.settled(x) && #[trigger] after.heap@.contains(other) implies after.dist(x) <= other.priority by {
        assert(before.heap@.contains(other)) by {
            assert(before.heap@.count(other) >= after.heap@.count(other));
        }
        assert(it.key() <= other.key());
        if x != v {
            assert(before.settled(x));
        }
    }
}


/// Widening or narrowing the set of arcs still to be offered, where every
/// arc that leaves it has been dealt with.
pub(crate) proof fn lemma_pending(c: &SearchCore, arcs: Set<Arc>, wider: Set<Arc>, narrower: Set<Arc>)
    requires
        c.inv_with(arcs, wider),
        c.tight@ ==> forall|a: Arc| #[trigger]
            arcs.contains(a) && c.settled(a.0) && wider.contains(a) && !narrower.contains(a) ==> c.relaxed(a),
    ensures
        c.inv_with(arcs, narrower),
{
    reveal(SearchCore::inv_base);
    reveal(SearchCore::inv_tight);
    if c.tight@ {
        assert forall|a: Arc| #[trigger] arcs.contains(a) && c.settled(a.0) && !narrower.contains(a) implies c.relaxed(
            a,
        ) by {
            if wider.contains(a) {
            }
        }
    }
}

/// Dropping an out-of-date item keeps the invariant.
pub(crate) proof fn lemma_stale(before: &SearchCore, after: &SearchCore, arcs: Set<Arc>, it: PriorityHeapItem)
    requires
        before.inv(arcs),
        before.heap@.contains(it),
        after.heap@ == before.heap@.remove(it),
        after.heap.wf(),
        after.distances@ == before.distances@,
        after.previous_nodes@ == before.previous_nodes@,
        after.source_node == before.source_node,
        after.rank@ == before.rank@,
        after.settled_count@ == before.settled_count@,
        after.potentials@ == before.potentials@,
        after.tight@ == before.tight@,
        it.distance >= before.distances@[it.node_id as int],
    ensures
        after.inv(arcs),
{
    reveal(SearchCore::inv_base);
    reveal(SearchCore::inv_tight);
    assert(before.item_ok(arcs, it));
    assert(before.settled(it.node_id as int));
    assert forall|x: PriorityHeapItem| #[trigger] after.heap@.contains(x) implies before.heap@.contains(x) by {
        if x != it {
            assert(after.heap@.count(x) == before.heap@.count(x));
        }
    }
    assert forall|v: int| #[trigger] after.settled(v) implies after.tree_ok(arcs, v) by {
        assert(before.settled(v));
        assert(before.tree_ok(arcs, v));
        if v != after.src() {
            assert(before.settled(before.previous_nodes@[v] as int));
        }
    }
    assert forall|x: PriorityHeapItem| #[trigger] after.heap@.contains(x) implies after.item_ok(arcs, x) by {
        assert(before.item_ok(arcs, x));
    }
    assert(after.settled(after.src())) by {
        if !before.settled(before.src()) {
            assert(!before.settled(it.node_id as int));
        }
    }
    if after.tight@ {
        let none = Set::<Arc>::empty();
        assert forall|v: int| #[trigger] after.settled(v) implies reaches(arcs, after.src(), v, after.dist(v))
            && none_shorter(arcs, after.src(), v, after.dist(v)) by {
            assert(before.settled(v));
        }
        assert forall|a: Arc| #[trigger] arcs.contains(a) && after.settled(a.0) && !none.contains(a) implies after.relaxed(
            a,
        ) by {
            assert(before.settled(a.0));
            assert(before.relaxed(a));
            if before.settled(a.1) {
                assert(after.settled(a.1));
            } else if before.dist(a.0) + a.2 >= u32::MAX {
            } else {
                let o = before.offer(a);
                assert(after.offer(a) == o);
                assert(0 <= a.1 < before.n());
                if o == it {
                    assert(a.1 == it.node_id as int);
                    assert(false);
                } else {
                    assert(after.heap@.count(o) == before.heap@.count(o));
                }
            }
        }
    }
}

/// `after` is `before` with the item `it` taken from the heap, where it
/// ranked lowest, and made the label of its node.
pub(crate) open spec fn settles(before: &SearchCore, after: &SearchCore, it: PriorityHeapItem) -> bool {
    &&& before.heap@.contains(it)
    &&& forall|other: PriorityHeapItem| before.heap@.contains(other) ==> it.key() <= #[trigger] other.key()
    &&& after.heap@ == before.heap@.remove(it)
    &&& after.heap.wf()
    &&& it.distance < before.distances@[it.node_id as int]
    &&& after.distances@ == before.distances@.update(it.node_id as int, it.distance)
    &&& after.previous_nodes@ == before.previous_nodes@.update(it.node_id as int, it.previous_node)
    &&& after.source_node == before.source_node
    &&& before.settled(it.node_id as int) ==> after.rank@ == before.rank@ && after.settled_count@
        == before.settled_count@
    &&& !before.settled(it.node_id as int) ==> after.rank@ == before.rank@.update(
        it.node_id as int,
        before.settled_count@,
    ) && after.settled_count@ == before.settled_count@ + 1
    &&& after.potentials@ == before.potentials@
    &&& after.tight@ == before.tight@
}

/// Before the source has its label, the heap holds nothing but its first
/// item.
pub(crate) proof fn lemma_first_is_source(c: &SearchCore, arcs: Set<Arc>, it: PriorityHeapItem)
    requires
        c.inv_base(arcs),
        c.heap@.contains(it),
        !c.settled(c.src()),
    ensures
        c.is_init(it),
{
    reveal(SearchCore::inv_base);
    reveal(SearchCore::inv_tight);
    assert(c.item_ok(arcs, it));
    assert(!c.settled(it.previous_node as int));
}

/// Giving a node its label keeps the part of the invariant that holds
/// whatever the estimates are.
pub(crate) proof fn lemma_settle_base(before: &SearchCore, after: &SearchCore, arcs: Set<Arc>, it: PriorityHeapItem)
    requires
        before.inv_base(arcs),
        settles(before, after, it),
    ensures
        after.inv_base(arcs),
        after.settled(it.node_id as int),
        after.settled(after.src()),
        after.weight() < before.weight(),
{
    reveal(SearchCore::inv_base);
    reveal(SearchCore::inv_tight);
    let v = it.node_id as int;
    let s = before.src();
    assert(before.item_ok(arcs, it));
    lemma_total_update(before.distances@, v, it.distance);
    assert forall|x: PriorityHeapItem| #[trigger] after.heap@.contains(x) implies before.heap@.contains(x) by {
        if x != it {
            assert(after.heap@.count(x) == before.heap@.count(x));
        }
    }
    if !before.settled(s) {
        lemma_first_is_source(before, arcs, it);
    }
    assert(after.settled(s));
    assert forall|x: int| #[trigger] after.settled(x) implies after.tree_ok(arcs, x) by {
        if x == v {
            if before.is_init(it) {
                if before.settled(s) {
                    assert(before.tree_ok(arcs, s));
                }
            } else {
                let u = it.previous_node as int;
                assert(before.settled(u));
                assert(before.tree_ok(arcs, u));
                assert(u != v) by {
                    if before.settled(v) {
                        assert(before.rank@[u] < before.rank@[v]);
                    }
                }
                let w = choose|w: nat| #[trigger] arcs.contains((u, v, w)) && before.dist(u) + w <= it.distance;
                assert(arcs.contains((u, v, w)) && after.dist(u) + w <= after.dist(v));
                if v == s {
                    assert(before.settled(s));
                    assert(before.tree_ok(arcs, s));
                    assert(false);
                }
                if before.settled(v) {
                    assert(before.tree_ok(arcs, v));
                }
            }
        } else {
            assert(before.settled(x));
            assert(before.tree_ok(arcs, x));
            if x != s {
                let u = before.previous_nodes@[x] as int;
                assert(before.settled(u));
                let w = choose|w: nat| #[trigger] arcs.contains((u, x, w)) && before.dist(u) + w <= before.dist(x);
                assert(arcs.contains((u, x, w)) && after.dist(u) + w <= after.dist(x));
                assert(before.tree_ok(arcs, u));
            }
        }
    }
    assert forall|x: PriorityHeapItem| #[trigger] after.heap@.contains(x) implies after.item_ok(arcs, x) by {
        assert(before.item_ok(arcs, x));
        if !before.is_init(x) {
            let u = x.previous_node as int;
            let y = x.node_id as int;
            let w = choose|w: nat| #[trigger] arcs.contains((u, y, w)) && before.dist(u) + w <= x.distance;
            assert(arcs.contains((u, y, w)) && after.dist(u) + w <= x.distance);
            assert(before.tree_ok(arcs, u));
            if after.settled(y) && !before.settled(y) {
                assert(y == v);
            }
        }
    }
}

/// In a tight search the item that ranks lowest carries a shortest length,
/// and its node has no label yet.
pub(crate) proof fn lemma_settle_least(before: &SearchCore, arcs: Set<Arc>, it: PriorityHeapItem)
    requires
        before.inv(arcs),
        before.tight@,
        before.heap@.contains(it),
        forall|other: PriorityHeapItem| before.heap@.contains(other) ==> it.key() <= #[trigger] other.key(),
        it.distance < before.distances@[it.node_id as int],
    ensures
        !before.settled(it.node_id as int),
        reaches(arcs, before.src(), it.node_id as int, it.distance as nat),
        none_shorter(arcs, before.src(), it.node_id as int, it.distance as nat),
{
    reveal(SearchCore::inv_base);
    reveal(SearchCore::inv_tight);
    let v = it.node_id as int;
    let s = before.src();
    let none = Set::<Arc>::empty();
    let h = before.potentials@;
    assert(before.item_ok(arcs, it));
    if !before.settled(s) {
        lemma_first_is_source(before, arcs, it);
    }
    if before.is_init(it) {
        lemma_reaches_self(arcs, s);
        if before.settled(s) {
            assert(before.tree_ok(arcs, s));
        }
    } else {
        assert(reaches(arcs, s, v, it.distance as nat));
        if before.settled(v) {
            assert(none_shorter(arcs, s, v, before.dist(v)));
            assert(false);
        }
        assert(before.settled(s));
        assert forall|other: nat| reaches(arcs, s, v, other) implies it.distance <= other by {
            let k = choose|k: nat| reaches_in(arcs, s, v, other, k);
            let inside = Set::new(|x: int| before.settled(x));
            let r = lemma_crossing(arcs, inside, s, v, other, k);
            let a: Arc = (r.0, r.1, r.2);
            assert(before.settled(r.0));
            assert(none_shorter(arcs, s, r.0, before.dist(r.0)));
            assert(before.dist(r.0) <= r.3);
            assert(arcs.contains(a) && before.settled(a.0) && !none.contains(a));
            assert(before.relaxed(a));
            assert(0 <= r.1 < before.n());
            assert(!before.settled(r.1));
            if before.dist(r.0) + r.2 >= u32::MAX {
            } else {
                let o = before.offer(a);
                assert(before.heap@.contains(o));
                assert(it.key() <= o.key());
                let k2 = choose|k2: nat| reaches_in(arcs, r.1, v, r.4, k2);
                lemma_consistent_along(arcs, h, r.1, v, r.4, k2);
                assert(before.item_ok(arcs, o));
            }
        }
    }
}

/// In a tight search the node of an item that can be made a label has none.
pub(crate) proof fn lemma_popped_is_new(before: &SearchCore, arcs: Set<Arc>, it: PriorityHeapItem)
    requires
        before.inv(arcs),
        before.tight@,
        before.heap@.contains(it),
        it.distance < before.distances@[it.node_id as int],
    ensures
        !before.settled(it.node_id as int),
{
    reveal(SearchCore::inv_base);
    reveal(SearchCore::inv_tight);
    assert(before.item_ok(arcs, it));
    let s = before.src();
    let v = it.node_id as int;
    if before.settled(v) {
        assert(none_shorter(arcs, s, v, before.dist(v)));
        if before.is_init(it) {
            assert(before.tree_ok(arcs, s));
        } else {
            assert(reaches(arcs, s, v, it.distance as nat));
        }
    }
}

/// Giving a node its label keeps a tight search tight, but for the arcs
/// out of that node, which are still to be offered.
pub(crate) proof fn lemma_settle_tight(before: &SearchCore, after: &SearchCore, arcs: Set<Arc>, it: PriorityHeapItem)
    requires
        before.inv(arcs),
        before.tight@,
        settles(before, after, it),
    ensures
        after.inv_tight(arcs, Set::new(|a: Arc| a.0 == it.node_id as int)),
{
    reveal(SearchCore::inv_base);
    reveal(SearchCore::inv_tight);
    let v = it.node_id as int;
    let pending = Set::new(|a: Arc| a.0 == v);
    let none = Set::<Arc>::empty();
    lemma_settle_least(before, arcs, it);
    assert(before.item_ok(arcs, it));
    assert forall|x: PriorityHeapItem| #[trigger] after.heap@.contains(x) implies before.heap@.contains(x) by {
        if x != it {
            assert(after.heap@.count(x) == before.heap@.count(x));
        }
    }
    assert forall|x: int| #[trigger] after.settled(x) implies reaches(arcs, after.src(), x, after.dist(x))
        && none_shorter(arcs, after.src(), x, after.dist(x)) by {
        if x != v {
            assert(before.settled(x));
        }
    }
    assert forall|a: Arc| #[trigger] arcs.contains(a) && after.settled(a.0) && !pending.contains(a) implies after.relaxed(
        a,
    ) by {
        assert(a.0 != v);
        assert(before.settled(a.0));
        assert(arcs.contains(a) && before.settled(a.0) && !none.contains(a));
        assert(before.relaxed(a));
        if before.settled(a.1) {
        } else if before.dist(a.0) + a.2 >= u32::MAX {
        } else {
            let o = before.offer(a);
            assert(after.offer(a) == o);
            assert(0 <= a.1 < before.n());
            if o == it {
                assert(a.1 == v);
            } else {
                assert(after.heap@.count(o) == before.heap@.count(o));
            }
        }
    }
}

/// Offering an arc out of a labelled node to a node without label keeps the
/// invariant, and deals with that arc.
pub(crate) proof fn lemma_offer(
    before: &SearchCore,
    after: &SearchCore,
    arcs: Set<Arc>,
    pending: Set<Arc>,
    a: Arc,
    it: PriorityHeapItem,
)
    requires
        before.inv_with(arcs, pending),
        arcs.contains(a),
        before.settled(a.0),
        !before.settled(a.1),
        before.dist(a.0) + a.2 < u32::MAX,
        it.node_id == a.1,
        it.previous_node == a.0,
        it.distance == before.dist(a.0) + a.2,
        before.tight@ ==> it.priority == it.distance + before.potentials@[a.1],
        after.heap@ == before.heap@.insert(it),
        after.heap.wf(),
        after.distances@ == before.distances@,
        after.previous_nodes@ == before.previous_nodes@,
        after.source_node == before.source_node,
        after.rank@ == before.rank@,
        after.settled_count@ == before.settled_count@,
        after.potentials@ == before.potentials@,
        after.tight@ == before.tight@,
    ensures
        after.inv_with(arcs, pending),
        after.tight@ ==> after.relaxed(a),
{
    reveal(SearchCore::inv_base);
    reveal(SearchCore::inv_tight);
    assert forall|x: PriorityHeapItem| #[trigger] after.heap@.contains(x) implies x == it || before.heap@.contains(
        x,
    ) by {
        if x != it {
            assert(after.heap@.count(x) == before.heap@.count(x));
        }
    }
    assert forall|x: PriorityHeapItem| before.heap@.contains(x) implies #[trigger] after.heap@.contains(x) by {
        assert(after.heap@.count(x) >= before.heap@.count(x));
    }
    assert(after.heap@.contains(it)) by {
        assert(after.heap@.count(it) == before.heap@.count(it) + 1);
    }
    assert forall|v: int| #[trigger] after.settled(v) implies after.tree_ok(arcs, v) by {
        assert(before.settled(v));
        assert(before.tree_ok(arcs, v));
    }
    assert(0 <= a.0 < before.n() && 0 <= a.1 < before.n());
    assert forall|x: PriorityHeapItem| #[trigger] after.heap@.contains(x) implies after.item_ok(arcs, x) by {
        if before.heap@.contains(x) {
            assert(before.item_ok(arcs, x));
        } else {
            assert(x == it);
            assert(arcs.contains((it.previous_node as int, it.node_id as int, a.2)) && after.dist(
                it.previous_node as int,
            ) + a.2 <= it.distance);
        }
    }
    assert(after.heap@.len() > 0) by {
        assert(after.heap@.len() == before.heap@.len() + 1);
    }
    if after.tight@ {
        assert(after.offer(a) == it);
        assert forall|v: int| #[trigger] after.settled(v) implies reaches(arcs, after.src(), v, after.dist(v))
            && none_shorter(arcs, after.src(), v, after.dist(v)) by {
            assert(before.settled(v));
        }
        assert forall|x: PriorityHeapItem| #[trigger] after.heap@.contains(x) implies after.is_init(x) || (x.priority
            == x.distance + after.potentials@[x.node_id as int] && reaches(
            arcs,
            after.src(),
            x.node_id as int,
            x.distance as nat,
        )) by {
            if before.heap@.contains(x) {
            } else {
                assert(x == it);
                assert(reaches(arcs, before.src(), a.0, before.dist(a.0)));
                lemma_reaches_extend(arcs, before.src(), a.0, a.1, before.dist(a.0), a.2);
            }
        }
        assert forall|b: Arc| #[trigger] arcs.contains(b) && after.settled(b.0) && !pending.contains(b) implies after.relaxed(
            b,
        ) by {
            assert(before.settled(b.0));
            assert(before.relaxed(b));
            assert(after.offer(b) == before.offer(b));
        }
    }
}


/// The invariant speaks of the heap through its items alone.
pub(crate) proof fn lemma_same(before: &SearchCore, after: &SearchCore, arcs: Set<Arc>)
    requires
        before.inv(arcs),
        after.heap@ == before.heap@,
        after.heap.wf(),
        after.distances@ == before.distances@,
        after.previous_nodes@ == before.previous_nodes@,
        after.source_node == before.source_node,
        after.rank@ == before.rank@,
        after.settled_count@ == before.settled_count@,
        after.potentials@ == before.potentials@,
        after.tight@ == before.tight@,
    ensures
        after.inv(arcs),
{
    reveal(SearchCore::inv_base);
    reveal(SearchCore::inv_tight);
    assert forall|v: int| #[trigger] after.settled(v) implies after.tree_ok(arcs, v) by {
        assert(before.settled(v));
        assert(before.tree_ok(arcs, v));
    }
    assert forall|x: PriorityHeapItem| #[trigger] after.heap@.contains(x) implies after.item_ok(arcs, x) by {
        assert(before.item_ok(arcs, x));
    }
    assert(!after.settled(after.src()) ==> after.heap@.len() > 0 && forall|v: int| !after.settled(v)) by {
        if !after.settled(after.src()) {
            assert(!before.settled(before.src()));
            assert forall|v: int| !after.settled(v) by {
                assert(!before.settled(v));
            }
        }
    }
    assert(forall|v: int| #[trigger] after.settled(v) ==> after.tree_ok(arcs, v));
    assert(forall|it: PriorityHeapItem| #[trigger] after.heap@.contains(it) ==> after.item_ok(arcs, it));
    assert(after.inv_base(arcs));
    if after.tight@ {
        let none = Set::<Arc>::empty();
        assert forall|v: int| #[trigger] after.settled(v) implies reaches(arcs, after.src(), v, after.dist(v))
            && none_shorter(arcs, after.src(), v, after.dist(v)) by {
            assert(before.settled(v));
        }
        assert forall|x: PriorityHeapItem| #[trigger] after.heap@.contains(x) implies after.is_init(x) || (x.priority
            == x.distance + after.potentials@[x.node_id as int] && reaches(
            arcs,
            after.src(),
            x.node_id as int,
            x.distance as nat,
        )) by {
            assert(before.heap@.contains(x));
        }
        assert forall|a: Arc| #[trigger] arcs.contains(a) && after.settled(a.0) && !none.contains(a) implies after.relaxed(
            a,
        ) by {
            assert(before.settled(a.0));
            assert(before.relaxed(a));
            assert(after.offer(a) == before.offer(a));
        }
    }
}

/// Giving a node its label keeps the invariant, but for the arcs out of
/// that node, which are still to be offered.
pub(crate) proof fn lemma_settle(before: &SearchCore, after: &SearchCore, arcs: Set<Arc>, it: PriorityHeapItem)
    requires
        before.inv(arcs),
        settles(before, after, it),
    ensures
        after.inv_with(arcs, Set::new(|a: Arc| a.0 == it.node_id as int)),
        after.settled(it.node_id as int),
        after.weight() < before.weight(),
{
    lemma_settle_base(before, after, arcs, it);
    if before.tight@ {
        lemma_settle_tight(before, after, arcs, it);
    }
}

/// Before the source has its label, no node has one.
pub(crate) proof fn lemma_fresh_unlabelled(c: &SearchCore, arcs: Set<Arc>)
    requires
        c.inv_base(arcs),
        c.fresh(),
    ensures
        forall|v: int| !c.settled(v),
{
    reveal(SearchCore::inv_base);
}

/// A search that has not begun may take other estimates.
pub(crate) proof fn lemma_retarget(before: &SearchCore, after: &SearchCore, arcs: Set<Arc>)
    requires
        before.inv(arcs),
        before.fresh(),
        after.heap == before.heap,
        after.distances@ == before.distances@,
        after.previous_nodes@ == before.previous_nodes@,
        after.source_node == before.source_node,
        after.rank@ == before.rank@,
        after.settled_count@ == before.settled_count@,
        after.potentials@.len() == before.n(),
        after.tight@ ==> consistent(arcs, after.potentials@),
    ensures
        after.inv(arcs),
        after.fresh(),
{
    reveal(SearchCore::inv_base);
    reveal(SearchCore::inv_tight);
    assert forall|x: PriorityHeapItem| #[trigger] after.heap@.contains(x) implies after.item_ok(arcs, x)
        && after.is_init(x) by {
        assert(before.item_ok(arcs, x));
        assert(!before.settled(x.previous_node as int));
    }
    assert forall|v: int| !after.settled(v) by {
        assert(!before.settled(v));
    }
}

/// A search may always give up the claim that its labels are shortest
/// lengths.
pub(crate) proof fn lemma_loosen(before: &SearchCore, after: &SearchCore, arcs: Set<Arc>)
    requires
        before.inv(arcs),
        after.heap == before.heap,
        after.distances@ == before.distances@,
        after.previous_nodes@ == before.previous_nodes@,
        after.source_node == before.source_node,
        after.rank@ == before.rank@,
        after.settled_count@ == before.settled_count@,
        after.potentials@.len() == before.n(),
        !after.tight@,
    ensures
        after.inv(arcs),
{
    reveal(SearchCore::inv_base);
    assert forall|v: int| #[trigger] after.settled(v) implies after.tree_ok(arcs, v) by {
        assert(before.settled(v));
        assert(before.tree_ok(arcs, v));
    }
    assert forall|x: PriorityHeapItem| #[trigger] after.heap@.contains(x) implies after.item_ok(arcs, x) by {
        assert(before.item_ok(arcs, x));
    }
    assert(!after.settled(after.src()) ==> after.heap@.len() > 0 && forall|v: int| !after.settled(v)) by {
        if !after.settled(after.src()) {
            assert(!before.settled(before.src()));
            assert forall|v: int| !after.settled(v) by {
                assert(!before.settled(v));
            }
        }
    }
}

/// What the invariant says of the shape of the state.
pub(crate) proof fn lemma_shape(c: &SearchCore, arcs: Set<Arc>)
    requires
        c.inv_base(arcs),
    ensures
        c.n() <= u32::MAX,
        c.previous_nodes@.len() == c.n(),
        c.rank@.len() == c.n(),
        c.potentials@.len() == c.n(),
        c.source_node < c.n(),
        c.heap.wf(),
        arcs_within(arcs, c.n()),
        !c.settled(c.src()) ==> c.heap@.len() > 0,
{
    reveal(SearchCore::inv_base);
}

/// What the invariant says of an item on the heap.
pub(crate) proof fn lemma_item(c: &SearchCore, arcs: Set<Arc>, it: PriorityHeapItem)
    requires
        c.inv_base(arcs),
        c.heap@.contains(it),
    ensures
        c.item_ok(arcs, it),
{
    reveal(SearchCore::inv_base);
}

/// What the invariant says of a labelled node.
pub(crate) proof fn lemma_tree(c: &SearchCore, arcs: Set<Arc>, v: int)
    requires
        c.inv_base(arcs),
        c.settled(v),
    ensures
        c.tree_ok(arcs, v),
        c.settled(c.src()),
{
    reveal(SearchCore::inv_base);
}

/// In a tight search every label is a shortest length.
pub(crate) proof fn lemma_label_shortest(c: &SearchCore, arcs: Set<Arc>, v: int)
    requires
        c.inv(arcs),
        c.tight@,
        c.settled(v),
    ensures
        reaches(arcs, c.src(), v, c.dist(v)),
        none_shorter(arcs, c.src(), v, c.dist(v)),
        consistent(arcs, c.potentials@),
{
    reveal(SearchCore::inv_tight);
}

/// Once the heap of a tight search is empty, a node without label cannot be
/// reached over less than `u32::MAX`.
pub(crate) proof fn lemma_exhausted(c: &SearchCore, arcs: Set<Arc>, t: int)
    requires
        c.inv(arcs),
        c.tight@,
        c.heap@.len() == 0,
        0 <= t < c.n(),
        !c.settled(t),
    ensures
        crate::algorithms::paths::out_of_reach(arcs, c.src(), t),
{
    reveal(SearchCore::inv_base);
    reveal(SearchCore::inv_tight);
    let s = c.src();
    let none = Set::<Arc>::empty();
    assert(c.settled(s));
    assert forall|d: nat| reaches(arcs, s, t, d) implies d >= u32::MAX by {
        let k = choose|k: nat| reaches_in(arcs, s, t, d, k);
        let inside = Set::new(|x: int| c.settled(x));
        let r = lemma_crossing(arcs, inside, s, t, d, k);
        let a: Arc = (r.0, r.1, r.2);
        assert(c.settled(r.0));
        assert(none_shorter(arcs, s, r.0, c.dist(r.0)));
        assert(arcs.contains(a) && c.settled(a.0) && !none.contains(a));
        assert(c.relaxed(a));
        assert(0 <= r.1 < c.n());
        assert(!c.settled(r.1));
        assert(c.heap@.count(c.offer(a)) == 0) by {
            vstd::multiset::lemma_multiset_empty_len(c.heap@);
        }
    }
}

/// The entries of `v`, last first.
pub fn reversed(v: &Vec<u32>) -> (r: Vec<u32>)
    ensures
        r@.len() == v@.len(),
        forall|i: int| 0 <= i < r@.len() ==> r@[i] == v@[v@.len() - 1 - i],
{
    let mut r: Vec<u32> = Vec::with_capacity(v.len());
    let mut i: usize = v.len();
    while i > 0
        invariant
            i <= v@.len(),
            r@.len() == v@.len() - i,
            forall|j: int| 0 <= j < r@.len() ==> r@[j] == v@[v@.len() - 1 - j],
        decreases i,
    {
        i -= 1;
        r.push(v[i]);
    }
    r
}

/// A vector of `n` entries, all `u32::MAX`.
pub fn unlabelled(n: usize) -> (v: Vec<u32>)
    ensures
        v@.len() == n,
        forall|i: int| 0 <= i < n ==> v@[i] == u32::MAX,
{
    let mut v: Vec<u32> = Vec::with_capacity(n);
    let mut i: usize = 0;
    while i < n
        invariant
            i <= n,
            v@.len() == i,
            forall|j: int| 0 <= j < i ==> v@[j] == u32::MAX,
        decreases n - i,
    {
        v.push(u32::MAX);
        i += 1;
    }
    v
}

impl SearchCore {
    /// A search that has not begun: no node has a label, and the heap
    /// holds the first item, that of the source.
    pub(crate) open spec fn fresh(&self) -> bool {
        !self.settled(self.src())
    }

    /// The state that every search begins with: no node has a label or a
    /// node that it was reached over, and the heap holds the item of the
    /// source alone.
    pub(crate) open spec fn at_start(&self) -> bool {
        &&& self.previous_nodes@.len() == self.n()
        &&& forall|v: int|
            0 <= v < self.n() ==> (#[trigger] self.distances@[v]) == u32::MAX && self.previous_nodes@[v] == u32::MAX
        &&& self.heap@ == vstd::multiset::Multiset::<PriorityHeapItem>::empty().insert(
            (PriorityHeapItem {
                node_id: self.source_node,
                distance: 0,
                priority: 0,
                previous_node: self.source_node,
            }),
        )
    }

    /// A search from `source_node` over `n` nodes, about to begin.
    pub(crate) fn new(
        n: usize,
        source_node: u32,
        Ghost(arcs): Ghost<Set<Arc>>,
        Ghost(potentials): Ghost<Seq<u64>>,
    ) -> (c: SearchCore)
        requires
            n <= u32::MAX,
            source_node < n,
            arcs_within(arcs, n as int),
            potentials.len() == n,
        ensures
            c.inv(arcs),
            c.n() == n,
            c.source_node == source_node,
            c.amount_nodes_popped == 0,
            c.potentials@ == potentials,
            c.tight@ == consistent(arcs, potentials),
            c.fresh(),
            c.at_start(),
            c.settled_count@ == 0,
    {
        let mut heap: MinHeap<PriorityHeapItem> = MinHeap::with_capacity(n);
        let distances = unlabelled(n);
        let previous_nodes = unlabelled(n);
        let first = PriorityHeapItem { node_id: source_node, distance: 0, priority: 0, previous_node: source_node };
        heap.push(first);
        let c = SearchCore {
            heap,
            distances,
            previous_nodes,
            source_node,
            amount_nodes_popped: 0,
            rank: Ghost(Seq::new(n as nat, |i: int| 0nat)),
            settled_count: Ghost(0nat),
            potentials: Ghost(potentials),
            tight: Ghost(consistent(arcs, potentials)),
        };
        proof {
            c.lemma_fresh_inv(arcs, first);
        }
        c
    }

    /// A state without labels, whose heap holds the first item alone,
    /// meets the invariant.
    pub(crate) proof fn lemma_fresh_inv(&self, arcs: Set<Arc>, first: PriorityHeapItem)
        requires
            self.n() <= u32::MAX,
            self.previous_nodes@.len() == self.n(),
            self.rank@.len() == self.n(),
            self.potentials@.len() == self.n(),
            self.source_node < self.n(),
            self.heap.wf(),
            arcs_within(arcs, self.n()),
            forall|i: int| 0 <= i < self.n() ==> self.distances@[i] == u32::MAX,
            self.is_init(first),
            self.heap@ == vstd::multiset::Multiset::<PriorityHeapItem>::empty().insert(first),
            self.tight@ ==> consistent(arcs, self.potentials@),
        ensures
            self.inv(arcs),
            self.fresh(),
    {
        reveal(SearchCore::inv_base);
        reveal(SearchCore::inv_tight);
        assert forall|it: PriorityHeapItem| #[trigger] self.heap@.contains(it) implies it == first by {
            if it != first {
                assert(self.heap@.count(it) == 0);
            }
        }
        assert(self.heap@.len() == 1);
    }

    /// Begins anew from `source_node`: drops every label and every item,
    /// and puts the first item of the new source on the heap.
    pub(crate) fn reset(&mut self, source_node: u32, Ghost(arcs): Ghost<Set<Arc>>)
        requires
            old(self).inv(arcs),
            source_node < old(self).n(),
        ensures
            final(self).inv(arcs),
            final(self).n() == old(self).n(),
            final(self).source_node == source_node,
            final(self).amount_nodes_popped == old(self).amount_nodes_popped,
            final(self).potentials@ == old(self).potentials@,
            final(self).tight@ == old(self).tight@,
            final(self).fresh(),
            final(self).at_start(),
            final(self).settled_count@ == 0,
    {
        proof {
            lemma_shape(&*self, arcs);
            reveal(SearchCore::inv_tight);
        }
        let n: usize = self.distances.len();
        self.source_node = source_node;
        self.heap.clear();
        let first = PriorityHeapItem { node_id: source_node, distance: 0, priority: 0, previous_node: source_node };
        self.heap.push(first);
        let mut i: usize = 0;
        while i < n
            invariant
                i <= n,
                self.distances@.len() == n,
                self.previous_nodes@.len() == n,
                forall|j: int| 0 <= j < i ==> self.distances@[j] == u32::MAX && self.previous_nodes@[j] == u32::MAX,
                self.heap@ == vstd::multiset::Multiset::<PriorityHeapItem>::empty().insert(first),
                self.heap.wf(),
                self.source_node == source_node,
                self.amount_nodes_popped == old(self).amount_nodes_popped,
                self.potentials@ == old(self).potentials@,
                self.tight@ == old(self).tight@,
                self.rank@ == old(self).rank@,
            decreases n - i,
        {
            self.distances[i] = u32::MAX;
            self.previous_nodes[i] = u32::MAX;
            i += 1;
        }
        self.settled_count = Ghost(0nat);
        proof {
            self.lemma_fresh_inv(arcs, first);
        }
    }

    /// The way to the labelled node `dest`, as the labels record it: from
    /// `dest` back over the nodes it was reached over, then turned round.
    /// For the source itself this lists the source alone.
    pub(crate) fn route_to(&self, dest: u32, Ghost(arcs): Ghost<Set<Arc>>) -> (route: Vec<u32>)
        requires
            self.inv_base(arcs),
            self.settled(dest as int),
        ensures
            dest == self.source_node ==> route@ == seq![dest],
            dest != self.source_node ==> route@.len() >= 2 && route@[0] == self.source_node && route@.last()
                == dest && exists|len: nat|
                len <= self.dist(dest as int) && is_route(arcs, crate::algorithms::paths::ids(route@), len),
            route@.len() <= self.settled_count@,
    {
        proof {
            lemma_shape(self, arcs);
        }
        if dest == self.source_node {
            let mut only: Vec<u32> = Vec::new();
            only.push(dest);
            proof {
                lemma_tree(self, arcs, dest as int);
            }
            return only;
        }
        let mut previous_node: u32 = self.previous_nodes[dest as usize];
        let mut nodes: Vec<u32> = Vec::new();
        nodes.push(dest);
        let ghost mut cur: int = dest as int;
        let ghost mut g: Seq<int> = seq![dest as int];
        let ghost mut len: nat = 0;
        proof {
            lemma_tree(self, arcs, dest as int);
        }
        while previous_node != self.source_node
            invariant
                self.inv_base(arcs),
                self.settled(cur),
                cur == nodes@.last(),
                nodes@.len() >= 1,
                nodes@[0] == dest,
                previous_node == self.previous_nodes@[cur],
                dest == self.source_node ==> previous_node == self.source_node && nodes@ == seq![dest],
                dest != self.source_node ==> cur != self.src(),
                g.len() == nodes@.len(),
                forall|i: int| 0 <= i < g.len() ==> g[i] == nodes@[nodes@.len() - 1 - i] as int,
                is_route(arcs, g, len),
                len + self.dist(cur) <= self.dist(dest as int),
                nodes@.len() + self.rank@[cur] <= self.settled_count@,
            decreases self.rank@[cur],
        {
            proof {
                lemma_shape(self, arcs);
                lemma_tree(self, arcs, cur);
                let u = previous_node as int;
                let w = choose|w: nat| #[trigger] arcs.contains((u, cur, w)) && self.dist(u) + w <= self.dist(cur);
                lemma_route_prepend(arcs, g, len, u, w);
                g = seq![u] + g;
                len = len + w;
                cur = u;
                lemma_tree(self, arcs, u);
            }
            nodes.push(previous_node);
            previous_node = self.previous_nodes[previous_node as usize];
        }
        proof {
            if dest != self.source_node {
                lemma_tree(self, arcs, cur);
                let u = self.src();
                let w = choose|w: nat| #[trigger] arcs.contains((u, cur, w)) && self.dist(u) + w <= self.dist(cur);
                lemma_route_prepend(arcs, g, len, u, w);
                g = seq![u] + g;
                len = len + w;
            }
        }
        nodes.push(self.source_node);
        let route = reversed(&nodes);
        proof {
            assert(crate::algorithms::paths::ids(route@) =~= g);
        }
        route
    }
}


/// The arcs out of `v` that stand at position `i` or later in the list of
/// its pairs.
pub open spec fn pending_from(graph: &AdjacencyArray, v: int, i: int) -> Set<Arc> {
    Set::new(
        |a: Arc|
            a.0 == v && exists|j: int| i <= 2 * j && 0 <= j < graph.degree(v) && #[trigger] graph.arc_at(v, j) == a,
    )
}

/// Between position `i` and the next pair, only the arc at `i` leaves the
/// set of arcs still to be offered.
pub proof fn lemma_pending_step(graph: &AdjacencyArray, v: int, i: int, a: Arc)
    requires
        i % 2 == 0,
        0 <= i,
        pending_from(graph, v, i).contains(a),
        !pending_from(graph, v, i + 2).contains(a),
    ensures
        a == graph.arc_at(v, i / 2),
{
    let j = choose|j: int| i <= 2 * j && 0 <= j < graph.degree(v) && #[trigger] graph.arc_at(v, j) == a;
    if i + 2 <= 2 * j {
        assert(pending_from(graph, v, i + 2).contains(a));
    }
    assert(2 * j == i);
}

impl SearchCore {
    /// Offers a label to every neighbour of the freshly labelled node `v`
    /// that has none and is not in `removed`.
    fn relax(
        &mut self,
        graph: &AdjacencyArray,
        removed: Option<&HashMap<u32, bool>>,
        h: Option<&Vec<u64>>,
        v: u32,
    )
        requires
            graph.wf(),
            graph.node_count() == old(self).n(),
            old(self).inv_with(visible_arcs(graph, hidden_nodes(removed)), pending_from(graph, v as int, 0)),
            old(self).settled(v as int),
            h matches Some(hv) ==> hv@.len() == old(self).n() && forall|i: int|
                0 <= i < hv@.len() ==> hv@[i] <= MAX_ESTIMATE,
            old(self).tight@ ==> old(self).potentials@ == estimates(h, old(self).n()),
        ensures
            final(self).inv(visible_arcs(graph, hidden_nodes(removed))),
            final(self).distances@ == old(self).distances@,
            final(self).previous_nodes@ == old(self).previous_nodes@,
            final(self).source_node == old(self).source_node,
            final(self).potentials@ == old(self).potentials@,
            final(self).tight@ == old(self).tight@,
            final(self).amount_nodes_popped == old(self).amount_nodes_popped,
            final(self).settled_count@ == old(self).settled_count@,
            old(self).ordered() && old(self).latest(v as int) ==> final(self).ordered(),
    {
        broadcast use vstd::std_specs::hash::group_hash_axioms;

        let ghost arcs = visible_arcs(graph, hidden_nodes(removed));
        proof {
            lemma_shape(&*self, arcs);
        }
        let base: u32 = self.distances[v as usize];
        let nb = graph.get_neighbors_of_node_and_distances(v);
        proof {
            graph.lemma_offsets_ordered(v + 1, graph.node_count());
            graph.lemma_offsets_ordered(v as int, v + 1);
        }
        let len: usize = nb.len();
        let mut i: usize = 0;
        while i + 1 < len
            invariant
                graph.wf(),
                graph.node_count() == self.n(),
                v < self.n(),
                arcs == visible_arcs(graph, hidden_nodes(removed)),
                nb@ == graph.payload().subrange(graph.offsets()[v as int] as int, graph.offsets()[v + 1] as int),
                len == nb@.len(),
                len == 2 * graph.degree(v as int),
                graph.offsets()[v as int] <= graph.offsets()[v + 1] <= graph.payload().len(),
                i % 2 == 0,
                i <= len,
                self.inv_with(arcs, pending_from(graph, v as int, i as int)),
                self.settled(v as int),
                self.distances@ == old(self).distances@,
                self.previous_nodes@ == old(self).previous_nodes@,
                self.source_node == old(self).source_node,
                self.potentials@ == old(self).potentials@,
                self.tight@ == old(self).tight@,
                self.amount_nodes_popped == old(self).amount_nodes_popped,
                self.distances@[v as int] == base,
                base != u32::MAX,
                h matches Some(hv) ==> hv@.len() == self.n() && forall|k: int|
                    0 <= k < hv@.len() ==> hv@[k] <= MAX_ESTIMATE,
                self.tight@ ==> self.potentials@ == estimates(h, self.n()),
                self.settled_count@ == old(self).settled_count@,
                old(self).ordered() && old(self).latest(v as int) ==> self.ordered(),
            decreases len - i,
        {
            let next: u32 = nb[i];
            let w: u32 = nb[i + 1];
            let ghost a: Arc = (v as int, next as int, w as nat);
            let ghost wider = pending_from(graph, v as int, i as int);
            let ghost narrower = pending_from(graph, v as int, i + 2);
            proof {
                graph.lemma_slot_is_arc(v as int, i as int);
                assert(a == graph.arc_at(v as int, i as int / 2));
                assert(graph.arcs().contains(a));
                lemma_shape(&*self, arcs);
            }
            let hidden: bool = match removed {
                Some(m) => m.contains_key(&next),
                None => false,
            };
            proof {
                assert(hidden == hidden_nodes(removed).contains(next));
                assert(arcs.contains(a) == !hidden);
            }
            if !hidden && w != u32::MAX && self.distances[next as usize] == u32::MAX && w < u32::MAX - base {
                let d: u32 = base + w;
                let est: u64 = match h {
                    Some(hv) => hv[next as usize],
                    None => 0,
                };
                let item = PriorityHeapItem { node_id: next, distance: d, priority: d as u64 + est, previous_node: v };
                let ghost pre = *self;
                self.heap.push(item);
                proof {
                    lemma_offer(&pre, &*self, arcs, wider, a, item);
                    if old(self).ordered() && old(self).latest(v as int) {
                        assert forall|x: int, other: PriorityHeapItem| #[trigger]
                            self.settled(x) && #[trigger] self.heap@.contains(other) implies self.dist(x)
                            <= other.priority by {
                            assert(pre.settled(x));
                            if other != item {
                                assert(pre.heap@.contains(other));
                            } else {
                                assert(old(self).settled(x));
                            }
                        }
                    }
                }
            }
            proof {
                if self.tight@ {
                    assert forall|b: Arc| #[trigger]
                        arcs.contains(b) && self.settled(b.0) && wider.contains(b) && !narrower.contains(b) implies self.relaxed(
                        b,
                    ) by {
                        lemma_pending_step(graph, v as int, i as int, b);
                        assert(b == a);
                    }
                }
                lemma_pending(&*self, arcs, wider, narrower);
            }
            i += 2;
        }
        proof {
            let p = pending_from(graph, v as int, i as int);
            let none = Set::<Arc>::empty();
            if self.tight@ {
                assert forall|b: Arc| #[trigger]
                    arcs.contains(b) && self.settled(b.0) && p.contains(b) && !none.contains(b) implies self.relaxed(
                    b,
                ) by {
                    let j = choose|j: int|
                        i <= 2 * j && 0 <= j < graph.degree(v as int) && #[trigger] graph.arc_at(v as int, j) == b;
                    assert(false);
                }
            }
            lemma_pending(&*self, arcs, p, none);
        }
    }

    /// One step of the search: takes the item of lowest rank from the heap;
    /// drops it if its node has a label that is no longer; else makes it the
    /// label of its node and offers a label to every neighbour that has
    /// none and is not in `removed`. A label of `u32::MAX` or more is never
    /// offered. With `count`, the step is counted in `amount_nodes_popped`,
    /// which stops at `u32::MAX`.
    pub(crate) fn step(
        &mut self,
        graph: &AdjacencyArray,
        removed: Option<&HashMap<u32, bool>>,
        h: Option<&Vec<u64>>,
        count: bool,
    ) -> (r: Popped)
        requires
            graph.wf(),
            graph.node_count() == old(self).n(),
            old(self).inv(visible_arcs(graph, hidden_nodes(removed))),
            h matches Some(hv) ==> hv@.len() == old(self).n() && forall|i: int|
                0 <= i < hv@.len() ==> hv@[i] <= MAX_ESTIMATE,
            old(self).tight@ ==> old(self).potentials@ == estimates(h, old(self).n()),
        ensures
            final(self).inv(visible_arcs(graph, hidden_nodes(removed))),
            final(self).n() == old(self).n(),
            final(self).source_node == old(self).source_node,
            final(self).potentials@ == old(self).potentials@,
            final(self).tight@ == old(self).tight@,
            final(self).amount_nodes_popped == (if count && !(r is Empty) && old(self).amount_nodes_popped
                < u32::MAX {
                (old(self).amount_nodes_popped + 1) as u32
            } else {
                old(self).amount_nodes_popped
            }),
            forall|x: int| old(self).settled(x) ==> final(self).settled(x),
            r is Empty ==> old(self).heap@.len() == 0 && final(self).heap@ == old(self).heap@
                && final(self).distances@ == old(self).distances@ && final(self).previous_nodes@ == old(self).previous_nodes@,
            r is Stale ==> final(self).distances@ == old(self).distances@ && final(self).previous_nodes@ == old(self).previous_nodes@
                && final(self).heap@.len() + 1 == old(self).heap@.len(),
            r matches Popped::Settled(v) ==> v < final(self).n() && final(self).settled(v as int) && final(self).weight()
                < old(self).weight(),
            r matches Popped::Settled(v) ==> forall|x: int| final(self).settled(x) ==> old(self).settled(x) || x == v,
            r matches Popped::Settled(v) ==> old(self).tight@ ==> !old(self).settled(v as int),
            r matches Popped::Settled(v) ==> final(self).distances@ == old(self).distances@.update(
                v as int,
                final(self).distances@[v as int],
            ),
            old(self).tight@ && old(self).plain() && old(self).ordered() ==> final(self).ordered(),
            count && old(self).counted() ==> final(self).counted(),
            r matches Popped::Settled(v) ==> old(self).tight@ && old(self).plain() && old(self).ordered() ==> forall|
                x: int,
            | #[trigger] old(self).settled(x) ==> old(self).dist(x) <= final(self).dist(v as int),
    {
        let ghost arcs = visible_arcs(graph, hidden_nodes(removed));
        let ghost before = *self;
        proof {
            lemma_shape(&before, arcs);
        }
        match self.heap.pop() {
            None => {
                proof {
                    lemma_same(&before, &*self, arcs);
                }
                Popped::Empty
            },
            Some(it) => {
                if count && self.amount_nodes_popped < u32::MAX {
                    self.amount_nodes_popped = self.amount_nodes_popped + 1;
                }
                proof {
                    lemma_item(&before, arcs, it);
                }
                let v: u32 = it.node_id;
                if it.distance >= self.distances[v as usize] {
                    proof {
                        lemma_stale(&before, &*self, arcs, it);
                        if before.ordered() {
                            assert forall|x: int, other: PriorityHeapItem| #[trigger]
                                self.settled(x) && #[trigger] self.heap@.contains(other) implies self.dist(x)
                                <= other.priority by {
                                assert(before.heap@.count(other) >= self.heap@.count(other));
                                assert(before.settled(x) && before.heap@.contains(other));
                            }
                        }
                    }
                    Popped::Stale
                } else {
                    self.previous_nodes[v as usize] = it.previous_node;
                    self.distances[v as usize] = it.distance;
                    proof {
                        if !before.settled(v as int) {
                            self.rank@ = before.rank@.update(v as int, before.settled_count@);
                            self.settled_count@ = before.settled_count@ + 1;
                        }
                        lemma_settle(&before, &*self, arcs, it);
                        graph.lemma_arcs_within();
                        let all = Set::new(|a: Arc| a.0 == v as int);
                        let opening = pending_from(graph, v as int, 0);
                        if self.tight@ {
                            assert forall|a: Arc| #[trigger]
                                arcs.contains(a) && self.settled(a.0) && all.contains(a) && !opening.contains(
                                    a,
                                ) implies self.relaxed(a) by {
                                assert(graph.arcs().contains(a));
                                let j = choose|j: int|
                                    0 <= j < graph.degree(a.0) && #[trigger] graph.arc_at(a.0, j) == a;
                                assert(0 <= 2 * j);
                            }
                        }
                        lemma_pending(&*self, arcs, all, opening);
                    }
                    let ghost labelled = *self;
                    proof {
                        if before.tight@ && before.plain() && before.ordered() {
                            lemma_settle_ordered(&before, &labelled, arcs, it);
                        }
                    }
                    self.relax(graph, removed, h, v);
                    proof {
                        assert forall|x: int| before.settled(x) implies self.settled(x) by {}
                        assert forall|x: int| self.settled(x) implies before.settled(x) || x == v by {}
                        if before.tight@ {
                            lemma_popped_is_new(&before, arcs, it);
                        }
                    }
                    Popped::Settled(v)
                }
            },
        }
    }
}

} // verus!
