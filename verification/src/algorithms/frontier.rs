use vstd::prelude::*;
use crate::model::adjacency_array::{AdjacencyArray, Arc};
use crate::model::heap_item::HeapItem;
use crate::model::min_heap::{MinHeap, HeapKey};
use crate::algorithms::paths::{is_route, arcs_within, lemma_route_prepend, ids, reaches, reaches_in, none_shorter,
    lemma_reaches_self, lemma_reaches_extend, lemma_crossing};
use crate::algorithms::search_core::{total, lemma_total_update, unlabelled};

verus! {

/// One of the two searches of a bidirectional search: the heap of
/// tentative labels, and for every node its length from the root of the
/// search and the node it was reached over. A node gets its label when it
/// is offered one, and a shorter one whenever one is offered.
pub(crate) struct Frontier {
    pub(crate) heap: MinHeap<HeapItem>,
    pub(crate) distances: Vec<u32>,
    pub(crate) previous_nodes: Vec<u32>,
    pub(crate) popped: usize,
    /// For every node, when its label last changed.
    pub(crate) stamp: Ghost<Seq<nat>>,
    pub(crate) clock: Ghost<nat>,
    /// The nodes that were taken from the heap with the label that they
    /// have.
    pub(crate) done: Ghost<Set<int>>,
}

impl Frontier {
    pub(crate) open spec fn n(&self) -> int {
        self.distances@.len() as int
    }

    pub(crate) open spec fn dist(&self, v: int) -> nat {
        self.distances@[v] as nat
    }

    /// The node `v` was reached over another node.
    pub(crate) open spec fn reached(&self, v: int) -> bool {
        0 <= v < self.n() && self.previous_nodes@[v] != u32::MAX
    }

    /// The node `v` has a label: it is the root, or was reached over
    /// another node.
    pub(crate) open spec fn seen(&self, v: int) -> bool {
        0 <= v < self.n() && self.distances@[v] != u32::MAX
    }

    /// The label of `u` is older than that of `v`: shorter, or as long and
    /// set earlier.
    pub(crate) open spec fn before(&self, u: int, v: int) -> bool {
        self.dist(u) < self.dist(v) || (self.dist(u) == self.dist(v) && self.stamp@[u] < self.stamp@[v])
    }

    /// What holds of every node that was reached over another.
    pub(crate) open spec fn hangs(&self, arcs: Set<Arc>, root: int, v: int) -> bool {
        let u = self.previous_nodes@[v] as int;
        &&& v != root
        &&& 0 <= u < self.n()
        &&& u == root || self.reached(u)
        &&& self.dist(v) < u32::MAX
        &&& self.before(u, v)
        &&& exists|w: nat| #[trigger] arcs.contains((u, v, w)) && self.dist(u) + w <= self.dist(v)
    }

    /// What holds of every item on the heap.
    pub(crate) open spec fn item_ok(&self, root: int, it: HeapItem) -> bool {
        &&& it.node_id < self.n()
        &&& it.distance < u32::MAX
        &&& self.dist(it.node_id as int) <= it.distance
        &&& it.node_id == root || self.reached(it.node_id as int)
    }

    /// The invariant of a search from `root` over `arcs`.
    #[verifier::opaque]
    pub(crate) open spec fn inv(&self, arcs: Set<Arc>, root: int) -> bool {
        &&& self.n() <= u32::MAX
        &&& self.previous_nodes@.len() == self.n()
        &&& self.stamp@.len() == self.n()
        &&& 0 <= root < self.n()
        &&& self.heap.wf()
        &&& arcs_within(arcs, self.n())
        &&& self.distances@[root] == 0
        &&& self.previous_nodes@[root] == u32::MAX
        &&& self.stamp@[root] == 0
        &&& self.clock@ > 0
        &&& forall|v: int| 0 <= v < self.n() ==> #[trigger] self.stamp@[v] < self.clock@
        &&& forall|v: int| #[trigger] self.reached(v) ==> self.hangs(arcs, root, v)
        &&& forall|v: int|
            0 <= v < self.n() && v != root && !self.reached(v) ==> #[trigger] self.distances@[v] == u32::MAX
        &&& forall|it: HeapItem| #[trigger] self.heap@.contains(it) ==> self.item_ok(root, it)
    }

    /// The node `v` has a label: it is the root, or was reached over
    /// another node.
    pub(crate) open spec fn labelled(&self, root: int, v: int) -> bool {
        v == root || self.reached(v)
    }

    /// The item that was put on the heap when `v` got the label that it
    /// has.
    pub(crate) open spec fn label_item(&self, root: int, v: int) -> HeapItem {
        HeapItem {
            node_id: v as u32,
            distance: self.distances@[v],
            previous_node: if v == root {
                root as u32
            } else {
                self.previous_nodes@[v]
            },
        }
    }

    /// What makes the labels of the nodes that are done shortest lengths:
    /// every label is the length of a way; a node with a label is done or
    /// has the item of its label on the heap; the arcs out of a node that
    /// is done have been offered, but for those in `pending`; and the label
    /// of a node that is done is a shortest length.
    #[verifier::opaque]
    pub(crate) open spec fn inv_exact(&self, arcs: Set<Arc>, root: int, pending: Set<Arc>) -> bool {
        &&& forall|v: int|
            0 <= v < self.n() && #[trigger] self.labelled(root, v) ==> reaches(arcs, root, v, self.dist(v))
        &&& forall|it: HeapItem| #[trigger]
            self.heap@.contains(it) ==> reaches(arcs, root, it.node_id as int, it.distance as nat) && (it.node_id
                == root ==> it.distance == 0)
        &&& forall|v: int|
            0 <= v < self.n() && #[trigger] self.labelled(root, v) && !self.done@.contains(v) ==> self.heap@.contains(
                self.label_item(root, v),
            )
        &&& forall|a: Arc| #[trigger]
            arcs.contains(a) && self.done@.contains(a.0) && !pending.contains(a) ==> self.dist(a.1) <= self.dist(a.0)
                + a.2 || self.dist(a.0) + a.2 >= u32::MAX
        &&& forall|v: int| #[trigger]
            self.done@.contains(v) ==> 0 <= v < self.n() && self.labelled(root, v) && none_shorter(
                arcs,
                root,
                v,
                self.dist(v),
            )
        &&& !self.done@.contains(root) ==> self.popped == 0 && forall|v: int| !self.reached(v)
        &&& self.popped == 0 ==> !self.done@.contains(root)
        &&& self.popped <= 1 ==> forall|v: int| self.done@.contains(v) ==> v == root
    }

    /// No node has a label.
    pub(crate) open spec fn blank(&self) -> bool {
        &&& self.popped == 0
        &&& self.heap@.len() == 0
        &&& self.previous_nodes@.len() == self.n()
        &&& self.n() <= u32::MAX
        &&& self.heap.wf()
        &&& forall|v: int| 0 <= v < self.n() ==> self.distances@[v] == u32::MAX && self.previous_nodes@[v] == u32::MAX
    }

    pub(crate) open spec fn weight(&self) -> nat {
        total(self.distances@)
    }

    /// A search over `n` nodes in which no node has a label.
    pub(crate) fn new(n: usize) -> (f: Frontier)
        requires
            n <= u32::MAX,
        ensures
            f.blank(),
            f.n() == n,
            f.popped == 0,
    {
        Frontier {
            heap: MinHeap::with_capacity(n),
            distances: unlabelled(n),
            previous_nodes: unlabelled(n),
            popped: 0,
            stamp: Ghost(Seq::new(n as nat, |i: int| 0nat)),
            clock: Ghost(1nat),
            done: Ghost(Set::empty()),
        }
    }

    /// Makes `root` the root of the search: gives it the label 0 and puts
    /// its item on the heap.
    pub(crate) fn start(&mut self, root: u32, Ghost(arcs): Ghost<Set<Arc>>)
        requires
            old(self).blank(),
            root < old(self).n(),
            arcs_within(arcs, old(self).n()),
        ensures
            final(self).inv(arcs, root as int),
            final(self).inv_exact(arcs, root as int, Set::empty()),
            final(self).n() == old(self).n(),
            final(self).popped == old(self).popped,
            final(self).heap@.len() == 1,
            forall|v: int| !final(self).reached(v),
    {
        self.heap.push(HeapItem { node_id: root, distance: 0, previous_node: root });
        self.distances[root as usize] = 0;
        proof {
            self.stamp@ = Seq::new(self.n() as nat, |i: int| 0nat);
            self.clock@ = 1;
            self.done@ = Set::empty();
            reveal(Frontier::inv);
            reveal(Frontier::inv_exact);
            lemma_reaches_self(arcs, root as int);
            let first = HeapItem { node_id: root, distance: 0, previous_node: root };
            assert(old(self).heap@ =~= vstd::multiset::Multiset::<HeapItem>::empty()) by {
                vstd::multiset::lemma_multiset_empty_len(old(self).heap@);
            }
            assert forall|it: HeapItem| #[trigger] self.heap@.contains(it) implies self.item_ok(root as int, it)
                && it == first by {
                if it != first {
                    assert(self.heap@.count(it) == 0);
                }
            }
            assert(self.heap@.contains(first)) by {
                assert(self.heap@.count(first) == 1);
            }
            assert(self.label_item(root as int, root as int) == first);
            assert forall|v: int| 0 <= v < self.n() && #[trigger] self.labelled(root as int, v) implies v == root by {}
        }
    }

    /// What the invariant says of the shape of the state.
    pub(crate) proof fn lemma_shape(&self, arcs: Set<Arc>, root: int)
        requires
            self.inv(arcs, root),
        ensures
            self.n() <= u32::MAX,
            self.previous_nodes@.len() == self.n(),
            0 <= root < self.n(),
            self.heap.wf(),
            arcs_within(arcs, self.n()),
            self.distances@[root] == 0,
            !self.reached(root),
            forall|v: int| self.reached(v) ==> self.dist(v) < u32::MAX,
    {
        reveal(Frontier::inv);
        assert forall|v: int| self.reached(v) implies self.dist(v) < u32::MAX by {
            assert(self.hangs(arcs, root, v));
        }
    }

    /// The nodes from `node` back to the root, over the nodes that each was
    /// reached over.
    pub(crate) fn chain(&self, node: u32, root: u32, Ghost(arcs): Ghost<Set<Arc>>) -> (nodes: Vec<u32>)
        requires
            self.inv(arcs, root as int),
            node == root || self.reached(node as int),
        ensures
            nodes@.len() >= 1,
            node != root ==> nodes@.len() >= 2,
            nodes@[0] == node,
            nodes@.last() == root,
            exists|len: nat|
                len <= self.dist(node as int) && is_route(arcs, crate::algorithms::paths::turned(ids(nodes@)), len),
    {
        proof {
            reveal(Frontier::inv);
        }
        if node == root {
            let mut only: Vec<u32> = Vec::new();
            only.push(root);
            proof {
                assert(crate::algorithms::paths::turned(ids(only@)) =~= seq![root as int]);
                assert(is_route(arcs, seq![root as int], 0));
            }
            return only;
        }
        let mut nodes: Vec<u32> = Vec::new();
        let mut current: u32 = node;
        let ghost mut g: Seq<int> = Seq::empty();
        let ghost mut len: nat = 0;
        while current != root
            invariant
                self.inv(arcs, root as int),
                current < self.n(),
                current == root || self.reached(current as int),
                g.len() == nodes@.len(),
                forall|i: int| 0 <= i < g.len() ==> g[i] == nodes@[nodes@.len() - 1 - i] as int,
                nodes@.len() == 0 ==> current == node,
                nodes@.len() > 0 ==> nodes@[0] == node && is_route(arcs, g, len) && exists|w: nat| #[trigger]
                    arcs.contains((current as int, g[0], w)) && len + w + self.dist(current as int) <= self.dist(
                        node as int,
                    ),
            decreases self.dist(current as int), self.stamp@[current as int],
        {
            proof {
                reveal(Frontier::inv);
                assert(self.hangs(arcs, root as int, current as int));
                if nodes@.len() == 0 {
                    g = seq![current as int];
                    len = 0;
                } else {
                    let w = choose|w: nat| #[trigger]
                        arcs.contains((current as int, g[0], w)) && len + w + self.dist(current as int) <= self.dist(
                            node as int,
                        );
                    lemma_route_prepend(arcs, g, len, current as int, w);
                    g = seq![current as int] + g;
                    len = len + w;
                }
                let u = self.previous_nodes@[current as int] as int;
                let w2 = choose|w2: nat| #[trigger]
                    arcs.contains((u, current as int, w2)) && self.dist(u) + w2 <= self.dist(current as int);
                assert(arcs.contains((u, g[0], w2)) && len + w2 + self.dist(u) <= self.dist(node as int));
            }
            nodes.push(current);
            current = self.previous_nodes[current as usize];
        }
        proof {
            let w = choose|w: nat| #[trigger]
                arcs.contains((current as int, g[0], w)) && len + w + self.dist(current as int) <= self.dist(
                    node as int,
                );
            lemma_route_prepend(arcs, g, len, current as int, w);
            g = seq![current as int] + g;
            len = len + w;
        }
        nodes.push(root);
        proof {
            assert(crate::algorithms::paths::turned(ids(nodes@)) =~= g);
        }
        nodes
    }
}


/// The arc `a` out of a node that is done has been offered: the node at
/// its end has a label that is no longer than the way over the arc.
pub(crate) open spec fn offered(c: &Frontier, a: Arc) -> bool {
    c.dist(a.1) <= c.dist(a.0) + a.2 || c.dist(a.0) + a.2 >= u32::MAX
}

/// Widening or narrowing the set of arcs still to be offered, where every
/// arc that leaves it has been offered.
pub(crate) proof fn lemma_exact_pending(c: &Frontier, arcs: Set<Arc>, root: int, wider: Set<Arc>, narrower: Set<Arc>)
    requires
        c.inv_exact(arcs, root, wider),
        forall|a: Arc| #[trigger]
            arcs.contains(a) && c.done@.contains(a.0) && wider.contains(a) && !narrower.contains(a) ==> offered(c, a),
    ensures
        c.inv_exact(arcs, root, narrower),
{
    reveal(Frontier::inv_exact);
    assert forall|a: Arc| #[trigger] arcs.contains(a) && c.done@.contains(a.0) && !narrower.contains(a) implies c.dist(a.1)
        <= c.dist(a.0) + a.2 || c.dist(a.0) + a.2 >= u32::MAX by {
        if wider.contains(a) {
            assert(offered(c, a));
        }
    }
}

/// `after` is `before` with the item `it` taken from the heap, where it
/// ranked lowest, and counted.
pub(crate) open spec fn takes(before: &Frontier, after: &Frontier, it: HeapItem) -> bool {
    &&& before.heap@.contains(it)
    &&& forall|other: HeapItem| before.heap@.contains(other) ==> it.key() <= #[trigger] other.key()
    &&& after.heap@ == before.heap@.remove(it)
    &&& after.heap.wf()
    &&& after.distances@ == before.distances@
    &&& after.previous_nodes@ == before.previous_nodes@
    &&& after.stamp@ == before.stamp@
    &&& after.clock@ == before.clock@
    &&& after.popped == if before.popped < usize::MAX {
        (before.popped + 1) as usize
    } else {
        before.popped
    }
}

/// The root is done as soon as any node is.
pub(crate) proof fn lemma_root_done(c: &Frontier, arcs: Set<Arc>, root: int, v: int)
    requires
        c.inv(arcs, root),
        c.inv_exact(arcs, root, Set::empty()),
        c.done@.contains(v),
    ensures
        c.done@.contains(root),
        c.popped >= 1,
{
    reveal(Frontier::inv);
    reveal(Frontier::inv_exact);
    if !c.done@.contains(root) {
        assert(c.labelled(root, v));
        assert(!c.reached(v));
    }
}

/// Taking an item whose node is done changes nothing but the heap, and
/// the arcs out of its node have nothing to offer.
pub(crate) proof fn lemma_exact_stale(before: &Frontier, after: &Frontier, arcs: Set<Arc>, root: int, it: HeapItem)
    requires
        before.inv(arcs, root),
        before.inv_exact(arcs, root, Set::empty()),
        takes(before, after, it),
        before.done@.contains(it.node_id as int),
        after.done@ == before.done@,
    ensures
        after.inv_exact(arcs, root, Set::empty()),
        before.dist(it.node_id as int) <= it.distance,
{
    lemma_root_done(before, arcs, root, it.node_id as int);
    reveal(Frontier::inv);
    reveal(Frontier::inv_exact);
    assert(before.item_ok(root, it));
    assert forall|x: HeapItem| #[trigger] after.heap@.contains(x) implies before.heap@.contains(x) by {
        if x != it {
            assert(after.heap@.count(x) == before.heap@.count(x));
        }
    }
    assert forall|v: int| 0 <= v < after.n() && #[trigger] after.labelled(root, v) && !after.done@.contains(
        v,
    ) implies after.heap@.contains(after.label_item(root, v)) by {
        assert(before.labelled(root, v));
        let item = before.label_item(root, v);
        assert(before.heap@.contains(item));
        assert(item != it);
        assert(after.heap@.count(item) == before.heap@.count(item));
    }
    assert forall|v: int| 0 <= v < after.n() && #[trigger] after.labelled(root, v) implies reaches(
        arcs,
        root,
        v,
        after.dist(v),
    ) by {
        assert(before.labelled(root, v));
    }
    assert forall|v: int| #[trigger] after.done@.contains(v) implies 0 <= v < after.n() && after.labelled(root, v)
        && none_shorter(arcs, root, v, after.dist(v)) by {
        assert(before.done@.contains(v));
        assert(before.labelled(root, v));
    }
    assert(!after.done@.contains(root) ==> after.popped == 0 && forall|v: int| !after.reached(v));
}

/// In the heap of a search the item that ranks lowest, if its node is not
/// done, carries the label of its node, and that label is a shortest
/// length.
pub(crate) proof fn lemma_exact_least(before: &Frontier, arcs: Set<Arc>, root: int, it: HeapItem)
    requires
        before.inv(arcs, root),
        before.inv_exact(arcs, root, Set::empty()),
        before.heap@.contains(it),
        forall|other: HeapItem| before.heap@.contains(other) ==> it.key() <= #[trigger] other.key(),
        !before.done@.contains(it.node_id as int),
    ensures
        it.distance == before.dist(it.node_id as int),
        none_shorter(arcs, root, it.node_id as int, it.distance as nat),
        it.node_id != root ==> before.done@.contains(root),
{
    reveal(Frontier::inv);
    reveal(Frontier::inv_exact);
    let v = it.node_id as int;
    assert(before.item_ok(root, it));
    assert(before.labelled(root, v));
    let own = before.label_item(root, v);
    assert(before.heap@.contains(own));
    assert(it.key() <= own.key());
    if v != root {
        assert(before.reached(v));
        assert(before.done@.contains(root));
        assert forall|other: nat| reaches(arcs, root, v, other) implies it.distance <= other by {
            let k = choose|k: nat| reaches_in(arcs, root, v, other, k);
            let inside = before.done@;
            let r = lemma_crossing(arcs, inside, root, v, other, k);
            let a: Arc = (r.0, r.1, r.2);
            assert(before.done@.contains(r.0));
            assert(none_shorter(arcs, root, r.0, before.dist(r.0)));
            assert(before.dist(r.0) <= r.3);
            assert(arcs.contains(a) && before.done@.contains(a.0) && !Set::<Arc>::empty().contains(a));
            assert(0 <= r.1 < before.n());
            if before.dist(r.0) + r.2 >= u32::MAX {
            } else {
                assert(before.dist(r.1) <= before.dist(r.0) + r.2);
                assert(r.1 != root) by {
                    if r.1 == root {
                        assert(before.done@.contains(root));
                    }
                }
                assert(before.reached(r.1)) by {
                    if !before.reached(r.1) {
                        assert(before.distances@[r.1] == u32::MAX);
                    }
                }
                assert(before.labelled(root, r.1));
                let far = before.label_item(root, r.1);
                assert(before.heap@.contains(far));
                assert(it.key() <= far.key());
            }
        }
    }
}

/// Taking the item that ranks lowest, where its node is not done, makes
/// its node done; the arcs out of the node are still to be offered.
pub(crate) proof fn lemma_exact_fresh(before: &Frontier, after: &Frontier, arcs: Set<Arc>, root: int, it: HeapItem)
    requires
        before.inv(arcs, root),
        before.inv_exact(arcs, root, Set::empty()),
        takes(before, after, it),
        !before.done@.contains(it.node_id as int),
        after.done@ == before.done@.insert(it.node_id as int),
    ensures
        after.inv_exact(arcs, root, Set::new(|a: Arc| a.0 == it.node_id as int)),
        it.distance == after.dist(it.node_id as int),
{
    lemma_exact_least(before, arcs, root, it);
    reveal(Frontier::inv);
    reveal(Frontier::inv_exact);
    let v = it.node_id as int;
    let pending = Set::new(|a: Arc| a.0 == v);
    assert(before.item_ok(root, it));
    assert forall|x: HeapItem| #[trigger] after.heap@.contains(x) implies before.heap@.contains(x) by {
        if x != it {
            assert(after.heap@.count(x) == before.heap@.count(x));
        }
    }
    assert forall|u: int| 0 <= u < after.n() && #[trigger] after.labelled(root, u) && !after.done@.contains(
        u,
    ) implies after.heap@.contains(after.label_item(root, u)) by {
        assert(before.labelled(root, u));
        let item = before.label_item(root, u);
        assert(before.heap@.contains(item));
        assert(item != it);
        assert(after.heap@.count(item) == before.heap@.count(item));
    }
    assert forall|u: int| 0 <= u < after.n() && #[trigger] after.labelled(root, u) implies reaches(
        arcs,
        root,
        u,
        after.dist(u),
    ) by {
        assert(before.labelled(root, u));
    }
    assert forall|u: int| #[trigger] after.done@.contains(u) implies 0 <= u < after.n() && after.labelled(root, u)
        && none_shorter(arcs, root, u, after.dist(u)) by {
        if u != v {
            assert(before.done@.contains(u));
            assert(before.labelled(root, u));
        } else {
            assert(before.labelled(root, v));
        }
    }
    assert forall|a: Arc| #[trigger] arcs.contains(a) && after.done@.contains(a.0) && !pending.contains(a) implies after.dist(
        a.1,
    ) <= after.dist(a.0) + a.2 || after.dist(a.0) + a.2 >= u32::MAX by {
        assert(before.done@.contains(a.0));
        assert(arcs.contains(a) && before.done@.contains(a.0) && !Set::<Arc>::empty().contains(a));
    }
    assert(after.done@.contains(root));
}

/// Lowering a label over an arc out of a node that is done keeps the
/// labels of the nodes that are done shortest lengths.
pub(crate) proof fn lemma_exact_relabel(
    before: &Frontier,
    after: &Frontier,
    arcs: Set<Arc>,
    root: int,
    pending: Set<Arc>,
    u: u32,
    v: u32,
    w: u32,
)
    requires
        before.inv(arcs, root),
        before.inv_exact(arcs, root, pending),
        u < before.n(),
        before.done@.contains(u as int),
        arcs.contains((u as int, v as int, w as nat)),
        before.dist(u as int) + w < before.dist(v as int),
        relabels(before, after, u, v, (before.dist(u as int) + w) as u32),
        after.done@ == before.done@,
    ensures
        after.inv_exact(arcs, root, pending),
        !before.done@.contains(v as int),
        reaches(arcs, root, v as int, after.dist(v as int)),
{
    reveal(Frontier::inv);
    reveal(Frontier::inv_exact);
    let label = (before.dist(u as int) + w) as u32;
    let item = HeapItem { node_id: v, distance: label, previous_node: u };
    assert(0 <= v < before.n());
    assert(before.labelled(root, u as int));
    lemma_reaches_extend(arcs, root, u as int, v as int, before.dist(u as int), w as nat);
    assert(v != root);
    if before.done@.contains(v as int) {
        assert(none_shorter(arcs, root, v as int, before.dist(v as int)));
        assert(false);
    }
    assert(before.done@.contains(root)) by {
        if !before.done@.contains(root) {
            assert(!before.reached(u as int));
        }
    }
    assert forall|x: HeapItem| #[trigger] after.heap@.contains(x) implies x == item || before.heap@.contains(x) by {
        if x != item {
            assert(after.heap@.count(x) == before.heap@.count(x));
        }
    }
    assert(after.heap@.contains(item)) by {
        assert(after.heap@.count(item) == before.heap@.count(item) + 1);
    }
    assert forall|x: int| 0 <= x < after.n() && #[trigger] after.labelled(root, x) implies reaches(
        arcs,
        root,
        x,
        after.dist(x),
    ) by {
        if x != v {
            assert(before.labelled(root, x));
        }
    }
    assert forall|x: int| 0 <= x < after.n() && #[trigger] after.labelled(root, x) && !after.done@.contains(
        x,
    ) implies after.heap@.contains(after.label_item(root, x)) by {
        if x == v {
            assert(after.label_item(root, x) == item);
        } else {
            assert(before.labelled(root, x));
            let own = before.label_item(root, x);
            assert(after.label_item(root, x) == own);
            assert(before.heap@.contains(own));
            assert(after.heap@.count(own) >= before.heap@.count(own));
        }
    }
    assert forall|x: int| #[trigger] after.done@.contains(x) implies 0 <= x < after.n() && after.labelled(root, x)
        && none_shorter(arcs, root, x, after.dist(x)) by {
        assert(before.done@.contains(x));
        assert(before.labelled(root, x));
        assert(x != v);
    }
    assert forall|a: Arc| #[trigger] arcs.contains(a) && after.done@.contains(a.0) && !pending.contains(a) implies after.dist(
        a.1,
    ) <= after.dist(a.0) + a.2 || after.dist(a.0) + a.2 >= u32::MAX by {
        assert(before.done@.contains(a.0));
        assert(a.0 != v);
        assert(0 <= a.0 < before.n());
    }
}

/// What the two searches of a bidirectional search know of their best
/// meeting so far: none yet, or a node that has a label in both, over
/// which the way is no longer than `mu`.
pub(crate) open spec fn met_ok(a: &Frontier, b: &Frontier, mu: u32, meeting: u32) -> bool {
    &&& meeting == u32::MAX ==> mu == u32::MAX
    &&& meeting != u32::MAX ==> {
        &&& a.seen(meeting as int)
        &&& b.seen(meeting as int)
        &&& a.dist(meeting as int) + b.dist(meeting as int) <= mu
        &&& mu < u32::MAX
    }
}

/// `after` is `before` with the label of `v` lowered to `label`, over the
/// node `u`, and the item of that label put on the heap.
pub(crate) open spec fn relabels(before: &Frontier, after: &Frontier, u: u32, v: u32, label: u32) -> bool {
    &&& after.heap@ == before.heap@.insert(HeapItem { node_id: v, distance: label, previous_node: u })
    &&& after.heap.wf()
    &&& after.distances@ == before.distances@.update(v as int, label)
    &&& after.previous_nodes@ == before.previous_nodes@.update(v as int, u)
    &&& after.stamp@ == before.stamp@.update(v as int, before.clock@)
    &&& after.clock@ == before.clock@ + 1
    &&& after.popped == before.popped
}

/// Lowering a label over an arc out of a node whose own label accounts for
/// it keeps the invariant.
pub(crate) proof fn lemma_relabel(
    before: &Frontier,
    after: &Frontier,
    arcs: Set<Arc>,
    root: int,
    u: u32,
    reach: u32,
    v: u32,
    w: u32,
)
    requires
        before.inv(arcs, root),
        u < before.n(),
        u == root || before.reached(u as int),
        before.dist(u as int) <= reach,
        arcs.contains((u as int, v as int, w as nat)),
        reach + w < before.dist(v as int),
        relabels(before, after, u, v, (reach + w) as u32),
    ensures
        after.inv(arcs, root),
        after.reached(v as int),
        after.weight() < before.weight(),
        v != root,
        forall|x: int| before.reached(x) ==> after.reached(x),
        forall|x: int| 0 <= x < before.n() ==> after.dist(x) <= before.dist(x),
{
    reveal(Frontier::inv);
    let label = (reach + w) as u32;
    let item = HeapItem { node_id: v, distance: label, previous_node: u };
    assert(0 <= v < before.n());
    lemma_total_update(before.distances@, v as int, label);
    assert(u != v);
    assert forall|x: int| #[trigger] after.reached(x) implies after.hangs(arcs, root, x) by {
        if x == v {
            assert(arcs.contains((u as int, v as int, w as nat)) && after.dist(u as int) + w <= after.dist(v as int));
        } else {
            assert(before.reached(x));
            assert(before.hangs(arcs, root, x));
            let p = before.previous_nodes@[x] as int;
            let wx = choose|wx: nat| #[trigger] arcs.contains((p, x, wx)) && before.dist(p) + wx <= before.dist(x);
            assert(arcs.contains((p, x, wx)) && after.dist(p) + wx <= after.dist(x));
        }
    }
    assert forall|it: HeapItem| #[trigger] after.heap@.contains(it) implies after.item_ok(root, it) by {
        if it == item {
        } else {
            assert(after.heap@.count(it) == before.heap@.count(it));
            assert(before.heap@.contains(it));
            assert(before.item_ok(root, it));
        }
    }
}

/// The invariant speaks of the heap through its items alone.
pub(crate) proof fn lemma_kept(before: &Frontier, after: &Frontier, arcs: Set<Arc>, root: int)
    requires
        before.inv(arcs, root),
        after.heap@ == before.heap@,
        after.heap.wf(),
        after.distances@ == before.distances@,
        after.previous_nodes@ == before.previous_nodes@,
        after.stamp@ == before.stamp@,
        after.clock@ == before.clock@,
    ensures
        after.inv(arcs, root),
{
    reveal(Frontier::inv);
    assert forall|x: int| #[trigger] after.reached(x) implies after.hangs(arcs, root, x) by {
        assert(before.reached(x));
        assert(before.hangs(arcs, root, x));
    }
    assert forall|x: HeapItem| #[trigger] after.heap@.contains(x) implies after.item_ok(root, x) by {
        assert(before.heap@.contains(x));
        assert(before.item_ok(root, x));
    }
}

/// Taking an item from the heap keeps the invariant.
pub(crate) proof fn lemma_taken(before: &Frontier, after: &Frontier, arcs: Set<Arc>, root: int, it: HeapItem)
    requires
        before.inv(arcs, root),
        before.heap@.contains(it),
        after.heap@ == before.heap@.remove(it),
        after.heap.wf(),
        after.distances@ == before.distances@,
        after.previous_nodes@ == before.previous_nodes@,
        after.stamp@ == before.stamp@,
        after.clock@ == before.clock@,
    ensures
        after.inv(arcs, root),
        before.item_ok(root, it),
        after.heap@.len() + 1 == before.heap@.len(),
{
    reveal(Frontier::inv);
    assert forall|x: int| #[trigger] after.reached(x) implies after.hangs(arcs, root, x) by {
        assert(before.reached(x));
        assert(before.hangs(arcs, root, x));
    }
    assert forall|x: HeapItem| #[trigger] after.heap@.contains(x) implies after.item_ok(root, x) by {
        if x != it {
            assert(after.heap@.count(x) == before.heap@.count(x));
        }
        assert(before.heap@.contains(x));
        assert(before.item_ok(root, x));
    }
}

/// Notes a meeting of the two searches at `neighbor`, which the one has
/// just given the label `score`, if the other has a label for it, its
/// root included, and the way over it is shorter than the best so far.
pub(crate) fn update_best_path(other: &Frontier, neighbor: usize, score: u32, mu: &mut u32, meeting: &mut u32) -> (better:
    bool)
    requires
        neighbor < other.n(),
        other.n() <= u32::MAX,
        other.previous_nodes@.len() == other.n(),
        score < u32::MAX,
    ensures
        better == (other.seen(neighbor as int) && other.dist(neighbor as int) + score < *old(mu)),
        better ==> *final(mu) == other.dist(neighbor as int) + score && *final(meeting) == neighbor,
        !better ==> *final(mu) == *old(mu) && *final(meeting) == *old(meeting),
{
    if other.distances[neighbor] != u32::MAX {
        let new_mu: u64 = other.distances[neighbor] as u64 + score as u64;
        if (*mu as u64) > new_mu {
            *mu = new_mu as u32;
            *meeting = neighbor as u32;
            return true;
        }
    }
    false
}

/// Over every node that has a label in both searches, the way is no
/// shorter than `mu`.
pub(crate) open spec fn joint(a: &Frontier, b: &Frontier, mu: u32) -> bool {
    forall|v: int| #[trigger] a.seen(v) && b.seen(v) ==> mu <= a.dist(v) + b.dist(v)
}

/// Where a best meeting is known, `mu` is the length of a way between the
/// two roots.
pub open spec fn mu_real(arcs: Set<Arc>, from: int, to: int, mu: u32) -> bool {
    mu < u32::MAX ==> reaches(arcs, from, to, mu as nat)
}

/// The label of a node is the length of a way from the root.
pub(crate) proof fn lemma_label_real(c: &Frontier, arcs: Set<Arc>, root: int, pending: Set<Arc>, v: int)
    requires
        c.inv_exact(arcs, root, pending),
        0 <= v < c.n(),
        c.labelled(root, v),
    ensures
        reaches(arcs, root, v, c.dist(v)),
{
    reveal(Frontier::inv_exact);
}

/// The arcs out of a node that is done have been offered, but for those
/// still pending.
pub(crate) proof fn lemma_exact_offered(c: &Frontier, arcs: Set<Arc>, root: int, pending: Set<Arc>, a: Arc)
    requires
        c.inv_exact(arcs, root, pending),
        arcs.contains(a),
        c.done@.contains(a.0),
        !pending.contains(a),
    ensures
        offered(c, a),
{
    reveal(Frontier::inv_exact);
}

impl Frontier {
    /// The state of a search while the arcs out of the node of the item
    /// `curr`, which was taken from the heap, are offered.
    pub(crate) open spec fn scanning(&self, arcs: Set<Arc>, root: int, curr: HeapItem, fresh: bool, pending: Set<Arc>) -> bool {
        &&& self.inv(arcs, root)
        &&& self.inv_exact(arcs, root, pending)
        &&& curr.node_id < self.n()
        &&& curr.distance < u32::MAX
        &&& self.labelled(root, curr.node_id as int)
        &&& self.dist(curr.node_id as int) <= curr.distance
        &&& self.done@.contains(curr.node_id as int)
        &&& fresh ==> self.dist(curr.node_id as int) == curr.distance
        &&& !fresh ==> pending == Set::<Arc>::empty()
    }

    /// Offers, over the arc from the node of `curr` to `neighbor`, a label
    /// to `neighbor`, which takes it if it is shorter than the one it has;
    /// a label that is taken is held against the other search.
    fn offer(
        &mut self,
        other: &Frontier,
        mu: &mut u32,
        meeting: &mut u32,
        curr: HeapItem,
        neighbor: u32,
        neighbor_distance: u32,
        Ghost(arcs): Ghost<Set<Arc>>,
        Ghost(root): Ghost<int>,
        Ghost(other_root): Ghost<int>,
        Ghost(fresh): Ghost<bool>,
        Ghost(pending): Ghost<Set<Arc>>,
    )
        requires
            old(self).scanning(arcs, root, curr, fresh, pending),
            arcs.contains((curr.node_id as int, neighbor as int, neighbor_distance as nat)),
            other.n() == old(self).n(),
            other.inv(arcs, other_root),
            other.inv_exact(arcs, other_root, Set::empty()),
            met_ok(old(self), other, *old(mu), *old(meeting)),
            joint(old(self), other, *old(mu)),
            crate::algorithms::paths::undirected(arcs) ==> mu_real(arcs, root, other_root, *old(mu)),
        ensures
            final(self).scanning(arcs, root, curr, fresh, pending),
            offered(final(self), (curr.node_id as int, neighbor as int, neighbor_distance as nat)),
            final(self).n() == old(self).n(),
            final(self).popped == old(self).popped,
            final(self).done@ == old(self).done@,
            met_ok(final(self), other, *final(mu), *final(meeting)),
            joint(final(self), other, *final(mu)),
            crate::algorithms::paths::undirected(arcs) ==> mu_real(arcs, root, other_root, *final(mu)),
            *final(mu) <= *old(mu),
            forall|x: int| old(self).reached(x) ==> final(self).reached(x),
            forall|x: int| 0 <= x < old(self).n() ==> final(self).dist(x) <= old(self).dist(x),
            final(self).weight() < old(self).weight() || (final(self).weight() == old(self).weight() && final(self).heap@
                == old(self).heap@),
    {
        let ghost a: Arc = (curr.node_id as int, neighbor as int, neighbor_distance as nat);
        proof {
            self.lemma_shape(arcs, root);
            other.lemma_shape(arcs, other_root);
            if !fresh {
                lemma_exact_offered(&*self, arcs, root, pending, a);
            }
        }
        if neighbor_distance < u32::MAX - curr.distance {
            let score: u32 = curr.distance + neighbor_distance;
            if self.distances[neighbor as usize] == u32::MAX || self.distances[neighbor as usize] > score {
                let ghost pre = *self;
                self.previous_nodes[neighbor as usize] = curr.node_id;
                self.distances[neighbor as usize] = score;
                self.heap.push(HeapItem { distance: score, node_id: neighbor, previous_node: curr.node_id });
                proof {
                    assert(fresh);
                    self.stamp@ = pre.stamp@.update(neighbor as int, pre.clock@);
                    self.clock@ = pre.clock@ + 1;
                    lemma_relabel(&pre, &*self, arcs, root, curr.node_id, curr.distance, neighbor, neighbor_distance);
                    lemma_exact_relabel(&pre, &*self, arcs, root, pending, curr.node_id, neighbor, neighbor_distance);
                    assert(curr.node_id != neighbor);
                }
                let ghost old_mu = *mu;
                let better = update_best_path(other, neighbor as usize, score, mu, meeting);
                proof {
                    assert forall|x: int| #[trigger] self.seen(x) && other.seen(x) implies *mu <= self.dist(x)
                        + other.dist(x) by {
                        if x != neighbor {
                            assert(pre.seen(x));
                        }
                    }
                    if better && crate::algorithms::paths::undirected(arcs) {
                        assert(other.labelled(other_root, neighbor as int)) by {
                            reveal(Frontier::inv);
                        }
                        let far = other.dist(neighbor as int);
                        lemma_label_real(other, arcs, other_root, Set::empty(), neighbor as int);
                        crate::algorithms::paths::lemma_reaches_turned(arcs, other_root, neighbor as int, far);
                        let k = choose|k: nat| reaches_in(arcs, neighbor as int, other_root, far, k);
                        crate::algorithms::paths::lemma_reaches_join(
                            arcs,
                            root,
                            neighbor as int,
                            other_root,
                            score as nat,
                            far,
                            k,
                        );
                    }
                }
            }
        }
    }

    /// One step of the search: takes the item of lowest rank from the heap
    /// and offers, over every arc out of its node, a label to the node at
    /// the other end, which takes it if it is shorter than the one it has.
    /// Every label taken is held against the other search. A label of
    /// `u32::MAX` or more is never offered. The step is counted in `popped`,
    /// which stops at `usize::MAX`.
    pub(crate) fn expand(
        &mut self,
        graph: &AdjacencyArray,
        other: &Frontier,
        mu: &mut u32,
        meeting: &mut u32,
        Ghost(root): Ghost<int>,
        Ghost(other_root): Ghost<int>,
    )
        requires
            graph.wf(),
            graph.node_count() == old(self).n(),
            other.n() == old(self).n(),
            old(self).inv(graph.arcs(), root),
            old(self).inv_exact(graph.arcs(), root, Set::empty()),
            other.inv(graph.arcs(), other_root),
            other.inv_exact(graph.arcs(), other_root, Set::empty()),
            met_ok(old(self), other, *old(mu), *old(meeting)),
            joint(old(self), other, *old(mu)),
            crate::algorithms::paths::undirected(graph.arcs()) ==> mu_real(graph.arcs(), root, other_root, *old(mu)),
        ensures
            final(self).inv(graph.arcs(), root),
            final(self).inv_exact(graph.arcs(), root, Set::empty()),
            final(self).n() == old(self).n(),
            met_ok(final(self), other, *final(mu), *final(meeting)),
            joint(final(self), other, *final(mu)),
            crate::algorithms::paths::undirected(graph.arcs()) ==> mu_real(graph.arcs(), root, other_root, *final(mu)),
            *final(mu) <= *old(mu),
            forall|x: int| old(self).reached(x) ==> final(self).reached(x),
            forall|x: int| 0 <= x < old(self).n() ==> final(self).dist(x) <= old(self).dist(x),
            old(self).heap@.len() == 0 ==> final(self).heap@.len() == 0 && final(self).weight() == old(self).weight(),
            old(self).heap@.len() > 0 ==> final(self).weight() < old(self).weight() || (final(self).weight() == old(self).weight()
                && final(self).heap@.len() + 1 == old(self).heap@.len()),
            old(self).heap@.len() > 0 ==> final(self).popped == (if old(self).popped < usize::MAX {
                (old(self).popped + 1) as usize
            } else {
                old(self).popped
            }),
            old(self).heap@.len() == 0 ==> final(self).popped == old(self).popped,
    {
        let ghost arcs = graph.arcs();
        let ghost first = *self;
        proof {
            self.lemma_shape(arcs, root);
            other.lemma_shape(arcs, other_root);
        }
        let current = self.heap.pop();
        if let Some(curr) = current {
            if self.popped < usize::MAX {
                self.popped = self.popped + 1;
            }
            let ghost fresh = !first.done@.contains(curr.node_id as int);
            proof {
                if fresh {
                    self.done@ = first.done@.insert(curr.node_id as int);
                }
                lemma_taken(&first, &*self, arcs, root, curr);
                if fresh {
                    lemma_exact_fresh(&first, &*self, arcs, root, curr);
                } else {
                    lemma_exact_stale(&first, &*self, arcs, root, curr);
                }
                graph.lemma_arcs_within();
            }
            let ghost taken = *self;
            let ghost v = curr.node_id as int;
            let ghost none = Set::<Arc>::empty();
            proof {
                if fresh {
                    let all = Set::new(|a: Arc| a.0 == v);
                    let opening = crate::algorithms::search_core::pending_from(graph, v, 0);
                    assert forall|a: Arc| #[trigger]
                        arcs.contains(a) && self.done@.contains(a.0) && all.contains(a) && !opening.contains(
                            a,
                        ) implies offered(&*self, a) by {
                        let j = choose|j: int| 0 <= j < graph.degree(a.0) && #[trigger] graph.arc_at(a.0, j) == a;
                        assert(0 <= 2 * j);
                    }
                    lemma_exact_pending(&*self, arcs, root, all, opening);
                }
                assert(first.item_ok(root, curr)) by {
                    reveal(Frontier::inv);
                }
                assert(self.labelled(root, v)) by {
                    if v != root {
                        assert(first.reached(v));
                    }
                }
                assert forall|x: int| #[trigger] self.seen(x) && other.seen(x) implies *mu <= self.dist(x)
                    + other.dist(x) by {
                    assert(first.seen(x));
                }
                if !fresh {
                    assert(self.done@.contains(v));
                }
            }
            let nb = graph.get_neighbors_of_node_and_distances(curr.node_id);
            proof {
                graph.lemma_offsets_ordered(curr.node_id + 1, graph.node_count());
                graph.lemma_offsets_ordered(curr.node_id as int, curr.node_id + 1);
            }
            let len: usize = nb.len();
            let mut i: usize = 0;
            while i + 1 < len
                invariant
                    graph.wf(),
                    graph.node_count() == self.n(),
                    other.n() == self.n(),
                    self.n() == first.n(),
                    arcs == graph.arcs(),
                    v == curr.node_id,
                    none == Set::<Arc>::empty(),
                    self.scanning(
                        arcs,
                        root,
                        curr,
                        fresh,
                        if fresh {
                            crate::algorithms::search_core::pending_from(graph, v, i as int)
                        } else {
                            none
                        },
                    ),
                    other.inv(arcs, other_root),
                    other.inv_exact(arcs, other_root, none),
                    met_ok(&*self, other, *mu, *meeting),
                    joint(&*self, other, *mu),
                    crate::algorithms::paths::undirected(arcs) ==> mu_real(arcs, root, other_root, *mu),
                    *mu <= *old(mu),
                    nb@ == graph.payload().subrange(
                        graph.offsets()[curr.node_id as int] as int,
                        graph.offsets()[curr.node_id + 1] as int,
                    ),
                    len == nb@.len(),
                    len == 2 * graph.degree(v),
                    graph.offsets()[curr.node_id as int] <= graph.offsets()[curr.node_id + 1] <= graph.payload().len(),
                    i % 2 == 0,
                    i <= len,
                    self.popped == taken.popped,
                    forall|x: int| first.reached(x) ==> self.reached(x),
                    forall|x: int| 0 <= x < first.n() ==> self.dist(x) <= first.dist(x),
                    self.weight() < taken.weight() || (self.weight() == taken.weight() && self.heap@ == taken.heap@),
                decreases len - i,
            {
                let neighbor: u32 = nb[i];
                let neighbor_distance: u32 = nb[i + 1];
                let ghost wider = if fresh {
                    crate::algorithms::search_core::pending_from(graph, v, i as int)
                } else {
                    none
                };
                let ghost narrower = if fresh {
                    crate::algorithms::search_core::pending_from(graph, v, i + 2)
                } else {
                    none
                };
                let ghost a: Arc = (v, neighbor as int, neighbor_distance as nat);
                proof {
                    graph.lemma_slot_is_arc(v, i as int);
                    assert(a == graph.arc_at(v, i as int / 2));
                }
                self.offer(
                    other,
                    mu,
                    meeting,
                    curr,
                    neighbor,
                    neighbor_distance,
                    Ghost(arcs),
                    Ghost(root),
                    Ghost(other_root),
                    Ghost(fresh),
                    Ghost(wider),
                );
                proof {
                    if fresh {
                        assert forall|b: Arc| #[trigger]
                            arcs.contains(b) && self.done@.contains(b.0) && wider.contains(b) && !narrower.contains(
                                b,
                            ) implies offered(&*self, b) by {
                            crate::algorithms::search_core::lemma_pending_step(graph, v, i as int, b);
                            assert(b == a);
                        }
                        lemma_exact_pending(&*self, arcs, root, wider, narrower);
                    }
                }
                i += 2;
            }
            proof {
                if fresh {
                    let p = crate::algorithms::search_core::pending_from(graph, v, i as int);
                    assert forall|b: Arc| #[trigger]
                        arcs.contains(b) && self.done@.contains(b.0) && p.contains(b) && !none.contains(
                            b,
                        ) implies offered(&*self, b) by {
                        let j = choose|j: int|
                            i <= 2 * j && 0 <= j < graph.degree(v) && #[trigger] graph.arc_at(v, j) == b;
                        assert(false);
                    }
                    lemma_exact_pending(&*self, arcs, root, p, none);
                }
            }
        } else {
            proof {
                lemma_kept(&first, &*self, arcs, root);
                lemma_exact_kept(&first, &*self, arcs, root);
                assert forall|x: int| #[trigger] self.seen(x) && other.seen(x) implies *mu <= self.dist(x)
                    + other.dist(x) by {
                    assert(first.seen(x));
                }
            }
        }
    }
}

/// The invariant speaks of the heap through its items alone.
pub(crate) proof fn lemma_exact_kept(before: &Frontier, after: &Frontier, arcs: Set<Arc>, root: int)
    requires
        before.inv_exact(arcs, root, Set::empty()),
        after.heap@ == before.heap@,
        after.distances@ == before.distances@,
        after.previous_nodes@ == before.previous_nodes@,
        after.done@ == before.done@,
        after.popped == before.popped,
    ensures
        after.inv_exact(arcs, root, Set::empty()),
{
    reveal(Frontier::inv_exact);
    let none = Set::<Arc>::empty();
    assert forall|v: int| 0 <= v < after.n() && #[trigger] after.labelled(root, v) implies reaches(
        arcs,
        root,
        v,
        after.dist(v),
    ) by {
        assert(before.labelled(root, v));
    }
    assert forall|v: int| 0 <= v < after.n() && #[trigger] after.labelled(root, v) && !after.done@.contains(
        v,
    ) implies after.heap@.contains(after.label_item(root, v)) by {
        assert(before.labelled(root, v));
        assert(after.label_item(root, v) == before.label_item(root, v));
    }
    assert forall|v: int| #[trigger] after.done@.contains(v) implies 0 <= v < after.n() && after.labelled(root, v)
        && none_shorter(arcs, root, v, after.dist(v)) by {
        assert(before.done@.contains(v));
        assert(before.labelled(root, v));
    }
    assert forall|a: Arc| #[trigger] arcs.contains(a) && after.done@.contains(a.0) && !none.contains(a) implies after.dist(
        a.1,
    ) <= after.dist(a.0) + a.2 || after.dist(a.0) + a.2 >= u32::MAX by {
        assert(before.done@.contains(a.0));
    }
    assert(!after.done@.contains(root) ==> after.popped == 0 && forall|v: int| !after.reached(v)) by {
        if !after.done@.contains(root) {
            assert forall|v: int| !after.reached(v) by {
                assert(!before.reached(v));
            }
        }
    }
}


/// No item on the heap ranks as low as `x`.
pub(crate) open spec fn below(c: &Frontier, x: nat) -> bool {
    forall|it: HeapItem| #[trigger] c.heap@.contains(it) ==> x < it.distance
}

/// A node whose shortest length from the root lies below every rank on
/// the heap is done, with that length as its label.
pub(crate) proof fn lemma_below_done(c: &Frontier, arcs: Set<Arc>, root: int, v: int, x: nat, k: nat)
    requires
        c.inv(arcs, root),
        c.inv_exact(arcs, root, Set::empty()),
        c.done@.contains(root),
        reaches_in(arcs, root, v, x, k),
        none_shorter(arcs, root, v, x),
        x < u32::MAX,
        below(c, x),
    ensures
        c.done@.contains(v),
        c.dist(v) == x,
    decreases k,
{
    reveal(Frontier::inv);
    reveal(Frontier::inv_exact);
    if k == 0 {
        assert(c.labelled(root, root));
    } else {
        let (u, w) = choose|u: int, w: nat| #[trigger]
            arcs.contains((u, v, w)) && w <= x && reaches_in(arcs, root, u, (x - w) as nat, (k - 1) as nat);
        let y = (x - w) as nat;
        assert forall|other: nat| reaches(arcs, root, u, other) implies y <= other by {
            lemma_reaches_extend(arcs, root, u, v, other, w);
        }
        lemma_below_done(c, arcs, root, u, y, (k - 1) as nat);
        let a: Arc = (u, v, w);
        assert(arcs.contains(a) && c.done@.contains(a.0) && !Set::<Arc>::empty().contains(a));
        assert(c.dist(v) <= x);
        assert(0 <= v < c.n());
        assert(c.labelled(root, v)) by {
            if v != root && !c.reached(v) {
                assert(c.distances@[v] == u32::MAX);
            }
        }
        if !c.done@.contains(v) {
            assert(c.heap@.contains(c.label_item(root, v)));
            assert(false);
        }
        assert(reaches(arcs, root, v, c.dist(v)));
    }
}

/// Before a search has taken its root from the heap, the heap holds
/// items of the rank 0 alone, and at least one.
pub(crate) proof fn lemma_not_begun(c: &Frontier, arcs: Set<Arc>, root: int)
    requires
        c.inv(arcs, root),
        c.inv_exact(arcs, root, Set::empty()),
        c.popped == 0,
    ensures
        c.heap@.len() > 0,
        forall|it: HeapItem| #[trigger] c.heap@.contains(it) ==> it.distance == 0,
        forall|v: int| !c.reached(v),
{
    reveal(Frontier::inv);
    reveal(Frontier::inv_exact);
    assert(c.labelled(root, root));
    assert(c.heap@.contains(c.label_item(root, root)));
    assert(c.heap@.len() > 0) by {
        vstd::multiset::lemma_multiset_empty_len(c.heap@);
    }
    assert forall|it: HeapItem| #[trigger] c.heap@.contains(it) implies it.distance == 0 by {
        assert(c.item_ok(root, it));
        assert(!c.reached(it.node_id as int));
    }
}

/// No item on the heap ranks lower than `x`.
pub(crate) open spec fn lowest(c: &Frontier, x: u32) -> bool {
    forall|it: HeapItem| #[trigger] c.heap@.contains(it) ==> x <= it.distance
}

/// What holds when a bidirectional search stops: a heap is empty, or the
/// two lowest ranks add up to no less than the best meeting.
pub(crate) open spec fn stopped(f: &Frontier, b: &Frontier, mu: u32) -> bool {
    ||| f.heap@.len() == 0
    ||| b.heap@.len() == 0
    ||| exists|lowest_forward: u32, lowest_backward: u32|
        #[trigger] lowest(f, lowest_forward) && #[trigger] lowest(b, lowest_backward) && lowest_forward
            + lowest_backward >= mu
}

/// Both searches have taken their roots from their heaps, or the search
/// that has not has an item on its heap and the other search has taken no
/// node but its root.
pub(crate) open spec fn in_turn(f: &Frontier, b: &Frontier) -> bool {
    &&& b.popped >= 1
    &&& f.popped == 0 ==> b.popped <= 1
}

/// The node `j` of a shortest route is done in the forward search, with
/// the length of the route up to it as its label.
pub(crate) open spec fn forward_done(f: &Frontier, route: Seq<int>, lengths: Seq<nat>, j: int) -> bool {
    f.done@.contains(route[j]) && f.dist(route[j]) == lengths[j]
}

/// The node `j` of a shortest route is done in the backward search, with
/// the length of the rest of the route as its label.
pub(crate) open spec fn backward_done(b: &Frontier, route: Seq<int>, lengths: Seq<nat>, j: int) -> bool {
    b.done@.contains(route[j]) && b.dist(route[j]) == lengths.last() - lengths[j]
}

/// On a shortest route of which every node is done in one of the searches,
/// the last in the backward search and the one before `j` in the forward
/// search, some node has labels in both searches that add up to no more
/// than the length of the route.
pub(crate) proof fn lemma_find_meeting(
    f: &Frontier,
    b: &Frontier,
    arcs: Set<Arc>,
    route: Seq<int>,
    lengths: Seq<nat>,
    j: int,
) -> (m: int)
    requires
        crate::algorithms::paths::is_profile(arcs, route, lengths),
        lengths.last() < u32::MAX,
        f.n() == b.n(),
        f.inv_exact(arcs, route[0], Set::empty()),
        b.inv_exact(arcs, route.last(), Set::empty()),
        forall|i: int| 0 <= i < route.len() ==> forward_done(f, route, lengths, i) || backward_done(b, route, lengths, i),
        backward_done(b, route, lengths, route.len() - 1),
        1 <= j <= route.len() - 1,
        forward_done(f, route, lengths, j - 1),
    ensures
        0 <= m < route.len(),
        f.seen(route[m]),
        b.seen(route[m]),
        f.dist(route[m]) + b.dist(route[m]) <= lengths.last(),
    decreases route.len() - j,
{
    reveal(Frontier::inv_exact);
    let last = route.len() - 1;
    let none = Set::<Arc>::empty();
    crate::algorithms::paths::lemma_profile_suffix(arcs, route, lengths, j - 1, last);
    crate::algorithms::paths::lemma_profile_suffix(arcs, route, lengths, j, last);
    assert(lengths[j - 1] <= lengths[(j - 1) + 1]);
    let step: Arc = (route[j - 1], route[j], (lengths[j] - lengths[j - 1]) as nat);
    assert(arcs.contains(step) && f.done@.contains(step.0) && !none.contains(step));
    assert(f.dist(route[j]) <= lengths[j]);
    if backward_done(b, route, lengths, j) {
        assert(0 <= route[j] < b.n());
        j
    } else {
        assert(forward_done(f, route, lengths, j));
        lemma_find_meeting(f, b, arcs, route, lengths, j + 1)
    }
}

/// When a bidirectional search over the arcs `arcs` stops, the best
/// meeting is no longer than a shortest route from root to root over the
/// arcs `under`, where these have their reverses and `arcs` reaches what
/// they reach.
pub(crate) proof fn lemma_stop_is_shortest(
    f: &Frontier,
    b: &Frontier,
    under: Set<Arc>,
    arcs: Set<Arc>,
    mu: u32,
    meeting: u32,
    route: Seq<int>,
    d: nat,
)
    requires
        crate::algorithms::paths::undirected(under),
        crate::algorithms::paths::same_reach(under, arcs),
        f.n() == b.n(),
        f.inv(arcs, route[0]),
        f.inv_exact(arcs, route[0], Set::empty()),
        b.inv(arcs, route.last()),
        b.inv_exact(arcs, route.last(), Set::empty()),
        joint(f, b, mu),
        in_turn(f, b),
        stopped(f, b, mu),
        is_route(under, route, d),
        none_shorter(under, route[0], route.last(), d),
        d < u32::MAX,
    ensures
        mu <= d,
{
    let s = route[0];
    let t = route.last();
    let last = route.len() - 1;
    let lengths = crate::algorithms::paths::lemma_route_profile(under, route, d);
    assert(crate::algorithms::paths::is_profile(arcs, route, lengths)) by {
        assert forall|j: int| 0 <= j < route.len() - 1 implies lengths[j] <= #[trigger] lengths[j + 1]
            && arcs.contains((route[j], route[j + 1], (lengths[j + 1] - lengths[j]) as nat)) by {
            assert(under.contains((route[j], route[j + 1], (lengths[j + 1] - lengths[j]) as nat)));
        }
    }
    f.lemma_shape(arcs, s);
    b.lemma_shape(arcs, t);
    assert(b.done@.contains(t) && b.popped >= 1) by {
        reveal(Frontier::inv_exact);
    }
    crate::algorithms::paths::lemma_profile_shortest(under, route, lengths, last);
    assert(backward_done(b, route, lengths, last)) by {
        reveal(Frontier::inv);
    }
    let begun = f.done@.contains(s);
    if mu > d {
        assert forall|i: int| 0 <= i < route.len() implies forward_done(f, route, lengths, i) || backward_done(
            b,
            route,
            lengths,
            i,
        ) by {
            crate::algorithms::paths::lemma_profile_shortest(under, route, lengths, i);
            crate::algorithms::paths::lemma_profile_prefix(under, route, lengths, i);
            crate::algorithms::paths::lemma_profile_suffix(under, route, lengths, i, last);
            let x = lengths[i];
            let y = (d - lengths[i]) as nat;
            if begun && below(f, x) {
                crate::algorithms::paths::lemma_reaches_in_mono(under, arcs, s, route[i], x, i as nat);
                assert forall|other: nat| reaches(arcs, s, route[i], other) implies x <= other by {
                    assert(reaches(under, s, route[i], other));
                }
                lemma_below_done(f, arcs, s, route[i], x, i as nat);
            } else if below(b, y) {
                crate::algorithms::paths::lemma_reaches_turned(under, route[i], t, y);
                let k = choose|k: nat| reaches_in(under, t, route[i], y, k);
                crate::algorithms::paths::lemma_reaches_in_mono(under, arcs, t, route[i], y, k);
                assert forall|other: nat| reaches(arcs, t, route[i], other) implies y <= other by {
                    assert(reaches(under, t, route[i], other));
                    crate::algorithms::paths::lemma_reaches_turned(under, t, route[i], other);
                }
                lemma_below_done(b, arcs, t, route[i], y, k);
            } else {
                let bi = choose|bi: HeapItem| b.heap@.contains(bi) && !(y < bi.distance);
                let fi = if begun {
                    choose|fi: HeapItem| f.heap@.contains(fi) && !(x < fi.distance)
                } else {
                    f.label_item(s, s)
                };
                assert(f.heap@.contains(fi) && fi.distance <= x) by {
                    reveal(Frontier::inv);
                    reveal(Frontier::inv_exact);
                    if !begun {
                        assert(f.labelled(s, s));
                    }
                }
                assert(f.heap@.len() > 0) by {
                    vstd::multiset::lemma_multiset_empty_len(f.heap@);
                }
                assert(b.heap@.len() > 0) by {
                    vstd::multiset::lemma_multiset_empty_len(b.heap@);
                }
                let (lf, lb) = choose|lf: u32, lb: u32|
                    #[trigger] lowest(f, lf) && #[trigger] lowest(b, lb) && lf + lb >= mu;
                assert(lf <= fi.distance);
                assert(lb <= bi.distance);
                assert(false);
            }
        }
        let m = if backward_done(b, route, lengths, 0) {
            0int
        } else {
            assert(forward_done(f, route, lengths, 0));
            lemma_find_meeting(f, b, arcs, route, lengths, 1)
        };
        assert(f.seen(route[m]) && b.seen(route[m]) && f.dist(route[m]) + b.dist(route[m]) <= d) by {
            reveal(Frontier::inv);
            reveal(Frontier::inv_exact);
        }
        assert(false);
    }
}

/// The sum of the labels that the two searches have for a node is the
/// length of a way from root to root over the arcs `under`, or longer,
/// where these have their reverses and `arcs` reaches what they reach.
pub(crate) proof fn lemma_met_is_real(f: &Frontier, b: &Frontier, under: Set<Arc>, arcs: Set<Arc>, s: int, t: int, m: int)
    requires
        crate::algorithms::paths::undirected(under),
        crate::algorithms::paths::same_reach(under, arcs),
        f.inv(arcs, s),
        f.inv_exact(arcs, s, Set::empty()),
        b.inv(arcs, t),
        b.inv_exact(arcs, t, Set::empty()),
        f.seen(m),
        b.seen(m),
    ensures
        reaches(under, s, t, f.dist(m) + b.dist(m)),
{
    assert(f.labelled(s, m) && b.labelled(t, m)) by {
        reveal(Frontier::inv);
    }
    lemma_label_real(f, arcs, s, Set::empty(), m);
    lemma_label_real(b, arcs, t, Set::empty(), m);
    assert(reaches(under, s, m, f.dist(m)));
    assert(reaches(under, t, m, b.dist(m)));
    crate::algorithms::paths::lemma_reaches_turned(under, t, m, b.dist(m));
    let k = choose|k: nat| reaches_in(under, m, t, b.dist(m), k);
    crate::algorithms::paths::lemma_reaches_join(under, s, m, t, f.dist(m), b.dist(m), k);
}

} // verus!
