use vstd::prelude::*;
use crate::model::adjacency_array::Arc;
use crate::model::grid_graph::{Edge, GridGraph, Node, edges_before, lemma_edges_before_grown,
    lemma_edges_before_prefix};

verus! {

/// On which side of a node the nearer of its two neighbours in the band
/// above lies.
#[derive(Clone, Copy, PartialEq, Eq, Structural, Debug)]
pub enum NodeOrientation {
    LEFT,
    RIGHT,
    MID,
}

/// A distance as the builder takes it: its length in whole metres, and a
/// rank by which two distances are compared as exactly as they were
/// measured.
#[derive(Clone, Copy, Debug)]
pub struct Measured {
    pub meters: u32,
    pub rank: u64,
}

/// The lists of edges of the first `placed` nodes are sound: every edge
/// stands in the list of its source, joins two different nodes that are
/// placed, and has its reverse, of the same length, in the list of its
/// target. The lists of the other nodes are empty.
pub open spec fn lists_ok(edges: Seq<Vec<Edge>>, placed: int) -> bool {
    &&& placed <= edges.len()
    &&& forall|u: int| placed <= u < edges.len() ==> (#[trigger] edges[u])@.len() == 0
    &&& forall|u: int, k: int|
        0 <= u < edges.len() && 0 <= k < edges[u]@.len() ==> {
            let e = #[trigger] edges[u]@[k];
            &&& e.source == u
            &&& e.target < placed
            &&& e.target != u
            &&& has_edge(edges, e.target as int, u, e.distance)
        }
}

/// The list of `u` holds an edge to `v` of the length `d`.
pub open spec fn has_edge(edges: Seq<Vec<Edge>>, u: int, v: int, d: u32) -> bool {
    exists|k: int| 0 <= k < edges[u]@.len() && (#[trigger] edges[u]@[k]).target == v && edges[u]@[k].distance == d
}

/// The list of `u` holds an edge to `v`.
pub open spec fn joins(edges: Seq<Vec<Edge>>, u: int, v: int) -> bool {
    exists|k: int| 0 <= k < edges[u]@.len() && (#[trigger] edges[u]@[k]).target == v
}

/// The index of a band that `index` stands for, counted round the band: of
/// the `nodes_in_rounds` indices from `round_start` on, the one that lies
/// as far from `round_start` as `index` does, taken modulo
/// `nodes_in_rounds`.
pub fn calc_index_modulo(round_start_index: usize, nodes_in_rounds: usize, index: i64) -> (new_index: usize)
    requires
        nodes_in_rounds >= 1,
        round_start_index + nodes_in_rounds <= u32::MAX,
        round_start_index - nodes_in_rounds <= index <= 2 * u32::MAX,
    ensures
        new_index == (index - round_start_index + nodes_in_rounds) % (nodes_in_rounds as int) + round_start_index,
        round_start_index <= new_index < round_start_index + nodes_in_rounds,
{
    let shifted: i64 = index - round_start_index as i64 + nodes_in_rounds as i64;
    let new_index: i64 = (shifted % nodes_in_rounds as i64) + round_start_index as i64;
    proof {
        vstd::arithmetic::div_mod::lemma_mod_bound(shifted as int, nodes_in_rounds as int);
    }
    new_index as usize
}

/// The lists `after` hold what the lists `before` held, each at the same
/// position, and what was pushed since.
pub open spec fn grown(before: Seq<Vec<Edge>>, after: Seq<Vec<Edge>>) -> bool {
    &&& after.len() == before.len()
    &&& forall|u: int|
        0 <= u < before.len() ==> before[u]@.len() <= (#[trigger] after[u])@.len() && after[u]@.take(
            before[u]@.len() as int,
        ) == before[u]@
}

/// Lists that have grown twice have grown.
pub proof fn lemma_grown_chain(a: Seq<Vec<Edge>>, b: Seq<Vec<Edge>>, c: Seq<Vec<Edge>>)
    requires
        grown(a, b),
        grown(b, c),
    ensures
        grown(a, c),
{
    assert forall|u: int| 0 <= u < a.len() implies a[u]@.len() <= (#[trigger] c[u])@.len() && c[u]@.take(
        a[u]@.len() as int,
    ) == a[u]@ by {
        assert(b[u]@.take(a[u]@.len() as int) == a[u]@);
        assert(c[u]@.take(b[u]@.len() as int) == b[u]@);
        assert(c[u]@.take(a[u]@.len() as int) =~= b[u]@.take(a[u]@.len() as int)) by {
            assert forall|i: int| 0 <= i < a[u]@.len() implies c[u]@.take(a[u]@.len() as int)[i] == b[u]@.take(
                a[u]@.len() as int,
            )[i] by {
                assert(c[u]@.take(b[u]@.len() as int)[i] == b[u]@[i]);
            }
        }
    }
}

/// Lists have grown from themselves.
pub proof fn lemma_grown_same(a: Seq<Vec<Edge>>)
    ensures
        grown(a, a),
{
    assert forall|u: int| 0 <= u < a.len() implies a[u]@.len() <= (#[trigger] a[u])@.len() && a[u]@.take(
        a[u]@.len() as int,
    ) == a[u]@ by {
        assert(a[u]@.take(a[u]@.len() as int) =~= a[u]@);
    }
}

/// The lists of edges as plain values.
pub open spec fn views(lists: Seq<Vec<Edge>>) -> Seq<Seq<Edge>> {
    Seq::new(lists.len(), |u: int| lists[u]@)
}

/// The lists with the node `u` and the node in `v`, if there is one and
/// it is another node, joined by an edge in each direction, both of the
/// length `d`.
pub open spec fn joined_lists(lists: Seq<Seq<Edge>>, u: int, v: Option<u32>, d: u32) -> Seq<Seq<Edge>> {
    match v {
        Some(x) => if x != u {
            let forth = lists.update(u, lists[u].push(Edge { source: u as u32, target: x, distance: d }));
            forth.update(x as int, forth[x as int].push(Edge { source: x, target: u as u32, distance: d }))
        } else {
            lists
        },
        None => lists,
    }
}

/// The list of `u` holds an edge to `v`.
pub open spec fn listed(lists: Seq<Seq<Edge>>, u: int, v: int) -> bool {
    exists|k: int| 0 <= k < lists[u].len() && (#[trigger] lists[u][k]).target == v
}

/// Like [`joined_lists`], but nothing is done where the list of `u` holds
/// an edge to the node in `v` already.
pub open spec fn bridged_lists(lists: Seq<Seq<Edge>>, u: int, v: Option<u32>, d: u32) -> Seq<Seq<Edge>> {
    match v {
        Some(x) => if listed(lists, u, x as int) {
            lists
        } else {
            joined_lists(lists, u, v, d)
        },
        None => lists,
    }
}

/// There is a node in `v`, and it is another node than `u`.
pub open spec fn is_other(u: int, v: Option<u32>) -> bool {
    v matches Some(x) && x != u
}

/// The place of a band of `size` places from `start` on that `index`
/// stands for, counted round the band.
pub open spec fn round_place(start: int, size: int, index: int) -> int {
    (index - start + size) % size + start
}

/// `true` when the list `list` holds an edge to `target`.
pub fn leads_to(list: &Vec<Edge>, target: u32) -> (found: bool)
    ensures
        found == exists|k: int| 0 <= k < list@.len() && (#[trigger] list@[k]).target == target,
{
    let mut k: usize = 0;
    while k < list.len()
        invariant
            k <= list@.len(),
            forall|j: int| 0 <= j < k ==> (#[trigger] list@[j]).target != target,
        decreases list@.len() - k,
    {
        if list[k].target == target {
            return true;
        }
        k += 1;
    }
    false
}

/// Pushing `e` onto the list of `u` keeps what the other lists hold, and
/// what the list of `u` held.
pub proof fn lemma_pushed(before: Seq<Vec<Edge>>, after: Seq<Vec<Edge>>, u: int, e: Edge)
    requires
        0 <= u < before.len(),
        after.len() == before.len(),
        after[u]@ == before[u]@.push(e),
        forall|x: int| 0 <= x < before.len() && x != u ==> after[x] == before[x],
    ensures
        forall|a: int, b: int, d: u32| 0 <= a < before.len() && has_edge(before, a, b, d) ==> has_edge(after, a, b, d),
        has_edge(after, u, e.target as int, e.distance),
        forall|a: int, b: int| 0 <= a < before.len() && joins(after, a, b) ==> joins(before, a, b) || (a == u && b == e.target),
{
    assert forall|a: int, b: int, d: u32| 0 <= a < before.len() && has_edge(before, a, b, d) implies has_edge(
        after,
        a,
        b,
        d,
    ) by {
        let k = choose|k: int|
            0 <= k < before[a]@.len() && (#[trigger] before[a]@[k]).target == b && before[a]@[k].distance == d;
        assert(after[a]@[k] == before[a]@[k]);
    }
    assert(after[u]@[before[u]@.len() as int] == e);
    assert forall|a: int, b: int| 0 <= a < before.len() && joins(after, a, b) implies joins(before, a, b) || (a == u
        && b == e.target) by {
        let k = choose|k: int| 0 <= k < after[a]@.len() && (#[trigger] after[a]@[k]).target == b;
        if a == u && k == before[u]@.len() {
        } else {
            assert(before[a]@[k] == after[a]@[k]);
        }
    }
}

/// Joins the node `node1_idx` and the node in `node2_idx_option`, if there
/// is one and it is another node, by an edge in each direction, both of
/// the length `distance`. Says whether it did.
fn add_edge(
    edges: &mut Vec<Vec<Edge>>,
    node1_idx: usize,
    node2_idx_option: Option<u32>,
    distance: u32,
    Ghost(placed): Ghost<int>,
) -> (added: bool)
    requires
        lists_ok(old(edges)@, placed),
        node1_idx < placed,
        placed <= u32::MAX,
        node2_idx_option matches Some(v) ==> v < placed,
    ensures
        lists_ok(final(edges)@, placed),
        grown(old(edges)@, final(edges)@),
        final(edges)@.len() == old(edges)@.len(),
        views(final(edges)@) == joined_lists(views(old(edges)@), node1_idx as int, node2_idx_option, distance),
        added == is_other(node1_idx as int, node2_idx_option),
        added == (node2_idx_option matches Some(v) && v != node1_idx),
        edges_before(final(edges)@, final(edges)@.len() as int) == edges_before(old(edges)@, old(edges)@.len() as int) + (
        if added {
            2int
        } else {
            0int
        }),
{
    match node2_idx_option {
        Some(node2_idx) => {
            if node2_idx as usize == node1_idx {
                proof {
                    lemma_grown_same(edges@);
                }
                return false;
            }
            push_both(edges, node1_idx, node2_idx as usize, distance, true, true, Ghost(placed));
            true
        },
        None => {
            proof {
                lemma_grown_same(edges@);
            }
            false
        },
    }
}

/// Pushes the edge from `a` to `b` and its reverse, each where it is asked
/// for; the two are asked for together, or neither list holds the edge
/// that is not pushed.
fn push_both(
    edges: &mut Vec<Vec<Edge>>,
    a: usize,
    b: usize,
    distance: u32,
    forth: bool,
    back: bool,
    Ghost(placed): Ghost<int>,
)
    requires
        lists_ok(old(edges)@, placed),
        a < placed,
        b < placed,
        a != b,
        placed <= u32::MAX,
        forth == back,
    ensures
        lists_ok(final(edges)@, placed),
        grown(old(edges)@, final(edges)@),
        final(edges)@.len() == old(edges)@.len(),
        views(final(edges)@) == (if forth {
            joined_lists(views(old(edges)@), a as int, Some(b as u32), distance)
        } else {
            views(old(edges)@)
        }),
        edges_before(final(edges)@, final(edges)@.len() as int) == edges_before(old(edges)@, old(edges)@.len() as int) + (
        if forth {
            2int
        } else {
            0int
        }),
{
    if !forth {
        proof {
            lemma_grown_same(edges@);
        }
        return ;
    }
    let ghost first = edges@;
    let n = edges.len();
    let forward = Edge { source: a as u32, target: b as u32, distance };
    let backward = Edge { source: b as u32, target: a as u32, distance };
    edges[a].push(forward);
    let ghost middle = edges@;
    edges[b].push(backward);
    proof {
        let last = edges@;
        lemma_pushed(first, middle, a as int, forward);
        lemma_pushed(middle, last, b as int, backward);
        lemma_edges_before_grown(first, middle, a as int, 1, n as int);
        lemma_edges_before_grown(middle, last, b as int, 1, n as int);
        assert forall|u: int| 0 <= u < first.len() implies first[u]@.len() <= (#[trigger] last[u])@.len() && last[u]@.take(
            first[u]@.len() as int,
        ) == first[u]@ by {
            assert(last[u]@.take(first[u]@.len() as int) =~= first[u]@);
        }
        let expected = joined_lists(views(first), a as int, Some(b as u32), distance);
        assert(views(last).len() == expected.len());
        assert forall|u: int| 0 <= u < first.len() implies views(last)[u] == expected[u] by {
            if u == a {
            } else if u == b {
            } else {
                assert(last[u] == first[u]);
            }
        }
        assert(views(last) =~= expected);
        assert forall|u: int, k: int| 0 <= u < last.len() && 0 <= k < last[u]@.len() implies {
            let e = #[trigger] last[u]@[k];
            &&& e.source == u
            &&& e.target < placed
            &&& e.target != u
            &&& has_edge(last, e.target as int, u, e.distance)
        } by {
            let e = last[u]@[k];
            if u == a && k == first[a as int]@.len() {
                assert(e == forward);
            } else if u == b && k == first[b as int]@.len() {
                assert(e == backward);
                assert(has_edge(middle, a as int, b as int, distance));
            } else {
                assert(e == first[u]@[k]);
                assert(has_edge(first, e.target as int, u, e.distance));
                assert(has_edge(middle, e.target as int, u, e.distance));
            }
        }
    }
}

/// Like [`add_edge`], but an edge that a list holds already is not pushed
/// again. Says whether edges were pushed.
fn add_extra_edge(
    edges: &mut Vec<Vec<Edge>>,
    node1_idx: usize,
    node2_idx_option: Option<u32>,
    distance: u32,
    Ghost(placed): Ghost<int>,
) -> (added: bool)
    requires
        lists_ok(old(edges)@, placed),
        node1_idx < placed,
        placed <= u32::MAX,
        node2_idx_option matches Some(v) ==> v < placed,
    ensures
        lists_ok(final(edges)@, placed),
        grown(old(edges)@, final(edges)@),
        final(edges)@.len() == old(edges)@.len(),
        views(final(edges)@) == bridged_lists(views(old(edges)@), node1_idx as int, node2_idx_option, distance),
        added == (node2_idx_option matches Some(v) && v != node1_idx && !joins(old(edges)@, node1_idx as int, v as int)),
        edges_before(final(edges)@, final(edges)@.len() as int) == edges_before(old(edges)@, old(edges)@.len() as int) + (
        if added {
            2int
        } else {
            0int
        }),
{
    match node2_idx_option {
        Some(node2_idx) => {
            if node2_idx as usize == node1_idx {
                proof {
                    lemma_grown_same(edges@);
                }
                return false;
            }
            let forth: bool = !leads_to(&edges[node1_idx], node2_idx);
            let back: bool = !leads_to(&edges[node2_idx as usize], node1_idx as u32);
            proof {
                let e = edges@;
                let u = node1_idx as int;
                let v = node2_idx as int;
                assert(joins(e, u, v) == listed(views(e), u, v)) by {
                    if joins(e, u, v) {
                        let k = choose|k: int| 0 <= k < e[u]@.len() && (#[trigger] e[u]@[k]).target == v;
                        assert(views(e)[u][k].target == v);
                    }
                    if listed(views(e), u, v) {
                        let k = choose|k: int| 0 <= k < views(e)[u].len() && (#[trigger] views(e)[u][k]).target == v;
                        assert(e[u]@[k].target == v);
                    }
                }
                if !forth {
                    let k = choose|k: int| 0 <= k < e[u]@.len() && (#[trigger] e[u]@[k]).target == node2_idx;
                    assert(has_edge(e, v, u, e[u]@[k].distance));
                    let k2 = choose|k2: int|
                        0 <= k2 < e[v]@.len() && (#[trigger] e[v]@[k2]).target == u && e[v]@[k2].distance
                            == e[u]@[k].distance;
                    assert(e[v]@[k2].target == node1_idx as u32);
                    assert(joins(e, u, v));
                } else {
                    if joins(e, u, v) {
                        let k = choose|k: int| 0 <= k < e[u]@.len() && (#[trigger] e[u]@[k]).target == v;
                        assert(e[u]@[k].target == node2_idx);
                    }
                }
                if !back {
                    let k = choose|k: int| 0 <= k < e[v]@.len() && (#[trigger] e[v]@[k]).target == node1_idx as u32;
                    assert(has_edge(e, u, v, e[v]@[k].distance));
                    let k2 = choose|k2: int|
                        0 <= k2 < e[u]@.len() && (#[trigger] e[u]@[k2]).target == v && e[u]@[k2].distance
                            == e[v]@[k].distance;
                    assert(e[u]@[k2].target == node2_idx);
                }
            }
            push_both(edges, node1_idx, node2_idx as usize, distance, forth, back, Ghost(placed));
            forth
        },
        None => {
            proof {
                lemma_grown_same(edges@);
            }
            false
        },
    }
}

/// The nodes that a node about to be placed may be joined to: in the band
/// above the node above it to the right, the one to the left, and the next
/// one on either side; in its own band its neighbour to the west, and the
/// first node of the band where the node closes a band of more than two
/// places. `None` where there is no such node.
#[derive(Clone, Copy, Debug)]
pub struct LinkPlan {
    /// Whether the node is joined to the band above: that band has three
    /// places at least, so that the nodes above a node are three different
    /// ones.
    pub linked: bool,
    /// Whether the node lies exactly below a place of the band above.
    pub exact: bool,
    pub right_prev: Option<u32>,
    pub right: Option<u32>,
    pub right_next: Option<u32>,
    pub left: Option<u32>,
    pub left_prev: Option<u32>,
    pub west: Option<u32>,
    pub band_first: Option<u32>,
}

/// The distances from a node about to be placed to the nodes of its
/// [`LinkPlan`], and from its neighbour to the west to the node above it
/// to the right. A distance to a node that is not there is not looked at.
#[derive(Clone, Copy, Debug)]
pub struct LinkDistances {
    pub right_prev: Measured,
    pub right: Measured,
    pub right_next: Measured,
    pub left: Measured,
    pub left_prev: Measured,
    pub west: Measured,
    pub band_first: Measured,
    pub west_to_right: Measured,
}

/// Places the nodes of a grid band by band, and joins each to its
/// neighbours in its band and in the band above.
pub struct GridBuilder {
    edges: Vec<Vec<Edge>>,
    virtual_nodes_to_index: Vec<Option<u32>>,
    maximum_number_of_nodes: usize,
    number_virtual_nodes: usize,
    number_graph_nodes: usize,
    number_edges: u64,
    number_azimuth_steps_last_round: usize,
    number_virtual_nodes_before_last_round: usize,
    number_azimuth_steps_this_round: usize,
    number_virtual_nodes_at_start_of_this_round: usize,
    last_node_mid_top_node_orientation: NodeOrientation,
}

impl GridBuilder {
    /// The builder is in a state that its methods keep.
    pub closed spec fn wf(&self) -> bool {
        self.linking(0)
    }

    /// The state of the builder while a node is joined to its neighbours,
    /// with room for `budget` more edges.
    pub closed spec fn linking(&self, budget: int) -> bool {
        &&& self.maximum_number_of_nodes < u32::MAX
        &&& self.edges@.len() == self.maximum_number_of_nodes
        &&& self.virtual_nodes_to_index@.len() == self.maximum_number_of_nodes
        &&& self.number_graph_nodes <= self.maximum_number_of_nodes
        &&& self.number_graph_nodes <= self.number_virtual_nodes
        &&& self.number_virtual_nodes <= u32::MAX - 1
        &&& lists_ok(self.edges@, self.number_graph_nodes as int)
        &&& self.number_edges == edges_before(self.edges@, self.edges@.len() as int)
        &&& self.number_edges + budget <= 16 * self.number_virtual_nodes
        &&& forall|i: int|
            0 <= i < self.virtual_nodes_to_index@.len() ==> (#[trigger] self.virtual_nodes_to_index@[i] matches Some(v)
                ==> v < self.number_graph_nodes)
        &&& self.number_virtual_nodes_before_last_round + self.number_azimuth_steps_last_round
            <= self.number_virtual_nodes_at_start_of_this_round
        &&& self.number_virtual_nodes_at_start_of_this_round <= self.number_virtual_nodes
        &&& self.number_virtual_nodes <= self.number_virtual_nodes_at_start_of_this_round
            + self.number_azimuth_steps_this_round
        &&& self.number_virtual_nodes_at_start_of_this_round + self.number_azimuth_steps_this_round <= u32::MAX - 1
    }

    /// Number of nodes placed so far.
    pub closed spec fn placed(&self) -> int {
        self.number_graph_nodes as int
    }

    /// Number of places gone through so far, with or without a node.
    pub closed spec fn visited(&self) -> int {
        self.number_virtual_nodes as int
    }

    /// The most nodes that are placed.
    pub closed spec fn limit(&self) -> int {
        self.maximum_number_of_nodes as int
    }

    /// The lists of the edges of the nodes.
    pub closed spec fn lists(&self) -> Seq<Vec<Edge>> {
        self.edges@
    }

    /// Number of places of the band that is gone through.
    pub closed spec fn band_size(&self) -> int {
        self.number_azimuth_steps_this_round as int
    }

    /// Number of places of the band that are still to come.
    pub closed spec fn band_left(&self) -> int {
        self.number_virtual_nodes_at_start_of_this_round + self.number_azimuth_steps_this_round
            - self.number_virtual_nodes
    }

    /// Number of places of the band gone through before.
    pub closed spec fn band_before(&self) -> int {
        self.number_azimuth_steps_last_round as int
    }

    /// The place at which the band that is gone through begins.
    pub closed spec fn band_start(&self) -> int {
        self.number_virtual_nodes_at_start_of_this_round as int
    }

    /// The place at which the band gone through before begins.
    pub closed spec fn band_before_start(&self) -> int {
        self.number_virtual_nodes_before_last_round as int
    }

    /// On which side the nearer neighbour of the node placed last lay.
    pub closed spec fn side(&self) -> NodeOrientation {
        self.last_node_mid_top_node_orientation
    }

    /// The nodes by their places.
    pub closed spec fn places(&self) -> Seq<Option<u32>> {
        self.virtual_nodes_to_index@
    }

    /// The node at `place`, if that place has one.
    pub closed spec fn held(&self, place: int) -> Option<u32> {
        if 0 <= place < self.virtual_nodes_to_index@.len() {
            self.virtual_nodes_to_index@[place]
        } else {
            None
        }
    }

    /// The node of the band above at the place `index`, counted round the
    /// band.
    pub open spec fn above(&self, index: int) -> Option<u32> {
        self.held(round_place(self.band_before_start(), self.band_before(), index))
    }

    /// A builder for a grid of `maximum_number_of_nodes` nodes at most.
    pub fn new(maximum_number_of_nodes: usize) -> (b: GridBuilder)
        requires
            maximum_number_of_nodes < u32::MAX,
        ensures
            b.wf(),
            b.placed() == 0,
            b.visited() == 0,
            b.limit() == maximum_number_of_nodes,
            b.band_left() == 0,
            b.band_size() == 0,
            b.band_start() == 0,
            forall|place: int| b.held(place) is None,
            forall|u: int| 0 <= u < b.lists().len() ==> (#[trigger] b.lists()[u])@.len() == 0,
    {
        let mut edges: Vec<Vec<Edge>> = Vec::with_capacity(maximum_number_of_nodes);
        let mut virtual_nodes_to_index: Vec<Option<u32>> = Vec::with_capacity(maximum_number_of_nodes);
        let mut i: usize = 0;
        while i < maximum_number_of_nodes
            invariant
                i <= maximum_number_of_nodes,
                edges@.len() == i,
                virtual_nodes_to_index@.len() == i,
                forall|u: int| 0 <= u < i ==> (#[trigger] edges@[u])@.len() == 0,
                forall|u: int| 0 <= u < i ==> (#[trigger] virtual_nodes_to_index@[u]) is None,
            decreases maximum_number_of_nodes - i,
        {
            edges.push(Vec::with_capacity(8));
            virtual_nodes_to_index.push(None);
            i += 1;
        }
        proof {
            lemma_no_edges(edges@, edges@.len() as int);
        }
        GridBuilder {
            edges,
            virtual_nodes_to_index,
            maximum_number_of_nodes,
            number_virtual_nodes: 0,
            number_graph_nodes: 0,
            number_edges: 0,
            number_azimuth_steps_last_round: 0,
            number_virtual_nodes_before_last_round: 0,
            number_azimuth_steps_this_round: 0,
            number_virtual_nodes_at_start_of_this_round: 0,
            last_node_mid_top_node_orientation: NodeOrientation::MID,
        }
    }

    /// Number of nodes placed so far.
    pub fn number_graph_nodes(&self) -> (n: usize)
        ensures
            n == self.placed(),
    {
        self.number_graph_nodes
    }

    /// Number of places gone through so far.
    pub fn number_virtual_nodes(&self) -> (n: usize)
        ensures
            n == self.visited(),
    {
        self.number_virtual_nodes
    }

    /// Room is left for a band of `m_phi` places.
    pub open spec fn band_fits(&self, m_phi: int) -> bool {
        self.visited() + m_phi <= u32::MAX - 1
    }

    /// Decides [`GridBuilder::band_fits`].
    pub fn can_begin_band(&self, m_phi: usize) -> (ok: bool)
        requires
            self.wf(),
        ensures
            ok == self.band_fits(m_phi as int),
    {
        m_phi as u128 + self.number_virtual_nodes as u128 <= (u32::MAX - 1) as u128
    }

    /// Begins a band of `m_phi` places; the band gone through so far
    /// becomes the band above.
    pub fn begin_band(&mut self, m_phi: usize)
        requires
            old(self).wf(),
            old(self).band_left() == 0,
            old(self).band_fits(m_phi as int),
        ensures
            final(self).wf(),
            final(self).placed() == old(self).placed(),
            final(self).visited() == old(self).visited(),
            final(self).limit() == old(self).limit(),
            final(self).lists() == old(self).lists(),
            final(self).band_size() == m_phi,
            final(self).band_left() == m_phi,
            final(self).band_before() == old(self).band_size(),
            final(self).band_start() == old(self).visited(),
            final(self).band_before_start() == old(self).band_start(),
            final(self).places() == old(self).places(),
            final(self).side() == NodeOrientation::MID,
    {
        self.number_azimuth_steps_last_round = self.number_azimuth_steps_this_round;
        self.number_virtual_nodes_before_last_round = self.number_virtual_nodes_at_start_of_this_round;
        self.number_azimuth_steps_this_round = m_phi;
        self.number_virtual_nodes_at_start_of_this_round = self.number_virtual_nodes;
        self.last_node_mid_top_node_orientation = NodeOrientation::MID;
    }

    /// Goes past a place that gets no node.
    pub fn skip_candidate(&mut self)
        requires
            old(self).wf(),
            old(self).band_left() > 0,
        ensures
            final(self).wf(),
            final(self).placed() == old(self).placed(),
            final(self).visited() == old(self).visited() + 1,
            final(self).limit() == old(self).limit(),
            final(self).lists() == old(self).lists(),
            final(self).band_size() == old(self).band_size(),
            final(self).band_before() == old(self).band_before(),
            final(self).band_left() == old(self).band_left() - 1,
            final(self).band_start() == old(self).band_start(),
            final(self).band_before_start() == old(self).band_before_start(),
            final(self).places() == old(self).places(),
            final(self).side() == old(self).side(),
    {
        self.number_virtual_nodes = self.number_virtual_nodes + 1;
    }

    /// The node at the place `index`, if that place has one.
    fn node_at(&self, index: usize) -> (node: Option<u32>)
        requires
            self.wf(),
        ensures
            node matches Some(v) ==> v < self.placed(),
            node == self.held(index as int),
    {
        if index < self.virtual_nodes_to_index.len() {
            self.virtual_nodes_to_index[index]
        } else {
            None
        }
    }

    /// The node of the band above at the place `index`, counted round the
    /// band.
    fn node_above(&self, index: i64) -> (node: Option<u32>)
        requires
            self.wf(),
            self.number_azimuth_steps_last_round >= 1,
            self.number_virtual_nodes_before_last_round - self.number_azimuth_steps_last_round <= index <= u32::MAX,
        ensures
            node matches Some(v) ==> v < self.placed(),
            node == self.above(index as int),
    {
        let place = calc_index_modulo(
            self.number_virtual_nodes_before_last_round,
            self.number_azimuth_steps_last_round,
            index,
        );
        self.node_at(place)
    }

    /// The plan for the node at the next place, the place `n` of its band,
    /// which lies `offset_floor` places, rounded down, and `offset_ceil`
    /// places, rounded up, behind the place above it to the right and to the
    /// left. `None` where the place is beyond the limit of the grid, and
    /// gets no node.
    pub fn plan_candidate(&self, n: usize, offset_floor: usize, offset_ceil: usize) -> (plan: Option<LinkPlan>)
        requires
            self.wf(),
            self.band_left() > 0,
            n + self.band_left() == self.band_size(),
            offset_floor <= offset_ceil <= n + self.band_before(),
            n <= offset_floor,
        ensures
            plan is Some <==> self.visited() < self.limit(),
            plan matches Some(p) ==> {
                &&& p.linked == (self.band_before() >= 3)
                &&& p.exact == (offset_floor == offset_ceil)
                &&& p.linked ==> {
                    &&& p.right_prev == self.above(self.visited() - offset_floor - 1)
                    &&& p.right == self.above(self.visited() - offset_floor)
                    &&& p.right_next == self.above(self.visited() - offset_floor + 1)
                    &&& p.left == self.above(self.visited() - offset_ceil)
                    &&& p.left_prev == self.above(self.visited() - offset_ceil - 1)
                }
                &&& p.west == self.held(
                    round_place(self.band_start(), self.band_size(), self.visited() + self.band_size() - 1),
                )
                &&& p.band_first == (if n == self.band_size() - 1 && self.band_size() > 2 {
                    self.held(self.band_start())
                } else {
                    None
                })
                &&& !p.linked ==> p.right_prev is None && p.right is None && p.right_next is None && p.left is None
                    && p.left_prev is None
                &&& p.right_prev matches Some(v) ==> v < self.placed()
                &&& p.right matches Some(v) ==> v < self.placed()
                &&& p.right_next matches Some(v) ==> v < self.placed()
                &&& p.left matches Some(v) ==> v < self.placed()
                &&& p.left_prev matches Some(v) ==> v < self.placed()
                &&& p.west matches Some(v) ==> v < self.placed()
                &&& p.band_first matches Some(v) ==> v < self.placed()
            },
    {
        if self.number_virtual_nodes >= self.maximum_number_of_nodes {
            return None;
        }
        let linked: bool = self.number_azimuth_steps_last_round >= 3;
        let mut plan = LinkPlan {
            linked,
            exact: offset_floor == offset_ceil,
            right_prev: None,
            right: None,
            right_next: None,
            left: None,
            left_prev: None,
            west: None,
            band_first: None,
        };
        if linked {
            let virtual_index_top_right_node: i64 = self.number_virtual_nodes as i64 - offset_floor as i64;
            let virtual_index_top_left_node: i64 = self.number_virtual_nodes as i64 - offset_ceil as i64;
            plan.right_prev = self.node_above(virtual_index_top_right_node - 1);
            plan.right = self.node_above(virtual_index_top_right_node);
            plan.right_next = self.node_above(virtual_index_top_right_node + 1);
            plan.left = self.node_above(virtual_index_top_left_node);
            plan.left_prev = self.node_above(virtual_index_top_left_node - 1);
        }
        let m_phi: usize = self.number_azimuth_steps_this_round;
        let west_place = calc_index_modulo(
            self.number_virtual_nodes_at_start_of_this_round,
            m_phi,
            self.number_virtual_nodes as i64 + (m_phi as i64 - 1),
        );
        plan.west = self.node_at(west_place);
        if n == m_phi - 1 && m_phi > 2 {
            plan.band_first = self.node_at(self.number_virtual_nodes_at_start_of_this_round);
        }
        Some(plan)
    }
}

/// Lists that are all empty hold no edge.
pub proof fn lemma_no_edges(edges: Seq<Vec<Edge>>, u: int)
    requires
        0 <= u <= edges.len(),
        forall|v: int| 0 <= v < edges.len() ==> (#[trigger] edges[v])@.len() == 0,
    ensures
        edges_before(edges, u) == 0,
    decreases u,
{
    if u > 0 {
        lemma_no_edges(edges, u - 1);
    }
}


/// The lists of a graph whose edges are sound hold, for every arc, its
/// reverse.
pub proof fn lemma_lists_symmetric(g: &GridGraph)
    requires
        g.wf(),
        lists_ok(g.edges@, g.edges@.len() as int),
    ensures
        g.symmetric(),
        forall|a: Arc| #[trigger] g.arcs().contains(a) ==> a.0 != a.1,
{
    assert forall|a: Arc| #[trigger] g.arcs().contains(a) implies g.arcs().contains((a.1, a.0, a.2)) && a.0 != a.1 by {
        let k = choose|k: int| 0 <= k < g.edges@[a.0]@.len() && #[trigger] g.arc_of(a.0, k) == a;
        let e = g.edges@[a.0]@[k];
        assert(has_edge(g.edges@, e.target as int, a.0, e.distance));
        let k2 = choose|k2: int|
            0 <= k2 < g.edges@[e.target as int]@.len() && (#[trigger] g.edges@[e.target as int]@[k2]).target == a.0
                && g.edges@[e.target as int]@[k2].distance == e.distance;
        assert(g.arc_of(a.1, k2) == (a.1, a.0, a.2));
    }
}

impl GridBuilder {
    /// Joins `node` to `target`, if there is such a node and it is another
    /// one, by an edge in each direction.
    fn link(&mut self, node: usize, target: Option<u32>, distance: Measured, Ghost(budget): Ghost<int>) -> (added:
        bool)
        requires
            old(self).linking(budget),
            budget >= 2,
            node < old(self).placed(),
            target matches Some(v) ==> v < old(self).placed(),
        ensures
            final(self).linking(budget - 2),
            added == is_other(node as int, target),
            views(final(self).lists()) == joined_lists(views(old(self).lists()), node as int, target, distance.meters),
            grown(old(self).lists(), final(self).lists()),
            final(self).placed() == old(self).placed(),
            final(self).visited() == old(self).visited(),
            final(self).limit() == old(self).limit(),
            final(self).band_left() == old(self).band_left(),
            final(self).band_size() == old(self).band_size(),
            final(self).band_before() == old(self).band_before(),
            final(self).places() == old(self).places(),
            final(self).band_start() == old(self).band_start(),
            final(self).band_before_start() == old(self).band_before_start(),
            final(self).last_node_mid_top_node_orientation == old(self).last_node_mid_top_node_orientation,
    {
        let added = add_edge(&mut self.edges, node, target, distance.meters, Ghost(self.number_graph_nodes as int));
        if added {
            self.number_edges = self.number_edges + 2;
        }
        added
    }

    /// Like [`GridBuilder::link`], but an edge that is there already is
    /// not made again.
    fn link_extra(&mut self, node: usize, target: Option<u32>, distance: Measured, Ghost(budget): Ghost<int>)
        requires
            old(self).linking(budget),
            budget >= 2,
            node < old(self).placed(),
            target matches Some(v) ==> v < old(self).placed(),
        ensures
            final(self).linking(budget - 2),
            views(final(self).lists()) == bridged_lists(views(old(self).lists()), node as int, target, distance.meters),
            grown(old(self).lists(), final(self).lists()),
            final(self).placed() == old(self).placed(),
            final(self).visited() == old(self).visited(),
            final(self).limit() == old(self).limit(),
            final(self).band_left() == old(self).band_left(),
            final(self).band_size() == old(self).band_size(),
            final(self).band_before() == old(self).band_before(),
            final(self).places() == old(self).places(),
            final(self).band_start() == old(self).band_start(),
            final(self).band_before_start() == old(self).band_before_start(),
            final(self).last_node_mid_top_node_orientation == old(self).last_node_mid_top_node_orientation,
    {
        let added = add_extra_edge(
            &mut self.edges,
            node,
            target,
            distance.meters,
            Ghost(self.number_graph_nodes as int),
        );
        if added {
            self.number_edges = self.number_edges + 2;
        }
    }
}


/// The lists after the edges across a gap in the band above were made:
/// from `node` to the node beyond the one above it to the left, and from
/// its neighbour to the west to the node above it to the right.
pub open spec fn gap_lists(lists: Seq<Seq<Edge>>, node: int, plan: LinkPlan, d: LinkDistances) -> Seq<Seq<Edge>> {
    let first = bridged_lists(lists, node, plan.left_prev, d.left_prev.meters);
    match plan.west {
        Some(west) => bridged_lists(first, west as int, plan.right, d.west_to_right.meters),
        None => first,
    }
}

/// The lists and the side of the nearer neighbour after `node`, which does
/// not lie exactly below a place of the band above, was joined to that
/// band: to the node above it to the right and the one to the left; then,
/// where one of the two is missing, to the node beyond the other; where
/// both are there, to the node beyond the nearer of them, with edges across
/// the gap where the nearer side has changed from left to right; and where
/// both are equally near after a node whose nearer side was the left, with
/// edges across the gap alone.
pub open spec fn between_lists(
    lists: Seq<Seq<Edge>>,
    node: int,
    plan: LinkPlan,
    d: LinkDistances,
    side: NodeOrientation,
) -> (Seq<Seq<Edge>>, NodeOrientation) {
    let both = joined_lists(joined_lists(lists, node, plan.right, d.right.meters), node, plan.left, d.left.meters);
    let right = is_other(node, plan.right);
    let left = is_other(node, plan.left);
    if !right && left {
        (joined_lists(both, node, plan.left_prev, d.left_prev.meters), side)
    } else if right && !left {
        (joined_lists(both, node, plan.right_next, d.right_next.meters), side)
    } else if right && left {
        if d.left.rank != d.right.rank {
            if d.left.rank > d.right.rank {
                let third = joined_lists(both, node, plan.right_next, d.right_next.meters);
                (if side == NodeOrientation::LEFT {
                    gap_lists(third, node, plan, d)
                } else {
                    third
                }, NodeOrientation::RIGHT)
            } else {
                (joined_lists(both, node, plan.left_prev, d.left_prev.meters), NodeOrientation::LEFT)
            }
        } else {
            (if side == NodeOrientation::LEFT {
                gap_lists(both, node, plan, d)
            } else {
                both
            }, side)
        }
    } else {
        (both, side)
    }
}

/// The lists and the side of the nearer neighbour after `node` was placed
/// and joined to the nodes of its plan: to the band above, to its
/// neighbour to the west, and, where it closes its band, to the first node
/// of the band.
pub open spec fn placed_lists(
    lists: Seq<Seq<Edge>>,
    node: int,
    plan: LinkPlan,
    d: LinkDistances,
    side: NodeOrientation,
    closes: bool,
) -> (Seq<Seq<Edge>>, NodeOrientation) {
    {
        let above = if !plan.linked {
            (lists, side)
        } else if plan.exact {
            (
                joined_lists(
                    joined_lists(
                        joined_lists(lists, node, plan.right_prev, d.right_prev.meters),
                        node,
                        plan.right,
                        d.right.meters,
                    ),
                    node,
                    plan.right_next,
                    d.right_next.meters,
                ),
                side,
            )
        } else {
            between_lists(lists, node, plan, d, side)
        };
        let west = joined_lists(above.0, node, plan.west, d.west.meters);
        (if closes {
            joined_lists(west, node, plan.band_first, d.band_first.meters)
        } else {
            west
        }, above.1)
    }
}

/// Every node named in the plan is among the first `placed` nodes.
pub open spec fn plan_ok(plan: LinkPlan, placed: int) -> bool {
    &&& plan.right_prev matches Some(v) ==> v < placed
    &&& plan.right matches Some(v) ==> v < placed
    &&& plan.right_next matches Some(v) ==> v < placed
    &&& plan.left matches Some(v) ==> v < placed
    &&& plan.left_prev matches Some(v) ==> v < placed
    &&& plan.west matches Some(v) ==> v < placed
    &&& plan.band_first matches Some(v) ==> v < placed
}

impl GridBuilder {
    /// Joins the node just placed to the band above, where it does not lie
    /// exactly below a place of it: to the node above it to the right and
    /// the one to the left, and to a third on the side of the nearer of the
    /// two, or, where one of the two is missing, beyond the other. Where
    /// the nearer side changes from left to right, or the two are equally
    /// near after a node whose nearer side was the left, edges are made
    /// across the gap.
    fn link_between(&mut self, node: usize, plan: &LinkPlan, distances: &LinkDistances)
        requires
            old(self).linking(14),
            node < old(self).placed(),
            plan_ok(*plan, old(self).placed()),
        ensures
            final(self).linking(4),
            (views(final(self).lists()), final(self).side()) == between_lists(
                views(old(self).lists()),
                node as int,
                *plan,
                *distances,
                old(self).side(),
            ),
            grown(old(self).lists(), final(self).lists()),
            final(self).placed() == old(self).placed(),
            final(self).visited() == old(self).visited(),
            final(self).limit() == old(self).limit(),
            final(self).band_left() == old(self).band_left(),
            final(self).band_size() == old(self).band_size(),
            final(self).band_before() == old(self).band_before(),
            final(self).places() == old(self).places(),
            final(self).band_start() == old(self).band_start(),
            final(self).band_before_start() == old(self).band_before_start(),
    {
        let ghost l0 = self.edges@;
        let distance_right = self.link(node, plan.right, distances.right, Ghost(14));
        let ghost l1 = self.edges@;
        let distance_left = self.link(node, plan.left, distances.left, Ghost(12));
        let ghost l2 = self.edges@;
        proof {
            lemma_grown_chain(l0, l1, l2);
        }
        if !distance_right && distance_left {
            self.link(node, plan.left_prev, distances.left_prev, Ghost(10));
            proof {
                lemma_grown_chain(l0, l2, self.edges@);
            }
        } else if distance_right && !distance_left {
            self.link(node, plan.right_next, distances.right_next, Ghost(10));
            proof {
                lemma_grown_chain(l0, l2, self.edges@);
            }
        } else if distance_right && distance_left {
            let dst_right: u64 = distances.right.rank;
            let dst_left: u64 = distances.left.rank;
            if dst_left != dst_right {
                if dst_left > dst_right {
                    self.link(node, plan.right_next, distances.right_next, Ghost(10));
                    let ghost l3 = self.edges@;
                    proof {
                        lemma_grown_chain(l0, l2, l3);
                    }
                    if self.last_node_mid_top_node_orientation == NodeOrientation::LEFT {
                        self.bridge_gap(node, plan, distances);
                        proof {
                            lemma_grown_chain(l0, l3, self.edges@);
                        }
                    }
                    self.last_node_mid_top_node_orientation = NodeOrientation::RIGHT;
                } else {
                    self.link(node, plan.left_prev, distances.left_prev, Ghost(10));
                    proof {
                        lemma_grown_chain(l0, l2, self.edges@);
                    }
                    self.last_node_mid_top_node_orientation = NodeOrientation::LEFT;
                }
            } else {
                if self.last_node_mid_top_node_orientation == NodeOrientation::LEFT {
                    self.bridge_gap(node, plan, distances);
                    proof {
                        lemma_grown_chain(l0, l2, self.edges@);
                    }
                }
            }
        }
    }

    /// Makes the edges across a gap in the band above: from the node just
    /// placed to the node beyond the one above it to the left, and from its
    /// neighbour to the west to the node above it to the right, each unless
    /// it is there already.
    fn bridge_gap(&mut self, node: usize, plan: &LinkPlan, distances: &LinkDistances)
        requires
            old(self).linking(8),
            node < old(self).placed(),
            plan_ok(*plan, old(self).placed()),
        ensures
            final(self).linking(4),
            views(final(self).lists()) == gap_lists(views(old(self).lists()), node as int, *plan, *distances),
            grown(old(self).lists(), final(self).lists()),
            final(self).placed() == old(self).placed(),
            final(self).visited() == old(self).visited(),
            final(self).limit() == old(self).limit(),
            final(self).band_left() == old(self).band_left(),
            final(self).band_size() == old(self).band_size(),
            final(self).band_before() == old(self).band_before(),
            final(self).places() == old(self).places(),
            final(self).band_start() == old(self).band_start(),
            final(self).band_before_start() == old(self).band_before_start(),
            final(self).last_node_mid_top_node_orientation == old(self).last_node_mid_top_node_orientation,
    {
        let ghost l0 = self.edges@;
        self.link_extra(node, plan.left_prev, distances.left_prev, Ghost(8));
        let ghost l1 = self.edges@;
        if let Some(left_neighbor_index) = plan.west {
            self.link_extra(left_neighbor_index as usize, plan.right, distances.west_to_right, Ghost(6));
            proof {
                lemma_grown_chain(l0, l1, self.edges@);
            }
        }
    }

    /// Places a node at the next place of the band, and joins it to the
    /// nodes of `plan`: to its neighbours in the band above, to its
    /// neighbour to the west, and, where it closes the band, to the first
    /// node of the band. The node gets the number of nodes placed before it
    /// as its id.
    pub fn place_candidate(&mut self, n: usize, plan: &LinkPlan, distances: &LinkDistances) -> (id: u32)
        requires
            old(self).wf(),
            old(self).band_left() > 0,
            old(self).visited() < old(self).limit(),
            plan_ok(*plan, old(self).placed()),
        ensures
            final(self).wf(),
            id == old(self).placed(),
            final(self).placed() == old(self).placed() + 1,
            final(self).visited() == old(self).visited() + 1,
            final(self).limit() == old(self).limit(),
            final(self).band_left() == old(self).band_left() - 1,
            final(self).band_size() == old(self).band_size(),
            final(self).band_before() == old(self).band_before(),
            final(self).band_start() == old(self).band_start(),
            final(self).band_before_start() == old(self).band_before_start(),
            final(self).held(old(self).visited()) == Some(id),
            forall|place: int| place != old(self).visited() ==> final(self).held(place) == old(self).held(place),
            grown(old(self).lists(), final(self).lists()),
            (views(final(self).lists()), final(self).side()) == placed_lists(
                views(old(self).lists()),
                id as int,
                *plan,
                *distances,
                old(self).side(),
                n == old(self).band_size() - 1 && old(self).band_size() > 2,
            ),
    {
        let node: usize = self.number_graph_nodes;
        let ghost l0 = self.edges@;
        let ghost map0 = self.virtual_nodes_to_index@;
        self.virtual_nodes_to_index[self.number_virtual_nodes] = Some(node as u32);
        self.number_graph_nodes = self.number_graph_nodes + 1;
        self.number_virtual_nodes = self.number_virtual_nodes + 1;
        proof {
            assert forall|i: int| 0 <= i < self.virtual_nodes_to_index@.len() implies (
            #[trigger] self.virtual_nodes_to_index@[i] matches Some(v) ==> v < self.number_graph_nodes) by {
                if i != self.number_virtual_nodes - 1 {
                    assert(self.virtual_nodes_to_index@[i] == map0[i]);
                }
            }
            lemma_grown_same(l0);
            assert(self.linking(16));
        }
        if plan.linked {
            if plan.exact {
                self.link(node, plan.right_prev, distances.right_prev, Ghost(16));
                let ghost l1 = self.edges@;
                self.link(node, plan.right, distances.right, Ghost(14));
                let ghost l2 = self.edges@;
                self.link(node, plan.right_next, distances.right_next, Ghost(12));
                proof {
                    lemma_grown_chain(l0, l1, l2);
                    lemma_grown_chain(l0, l2, self.edges@);
                }
            } else {
                proof {
                    assert(self.linking(14));
                }
                self.link_between(node, plan, distances);
            }
        }
        let ghost l3 = self.edges@;
        proof {
            assert(self.linking(4));
        }
        self.link(node, plan.west, distances.west, Ghost(4));
        let ghost l4 = self.edges@;
        proof {
            lemma_grown_chain(l0, l3, l4);
        }
        if self.number_azimuth_steps_this_round > 2 && n == self.number_azimuth_steps_this_round - 1 {
            self.link(node, plan.band_first, distances.band_first, Ghost(2));
            proof {
                lemma_grown_chain(l0, l4, self.edges@);
            }
        }
        node as u32
    }

    /// The graph that was built, with `nodes` as the places of its nodes.
    /// `None` where `nodes` does not hold one place for every node, or the
    /// graph has more edges than its compact view can hold.
    pub fn finish(self, nodes: Vec<Node>) -> (r: Option<GridGraph>)
        requires
            self.wf(),
        ensures
            r is Some <==> nodes@.len() == self.placed() && 2 * edges_before(self.lists(), self.lists().len() as int)
                <= u32::MAX,
            r matches Some(g) ==> {
                &&& g.wf()
                &&& g.symmetric()
                &&& g.node_count() == self.placed()
                &&& g.node_count() <= self.limit()
                &&& g.nodes@ == nodes@
                &&& forall|u: int| 0 <= u < g.node_count() ==> (#[trigger] g.edges@[u]) == self.lists()[u]
                &&& forall|a: Arc| #[trigger] g.arcs().contains(a) ==> a.0 != a.1
            },
    {
        let placed: usize = self.number_graph_nodes;
        let mut edges = self.edges;
        let number_edges: u64 = self.number_edges;
        if nodes.len() != placed || number_edges > (u32::MAX / 2) as u64 {
            return None;
        }
        let ghost full = edges@;
        edges.truncate(placed);
        proof {
            lemma_edges_before_prefix(full, edges@, placed as int);
            lemma_tail_empty(full, placed as int, full.len() as int);
            assert forall|u: int, k: int| 0 <= u < edges@.len() && 0 <= k < edges@[u]@.len() implies {
                let e = #[trigger] edges@[u]@[k];
                &&& e.source == u
                &&& e.target < placed
                &&& e.target != u
                &&& has_edge(edges@, e.target as int, u, e.distance)
            } by {
                let e = full[u]@[k];
                assert(has_edge(full, e.target as int, u, e.distance));
                let k2 = choose|k2: int|
                    0 <= k2 < full[e.target as int]@.len() && (#[trigger] full[e.target as int]@[k2]).target == u
                        && full[e.target as int]@[k2].distance == e.distance;
                assert(edges@[e.target as int]@[k2] == full[e.target as int]@[k2]);
            }
        }
        let g = GridGraph { number_edges: number_edges as i64, number_nodes: placed as i64, edges, nodes };
        proof {
            lemma_lists_symmetric(&g);
        }
        Some(g)
    }
}

/// Empty lists at the end add nothing to the count of edges.
pub proof fn lemma_tail_empty(edges: Seq<Vec<Edge>>, from: int, to: int)
    requires
        0 <= from <= to <= edges.len(),
        forall|u: int| from <= u < edges.len() ==> (#[trigger] edges[u])@.len() == 0,
    ensures
        edges_before(edges, to) == edges_before(edges, from),
    decreases to - from,
{
    if from < to {
        lemma_tail_empty(edges, from, to - 1);
    }
}

} // verus!
