use vstd::prelude::*;
use crate::model::adjacency_array::{AdjacencyArray, Arc};

verus! {

/// A directed edge with its length in metres.
#[derive(Clone, Copy, Debug)]
pub struct Edge {
    pub source: u32,
    pub target: u32,
    pub distance: u32,
}

/// Two edges are equal when they join the same nodes in the same
/// direction; their lengths are not compared.
impl PartialEq for Edge {
    fn eq(&self, other: &Self) -> (r: bool) {
        other.source == self.source && other.target == self.target
    }
}

impl Eq for Edge {

}

impl vstd::std_specs::cmp::PartialEqSpecImpl for Edge {
    open spec fn obeys_eq_spec() -> bool {
        true
    }

    open spec fn eq_spec(&self, other: &Self) -> bool {
        other.source == self.source && other.target == self.target
    }
}

/// A place on the globe. The library never computes with coordinates: it
/// carries each of them as the bit pattern of a double-precision number.
#[derive(Clone, Copy, Debug)]
pub struct Node {
    pub lat: u64,
    pub lon: u64,
}

/// A graph as adjacency lists: `edges[u]` holds the edges that leave `u`.
#[derive(Clone)]
pub struct GridGraph {
    pub number_edges: i64,
    pub number_nodes: i64,
    pub edges: Vec<Vec<Edge>>,
    pub nodes: Vec<Node>,
}

/// Number of edges that leave the first `u` nodes.
pub open spec fn edges_before(edges: Seq<Vec<Edge>>, u: int) -> int
    decreases u,
{
    if u <= 0 {
        0
    } else {
        edges_before(edges, u - 1) + edges[u - 1]@.len()
    }
}

/// No node has more edges before it than a later one.
pub proof fn lemma_edges_before_grows(edges: Seq<Vec<Edge>>, u: int, v: int)
    requires
        0 <= u <= v,
    ensures
        0 <= edges_before(edges, u) <= edges_before(edges, v),
    decreases v,
{
    if v > 0 {
        if u < v {
            lemma_edges_before_grows(edges, u, v - 1);
        } else {
            lemma_edges_before_grows(edges, u - 1, v - 1);
        }
    }
}

/// The count of edges depends on the lists before `u` alone.
pub proof fn lemma_edges_before_prefix(a: Seq<Vec<Edge>>, b: Seq<Vec<Edge>>, u: int)
    requires
        forall|v: int| 0 <= v < u ==> a[v]@.len() == b[v]@.len(),
    ensures
        edges_before(a, u) == edges_before(b, u),
    decreases u,
{
    if u > 0 {
        lemma_edges_before_prefix(a, b, u - 1);
    }
}

/// Lengthening the list of node `x` by `k` edges adds `k` to the count of
/// every later node.
pub proof fn lemma_edges_before_grown(a: Seq<Vec<Edge>>, b: Seq<Vec<Edge>>, x: int, k: int, u: int)
    requires
        0 <= x < u,
        b[x]@.len() == a[x]@.len() + k,
        forall|v: int| 0 <= v < u && v != x ==> a[v]@.len() == b[v]@.len(),
    ensures
        edges_before(b, u) == edges_before(a, u) + k,
    decreases u,
{
    if u - 1 == x {
        lemma_edges_before_prefix(a, b, x);
    } else {
        lemma_edges_before_grown(a, b, x, k, u - 1);
    }
}

/// The pair of the `k`-th edge of node `v` stands in `payload` where the
/// compact view has it.
pub open spec fn placed(payload: Seq<u32>, edges: Seq<Vec<Edge>>, v: int, k: int) -> bool {
    let p = 2 * edges_before(edges, v) + 2 * k;
    &&& 0 <= p
    &&& p + 1 < payload.len()
    &&& payload[p] == edges[v]@[k].target
    &&& payload[p + 1] == edges[v]@[k].distance
}

/// `a` is the compact view of `g`: the pairs of node `u` start where the
/// pairs of the nodes before it end, and its `k`-th pair holds the target
/// and the length of the `k`-th edge that leaves it.
pub open spec fn is_view_of(a: &AdjacencyArray, g: &GridGraph) -> bool {
    &&& a.wf()
    &&& a.node_count() == g.node_count()
    &&& forall|u: int| 0 <= u <= g.node_count() ==> #[trigger] a.offsets()[u] == 2 * edges_before(g.edges@, u)
    &&& forall|u: int, k: int|
        0 <= u < g.node_count() && 0 <= k < g.edges@[u]@.len() ==> #[trigger] a.arc_at(u, k) == g.arc_of(u, k)
}

/// Two graphs hold the same edges in the same order.
pub open spec fn same_lists(g: &GridGraph, h: &GridGraph) -> bool {
    &&& g.edges@.len() == h.edges@.len()
    &&& forall|u: int| 0 <= u < g.edges@.len() ==> (#[trigger] g.edges@[u])@ == h.edges@[u]@
}

/// The node whose pairs the entry `i` of the pair list belongs to.
pub proof fn lemma_owner(a: &AdjacencyArray, i: int, upto: int) -> (u: int)
    requires
        a.wf(),
        0 <= upto <= a.node_count(),
        0 <= i < a.offsets()[upto],
    ensures
        0 <= u < upto,
        a.offsets()[u] <= i < a.offsets()[u + 1],
    decreases upto,
{
    if i >= a.offsets()[upto - 1] {
        upto - 1
    } else {
        lemma_owner(a, i, upto - 1)
    }
}

/// The compact view depends on the lists of edges alone: two graphs that
/// hold the same edges in the same order have the same compact view, entry
/// for entry. So a graph that is written out and read back, with its lists
/// as they were, is searched as before.
pub proof fn lemma_views_agree(g: &GridGraph, h: &GridGraph, a: &AdjacencyArray, b: &AdjacencyArray)
    requires
        same_lists(g, h),
        is_view_of(a, g),
        is_view_of(b, h),
    ensures
        a.offsets() == b.offsets(),
        a.payload() == b.payload(),
{
    let n = g.node_count();
    assert(a.offsets().len() == b.offsets().len());
    assert forall|u: int| 0 <= u < a.offsets().len() implies a.offsets()[u] == b.offsets()[u] by {
        lemma_edges_before_prefix(g.edges@, h.edges@, u);
        assert(a.offsets()[u] == 2 * edges_before(g.edges@, u));
        assert(b.offsets()[u] == 2 * edges_before(h.edges@, u));
    }
    assert(a.offsets() =~= b.offsets());
    assert(a.payload().len() == b.payload().len());
    assert forall|i: int| 0 <= i < a.payload().len() implies a.payload()[i] == b.payload()[i] by {
        let u = lemma_owner(a, i, n);
        let base = a.offsets()[u] as int;
        assert(base % 2 == 0);
        assert(a.offsets()[u + 1] % 2 == 0);
        let k = (i - base) / 2;
        assert(edges_before(g.edges@, u + 1) == edges_before(g.edges@, u) + g.edges@[u]@.len());
        assert(a.offsets()[u + 1] == 2 * edges_before(g.edges@, u + 1));
        assert(0 <= k < g.edges@[u]@.len());
        assert(g.edges@[u]@ == h.edges@[u]@);
        assert(a.arc_at(u, k) == g.arc_of(u, k));
        assert(b.arc_at(u, k) == h.arc_of(u, k));
        assert(g.arc_of(u, k) == h.arc_of(u, k));
        assert(i == base + 2 * k || i == base + 2 * k + 1);
    }
    assert(a.payload() =~= b.payload());
}

impl GridGraph {
    /// Number of nodes.
    pub open spec fn node_count(&self) -> int {
        self.edges@.len() as int
    }

    /// The `k`-th edge that leaves `u`, as an arc.
    pub open spec fn arc_of(&self, u: int, k: int) -> Arc {
        (u, self.edges@[u]@[k].target as int, self.edges@[u]@[k].distance as nat)
    }

    /// The arcs of the graph.
    pub open spec fn arcs(&self) -> Set<Arc> {
        Set::new(
            |a: Arc|
                0 <= a.0 < self.node_count() && exists|k: int|
                    0 <= k < self.edges@[a.0]@.len() && #[trigger] self.arc_of(a.0, k) == a,
        )
    }

    /// The graph is usable: the counts are those of the lists, every edge
    /// stands in the list of its source and leads to a node, and the
    /// compact view of the graph fits 32-bit offsets.
    pub open spec fn wf(&self) -> bool {
        &&& self.number_nodes == self.edges@.len()
        &&& self.nodes@.len() == self.edges@.len()
        &&& self.edges@.len() < u32::MAX
        &&& self.number_edges == edges_before(self.edges@, self.node_count())
        &&& 2 * self.number_edges <= u32::MAX
        &&& forall|u: int, k: int|
            0 <= u < self.node_count() && 0 <= k < self.edges@[u]@.len() ==> (#[trigger] self.edges@[u]@[k]).source
                == u && self.edges@[u]@[k].target < self.node_count()
    }

    /// Every edge has its reverse, of the same length.
    pub open spec fn symmetric(&self) -> bool {
        forall|a: Arc| #[trigger] self.arcs().contains(a) ==> self.arcs().contains((a.1, a.0, a.2))
    }

    /// Decides whether every edge has a length above zero.
    pub fn has_positive_lengths(&self) -> (ok: bool)
        requires
            self.wf(),
        ensures
            ok == crate::algorithms::paths::positive(self.arcs()),
    {
        let n: usize = self.edges.len();
        let mut u: usize = 0;
        while u < n
            invariant
                self.wf(),
                n == self.edges@.len(),
                u <= n,
                forall|a: Arc| #[trigger] self.arcs().contains(a) && a.0 < u ==> a.2 > 0,
            decreases n - u,
        {
            let list = &self.edges[u];
            let mut k: usize = 0;
            while k < list.len()
                invariant
                    self.wf(),
                    n == self.edges@.len(),
                    u < n,
                    list == self.edges@[u as int],
                    k <= list@.len(),
                    forall|j: int| 0 <= j < k ==> (#[trigger] self.arc_of(u as int, j)).2 > 0,
                decreases list@.len() - k,
            {
                if list[k].distance == 0 {
                    proof {
                        let a = self.arc_of(u as int, k as int);
                        assert(self.arcs().contains(a));
                    }
                    return false;
                }
                k += 1;
            }
            proof {
                assert forall|a: Arc| #[trigger] self.arcs().contains(a) && a.0 < u + 1 implies a.2 > 0 by {
                    if a.0 == u {
                        let j = choose|j: int| 0 <= j < self.edges@[a.0]@.len() && #[trigger] self.arc_of(a.0, j) == a;
                        assert(self.arc_of(u as int, j).2 > 0);
                    }
                }
            }
            u += 1;
        }
        true
    }

    /// `true` when the list of `v` holds an edge to `u` of the length
    /// `distance`.
    fn has_edge_to(&self, v: usize, u: u32, distance: u32) -> (found: bool)
        requires
            self.wf(),
            v < self.node_count(),
        ensures
            found == self.arcs().contains((v as int, u as int, distance as nat)),
    {
        let list = &self.edges[v];
        let mut k: usize = 0;
        while k < list.len()
            invariant
                self.wf(),
                v < self.node_count(),
                list == self.edges@[v as int],
                k <= list@.len(),
                forall|j: int| 0 <= j < k ==> self.arc_of(v as int, j) != (v as int, u as int, distance as nat),
            decreases list@.len() - k,
        {
            if list[k].target == u && list[k].distance == distance {
                proof {
                    assert(self.arc_of(v as int, k as int) == (v as int, u as int, distance as nat));
                }
                return true;
            }
            k += 1;
        }
        false
    }

    /// Decides [`GridGraph::symmetric`]: looks for the reverse of every
    /// edge in the list of the node that the edge leads to.
    pub fn is_symmetric(&self) -> (ok: bool)
        requires
            self.wf(),
        ensures
            ok == self.symmetric(),
    {
        let n: usize = self.edges.len();
        let mut u: usize = 0;
        while u < n
            invariant
                self.wf(),
                n == self.edges@.len(),
                u <= n,
                forall|a: Arc| #[trigger] self.arcs().contains(a) && a.0 < u ==> self.arcs().contains((a.1, a.0, a.2)),
            decreases n - u,
        {
            let list = &self.edges[u];
            let mut k: usize = 0;
            while k < list.len()
                invariant
                    self.wf(),
                    n == self.edges@.len(),
                    u < n,
                    list == self.edges@[u as int],
                    k <= list@.len(),
                    forall|j: int|
                        0 <= j < k ==> self.arcs().contains(
                            (self.arc_of(u as int, j).1, u as int, #[trigger] self.arc_of(u as int, j).2),
                        ),
                decreases list@.len() - k,
            {
                let e = &list[k];
                proof {
                    assert(self.edges@[u as int]@[k as int].target < self.node_count());
                }
                if !self.has_edge_to(e.target as usize, u as u32, e.distance) {
                    proof {
                        let a = self.arc_of(u as int, k as int);
                        assert(self.arcs().contains(a));
                        assert(!self.arcs().contains((a.1, a.0, a.2)));
                    }
                    return false;
                }
                k += 1;
            }
            proof {
                assert forall|a: Arc| #[trigger] self.arcs().contains(a) && a.0 < u + 1 implies self.arcs().contains(
                    (a.1, a.0, a.2),
                ) by {
                    if a.0 == u {
                        let j = choose|j: int| 0 <= j < self.edges@[a.0]@.len() && #[trigger] self.arc_of(a.0, j) == a;
                        assert(self.arcs().contains((self.arc_of(u as int, j).1, u as int, self.arc_of(u as int, j).2)));
                    }
                }
            }
            u += 1;
        }
        true
    }

    /// The graph without nodes.
    pub fn default() -> (g: GridGraph)
        ensures
            g.wf(),
            g.node_count() == 0,
            g.arcs() == Set::<Arc>::empty(),
    {
        let g = GridGraph { number_edges: 0, number_nodes: 0, edges: Vec::new(), nodes: Vec::new() };
        proof {
            assert(g.arcs() =~= Set::<Arc>::empty());
        }
        g
    }

    /// Decides [`GridGraph::wf`].
    pub fn is_well_formed(&self) -> (ok: bool)
        ensures
            ok == self.wf(),
    {
        let n: usize = self.edges.len();
        if self.number_nodes < 0 || self.number_nodes as u64 != n as u64 || self.nodes.len() != n || n as u64
            >= u32::MAX as u64 {
            return false;
        }
        let mut total: u64 = 0;
        let mut u: usize = 0;
        while u < n
            invariant
                n == self.edges@.len(),
                n < u32::MAX,
                u <= n,
                total == edges_before(self.edges@, u as int),
                2 * total <= u32::MAX,
                forall|v: int, k: int|
                    0 <= v < u && 0 <= k < self.edges@[v]@.len() ==> (#[trigger] self.edges@[v]@[k]).source == v
                        && self.edges@[v]@[k].target < n,
            decreases n - u,
        {
            let list = &self.edges[u];
            let m: usize = list.len();
            if m as u64 > u32::MAX as u64 || 2 * (total + m as u64) > u32::MAX as u64 {
                proof {
                    lemma_edges_before_grows(self.edges@, u + 1, n as int);
                }
                return false;
            }
            let mut k: usize = 0;
            while k < m
                invariant
                    n == self.edges@.len(),
                    u < n,
                    list == self.edges@[u as int],
                    m == list@.len(),
                    k <= m,
                    forall|j: int|
                        0 <= j < k ==> (#[trigger] self.edges@[u as int]@[j]).source == u && self.edges@[u as int]@[j].target
                            < n,
                decreases m - k,
            {
                if list[k].source as usize != u || list[k].target as usize >= n {
                    return false;
                }
                k += 1;
            }
            total = total + m as u64;
            u += 1;
        }
        self.number_edges >= 0 && self.number_edges as u64 == total
    }

    /// The compact view of the graph: for each node in turn the pairs
    /// `(target, distance)` of its edges, in the order of its list.
    pub fn adjacency_array(&self) -> (a: AdjacencyArray)
        requires
            self.wf(),
        ensures
            a.wf(),
            a.node_count() == self.node_count(),
            a.arcs() == self.arcs(),
            is_view_of(&a, self),
            forall|u: int| 0 <= u <= self.node_count() ==> a.offsets()[u] == 2 * edges_before(self.edges@, u),
            forall|u: int, k: int|
                0 <= u < self.node_count() && 0 <= k < self.edges@[u]@.len() ==> #[trigger] a.arc_at(u, k)
                    == self.arc_of(u, k),
    {
        let n: usize = self.edges.len();
        let mut offsets: Vec<u32> = Vec::new();
        let mut payload: Vec<u32> = Vec::new();
        let mut u: usize = 0;
        while u < n
            invariant
                self.wf(),
                n == self.edges@.len(),
                u <= n,
                offsets@.len() == u,
                payload@.len() == 2 * edges_before(self.edges@, u as int),
                forall|v: int| 0 <= v < u ==> offsets@[v] == 2 * edges_before(self.edges@, v),
                forall|v: int, k: int|
                    0 <= v < u && 0 <= k < self.edges@[v]@.len() ==> #[trigger] placed(payload@, self.edges@, v, k),
                forall|i: int| 0 <= i < payload@.len() && i % 2 == 0 ==> (#[trigger] payload@[i]) < n,
            decreases n - u,
        {
            proof {
                lemma_edges_before_grows(self.edges@, u as int, n as int);
                lemma_edges_before_grows(self.edges@, u + 1, n as int);
                lemma_edges_before_grows(self.edges@, 0, u as int);
            }
            offsets.push(payload.len() as u32);
            let list = &self.edges[u];
            let m: usize = list.len();
            let ghost base = 2 * edges_before(self.edges@, u as int);
            let mut k: usize = 0;
            while k < m
                invariant
                    self.wf(),
                    n == self.edges@.len(),
                    u < n,
                    list == self.edges@[u as int],
                    m == list@.len(),
                    k <= m,
                    base == 2 * edges_before(self.edges@, u as int),
                    base + 2 * m <= u32::MAX,
                    payload@.len() == base + 2 * k,
                    offsets@.len() == u + 1,
                    forall|v: int| 0 <= v <= u ==> offsets@[v] == 2 * edges_before(self.edges@, v),
                    forall|v: int, j: int|
                        0 <= v < u && 0 <= j < self.edges@[v]@.len() ==> #[trigger] placed(payload@, self.edges@, v, j),
                    0 <= base,
                    forall|j: int| 0 <= j < k ==> #[trigger] placed(payload@, self.edges@, u as int, j),
                    forall|i: int| 0 <= i < payload@.len() && i % 2 == 0 ==> (#[trigger] payload@[i]) < n,
                decreases m - k,
            {
                proof {
                    assert(self.edges@[u as int]@[k as int].target < n);
                }
                let ghost earlier = payload@;
                payload.push(list[k].target);
                payload.push(list[k].distance);
                proof {
                    assert forall|v: int, j: int| 0 <= v < u && 0 <= j < self.edges@[v]@.len() implies #[trigger] placed(
                        payload@,
                        self.edges@,
                        v,
                        j,
                    ) by {
                        assert(placed(earlier, self.edges@, v, j));
                    }
                    assert forall|j: int| 0 <= j < k + 1 implies #[trigger] placed(
                        payload@,
                        self.edges@,
                        u as int,
                        j,
                    ) by {
                        if j < k {
                            assert(placed(earlier, self.edges@, u as int, j));
                        }
                    }
                }
                k += 1;
            }
            proof {
                assert(edges_before(self.edges@, u + 1) == edges_before(self.edges@, u as int) + m);
            }
            u += 1;
        }
        offsets.push(payload.len() as u32);
        let a = AdjacencyArray::new(offsets, payload);
        proof {
            let e = self.edges@;
            assert forall|v: int| 0 <= v < a.node_count() implies a.offsets()[v] <= #[trigger] a.offsets()[v + 1] by {
                lemma_edges_before_grows(e, v, v + 1);
            }
            assert forall|v: int, k: int| 0 <= v < self.node_count() && 0 <= k < e[v]@.len() implies #[trigger] a.arc_at(
                v,
                k,
            ) == self.arc_of(v, k) by {
                assert(placed(a.payload(), e, v, k));
            }
            assert forall|v: int| 0 <= v < self.node_count() implies a.degree(v) == e[v]@.len() by {
                assert(edges_before(e, v + 1) == edges_before(e, v) + e[v]@.len());
            }
            assert forall|x: Arc| a.arcs().contains(x) == self.arcs().contains(x) by {
                if a.arcs().contains(x) {
                    let j = choose|j: int| 0 <= j < a.degree(x.0) && #[trigger] a.arc_at(x.0, j) == x;
                    assert(self.arc_of(x.0, j) == x);
                }
                if self.arcs().contains(x) {
                    let k = choose|k: int| 0 <= k < e[x.0]@.len() && #[trigger] self.arc_of(x.0, k) == x;
                    assert(a.arc_at(x.0, k) == x);
                }
            }
            assert(a.arcs() =~= self.arcs());
        }
        a
    }

    /// Room is left for one more edge.
    pub open spec fn has_room(&self) -> bool {
        2 * (self.number_edges + 1) <= u32::MAX
    }

    /// Decides [`GridGraph::has_room`].
    pub fn can_add_edge(&self) -> (ok: bool)
        requires
            self.wf(),
        ensures
            ok == self.has_room(),
    {
        self.number_edges < (u32::MAX / 2) as i64
    }

    /// Appends `edge` to the list of its source. The reverse edge is not
    /// added.
    pub fn add_new_edge(&mut self, edge: Edge)
        requires
            old(self).wf(),
            old(self).has_room(),
            edge.source < old(self).node_count(),
            edge.target < old(self).node_count(),
        ensures
            final(self).wf(),
            final(self).node_count() == old(self).node_count(),
            final(self).nodes@ == old(self).nodes@,
            final(self).number_edges == old(self).number_edges + 1,
            final(self).edges@[edge.source as int]@ == old(self).edges@[edge.source as int]@.push(edge),
            forall|u: int|
                0 <= u < old(self).node_count() && u != edge.source ==> final(self).edges@[u] == old(self).edges@[u],
            final(self).arcs() == old(self).arcs().insert(
                (edge.source as int, edge.target as int, edge.distance as nat),
            ),
    {
        let ghost before = *self;
        self.edges[edge.source as usize].push(edge);
        self.number_edges = self.number_edges + 1;
        proof {
            let x = edge.source as int;
            let n = before.node_count();
            lemma_edges_before_grown(before.edges@, self.edges@, x, 1, n);
            assert forall|u: int, k: int| 0 <= u < self.node_count() && 0 <= k < self.edges@[u]@.len() implies (
            #[trigger] self.edges@[u]@[k]).source == u && self.edges@[u]@[k].target < self.node_count() by {
                if u == x && k == before.edges@[x]@.len() {
                } else {
                    assert(self.edges@[u]@[k] == before.edges@[u]@[k]);
                }
            }
            let a: Arc = (edge.source as int, edge.target as int, edge.distance as nat);
            assert forall|b: Arc| self.arcs().contains(b) == before.arcs().insert(a).contains(b) by {
                if self.arcs().contains(b) {
                    let k = choose|k: int| 0 <= k < self.edges@[b.0]@.len() && #[trigger] self.arc_of(b.0, k) == b;
                    if b.0 == x && k == before.edges@[x]@.len() {
                    } else {
                        assert(before.arc_of(b.0, k) == b);
                    }
                }
                if before.arcs().contains(b) {
                    let k = choose|k: int| 0 <= k < before.edges@[b.0]@.len() && #[trigger] before.arc_of(b.0, k) == b;
                    assert(self.arc_of(b.0, k) == b);
                }
                if b == a {
                    assert(self.arc_of(x, before.edges@[x]@.len() as int) == a);
                }
            }
            assert(self.arcs() =~= before.arcs().insert(a));
        }
    }

    /// Empties the list of the edges that leave `v`. Edges that lead to `v`
    /// stay.
    pub fn remove_edges_of_node(&mut self, v: u32)
        requires
            old(self).wf(),
            v < old(self).node_count(),
        ensures
            final(self).wf(),
            final(self).node_count() == old(self).node_count(),
            final(self).nodes@ == old(self).nodes@,
            final(self).edges@[v as int]@.len() == 0,
            final(self).number_edges == old(self).number_edges - old(self).edges@[v as int]@.len(),
            forall|u: int| 0 <= u < old(self).node_count() && u != v ==> final(self).edges@[u] == old(self).edges@[u],
            final(self).arcs() == old(self).arcs().filter(|a: Arc| a.0 != v),
    {
        let ghost before = *self;
        let gone: usize = self.edges[v as usize].len();
        proof {
            lemma_edges_before_grows(before.edges@, v + 1, before.node_count());
            lemma_edges_before_grows(before.edges@, 0, v as int);
        }
        self.edges[v as usize] = Vec::new();
        self.number_edges = self.number_edges - gone as i64;
        proof {
            let n = before.node_count();
            lemma_edges_before_grown(before.edges@, self.edges@, v as int, -(gone as int), n);
            assert forall|u: int, k: int| 0 <= u < self.node_count() && 0 <= k < self.edges@[u]@.len() implies (
            #[trigger] self.edges@[u]@[k]).source == u && self.edges@[u]@[k].target < self.node_count() by {
                assert(self.edges@[u]@[k] == before.edges@[u]@[k]);
            }
            let kept = before.arcs().filter(|a: Arc| a.0 != v);
            assert forall|b: Arc| self.arcs().contains(b) == kept.contains(b) by {
                if self.arcs().contains(b) {
                    let k = choose|k: int| 0 <= k < self.edges@[b.0]@.len() && #[trigger] self.arc_of(b.0, k) == b;
                    assert(before.arc_of(b.0, k) == b);
                }
                if kept.contains(b) {
                    let k = choose|k: int| 0 <= k < before.edges@[b.0]@.len() && #[trigger] before.arc_of(b.0, k) == b;
                    assert(self.arc_of(b.0, k) == b);
                }
            }
            assert(self.arcs() =~= kept);
        }
    }

    /// Number of edges that leave `v`.
    pub fn out_degree(&self, v: u32) -> (d: usize)
        requires
            v < self.node_count(),
        ensures
            d == self.edges@[v as int]@.len(),
    {
        self.edges[v as usize].len()
    }

    /// A copy of the graph, list by list.
    pub fn duplicate(&self) -> (g: GridGraph)
        requires
            self.wf(),
        ensures
            g.wf(),
            g.node_count() == self.node_count(),
            g.number_edges == self.number_edges,
            g.nodes@ == self.nodes@,
            forall|u: int| 0 <= u < self.node_count() ==> g.edges@[u]@ == self.edges@[u]@,
            g.arcs() == self.arcs(),
    {
        let n: usize = self.edges.len();
        let mut edges: Vec<Vec<Edge>> = Vec::with_capacity(n);
        let mut nodes: Vec<Node> = Vec::with_capacity(n);
        let mut u: usize = 0;
        while u < n
            invariant
                n == self.edges@.len(),
                n == self.nodes@.len(),
                u <= n,
                edges@.len() == u,
                nodes@ == self.nodes@.subrange(0, u as int),
                forall|v: int| 0 <= v < u ==> edges@[v]@ == self.edges@[v]@,
            decreases n - u,
        {
            let list = &self.edges[u];
            let mut copy: Vec<Edge> = Vec::with_capacity(list.len());
            let mut k: usize = 0;
            while k < list.len()
                invariant
                    k <= list@.len(),
                    copy@ == list@.subrange(0, k as int),
                decreases list@.len() - k,
            {
                copy.push(list[k]);
                proof {
                    assert(copy@ =~= list@.subrange(0, k + 1));
                }
                k += 1;
            }
            proof {
                assert(list@.subrange(0, list@.len() as int) =~= list@);
            }
            edges.push(copy);
            nodes.push(self.nodes[u]);
            proof {
                assert(nodes@ =~= self.nodes@.subrange(0, u + 1));
            }
            u += 1;
        }
        let g = GridGraph { number_edges: self.number_edges, number_nodes: self.number_nodes, edges, nodes };
        proof {
            assert(self.nodes@.subrange(0, n as int) =~= self.nodes@);
            lemma_edges_before_prefix(self.edges@, g.edges@, n as int);
            assert forall|b: Arc| g.arcs().contains(b) == self.arcs().contains(b) by {
                if g.arcs().contains(b) {
                    let k = choose|k: int| 0 <= k < g.edges@[b.0]@.len() && #[trigger] g.arc_of(b.0, k) == b;
                    assert(self.arc_of(b.0, k) == b);
                }
                if self.arcs().contains(b) {
                    let k = choose|k: int| 0 <= k < self.edges@[b.0]@.len() && #[trigger] self.arc_of(b.0, k) == b;
                    assert(g.arc_of(b.0, k) == b);
                }
            }
            assert(g.arcs() =~= self.arcs());
        }
        g
    }
}

} // verus!
