use vstd::prelude::*;

verus! {

/// A weighted arc `(from, to, length)` of a graph, as contracts speak of it.
pub type Arc = (int, int, nat);

/// Compact read-only view of a graph.
///
/// `edges_and_distances` lists, node after node, the pairs
/// `(target, distance)` of the node's outgoing edges, interleaved;
/// `edges_and_distances_offsets[u]` is where the pairs of node `u` start, and
/// the last offset is the length of the pair list.
pub struct AdjacencyArray {
    edges_and_distances_offsets: Vec<u32>,
    edges_and_distances: Vec<u32>,
}

impl AdjacencyArray {
    /// The offsets, as a sequence.
    pub closed spec fn offsets(&self) -> Seq<u32> {
        self.edges_and_distances_offsets@
    }

    /// The interleaved `(target, distance)` pairs, as a sequence.
    pub closed spec fn payload(&self) -> Seq<u32> {
        self.edges_and_distances@
    }

    /// Number of nodes: one less than the number of offsets.
    pub open spec fn node_count(&self) -> int {
        self.offsets().len() - 1
    }

    /// The view is usable: offsets start at 0, never decrease, are even, end
    /// at the length of the pair list, and every target is a node.
    pub open spec fn wf(&self) -> bool {
        &&& 1 <= self.offsets().len() <= u32::MAX
        &&& self.offsets()[0] == 0
        &&& self.offsets()[self.node_count()] == self.payload().len()
        &&& forall|u: int| 0 <= u < self.node_count() ==> self.offsets()[u] <= #[trigger] self.offsets()[u + 1]
        &&& forall|u: int| 0 <= u <= self.node_count() ==> (#[trigger] self.offsets()[u]) % 2 == 0
        &&& forall|i: int|
            0 <= i < self.payload().len() && i % 2 == 0 ==> (#[trigger] self.payload()[i]) < self.node_count()
    }

    /// Out-degree of node `u`.
    pub open spec fn degree(&self, u: int) -> int {
        (self.offsets()[u + 1] - self.offsets()[u]) / 2
    }

    /// The `j`-th outgoing arc of node `u`.
    pub open spec fn arc_at(&self, u: int, j: int) -> Arc {
        (
            u,
            self.payload()[self.offsets()[u] + 2 * j] as int,
            self.payload()[self.offsets()[u] + 2 * j + 1] as nat,
        )
    }

    /// The arcs of the graph.
    pub open spec fn arcs(&self) -> Set<Arc> {
        Set::new(
            |a: Arc|
                0 <= a.0 < self.node_count() && exists|j: int|
                    0 <= j < self.degree(a.0) && #[trigger] self.arc_at(a.0, j) == a,
        )
    }

    /// Wraps the two arrays; nothing is checked here, see
    /// [`AdjacencyArray::is_well_formed`].
    pub fn new(edges_and_distances_offsets: Vec<u32>, edges_and_distances: Vec<u32>) -> (a: AdjacencyArray)
        ensures
            a.offsets() == edges_and_distances_offsets@,
            a.payload() == edges_and_distances@,
    {
        AdjacencyArray { edges_and_distances_offsets, edges_and_distances }
    }

    /// The offsets.
    pub fn edges_and_distances_offsets(&self) -> (r: &Vec<u32>)
        ensures
            r@ == self.offsets(),
    {
        &self.edges_and_distances_offsets
    }

    /// The interleaved `(target, distance)` pairs.
    pub fn edges_and_distances(&self) -> (r: &Vec<u32>)
        ensures
            r@ == self.payload(),
    {
        &self.edges_and_distances
    }

    /// Decides [`AdjacencyArray::wf`].
    pub fn is_well_formed(&self) -> (ok: bool)
        ensures
            ok == self.wf(),
    {
        let n_off: usize = self.edges_and_distances_offsets.len();
        if n_off < 1 || n_off > u32::MAX as usize {
            return false;
        }
        let n: usize = n_off - 1;
        if self.edges_and_distances_offsets[0] != 0 {
            return false;
        }
        if self.edges_and_distances_offsets[n] as usize != self.edges_and_distances.len() {
            return false;
        }
        let mut u: usize = 0;
        while u < n
            invariant
                n + 1 == self.offsets().len(),
                u <= n,
                forall|v: int| 0 <= v < u ==> self.offsets()[v] <= #[trigger] self.offsets()[v + 1],
                forall|v: int| 0 <= v <= u ==> (#[trigger] self.offsets()[v]) % 2 == 0,
            decreases n - u,
        {
            if self.edges_and_distances_offsets[u] > self.edges_and_distances_offsets[u + 1] {
                return false;
            }
            if self.edges_and_distances_offsets[u + 1] % 2 != 0 {
                return false;
            }
            u += 1;
        }
        let len: usize = self.edges_and_distances.len();
        let mut i: usize = 0;
        while i < len
            invariant
                n + 1 == self.offsets().len(),
                len == self.payload().len(),
                i % 2 == 0,
                len % 2 == 0,
                forall|k: int| 0 <= k < i && k % 2 == 0 ==> (#[trigger] self.payload()[k]) < n,
            decreases len - i,
        {
            if self.edges_and_distances[i] as usize >= n {
                return false;
            }
            i += 2;
        }
        true
    }

    /// The `(target, distance)` pairs of `node`, interleaved.
    pub fn get_neighbors_of_node_and_distances(&self, node: u32) -> (r: &[u32])
        requires
            self.wf(),
            node < self.node_count(),
        ensures
            r@ == self.payload().subrange(self.offsets()[node as int] as int, self.offsets()[node + 1] as int),
            r@.len() == 2 * self.degree(node as int),
    {
        let start: usize = self.edges_and_distances_offsets[node as usize] as usize;
        let end: usize = self.edges_and_distances_offsets[node as usize + 1] as usize;
        proof {
            self.lemma_offsets_ordered(node + 1, self.node_count());
            assert(self.offsets()[node as int] <= self.offsets()[node + 1]);
            assert(self.offsets()[node as int] % 2 == 0);
            assert(self.offsets()[node + 1] % 2 == 0);
        }
        vstd::slice::slice_subrange(self.edges_and_distances.as_slice(), start, end)
    }

    /// Number of nodes.
    pub fn get_nodes_count(&self) -> (n: u32)
        requires
            self.wf(),
        ensures
            n == self.node_count(),
    {
        (self.edges_and_distances_offsets.len() - 1) as u32
    }

    /// Offsets never decrease, over any distance.
    pub proof fn lemma_offsets_ordered(&self, u: int, v: int)
        requires
            self.wf(),
            0 <= u <= v <= self.node_count(),
        ensures
            self.offsets()[u] <= self.offsets()[v],
        decreases v - u,
    {
        if u < v {
            self.lemma_offsets_ordered(u, v - 1);
            assert(self.offsets()[v - 1] <= self.offsets()[(v - 1) + 1]);
        }
    }

    /// The pair at an even position inside the range of node `u` is an arc.
    pub proof fn lemma_slot_is_arc(&self, u: int, i: int)
        requires
            self.wf(),
            0 <= u < self.node_count(),
            0 <= i,
            i % 2 == 0,
            self.offsets()[u] + i + 1 < self.offsets()[u + 1],
        ensures
            self.arcs().contains(
                (u, self.payload()[self.offsets()[u] + i] as int, self.payload()[self.offsets()[u] + i + 1] as nat),
            ),
            self.offsets()[u + 1] <= self.payload().len(),
            self.payload()[self.offsets()[u] + i] < self.node_count(),
    {
        self.lemma_offsets_ordered(u + 1, self.node_count());
        let j = i / 2;
        assert(self.offsets()[u] % 2 == 0);
        assert(self.offsets()[u + 1] % 2 == 0);
        assert(0 <= j < self.degree(u));
        assert(2 * j == i);
        let a: Arc = (
            u,
            self.payload()[self.offsets()[u] + i] as int,
            self.payload()[self.offsets()[u] + i + 1] as nat,
        );
        assert(self.arc_at(u, j) == a);
        assert(self.arcs().contains(a));
        assert((self.offsets()[u] + i) % 2 == 0);
    }

    /// Arcs run between nodes.
    pub proof fn lemma_arcs_within(&self)
        requires
            self.wf(),
        ensures
            forall|a: Arc| #[trigger] self.arcs().contains(a) ==> 0 <= a.0 < self.node_count() && 0 <= a.1 < self.node_count(),
    {
        assert forall|a: Arc| #[trigger] self.arcs().contains(a) implies 0 <= a.0 < self.node_count() && 0 <= a.1
            < self.node_count() by {
            let j = choose|j: int| 0 <= j < self.degree(a.0) && #[trigger] self.arc_at(a.0, j) == a;
            self.lemma_offsets_ordered(a.0 + 1, self.node_count());
            assert(self.offsets()[a.0] % 2 == 0);
            assert(self.offsets()[a.0 + 1] % 2 == 0);
            assert(self.offsets()[a.0] <= self.offsets()[a.0 + 1]);
            let i = self.offsets()[a.0] + 2 * j;
            assert(i % 2 == 0);
            assert(self.payload()[i] < self.node_count());
        }
    }
}

} // verus!
