use vstd::prelude::*;
use crate::model::grid_builder::Measured;

verus! {

/// Number of columns of the grid of buckets.
pub const X_SIZE: usize = 100;

/// Number of rows of the grid of buckets.
pub const Y_SIZE: usize = 100;

/// A node with its distance to the point that is asked about.
#[derive(Clone, Copy, Debug)]
pub struct NodeWithId {
    pub id: u32,
    pub distance: Measured,
}

impl NodeWithId {
    /// The nearer of two nodes; the first where both are equally near, and
    /// the one that is there where the other is not.
    pub fn min(node1: Option<NodeWithId>, node2: Option<NodeWithId>) -> (nearer: Option<NodeWithId>)
        ensures
            nearer == nearer_of(node1, node2),
    {
        match (node1, node2) {
            (None, None) => None,
            (Some(node), None) => Some(node),
            (None, Some(node)) => Some(node),
            (Some(a), Some(b)) => {
                if a.distance.rank > b.distance.rank {
                    node2
                } else {
                    node1
                }
            },
        }
    }
}

/// The nearer of two nodes; the first where both are equally near, and the
/// one that is there where the other is not.
pub open spec fn nearer_of(node1: Option<NodeWithId>, node2: Option<NodeWithId>) -> Option<NodeWithId> {
    match (node1, node2) {
        (None, None) => None,
        (Some(node), None) => Some(node),
        (None, Some(node)) => Some(node),
        (Some(a), Some(b)) => if a.distance.rank > b.distance.rank {
            node2
        } else {
            node1
        },
    }
}

/// The nearest of the first `upto` nodes of `nodes`: the first among those
/// that are as near as any.
pub open spec fn nearest_among(nodes: Seq<NodeWithId>, upto: int) -> Option<NodeWithId>
    decreases upto,
{
    if upto <= 0 {
        None
    } else {
        match nearest_among(nodes, upto - 1) {
            None => Some(nodes[upto - 1]),
            Some(best) => if best.distance.rank > nodes[upto - 1].distance.rank {
                Some(nodes[upto - 1])
            } else {
                Some(best)
            },
        }
    }
}

/// The least of the first `upto` distances, if there is any.
pub open spec fn least_among(distances: Seq<Measured>, upto: int) -> Option<Measured>
    decreases upto,
{
    if upto <= 0 {
        None
    } else {
        match least_among(distances, upto - 1) {
            None => Some(distances[upto - 1]),
            Some(least) => if least.rank > distances[upto - 1].rank {
                Some(distances[upto - 1])
            } else {
                Some(least)
            },
        }
    }
}

/// The nearest of the nodes of a cell, given with their distances.
pub fn find_nearest_neighbor_in_cell(nodes: &Vec<NodeWithId>) -> (nearest_node: Option<NodeWithId>)
    ensures
        nearest_node == nearest_among(nodes@, nodes@.len() as int),
{
    let mut nearest_node: Option<NodeWithId> = None;
    let mut i: usize = 0;
    while i < nodes.len()
        invariant
            i <= nodes@.len(),
            nearest_node == nearest_among(nodes@, i as int),
        decreases nodes@.len() - i,
    {
        let x = nodes[i];
        nearest_node = match nearest_node {
            None => Some(x),
            Some(best) => if best.distance.rank > x.distance.rank {
                Some(x)
            } else {
                Some(best)
            },
        };
        i += 1;
    }
    nearest_node
}

/// What a search for the nearest node knows after a ring of cells was
/// looked at.
pub enum Outcome {
    /// The nearest node found is nearer than any node of a cell further out
    /// can be: it is the answer.
    Found(u32),
    /// The next ring is to be looked at, with the nearest node found so
    /// far, if any.
    Further(Option<NodeWithId>),
}

/// Decides how a search goes on after a ring of cells: `best` is the
/// nearest node found before, `in_ring` the nearest of the ring, and
/// `midpoints` holds the distances to the midpoints of the cells of the
/// ring. The nearer of the two nodes is the answer where it is no farther
/// than the nearest midpoint, or, where the ring had no cell, than nothing.
pub fn decide(best: Option<NodeWithId>, in_ring: Option<NodeWithId>, midpoints: &Vec<Measured>) -> (outcome:
    Outcome)
    ensures
        outcome == decision(best, in_ring, midpoints@),
{
    let nearest = NodeWithId::min(best, in_ring);
    let mut radius: Option<Measured> = None;
    let mut i: usize = 0;
    while i < midpoints.len()
        invariant
            i <= midpoints@.len(),
            radius == least_among(midpoints@, i as int),
        decreases midpoints@.len() - i,
    {
        let m = midpoints[i];
        radius = match radius {
            None => Some(m),
            Some(least) => if least.rank > m.rank {
                Some(m)
            } else {
                Some(least)
            },
        };
        i += 1;
    }
    let bound: u64 = match radius {
        Some(least) => least.rank,
        None => 0,
    };
    match nearest {
        Some(node) => {
            if node.distance.rank <= bound {
                Outcome::Found(node.id)
            } else {
                Outcome::Further(nearest)
            }
        },
        None => Outcome::Further(None),
    }
}

/// What [`decide`] decides.
pub open spec fn decision(best: Option<NodeWithId>, in_ring: Option<NodeWithId>, midpoints: Seq<Measured>) -> Outcome {
    let bound: u64 = match least_among(midpoints, midpoints.len() as int) {
        Some(least) => least.rank,
        None => 0,
    };
    match nearer_of(best, in_ring) {
        Some(node) => if node.distance.rank <= bound {
            Outcome::Found(node.id)
        } else {
            Outcome::Further(Some(node))
        },
        None => Outcome::Further(None),
    }
}

/// A grid of buckets over the globe, each with the nodes that lie in it.
pub struct NearestNeighbor {
    grid: Vec<Vec<u32>>,
}

impl NearestNeighbor {
    /// The nodes of the buckets.
    pub closed spec fn buckets(&self) -> Seq<Vec<u32>> {
        self.grid@
    }

    /// The buckets are those of the grid.
    pub open spec fn wf(&self) -> bool {
        self.buckets().len() == X_SIZE * Y_SIZE
    }

    /// The grid of buckets for the nodes that lie in the cells `cells`:
    /// the node `i` in the cell `cells[i]`, and the nodes of a bucket in
    /// rising order.
    pub fn new(cells: &Vec<usize>) -> (n: NearestNeighbor)
        requires
            cells@.len() <= u32::MAX,
            forall|i: int| 0 <= i < cells@.len() ==> cells@[i] < X_SIZE * Y_SIZE,
        ensures
            n.wf(),
            forall|i: int| 0 <= i < cells@.len() ==> n.buckets()[cells@[i] as int]@.contains(i as u32),
            forall|c: int, k: int|
                0 <= c < n.buckets().len() && 0 <= k < n.buckets()[c]@.len() ==> (#[trigger] n.buckets()[c]@[k])
                    < cells@.len() && cells@[n.buckets()[c]@[k] as int] == c,
            forall|c: int, k: int, l: int|
                0 <= c < n.buckets().len() && 0 <= k < l < n.buckets()[c]@.len() ==> (#[trigger] n.buckets()[c]@[k])
                    < (#[trigger] n.buckets()[c]@[l]),
    {
        let mut grid: Vec<Vec<u32>> = Vec::with_capacity(X_SIZE * Y_SIZE);
        let mut c: usize = 0;
        while c < X_SIZE * Y_SIZE
            invariant
                c <= X_SIZE * Y_SIZE,
                grid@.len() == c,
                forall|j: int| 0 <= j < c ==> (#[trigger] grid@[j])@.len() == 0,
            decreases X_SIZE * Y_SIZE - c,
        {
            grid.push(Vec::new());
            c += 1;
        }
        let mut i: usize = 0;
        while i < cells.len()
            invariant
                i <= cells@.len(),
                cells@.len() <= u32::MAX,
                forall|j: int| 0 <= j < cells@.len() ==> cells@[j] < X_SIZE * Y_SIZE,
                grid@.len() == X_SIZE * Y_SIZE,
                forall|j: int| 0 <= j < i ==> grid@[cells@[j] as int]@.contains(j as u32),
                forall|c: int, k: int|
                    0 <= c < grid@.len() && 0 <= k < grid@[c]@.len() ==> (#[trigger] grid@[c]@[k]) < i
                        && cells@[grid@[c]@[k] as int] == c,
                forall|c: int, k: int, l: int|
                    0 <= c < grid@.len() && 0 <= k < l < grid@[c]@.len() ==> (#[trigger] grid@[c]@[k]) < (
                    #[trigger] grid@[c]@[l]),
            decreases cells@.len() - i,
        {
            let ghost before = grid@;
            let cell: usize = cells[i];
            grid[cell].push(i as u32);
            proof {
                let after = grid@;
                assert forall|j: int| 0 <= j < i + 1 implies after[cells@[j] as int]@.contains(j as u32) by {
                    if j < i {
                        let k = choose|k: int|
                            0 <= k < before[cells@[j] as int]@.len() && before[cells@[j] as int]@[k] == j as u32;
                        assert(after[cells@[j] as int]@[k] == j as u32);
                    } else {
                        assert(after[cell as int]@[before[cell as int]@.len() as int] == i as u32);
                    }
                }
                assert forall|c: int, k: int| 0 <= c < after.len() && 0 <= k < after[c]@.len() implies (
                #[trigger] after[c]@[k]) < i + 1 && cells@[after[c]@[k] as int] == c by {
                    if c == cell && k == before[c]@.len() {
                    } else {
                        assert(after[c]@[k] == before[c]@[k]);
                    }
                }
                assert forall|c: int, k: int, l: int| 0 <= c < after.len() && 0 <= k < l < after[c]@.len() implies (
                #[trigger] after[c]@[k]) < (#[trigger] after[c]@[l]) by {
                    assert(after[c]@[k] == before[c]@[k]);
                    if c == cell && l == before[c]@.len() {
                        assert(before[c]@[k] < i);
                    } else {
                        assert(after[c]@[l] == before[c]@[l]);
                    }
                }
            }
            i += 1;
        }
        NearestNeighbor { grid }
    }

    /// The nodes of the bucket `cell_index`.
    pub fn nodes_in_cell(&self, cell_index: usize) -> (nodes: &Vec<u32>)
        requires
            self.wf(),
            cell_index < X_SIZE * Y_SIZE,
        ensures
            *nodes == self.buckets()[cell_index as int],
    {
        &self.grid[cell_index]
    }

    /// The bucket of the column `x` and the row `y`.
    pub fn get_index_for_x_y(x: usize, y: usize) -> (index: usize)
        requires
            x < X_SIZE,
            y < Y_SIZE,
        ensures
            index == x + y * X_SIZE,
            index < X_SIZE * Y_SIZE,
    {
        x + (y * X_SIZE)
    }

    /// The column and the row of the bucket `index`.
    pub fn get_x_y_for_index(index: usize) -> (r: (usize, usize))
        requires
            index < X_SIZE * Y_SIZE,
        ensures
            r.0 < X_SIZE,
            r.1 < Y_SIZE,
            r.0 + r.1 * X_SIZE == index,
    {
        let y: usize = index / X_SIZE;
        let x: usize = index - (y * X_SIZE);
        (x, y)
    }

    /// The buckets on the square ring that lies `distance_to_center`
    /// buckets from the bucket `center_cell`: first those of its lower and
    /// its upper row, west to east, then those of its western and its
    /// eastern column between them, south to north. Columns are counted
    /// round the globe; rows beyond the grid are left out.
    pub fn cells_for_radius(distance_to_center: usize, center_cell: usize) -> (cells: Vec<usize>)
        requires
            1 <= distance_to_center <= X_SIZE,
            center_cell < X_SIZE * Y_SIZE,
        ensures
            cells@.map_values(|c: usize| c as int) == ring_cells(center_cell as int, distance_to_center as int),
            forall|cell: int| #[trigger]
                on_ring(center_cell as int, distance_to_center as int, cell) <==> ring_cells(
                    center_cell as int,
                    distance_to_center as int,
                ).contains(cell),
    {
        let (center_x, center_y) = NearestNeighbor::get_x_y_for_index(center_cell);
        let r: i64 = distance_to_center as i64;
        let cx: i64 = center_x as i64;
        let cy: i64 = center_y as i64;
        let mut cells: Vec<usize> = Vec::new();
        let ghost mut rows: Seq<int> = Seq::empty();
        let mut side: usize = 0;
        while side < 2
            invariant
                side <= 2,
                1 <= r <= X_SIZE,
                r == distance_to_center,
                0 <= cx < X_SIZE,
                0 <= cy < Y_SIZE,
                cx + cy * X_SIZE == center_cell,
                cells@.map_values(|c: usize| c as int) == rows,
                side == 0 ==> rows == Seq::<int>::empty(),
                side == 1 ==> rows == ring_row(cx as int, r as int, cy - r, 2 * r + 1),
                side == 2 ==> rows == ring_row(cx as int, r as int, cy - r, 2 * r + 1) + ring_row(
                    cx as int,
                    r as int,
                    cy + r,
                    2 * r + 1,
                ),
            decreases 2 - side,
        {
            let y: i64 = if side == 0 {
                cy - r
            } else {
                cy + r
            };
            let ghost base = rows;
            if !(y < 0 || y >= Y_SIZE as i64) {
                let mut x: i64 = cx - r;
                proof {
                    assert(ring_row(cx as int, r as int, y as int, 0) =~= Seq::<int>::empty());
                    assert(base + Seq::<int>::empty() =~= base);
                }
                while x < cx + r + 1
                    invariant
                        cx - r <= x <= cx + r + 1,
                        1 <= r <= X_SIZE,
                        0 <= cx < X_SIZE,
                        0 <= cy < Y_SIZE,
                        0 <= y < Y_SIZE,
                        cells@.map_values(|c: usize| c as int) == base + ring_row(
                            cx as int,
                            r as int,
                            y as int,
                            x - (cx - r),
                        ),
                    decreases cx + r + 1 - x,
                {
                    let x_mod: usize = ((x + X_SIZE as i64) % X_SIZE as i64) as usize;
                    let cell = NearestNeighbor::get_index_for_x_y(x_mod, y as usize);
                    let ghost earlier = cells@;
                    cells.push(cell);
                    proof {
                        let k = x - (cx - r);
                        assert(cells@.map_values(|c: usize| c as int) =~= earlier.map_values(|c: usize| c as int).push(
                            cell as int,
                        ));
                        assert(ring_row(cx as int, r as int, y as int, k + 1) =~= ring_row(
                            cx as int,
                            r as int,
                            y as int,
                            k,
                        ).push(cell as int));
                        assert((base + ring_row(cx as int, r as int, y as int, k)).push(cell as int) =~= base
                            + ring_row(cx as int, r as int, y as int, k).push(cell as int));
                    }
                    x = x + 1;
                }
            } else {
                proof {
                    assert(ring_row(cx as int, r as int, y as int, 2 * r + 1) =~= Seq::<int>::empty());
                    assert(base + Seq::<int>::empty() =~= base);
                }
            }
            proof {
                rows = base + ring_row(cx as int, r as int, y as int, 2 * r + 1);
                if side == 0 {
                    assert(Seq::<int>::empty() + ring_row(cx as int, r as int, y as int, 2 * r + 1) =~= ring_row(
                        cx as int,
                        r as int,
                        y as int,
                        2 * r + 1,
                    ));
                }
            }
            side += 1;
        }
        let mut side: usize = 0;
        let ghost mut all: Seq<int> = rows;
        while side < 2
            invariant
                side <= 2,
                1 <= r <= X_SIZE,
                0 <= cx < X_SIZE,
                0 <= cy < Y_SIZE,
                cells@.map_values(|c: usize| c as int) == all,
                side == 0 ==> all == rows,
                side == 1 ==> all == rows + ring_column(cx - r, cy as int, r as int, cy + r),
                side == 2 ==> all == rows + ring_column(cx - r, cy as int, r as int, cy + r) + ring_column(
                    cx + r,
                    cy as int,
                    r as int,
                    cy + r,
                ),
            decreases 2 - side,
        {
            let x: i64 = if side == 0 {
                cx - r
            } else {
                cx + r
            };
            let x_mod: usize = ((x + X_SIZE as i64) % X_SIZE as i64) as usize;
            let mut y: i64 = cy - r + 1;
            let ghost base = all;
            proof {
                assert(ring_column(x as int, cy as int, r as int, cy - r + 1) =~= Seq::<int>::empty());
                assert(base + Seq::<int>::empty() =~= base);
            }
            while y < cy + r
                invariant
                    cy - r + 1 <= y,
                    y <= cy + r,
                    1 <= r <= X_SIZE,
                    0 <= cx < X_SIZE,
                    0 <= cy < Y_SIZE,
                    x == cx - r || x == cx + r,
                    x_mod == wrapped(x as int),
                    x_mod < X_SIZE,
                    cells@.map_values(|c: usize| c as int) == base + ring_column(x as int, cy as int, r as int, y as int),
                decreases cy + r - y,
            {
                let ghost earlier = cells@;
                if !(y < 0 || y >= Y_SIZE as i64) {
                    let cell = NearestNeighbor::get_index_for_x_y(x_mod, y as usize);
                    cells.push(cell);
                    proof {
                        assert(cells@.map_values(|c: usize| c as int) =~= earlier.map_values(|c: usize| c as int).push(
                            cell as int,
                        ));
                        assert(ring_column(x as int, cy as int, r as int, y + 1) =~= ring_column(
                            x as int,
                            cy as int,
                            r as int,
                            y as int,
                        ).push(cell as int));
                        assert((base + ring_column(x as int, cy as int, r as int, y as int)).push(cell as int) =~= base
                            + ring_column(x as int, cy as int, r as int, y as int).push(cell as int));
                    }
                } else {
                    proof {
                        assert(ring_column(x as int, cy as int, r as int, y + 1) =~= ring_column(
                            x as int,
                            cy as int,
                            r as int,
                            y as int,
                        ));
                    }
                }
                y = y + 1;
            }
            proof {
                assert(ring_column(x as int, cy as int, r as int, y as int) =~= ring_column(
                    x as int,
                    cy as int,
                    r as int,
                    cy + r,
                ));
                all = base + ring_column(x as int, cy as int, r as int, cy + r);
            }
            side += 1;
        }
        proof {
            assert forall|cell: int| #[trigger]
                on_ring(center_cell as int, distance_to_center as int, cell) <==> ring_cells(
                    center_cell as int,
                    distance_to_center as int,
                ).contains(cell) by {
                lemma_ring_is_square(center_cell as int, distance_to_center as int, cell);
            }
        }
        cells
    }
}

/// The column `x`, counted round the globe.
pub open spec fn wrapped(x: int) -> int {
    (x + X_SIZE) % (X_SIZE as int)
}

/// The first `upto` buckets of the row `y` on the square ring `r` buckets
/// from the column `cx`, west to east; none where the row lies beyond the
/// grid.
pub open spec fn ring_row(cx: int, r: int, y: int, upto: int) -> Seq<int> {
    if 0 <= y < Y_SIZE && upto >= 0 {
        Seq::new(upto as nat, |k: int| wrapped(cx - r + k) + y * X_SIZE)
    } else {
        Seq::empty()
    }
}

/// The buckets of the column `x` in the rows from the second of the square
/// ring `r` buckets from the row `cy` up to the row `upto`, that row left
/// out, south to north; without the rows that lie beyond the grid.
pub open spec fn ring_column(x: int, cy: int, r: int, upto: int) -> Seq<int> {
    let low = if cy - r + 1 < 0 {
        0
    } else {
        cy - r + 1
    };
    let high = if upto > Y_SIZE {
        Y_SIZE as int
    } else {
        upto
    };
    if high > low {
        Seq::new((high - low) as nat, |k: int| wrapped(x) + (low + k) * X_SIZE)
    } else {
        Seq::empty()
    }
}

/// The buckets on the square ring `r` buckets from the bucket `center`:
/// its lower row, its upper row, and its western and its eastern column
/// between them.
pub open spec fn ring_cells(center: int, r: int) -> Seq<int> {
    let cy = center / (X_SIZE as int);
    let cx = center % (X_SIZE as int);
    ring_row(cx, r, cy - r, 2 * r + 1) + ring_row(cx, r, cy + r, 2 * r + 1) + ring_column(cx - r, cy, r, cy + r)
        + ring_column(cx + r, cy, r, cy + r)
}

/// The bucket `cell` is that of the column `x`, counted round the globe,
/// and the row `y` of the grid, and `(x, y)` lies on the square ring `r`
/// buckets from `(cx, cy)`: on one of its four sides.
pub open spec fn ring_place(cx: int, cy: int, r: int, x: int, y: int, cell: int) -> bool {
    &&& 0 <= y < Y_SIZE
    &&& cx - r <= x <= cx + r
    &&& cy - r <= y <= cy + r
    &&& x == cx - r || x == cx + r || y == cy - r || y == cy + r
    &&& cell == wrapped(x) + y * X_SIZE
}

/// The bucket `cell` lies on the square ring `r` buckets from the bucket
/// `center`.
pub open spec fn on_ring(center: int, r: int, cell: int) -> bool {
    exists|x: int, y: int| #[trigger]
        ring_place(center % (X_SIZE as int), center / (X_SIZE as int), r, x, y, cell)
}

/// The buckets that are listed for a ring are the buckets on the square
/// ring, all of them and no others.
pub proof fn lemma_ring_is_square(center: int, r: int, cell: int)
    requires
        r >= 1,
    ensures
        ring_cells(center, r).contains(cell) <==> on_ring(center, r, cell),
{
    let cy = center / (X_SIZE as int);
    let cx = center % (X_SIZE as int);
    let low = ring_row(cx, r, cy - r, 2 * r + 1);
    let high = ring_row(cx, r, cy + r, 2 * r + 1);
    let west = ring_column(cx - r, cy, r, cy + r);
    let east = ring_column(cx + r, cy, r, cy + r);
    let all = ring_cells(center, r);
    assert(all =~= low + high + west + east);
    let first = if cy - r + 1 < 0 {
        0
    } else {
        cy - r + 1
    };
    if all.contains(cell) {
        let i = choose|i: int| 0 <= i < all.len() && all[i] == cell;
        if i < low.len() {
            assert(all[i] == low[i]);
            assert(ring_place(cx, cy, r, cx - r + i, cy - r, cell));
        } else if i < low.len() + high.len() {
            let k = i - low.len();
            assert(all[i] == high[k]);
            assert(ring_place(cx, cy, r, cx - r + k, cy + r, cell));
        } else if i < low.len() + high.len() + west.len() {
            let k = i - low.len() - high.len();
            assert(all[i] == west[k]);
            assert(ring_place(cx, cy, r, cx - r, first + k, cell));
        } else {
            let k = i - low.len() - high.len() - west.len();
            assert(all[i] == east[k]);
            assert(ring_place(cx, cy, r, cx + r, first + k, cell));
        }
    }
    if on_ring(center, r, cell) {
        let (x, y) = choose|x: int, y: int| #[trigger] ring_place(cx, cy, r, x, y, cell);
        if y == cy - r {
            let k = x - (cx - r);
            assert(low[k] == cell);
            assert(all[k] == cell);
        } else if y == cy + r {
            let k = x - (cx - r);
            assert(high[k] == cell);
            assert(all[low.len() + k] == cell);
        } else if x == cx - r {
            let k = y - first;
            assert(west[k] == cell);
            assert(all[low.len() + high.len() + k] == cell);
        } else {
            let k = y - first;
            assert(east[k] == cell);
            assert(all[low.len() + high.len() + west.len() + k] == cell);
        }
    }
}

} // verus!
