use vstd::prelude::*;
use crate::algorithms::cell_tree::{CellTree, CellArea, CellItem, cell_tree_items, cell_tree_side, cell_tree_new,
    cell_tree_insert, cell_tree_query, areas_meet, is_query_result, side_of};

verus! {

/// Number of cells of one degree round the globe.
pub const GRID_WIDTH: usize = 360;

/// Number of cells of one degree from pole to pole.
pub const GRID_HEIGHT: usize = 180;

/// What is known of a cell of one degree: it lies inside a polygon, outside
/// all of them, or a polygon's border runs through it.
#[derive(Clone, Copy, PartialEq, Eq, Structural, Debug)]
pub enum GridEntry {
    Polygon,
    Outside,
    Border,
}

/// What is known of a cell in the box of a ring, while its cells are
/// sorted out.
#[derive(Clone, Copy, PartialEq, Eq, Structural, Debug)]
pub enum RectState {
    Initial,
    ContainsPoints,
    Processed,
}

/// The box of whole cells round a ring: the cell of its least longitude
/// and latitude, and its width and height in cells.
#[derive(Clone, Copy, Debug)]
pub struct CellBox {
    pub x: i16,
    pub y: i16,
    pub x_size: i16,
    pub y_size: i16,
}

impl CellBox {
    /// The box has a cell and lies on the globe. A box may reach the
    /// column of longitude 180, whose cells the grid counts as the first
    /// ones of the next row; such a box ends below the last row.
    pub open spec fn valid(&self) -> bool {
        &&& self.x_size >= 1
        &&& self.y_size >= 1
        &&& -180 <= self.x
        &&& self.x + self.x_size <= 181
        &&& -90 <= self.y
        &&& self.y + self.y_size <= 90
        &&& self.x + self.x_size == 181 ==> self.y + self.y_size <= 89
    }

    /// Number of cells of the box.
    pub open spec fn cells(&self) -> int {
        self.x_size * self.y_size
    }

    /// The cell `(cx, cy)` lies in the box.
    pub open spec fn holds(&self, cx: int, cy: int) -> bool {
        self.x <= cx < self.x + self.x_size && self.y <= cy < self.y + self.y_size
    }

    /// Where the cell `(cx, cy)` stands in the list of the cells of the
    /// box.
    pub open spec fn slot(&self, cx: int, cy: int) -> int {
        (cx - self.x) + (cy - self.y) * self.x_size
    }

    /// The box as the quadtree has it: moved so that no corner is negative.
    pub open spec fn area(&self) -> CellArea {
        ((self.x + 180) as i16, (self.y + 90) as i16, self.x_size, self.y_size)
    }

    /// The box of the cells from `(x_min, y_min)` to `(x_max, y_max)`.
    pub fn new(x_min: i16, x_max: i16, y_min: i16, y_max: i16) -> (b: CellBox)
        requires
            -180 <= x_min <= x_max <= 180,
            -90 <= y_min <= y_max <= 89,
        ensures
            b.x == x_min,
            b.y == y_min,
            b.x_size == x_max + 1 - x_min,
            b.y_size == y_max + 1 - y_min,
    {
        CellBox { x: x_min, y: y_min, x_size: x_max + 1 - x_min, y_size: y_max + 1 - y_min }
    }

    /// Decides [`CellBox::valid`].
    pub fn is_valid(&self) -> (ok: bool)
        ensures
            ok == self.valid(),
    {
        self.x_size >= 1 && self.y_size >= 1 && self.x >= -180 && self.x as i32 + self.x_size as i32 <= 181 && self.y
            >= -90 && self.y as i32 + self.y_size as i32 <= 90 && (self.x as i32 + self.x_size as i32 != 181
            || self.y as i32 + self.y_size as i32 <= 89)
    }
}

/// The slots of a box lie inside its list of cells.
pub proof fn lemma_slot_in_range(b: CellBox, cx: int, cy: int)
    requires
        b.valid(),
        b.holds(cx, cy),
    ensures
        0 <= b.slot(cx, cy) < b.cells(),
        b.cells() <= 361 * 180,
{
    let col = cx - b.x;
    let row = cy - b.y;
    assert(row * b.x_size <= (b.y_size - 1) * b.x_size) by (nonlinear_arith)
        requires
            0 <= row <= b.y_size - 1,
            b.x_size >= 1,
    ;
    assert(0 <= row * b.x_size) by (nonlinear_arith)
        requires
            0 <= row,
            b.x_size >= 1,
    ;
    assert((b.y_size - 1) * b.x_size + b.x_size == b.y_size * b.x_size) by (nonlinear_arith);
    assert(b.x_size * b.y_size == b.y_size * b.x_size) by (nonlinear_arith);
    assert(b.x_size * b.y_size <= 361 * 180) by (nonlinear_arith)
        requires
            1 <= b.x_size <= 361,
            1 <= b.y_size <= 180,
    ;
}

/// Where the cell `(x, y)` stands in the grid of the globe.
pub open spec fn grid_slot(x: int, y: int) -> int {
    (x + 180) + (y + 90) * 360
}

/// A cell that stands in the grid.
pub open spec fn on_grid(x: int, y: int) -> bool {
    -180 <= x <= 180 && -90 <= y < 90 && grid_slot(x, y) < GRID_WIDTH * GRID_HEIGHT
}

/// Writes `entry` into the cell `(x, y)` of `grid`: a border always, a
/// polygon only where the cell was outside, and outside never.
pub fn insert_in_grid(grid: &mut Vec<GridEntry>, entry: GridEntry, x: i16, y: i16)
    requires
        old(grid)@.len() == GRID_WIDTH * GRID_HEIGHT,
        on_grid(x as int, y as int),
    ensures
        final(grid)@ == old(grid)@.update(
            grid_slot(x as int, y as int),
            if entry == GridEntry::Border || (entry == GridEntry::Polygon && old(grid)@[grid_slot(x as int, y as int)]
                == GridEntry::Outside) {
                entry
            } else {
                old(grid)@[grid_slot(x as int, y as int)]
            },
        ),
{
    let idx: usize = (x as i32 + 180) as usize + ((y as i32 + 90) as usize * 360);
    if entry == GridEntry::Border {
        grid[idx] = entry;
        return ;
    }
    if grid[idx] == GridEntry::Outside && entry == GridEntry::Polygon {
        grid[idx] = entry;
    }
    proof {
        assert(grid@ =~= old(grid)@.update(grid_slot(x as int, y as int), grid@[idx as int]));
    }
}

/// The vertex `c` of a ring, as the marking of cells takes it: a vertex
/// on the meridian of 180 degrees counts for the column before it.
pub open spec fn marked_cell(c: (i16, i16)) -> (int, int) {
    (if c.0 == 180 {
        179int
    } else {
        c.0 as int
    }, c.1 as int)
}

/// The slot `idx` of the box `b` is that of a cell between the columns
/// `c_lo` and `c_hi` and the rows `r_lo` and `r_hi`, these included.
pub open spec fn spans(b: CellBox, c_lo: int, c_hi: int, r_lo: int, r_hi: int, idx: int) -> bool {
    exists|col: int, row: int| c_lo <= col <= c_hi && r_lo <= row <= r_hi && #[trigger] b.slot(col, row) == idx
}

/// The edge from `a` to `next` marks the slot `idx` of the box `b`: it is
/// the slot of a cell in the span of the edge, the cells between the
/// columns and the rows of its two ends, these included. Every cell that
/// the edge runs through lies in its span.
pub open spec fn edge_marks(b: CellBox, a: (i16, i16), next: (i16, i16), idx: int) -> bool {
    spans(
        b,
        min(marked_cell(a).0, marked_cell(next).0),
        max(marked_cell(a).0, marked_cell(next).0),
        min(a.1 as int, next.1 as int),
        max(a.1 as int, next.1 as int),
        idx,
    )
}

/// One of the first `upto` edges of the ring marks the slot `idx`.
pub open spec fn ring_marks(b: CellBox, cells: Seq<(i16, i16)>, upto: int, idx: int) -> bool {
    exists|k: int| 0 <= k < upto && k + 1 < cells.len() && #[trigger] edge_marks(b, cells[k], cells[k + 1], idx)
}

/// The vertices of a ring lie in the box, and those on the meridian of 180
/// degrees have a column before them in it.
pub open spec fn ring_in_box(b: CellBox, cells: Seq<(i16, i16)>) -> bool {
    forall|k: int|
        0 <= k < cells.len() ==> b.holds((#[trigger] cells[k]).0 as int, cells[k].1 as int) && (cells[k].0 == 180
            ==> b.x <= 179)
}

/// Decides [`ring_in_box`].
pub fn is_ring_in_box(b: &CellBox, cells: &Vec<(i16, i16)>) -> (ok: bool)
    ensures
        ok == ring_in_box(*b, cells@),
{
    let mut k: usize = 0;
    while k < cells.len()
        invariant
            k <= cells@.len(),
            forall|j: int|
                0 <= j < k ==> b.holds((#[trigger] cells@[j]).0 as int, cells@[j].1 as int) && (cells@[j].0 == 180
                    ==> b.x <= 179),
        decreases cells@.len() - k,
    {
        let x: i32 = cells[k].0 as i32;
        let y: i32 = cells[k].1 as i32;
        let inside = b.x as i32 <= x && x < b.x as i32 + b.x_size as i32 && b.y as i32 <= y && y < b.y as i32
            + b.y_size as i32;
        if !inside || (x == 180 && b.x > 179) {
            proof {
                assert(!(b.holds(cells@[k as int].0 as int, cells@[k as int].1 as int) && (cells@[k as int].0 == 180
                    ==> b.x <= 179)));
            }
            return false;
        }
        k += 1;
    }
    true
}

/// The smaller of two.
pub open spec fn min(a: int, b: int) -> int {
    if a <= b {
        a
    } else {
        b
    }
}

/// The larger of two.
pub open spec fn max(a: int, b: int) -> int {
    if a >= b {
        a
    } else {
        b
    }
}

/// The slot `idx` is that of a cell of the span that was marked before
/// the cell `(c, r)` came to its turn: one of an earlier row, or one of the
/// row `r` in an earlier column.
pub open spec fn span_done(b: CellBox, c_lo: int, c_hi: int, r_lo: int, r: int, c: int, idx: int) -> bool {
    exists|col: int, row: int|
        c_lo <= col <= c_hi && r_lo <= row && (row < r || (row == r && col < c)) && #[trigger] b.slot(col, row)
            == idx
}

/// Marks the cells between the columns `c_lo` and `c_hi` and the rows
/// `r_lo` and `r_hi`, these included.
pub fn mark_span(rects: &mut Vec<RectState>, b: &CellBox, c_lo: i16, c_hi: i16, r_lo: i16, r_hi: i16)
    requires
        b.valid(),
        old(rects)@.len() == b.cells(),
        c_lo <= c_hi,
        r_lo <= r_hi,
        b.holds(c_lo as int, r_lo as int),
        b.holds(c_hi as int, r_hi as int),
    ensures
        final(rects)@.len() == old(rects)@.len(),
        forall|idx: int|
            0 <= idx < final(rects)@.len() ==> final(rects)@[idx] == (if spans(
                *b,
                c_lo as int,
                c_hi as int,
                r_lo as int,
                r_hi as int,
                idx,
            ) {
                RectState::ContainsPoints
            } else {
                old(rects)@[idx]
            }),
{
    let x_size: usize = b.x_size as usize;
    let mut row: i16 = r_lo;
    while row <= r_hi
        invariant
            b.valid(),
            x_size == b.x_size,
            rects@.len() == b.cells(),
            old(rects)@.len() == b.cells(),
            c_lo <= c_hi,
            r_lo <= row <= r_hi + 1,
            r_hi < 90,
            b.holds(c_lo as int, r_lo as int),
            b.holds(c_hi as int, r_hi as int),
            forall|idx: int|
                0 <= idx < rects@.len() ==> rects@[idx] == (if span_done(
                    *b,
                    c_lo as int,
                    c_hi as int,
                    r_lo as int,
                    row as int,
                    c_lo as int,
                    idx,
                ) {
                    RectState::ContainsPoints
                } else {
                    old(rects)@[idx]
                }),
        decreases r_hi + 1 - row,
    {
        let mut col: i16 = c_lo;
        while col <= c_hi
            invariant
                b.valid(),
                x_size == b.x_size,
                rects@.len() == b.cells(),
                old(rects)@.len() == b.cells(),
                c_lo <= col <= c_hi + 1,
                c_hi < 181,
                r_lo <= row <= r_hi,
                b.holds(c_lo as int, r_lo as int),
                b.holds(c_hi as int, r_hi as int),
                forall|idx: int|
                    0 <= idx < rects@.len() ==> rects@[idx] == (if span_done(
                        *b,
                        c_lo as int,
                        c_hi as int,
                        r_lo as int,
                        row as int,
                        col as int,
                        idx,
                    ) {
                        RectState::ContainsPoints
                    } else {
                        old(rects)@[idx]
                    }),
            decreases c_hi + 1 - col,
        {
            proof {
                lemma_slot_in_range(*b, col as int, row as int);
                assert((row - b.y) * x_size == (row - b.y) * b.x_size);
            }
            let slot: usize = (col as i32 - b.x as i32) as usize + (row as i32 - b.y as i32) as usize * x_size;
            let ghost earlier = rects@;
            rects[slot] = RectState::ContainsPoints;
            proof {
                assert(b.slot(col as int, row as int) == slot);
                assert forall|idx: int| 0 <= idx < rects@.len() implies rects@[idx] == (if span_done(
                    *b,
                    c_lo as int,
                    c_hi as int,
                    r_lo as int,
                    row as int,
                    col + 1,
                    idx,
                ) {
                    RectState::ContainsPoints
                } else {
                    old(rects)@[idx]
                }) by {
                    let then = span_done(*b, c_lo as int, c_hi as int, r_lo as int, row as int, col as int, idx);
                    let now = span_done(*b, c_lo as int, c_hi as int, r_lo as int, row as int, col + 1, idx);
                    if idx == slot {
                        assert(c_lo <= col <= c_hi && r_lo <= row && (row < row || (row == row && col < col + 1))
                            && b.slot(col as int, row as int) == idx);
                    } else {
                        assert(rects@[idx] == earlier[idx]);
                        if now {
                            let (c, r) = choose|c: int, r: int|
                                c_lo <= c <= c_hi && r_lo <= r && (r < row || (r == row && c < col + 1))
                                    && #[trigger] b.slot(c, r) == idx;
                            assert(c_lo <= c <= c_hi && r_lo <= r && (r < row || (r == row && c < col)) && b.slot(c, r)
                                == idx);
                        }
                        if then {
                            let (c, r) = choose|c: int, r: int|
                                c_lo <= c <= c_hi && r_lo <= r && (r < row || (r == row && c < col)) && #[trigger] b.slot(
                                    c,
                                    r,
                                ) == idx;
                            assert(c_lo <= c <= c_hi && r_lo <= r && (r < row || (r == row && c < col + 1)) && b.slot(
                                c,
                                r,
                            ) == idx);
                        }
                    }
                }
            }
            col = col + 1;
        }
        proof {
            assert forall|idx: int| 0 <= idx < rects@.len() implies #[trigger] span_done(
                *b,
                c_lo as int,
                c_hi as int,
                r_lo as int,
                row as int,
                c_hi + 1,
                idx,
            ) == span_done(*b, c_lo as int, c_hi as int, r_lo as int, row + 1, c_lo as int, idx) by {
                if span_done(*b, c_lo as int, c_hi as int, r_lo as int, row as int, c_hi + 1, idx) {
                    let (c, r) = choose|c: int, r: int|
                        c_lo <= c <= c_hi && r_lo <= r && (r < row || (r == row && c < c_hi + 1)) && #[trigger] b.slot(
                            c,
                            r,
                        ) == idx;
                    assert(c_lo <= c <= c_hi && r_lo <= r && (r < row + 1 || (r == row + 1 && c < c_lo)) && b.slot(c, r)
                        == idx);
                }
                if span_done(*b, c_lo as int, c_hi as int, r_lo as int, row + 1, c_lo as int, idx) {
                    let (c, r) = choose|c: int, r: int|
                        c_lo <= c <= c_hi && r_lo <= r && (r < row + 1 || (r == row + 1 && c < c_lo)) && #[trigger] b.slot(
                            c,
                            r,
                        ) == idx;
                    assert(c_lo <= c <= c_hi && r_lo <= r && (r < row || (r == row && c < c_hi + 1)) && b.slot(c, r)
                        == idx);
                }
            }
        }
        row = row + 1;
    }
    proof {
        assert forall|idx: int| 0 <= idx < rects@.len() implies #[trigger] span_done(
            *b,
            c_lo as int,
            c_hi as int,
            r_lo as int,
            r_hi + 1,
            c_lo as int,
            idx,
        ) == spans(*b, c_lo as int, c_hi as int, r_lo as int, r_hi as int, idx) by {
            if span_done(*b, c_lo as int, c_hi as int, r_lo as int, r_hi + 1, c_lo as int, idx) {
                let (c, r) = choose|c: int, r: int|
                    c_lo <= c <= c_hi && r_lo <= r && (r < r_hi + 1 || (r == r_hi + 1 && c < c_lo)) && #[trigger] b.slot(
                        c,
                        r,
                    ) == idx;
                assert(c_lo <= c <= c_hi && r_lo <= r <= r_hi && b.slot(c, r) == idx);
            }
            if spans(*b, c_lo as int, c_hi as int, r_lo as int, r_hi as int, idx) {
                let (c, r) = choose|c: int, r: int|
                    c_lo <= c <= c_hi && r_lo <= r <= r_hi && #[trigger] b.slot(c, r) == idx;
                assert(c_lo <= c <= c_hi && r_lo <= r && (r < r_hi + 1 || (r == r_hi + 1 && c < c_lo)) && b.slot(c, r)
                    == idx);
            }
        }
    }
}

/// Marks the cells of the box that the border of the ring may run
/// through: for every edge of the ring the cells in the span of the edge,
/// from the columns and rows of its one end to those of the other.
pub fn mark_cells(b: &CellBox, cells: &Vec<(i16, i16)>) -> (rects: Vec<RectState>)
    requires
        b.valid(),
        ring_in_box(*b, cells@),
    ensures
        rects@.len() == b.cells(),
        forall|idx: int|
            0 <= idx < rects@.len() ==> rects@[idx] == (if ring_marks(*b, cells@, cells@.len() - 1, idx) {
                RectState::ContainsPoints
            } else {
                RectState::Initial
            }),
{
    let x_size: usize = b.x_size as usize;
    let y_size: usize = b.y_size as usize;
    proof {
        lemma_slot_in_range(*b, b.x as int, b.y as int);
    }
    let total: usize = x_size * y_size;
    let mut rects: Vec<RectState> = Vec::with_capacity(total);
    let mut n: usize = 0;
    while n < total
        invariant
            n <= total,
            rects@.len() == n,
            forall|idx: int| 0 <= idx < n ==> rects@[idx] == RectState::Initial,
        decreases total - n,
    {
        rects.push(RectState::Initial);
        n += 1;
    }
    if cells.len() == 0 {
        return rects;
    }
    let last: usize = cells.len() - 1;
    let mut i: usize = 0;
    while i < last
        invariant
            b.valid(),
            ring_in_box(*b, cells@),
            cells@.len() >= 1,
            last == cells@.len() - 1,
            i <= cells@.len() - 1,
            rects@.len() == b.cells(),
            forall|idx: int|
                0 <= idx < rects@.len() ==> rects@[idx] == (if ring_marks(*b, cells@, i as int, idx) {
                    RectState::ContainsPoints
                } else {
                    RectState::Initial
                }),
        decreases cells@.len() - i,
    {
        let ghost before = rects@;
        proof {
            assert(b.holds(cells@[i as int].0 as int, cells@[i as int].1 as int));
            assert(b.holds(cells@[i + 1].0 as int, cells@[i + 1].1 as int));
        }
        let from: i16 = if cells[i].0 == 180 {
            179
        } else {
            cells[i].0
        };
        let to: i16 = if cells[i + 1].0 == 180 {
            179
        } else {
            cells[i + 1].0
        };
        let c_lo: i16 = if from <= to {
            from
        } else {
            to
        };
        let c_hi: i16 = if from <= to {
            to
        } else {
            from
        };
        let r_lo: i16 = if cells[i].1 <= cells[i + 1].1 {
            cells[i].1
        } else {
            cells[i + 1].1
        };
        let r_hi: i16 = if cells[i].1 <= cells[i + 1].1 {
            cells[i + 1].1
        } else {
            cells[i].1
        };
        mark_span(&mut rects, b, c_lo, c_hi, r_lo, r_hi);
        proof {
            assert forall|idx: int| 0 <= idx < rects@.len() implies rects@[idx] == (if ring_marks(
                *b,
                cells@,
                i + 1,
                idx,
            ) {
                RectState::ContainsPoints
            } else {
                RectState::Initial
            }) by {
                let here = edge_marks(*b, cells@[i as int], cells@[i + 1], idx);
                assert(here == spans(*b, c_lo as int, c_hi as int, r_lo as int, r_hi as int, idx));
                if ring_marks(*b, cells@, i as int, idx) {
                    let k = choose|k: int|
                        0 <= k < i && k + 1 < cells@.len() && #[trigger] edge_marks(*b, cells@[k], cells@[k + 1], idx);
                    assert(0 <= k < i + 1 && k + 1 < cells@.len() && edge_marks(*b, cells@[k], cells@[k + 1], idx));
                }
                if here {
                    assert(0 <= i < i + 1 && i + 1 < cells@.len() && edge_marks(
                        *b,
                        cells@[i as int],
                        cells@[i + 1],
                        idx,
                    ));
                }
                if ring_marks(*b, cells@, i + 1, idx) {
                    let k = choose|k: int|
                        0 <= k < i + 1 && k + 1 < cells@.len() && #[trigger] edge_marks(
                            *b,
                            cells@[k],
                            cells@[k + 1],
                            idx,
                        );
                    if k < i {
                        assert(ring_marks(*b, cells@, i as int, idx));
                    }
                }
            }
        }
        i += 1;
    }
    rects
}


/// Number of cells of `rects` that are still in their first state.
pub open spec fn count_initial(rects: Seq<RectState>) -> nat
    decreases rects.len(),
{
    if rects.len() == 0 {
        0
    } else {
        count_initial(rects.drop_last()) + if rects.last() == RectState::Initial {
            1nat
        } else {
            0nat
        }
    }
}

/// Taking a cell out of its first state leaves one cell less in it.
pub proof fn lemma_count_initial_update(rects: Seq<RectState>, idx: int)
    requires
        0 <= idx < rects.len(),
        rects[idx] == RectState::Initial,
    ensures
        count_initial(rects.update(idx, RectState::Processed)) + 1 == count_initial(rects),
    decreases rects.len(),
{
    let after = rects.update(idx, RectState::Processed);
    if idx == rects.len() - 1 {
        assert(after.drop_last() =~= rects.drop_last());
    } else {
        assert(after.drop_last() =~= rects.drop_last().update(idx, RectState::Processed));
        lemma_count_initial_update(rects.drop_last(), idx);
    }
}

/// The row and the column of a slot lie in the box that the slot lies in.
pub proof fn lemma_row_and_column(idx: int, x_size: int, y_size: int)
    requires
        x_size >= 1,
        y_size >= 1,
        0 <= idx < x_size * y_size,
    ensures
        0 <= idx / x_size < y_size,
        0 <= idx - (idx / x_size) * x_size < x_size,
{
    vstd::arithmetic::div_mod::lemma_fundamental_div_mod(idx, x_size);
    vstd::arithmetic::div_mod::lemma_mod_bound(idx, x_size);
    let y = idx / x_size;
    assert(idx == x_size * y + idx % x_size);
    assert(x_size * y == y * x_size) by (nonlinear_arith);
    assert(y >= 0) by (nonlinear_arith)
        requires
            idx >= 0,
            x_size >= 1,
            idx == y * x_size + idx % x_size,
            0 <= idx % x_size < x_size,
    ;
    assert(y < y_size) by (nonlinear_arith)
        requires
            idx < x_size * y_size,
            x_size >= 1,
            idx == y * x_size + idx % x_size,
            0 <= idx % x_size,
    ;
}

/// Every slot that is made of a column and a row of the box lies in it.
pub proof fn lemma_slot_of(x: int, y: int, x_size: int, y_size: int)
    requires
        0 <= x < x_size,
        0 <= y < y_size,
    ensures
        0 <= y * x_size,
        y * x_size <= x + y * x_size,
        0 <= x + y * x_size < x_size * y_size,
{
    assert(y * x_size >= 0) by (nonlinear_arith)
        requires
            y >= 0,
            x_size >= 0,
    ;
    assert(x + y * x_size < x_size * y_size) by (nonlinear_arith)
        requires
            0 <= x < x_size,
            0 <= y < y_size,
    ;
}

/// Puts the cell at `x + y * x_size` on the queue, and takes it out of its
/// first state, if it is in it.
pub fn process_rect_node(queue: &mut Vec<usize>, rects_with_points: &mut Vec<RectState>, x_size: usize, x: usize, y: usize)
    requires
        0 <= y * x_size,
        x + y * x_size < old(rects_with_points)@.len(),
    ensures
        old(rects_with_points)@[x + y * x_size] == RectState::Initial ==> final(queue)@ == old(queue)@.push(
            (x + y * x_size) as usize,
        ) && final(rects_with_points)@ == old(rects_with_points)@.update(x + y * x_size, RectState::Processed),
        old(rects_with_points)@[x + y * x_size] != RectState::Initial ==> final(queue)@ == old(queue)@ && final(rects_with_points)@
            == old(rects_with_points)@,
{
    let cells: usize = rects_with_points.len();
    let idx: usize = x + (y * x_size);
    if rects_with_points[idx] == RectState::Initial {
        queue.push(idx);
        rects_with_points[idx] = RectState::Processed;
    }
}

/// Two cells of a box of `x_size` columns lie side by side: in one row
/// next to each other, or in one column above each other.
pub open spec fn beside(a: int, b: int, x_size: int) -> bool {
    ||| (b + 1 == a && a % x_size != 0)
    ||| (a + 1 == b && b % x_size != 0)
    ||| a + x_size == b
    ||| b + x_size == a
}

/// The cell `d` is on the queue or among the cells gathered.
pub open spec fn seen(queue: Seq<usize>, coherent: Seq<usize>, d: int) -> bool {
    (exists|k: int| 0 <= k < queue.len() && #[trigger] queue[k] == d) || (exists|i: int|
        0 <= i < coherent.len() && #[trigger] coherent[i] == d)
}

/// The cell `d` lies beside one of the cells gathered.
pub open spec fn hangs_on(coherent: Seq<usize>, upto: int, d: int, x_size: int) -> bool {
    exists|j: int| 0 <= j < upto && beside((#[trigger] coherent[j]) as int, d, x_size)
}

/// What holds while the cells that hang together with `start` are
/// gathered: the queue and the cells gathered hold cells that were in
/// their first state; a cell has changed only from its first state to the
/// state of a cell that was seen, and is on the queue or gathered if it has;
/// every cell on the queue and every cell gathered but the first lies
/// beside a cell gathered before it; of the first `visited` cells
/// gathered, every neighbour that was in its first state has left it; and
/// so has every cell on the queue and every cell gathered but the first.
#[verifier::opaque]
pub open spec fn gathering(
    queue: Seq<usize>,
    coherent: Seq<usize>,
    visited: int,
    rects: Seq<RectState>,
    first: Seq<RectState>,
    start: int,
    x_size: int,
) -> bool {
    &&& rects.len() == first.len()
    &&& 0 <= start < first.len()
    &&& 0 <= visited <= coherent.len()
    &&& forall|k: int|
        0 <= k < queue.len() ==> (#[trigger] queue[k]) < first.len() && first[queue[k] as int] == RectState::Initial
    &&& forall|i: int|
        0 <= i < coherent.len() ==> (#[trigger] coherent[i]) < first.len() && first[coherent[i] as int]
            == RectState::Initial
    &&& forall|t: int|
        0 <= t < first.len() ==> (#[trigger] rects[t]) == first[t] || (first[t] == RectState::Initial && rects[t]
            == RectState::Processed && seen(queue, coherent, t))
    &&& coherent.len() == 0 ==> queue.len() == 1 && queue[0] == start
    &&& coherent.len() > 0 ==> coherent[0] == start
    &&& forall|k: int|
        0 <= k < queue.len() && coherent.len() > 0 ==> hangs_on(
            coherent,
            coherent.len() as int,
            (#[trigger] queue[k]) as int,
            x_size,
        )
    &&& forall|i: int| 1 <= i < coherent.len() ==> hangs_on(coherent, i, (#[trigger] coherent[i]) as int, x_size)
    &&& forall|i: int, d: int|
        0 <= i < visited && 0 <= d < first.len() && beside((#[trigger] coherent[i]) as int, d, x_size) && first[d]
            == RectState::Initial ==> (#[trigger] rects[d]) == RectState::Processed
    &&& forall|k: int|
        0 <= k < queue.len() && coherent.len() > 0 ==> rects[(#[trigger] queue[k]) as int] == RectState::Processed
    &&& forall|i: int|
        0 <= i < coherent.len() ==> (#[trigger] coherent[i]) == start || rects[coherent[i] as int]
            == RectState::Processed
}

/// Taking the last cell from the queue and putting it at the end of the
/// cells gathered keeps what holds while cells are gathered.
pub proof fn lemma_gather_pop(
    queue: Seq<usize>,
    coherent: Seq<usize>,
    rects: Seq<RectState>,
    first: Seq<RectState>,
    start: int,
    x_size: int,
)
    requires
        gathering(queue, coherent, coherent.len() as int, rects, first, start, x_size),
        queue.len() > 0,
    ensures
        gathering(
            queue.drop_last(),
            coherent.push(queue.last()),
            coherent.len() as int,
            rects,
            first,
            start,
            x_size,
        ),
{
    reveal(gathering);
    let q2 = queue.drop_last();
    let c2 = coherent.push(queue.last());
    assert forall|d: int| seen(queue, coherent, d) implies seen(q2, c2, d) by {
        if exists|k: int| 0 <= k < queue.len() && #[trigger] queue[k] == d {
            let k = choose|k: int| 0 <= k < queue.len() && #[trigger] queue[k] == d;
            if k == queue.len() - 1 {
                assert(c2[coherent.len() as int] == d);
            } else {
                assert(q2[k] == d);
            }
        } else {
            let i = choose|i: int| 0 <= i < coherent.len() && #[trigger] coherent[i] == d;
            assert(c2[i] == d);
        }
    }
    assert forall|d: int, upto: int| 0 <= upto <= coherent.len() && hangs_on(coherent, upto, d, x_size) implies hangs_on(
        c2,
        upto,
        d,
        x_size,
    ) by {
        let j = choose|j: int| 0 <= j < upto && beside((#[trigger] coherent[j]) as int, d, x_size);
        assert(beside(c2[j] as int, d, x_size));
    }
    assert forall|k: int| 0 <= k < q2.len() && c2.len() > 0 implies hangs_on(
        c2,
        c2.len() as int,
        (#[trigger] q2[k]) as int,
        x_size,
    ) by {
        assert(q2[k] == queue[k]);
        if coherent.len() == 0 {
            assert(false);
        }
        assert(hangs_on(coherent, coherent.len() as int, queue[k] as int, x_size));
        let j = choose|j: int| 0 <= j < coherent.len() && beside((#[trigger] coherent[j]) as int, queue[k] as int, x_size);
        assert(beside(c2[j] as int, q2[k] as int, x_size));
    }
    assert forall|i: int| 1 <= i < c2.len() implies hangs_on(c2, i, (#[trigger] c2[i]) as int, x_size) by {
        if i < coherent.len() {
            assert(c2[i] == coherent[i]);
            assert(hangs_on(coherent, i, coherent[i] as int, x_size));
        } else {
            let last = queue.len() - 1;
            assert(c2[i] == queue[last]);
            assert(hangs_on(coherent, coherent.len() as int, queue[last] as int, x_size));
        }
    }
    assert forall|i: int, d: int|
        0 <= i < coherent.len() && 0 <= d < first.len() && beside((#[trigger] c2[i]) as int, d, x_size) && first[d]
            == RectState::Initial implies (#[trigger] rects[d]) == RectState::Processed by {
        assert(c2[i] == coherent[i]);
    }
    assert forall|k: int| 0 <= k < q2.len() && c2.len() > 0 implies rects[(#[trigger] q2[k]) as int]
        == RectState::Processed by {
        assert(q2[k] == queue[k]);
    }
    assert forall|i: int| 0 <= i < c2.len() implies (#[trigger] c2[i]) == start || rects[c2[i] as int]
        == RectState::Processed by {
        if i < coherent.len() {
            assert(c2[i] == coherent[i]);
        } else {
            assert(c2[i] == queue[queue.len() - 1]);
        }
    }
    assert forall|t: int| 0 <= t < first.len() implies (#[trigger] rects[t]) == first[t] || (first[t]
        == RectState::Initial && rects[t] == RectState::Processed && seen(q2, c2, t)) by {
        if rects[t] != first[t] {
            assert(seen(queue, coherent, t));
        }
    }
    assert forall|i: int| 0 <= i < c2.len() implies (#[trigger] c2[i]) < first.len() && first[c2[i] as int]
        == RectState::Initial by {
        if i < coherent.len() {
            assert(c2[i] == coherent[i]);
        } else {
            assert(c2[i] == queue[queue.len() - 1]);
        }
    }
    assert forall|k: int| 0 <= k < q2.len() implies (#[trigger] q2[k]) < first.len() && first[q2[k] as int]
        == RectState::Initial by {
        assert(q2[k] == queue[k]);
    }
    if coherent.len() == 0 {
        assert(c2[0] == start);
    } else {
        assert(c2[0] == coherent[0]);
    }
}

/// The neighbours of a cell are the cell before it and the cell after it
/// in its row, and the cells below and above it in its column.
pub proof fn lemma_beside_cases(idx: int, d: int, x_size: int, y_size: int)
    requires
        x_size >= 1,
        y_size >= 1,
        0 <= idx < x_size * y_size,
        0 <= d < x_size * y_size,
    ensures
        beside(idx, d, x_size) <==> {
            let y = idx / x_size;
            let x = idx - y * x_size;
            ||| (d == idx - 1 && x > 0)
            ||| (d == idx + 1 && x < x_size - 1)
            ||| (d == idx - x_size && y > 0)
            ||| (d == idx + x_size && y < y_size - 1)
        },
{
    lemma_row_and_column(idx, x_size, y_size);
    lemma_row_and_column(d, x_size, y_size);
    let y = idx / x_size;
    let x = idx - y * x_size;
    vstd::arithmetic::div_mod::lemma_fundamental_div_mod(idx, x_size);
    assert(x_size * y == y * x_size) by (nonlinear_arith);
    assert(idx % x_size == x);
    if d == idx + 1 {
        vstd::arithmetic::div_mod::lemma_fundamental_div_mod(d, x_size);
        let dy = d / x_size;
        assert(x_size * dy == dy * x_size) by (nonlinear_arith);
        if x < x_size - 1 {
            vstd::arithmetic::div_mod::lemma_fundamental_div_mod_converse(d, x_size, y, x + 1);
        } else {
            assert(d == (y + 1) * x_size) by (nonlinear_arith)
                requires
                    d == y * x_size + x + 1,
                    x == x_size - 1,
            ;
            vstd::arithmetic::div_mod::lemma_fundamental_div_mod_converse(d, x_size, y + 1, 0);
        }
    }
    if d == idx + x_size {
        assert(y < y_size - 1) by (nonlinear_arith)
            requires
                idx + x_size < x_size * y_size,
                idx == y * x_size + x,
                0 <= x,
                x_size >= 1,
        ;
    }
    if d == idx - x_size {
        assert(y > 0) by (nonlinear_arith)
            requires
                idx - x_size >= 0,
                idx == y * x_size + x,
                x < x_size,
                x_size >= 1,
        ;
    }
}

/// Looks at the cell `(x, y)`, a neighbour of the cell gathered last, for
/// [`visit_neighbors`].
fn offer(
    queue: &mut Vec<usize>,
    rects_with_points: &mut Vec<RectState>,
    x_size: usize,
    y_size: usize,
    x: usize,
    y: usize,
    Ghost(first): Ghost<Seq<RectState>>,
    Ghost(coherent): Ghost<Seq<usize>>,
    Ghost(visited): Ghost<int>,
    Ghost(start): Ghost<int>,
)
    requires
        x < x_size,
        y < y_size,
        first.len() == x_size * y_size,
        coherent.len() > 0,
        beside(coherent.last() as int, x + y * x_size, x_size as int),
        gathering(old(queue)@, coherent, visited, old(rects_with_points)@, first, start, x_size as int),
    ensures
        gathering(final(queue)@, coherent, visited, final(rects_with_points)@, first, start, x_size as int),
        final(queue)@.len() >= old(queue)@.len(),
        final(rects_with_points)@.len() == first.len(),
        forall|t: int|
            0 <= t < first.len() && old(rects_with_points)@[t] == RectState::Processed ==> (
            #[trigger] final(rects_with_points)@[t]) == RectState::Processed,
        first[x + y * x_size] == RectState::Initial ==> final(rects_with_points)@[x + y * x_size]
            == RectState::Processed,
        count_initial(final(rects_with_points)@) + (final(queue)@.len() - old(queue)@.len()) == count_initial(
            old(rects_with_points)@,
        ),
{
    let cells: usize = rects_with_points.len();
    let ghost slot = x + y * x_size;
    let ghost queue_before = queue@;
    let ghost rects_before = rects_with_points@;
    proof {
        reveal(gathering);
        lemma_slot_of(x as int, y as int, x_size as int, y_size as int);
        if rects_with_points@[slot] == RectState::Initial {
            lemma_count_initial_update(rects_with_points@, slot);
        }
    }
    process_rect_node(queue, rects_with_points, x_size, x, y);
    proof {
        let w = x_size as int;
        assert forall|d: int| seen(queue_before, coherent, d) implies seen(queue@, coherent, d) by {
            if exists|k: int| 0 <= k < queue_before.len() && #[trigger] queue_before[k] == d {
                let k = choose|k: int| 0 <= k < queue_before.len() && #[trigger] queue_before[k] == d;
                assert(queue@[k] == d);
            }
        }
        if rects_before[slot] == RectState::Initial {
            assert(first[slot] == RectState::Initial);
            let last = queue_before.len() as int;
            assert(queue@[last] == slot as usize);
            assert(seen(queue@, coherent, slot));
            assert forall|k: int| 0 <= k < queue@.len() implies (#[trigger] queue@[k]) < first.len() && first[queue@[k] as int]
                == RectState::Initial by {
                if k < queue_before.len() {
                    assert(queue@[k] == queue_before[k]);
                    assert(queue_before[k] < first.len() && first[queue_before[k] as int] == RectState::Initial);
                }
            }
            assert forall|t: int| 0 <= t < first.len() implies (#[trigger] rects_with_points@[t]) == first[t] || (
            first[t] == RectState::Initial && rects_with_points@[t] == RectState::Processed && seen(
                queue@,
                coherent,
                t,
            )) by {
                if t != slot {
                    assert(rects_with_points@[t] == rects_before[t]);
                    if rects_before[t] != first[t] {
                        assert(seen(queue_before, coherent, t));
                    }
                }
            }
            assert forall|k: int| 0 <= k < queue@.len() && coherent.len() > 0 implies hangs_on(
                coherent,
                coherent.len() as int,
                (#[trigger] queue@[k]) as int,
                w,
            ) by {
                if k < queue_before.len() {
                    assert(queue@[k] == queue_before[k]);
                    assert(hangs_on(coherent, coherent.len() as int, queue_before[k] as int, w));
                } else {
                    let j = coherent.len() - 1;
                    assert(beside(coherent[j] as int, slot, w));
                }
            }
            assert forall|i: int, d: int|
                0 <= i < visited && 0 <= d < first.len() && beside((#[trigger] coherent[i]) as int, d, w) && first[d]
                    == RectState::Initial implies (#[trigger] rects_with_points@[d]) == RectState::Processed by {
                assert(rects_before[d] == RectState::Processed);
            }
            assert forall|k: int| 0 <= k < queue@.len() && coherent.len() > 0 implies rects_with_points@[(
            #[trigger] queue@[k]) as int] == RectState::Processed by {
                if k < queue_before.len() {
                    assert(queue@[k] == queue_before[k]);
                    assert(rects_before[queue_before[k] as int] == RectState::Processed);
                }
            }
            assert forall|i: int| 0 <= i < coherent.len() implies (#[trigger] coherent[i]) == start
                || rects_with_points@[coherent[i] as int] == RectState::Processed by {
                if coherent[i] != start {
                    assert(rects_before[coherent[i] as int] == RectState::Processed);
                }
            }
        } else {
            assert(rects_before[slot] == first[slot] || rects_before[slot] == RectState::Processed);
        }
    }
}

/// Once every neighbour of the cell gathered last that was in its first
/// state is on the queue or gathered, that cell counts as visited.
pub proof fn lemma_gather_visited(
    queue: Seq<usize>,
    coherent: Seq<usize>,
    rects: Seq<RectState>,
    first: Seq<RectState>,
    start: int,
    x_size: int,
)
    requires
        coherent.len() > 0,
        gathering(queue, coherent, coherent.len() - 1, rects, first, start, x_size),
        forall|d: int|
            0 <= d < first.len() && beside(coherent.last() as int, d, x_size) && first[d] == RectState::Initial
                ==> (#[trigger] rects[d]) == RectState::Processed,
    ensures
        gathering(queue, coherent, coherent.len() as int, rects, first, start, x_size),
{
    reveal(gathering);
    assert forall|i: int, d: int|
        0 <= i < coherent.len() && 0 <= d < first.len() && beside((#[trigger] coherent[i]) as int, d, x_size)
            && first[d] == RectState::Initial implies (#[trigger] rects[d]) == RectState::Processed by {
        if i == coherent.len() - 1 {
            assert(coherent[i] == coherent.last());
        }
    }
}

/// Before any cell is gathered the queue holds the first cell alone.
pub proof fn lemma_gather_start(rects: Seq<RectState>, start: usize, x_size: int)
    requires
        start < rects.len(),
        rects[start as int] == RectState::Initial,
    ensures
        gathering(seq![start], Seq::<usize>::empty(), 0, rects, rects, start as int, x_size),
{
    reveal(gathering);
    let queue = seq![start];
    assert(queue[0] == start);
}

/// When the queue is empty, the cells gathered are the region of the
/// first cell.
pub proof fn lemma_gather_done(
    queue: Seq<usize>,
    coherent: Seq<usize>,
    rects: Seq<RectState>,
    first: Seq<RectState>,
    start: int,
    x_size: int,
)
    requires
        queue.len() == 0,
        gathering(queue, coherent, coherent.len() as int, rects, first, start, x_size),
    ensures
        is_region(coherent, first, rects, start, x_size),
{
    reveal(gathering);
    assert forall|d: int| seen(queue, coherent, d) implies coherent.contains(d as usize) by {
        let i = choose|i: int| 0 <= i < coherent.len() && #[trigger] coherent[i] == d;
        assert(coherent[i] == d as usize);
    }
    assert forall|i: int, d: int|
        0 <= i < coherent.len() && 0 <= d < first.len() && beside((#[trigger] coherent[i]) as int, d, x_size)
            && first[d] == RectState::Initial implies #[trigger] coherent.contains(d as usize) by {
        assert(rects[d] == RectState::Processed);
        assert(seen(queue, coherent, d));
    }
    if coherent.len() > 1 {
        assert(hangs_on(coherent, 1, coherent[1] as int, x_size));
        let j = choose|j: int| 0 <= j < 1 && beside((#[trigger] coherent[j]) as int, coherent[1] as int, x_size);
        assert(beside(coherent[1] as int, start, x_size));
        assert(rects[start] == RectState::Processed);
    }
    assert forall|t: int| 0 <= t < first.len() implies (#[trigger] rects[t]) == first[t] || (first[t]
        == RectState::Initial && rects[t] == RectState::Processed && coherent.contains(t as usize)) by {
        if rects[t] != first[t] {
            assert(seen(queue, coherent, t));
        }
    }
}

/// Looks at the four neighbours of the cell gathered last, and puts those
/// that are in their first state on the queue.
fn visit_neighbors(
    queue: &mut Vec<usize>,
    rects_with_points: &mut Vec<RectState>,
    idx: usize,
    x_size: usize,
    y_size: usize,
    Ghost(first): Ghost<Seq<RectState>>,
    Ghost(coherent): Ghost<Seq<usize>>,
    Ghost(start): Ghost<int>,
)
    requires
        x_size >= 1,
        y_size >= 1,
        idx < x_size * y_size,
        first.len() == x_size * y_size,
        coherent.len() > 0,
        coherent.last() == idx,
        gathering(old(queue)@, coherent, coherent.len() - 1, old(rects_with_points)@, first, start, x_size as int),
    ensures
        gathering(
            final(queue)@,
            coherent,
            coherent.len() as int,
            final(rects_with_points)@,
            first,
            start,
            x_size as int,
        ),
        final(queue)@.len() >= old(queue)@.len(),
        count_initial(final(rects_with_points)@) + (final(queue)@.len() - old(queue)@.len()) == count_initial(
            old(rects_with_points)@,
        ),
{
    proof {
        lemma_row_and_column(idx as int, x_size as int, y_size as int);
    }
    let y: usize = idx / x_size;
    proof {
        lemma_slot_of(idx - y * x_size, y as int, x_size as int, y_size as int);
    }
    let x: usize = idx - (y * x_size);
    let ghost visited = coherent.len() - 1;
    let ghost w = x_size as int;
    let ghost h = y_size as int;
    let ghost cell = idx as int;
    if x > 0 {
        proof {
            lemma_slot_of(x - 1, y as int, w, h);
            lemma_beside_cases(cell, cell - 1, w, h);
        }
        offer(queue, rects_with_points, x_size, y_size, x - 1, y, Ghost(first), Ghost(coherent), Ghost(visited), Ghost(start));
    }
    if x < x_size - 1 {
        proof {
            lemma_slot_of(x + 1, y as int, w, h);
            lemma_beside_cases(cell, cell + 1, w, h);
        }
        offer(queue, rects_with_points, x_size, y_size, x + 1, y, Ghost(first), Ghost(coherent), Ghost(visited), Ghost(start));
    }
    if y > 0 {
        proof {
            assert((y - 1) * x_size == y * x_size - x_size) by (nonlinear_arith);
            lemma_slot_of(x as int, y - 1, w, h);
            lemma_beside_cases(cell, cell - w, w, h);
        }
        offer(queue, rects_with_points, x_size, y_size, x, y - 1, Ghost(first), Ghost(coherent), Ghost(visited), Ghost(start));
    }
    if y < y_size - 1 {
        proof {
            assert((y + 1) * x_size == y * x_size + x_size) by (nonlinear_arith);
            lemma_slot_of(x as int, y + 1, w, h);
            lemma_beside_cases(cell, cell + w, w, h);
        }
        offer(queue, rects_with_points, x_size, y_size, x, y + 1, Ghost(first), Ghost(coherent), Ghost(visited), Ghost(start));
    }
    proof {
        assert forall|d: int|
            0 <= d < first.len() && beside(coherent.last() as int, d, w) && first[d] == RectState::Initial implies (
        #[trigger] rects_with_points@[d]) == RectState::Processed by {
            lemma_beside_cases(cell, d, w, h);
        }
        lemma_gather_visited(queue@, coherent, rects_with_points@, first, start, w);
    }
}

/// Gathers the cells in their first state that hang together with the
/// cell `(start_x, start_y)`, side by side: the cell itself first, then its
/// neighbours in that state, and theirs. Every cell that is put on the
/// queue on the way is taken out of its first state.
pub fn mark_coherent_rects(
    rects_with_points: &mut Vec<RectState>,
    start_x: usize,
    start_y: usize,
    x_size: usize,
    y_size: usize,
) -> (coherent_rects: Vec<usize>)
    requires
        x_size >= 1,
        y_size >= 1,
        start_x < x_size,
        start_y < y_size,
        old(rects_with_points)@.len() == x_size * y_size,
    ensures
        final(rects_with_points)@.len() == old(rects_with_points)@.len(),
        old(rects_with_points)@[start_x + start_y * x_size] != RectState::Initial ==> coherent_rects@.len() == 0
            && final(rects_with_points)@ == old(rects_with_points)@,
        old(rects_with_points)@[start_x + start_y * x_size] == RectState::Initial ==> is_region(
            coherent_rects@,
            old(rects_with_points)@,
            final(rects_with_points)@,
            start_x + start_y * x_size,
            x_size as int,
        ),
{
    proof {
        lemma_slot_of(start_x as int, start_y as int, x_size as int, y_size as int);
    }
    let cells: usize = rects_with_points.len();
    let start: usize = start_x + start_y * x_size;
    if rects_with_points[start] != RectState::Initial {
        return Vec::new();
    }
    let ghost first = rects_with_points@;
    let mut coherent_rects: Vec<usize> = Vec::new();
    let mut queue: Vec<usize> = Vec::new();
    queue.push(start);
    proof {
        assert(queue@ =~= seq![start]);
        assert(coherent_rects@ =~= Seq::<usize>::empty());
        lemma_gather_start(first, start, x_size as int);
    }
    while queue.len() > 0
        invariant
            x_size >= 1,
            y_size >= 1,
            first.len() == x_size * y_size,
            rects_with_points@.len() == first.len(),
            start == start_x + start_y * x_size,
            gathering(
                queue@,
                coherent_rects@,
                coherent_rects@.len() as int,
                rects_with_points@,
                first,
                start as int,
                x_size as int,
            ),
        decreases count_initial(rects_with_points@), queue@.len(),
    {
        let ghost queue_before = queue@;
        let ghost coherent_before = coherent_rects@;
        let idx: usize = queue.pop().unwrap();
        proof {
            assert(queue_before[queue_before.len() - 1] == idx);
            assert(queue@ =~= queue_before.drop_last());
            lemma_gather_pop(queue_before, coherent_before, rects_with_points@, first, start as int, x_size as int);
            lemma_gather_cell(queue_before, coherent_before, rects_with_points@, first, start as int, x_size as int);
        }
        coherent_rects.push(idx);
        visit_neighbors(
            &mut queue,
            rects_with_points,
            idx,
            x_size,
            y_size,
            Ghost(first),
            Ghost(coherent_rects@),
            Ghost(start as int),
        );
        proof {
            lemma_gather_sizes(
                queue@,
                coherent_rects@,
                rects_with_points@,
                first,
                start as int,
                x_size as int,
            );
        }
    }
    proof {
        lemma_gather_done(queue@, coherent_rects@, rects_with_points@, first, start as int, x_size as int);
    }
    coherent_rects
}

/// A cell on the queue is a cell of the box.
pub proof fn lemma_gather_cell(
    queue: Seq<usize>,
    coherent: Seq<usize>,
    rects: Seq<RectState>,
    first: Seq<RectState>,
    start: int,
    x_size: int,
)
    requires
        gathering(queue, coherent, coherent.len() as int, rects, first, start, x_size),
        queue.len() > 0,
    ensures
        queue.last() < first.len(),
{
    reveal(gathering);
    assert(queue[queue.len() - 1] < first.len());
}

/// While cells are gathered the box keeps its size.
pub proof fn lemma_gather_sizes(
    queue: Seq<usize>,
    coherent: Seq<usize>,
    rects: Seq<RectState>,
    first: Seq<RectState>,
    start: int,
    x_size: int,
)
    requires
        gathering(queue, coherent, coherent.len() as int, rects, first, start, x_size),
    ensures
        rects.len() == first.len(),
{
    reveal(gathering);
}

/// `cells` is the region of `start`: it begins with `start`; its cells
/// were in their first state; each but the first lies beside one before
/// it; no cell that was in its first state lies beside one of them without
/// being one of them; none but cells of the region have changed, from
/// their first state to the state of a cell that was seen; and where the
/// region has more than one cell, all of them have.
pub open spec fn is_region(
    cells: Seq<usize>,
    before: Seq<RectState>,
    after: Seq<RectState>,
    start: int,
    x_size: int,
) -> bool {
    &&& cells.len() >= 1
    &&& cells[0] == start
    &&& after.len() == before.len()
    &&& forall|i: int|
        0 <= i < cells.len() ==> (#[trigger] cells[i]) < before.len() && before[cells[i] as int] == RectState::Initial
    &&& forall|i: int| 1 <= i < cells.len() ==> hangs_on(cells, i, (#[trigger] cells[i]) as int, x_size)
    &&& forall|i: int, d: int|
        0 <= i < cells.len() && 0 <= d < before.len() && beside((#[trigger] cells[i]) as int, d, x_size) && before[d]
            == RectState::Initial ==> #[trigger] cells.contains(d as usize)
    &&& forall|t: int|
        0 <= t < before.len() ==> (#[trigger] after[t]) == before[t] || (before[t] == RectState::Initial && after[t]
            == RectState::Processed && cells.contains(t as usize))
    &&& forall|i: int|
        0 <= i < cells.len() && cells.len() > 1 ==> after[(#[trigger] cells[i]) as int] == RectState::Processed
}

/// The cells of the box of a ring, sorted out: the state of each, and the
/// regions of cells that the border of the ring does not run through, each
/// region with the cell first that it was gathered from.
pub struct RingCells {
    pub rects: Vec<RectState>,
    pub regions: Vec<Vec<usize>>,
}

impl RingCells {
    /// The cells are those of the box `b`, and every region has a cell.
    pub open spec fn fits(&self, b: CellBox) -> bool {
        &&& self.rects@.len() == b.cells()
        &&& forall|j: int| 0 <= j < self.regions@.len() ==> (#[trigger] self.regions@[j])@.len() >= 1
        &&& forall|j: int, i: int|
            0 <= j < self.regions@.len() && 0 <= i < self.regions@[j]@.len() ==> (#[trigger] self.regions@[j]@[i])
                < b.cells()
    }
}

/// The cell `t` lies in one of the regions.
pub open spec fn in_regions(regions: Seq<Vec<usize>>, t: int) -> bool {
    exists|j: int| 0 <= j < regions.len() && (#[trigger] regions[j])@.contains(t as usize)
}

/// `regions` are the regions of the cells that are `free`, in a box of
/// `x_size` columns: every region has a cell, and its cells are free; every
/// free cell lies in a region; each cell of a region but the first lies
/// beside one that stands before it there; and a free cell beside a cell of
/// a region lies in that region.
pub open spec fn are_regions(regions: Seq<Vec<usize>>, free: Seq<bool>, x_size: int) -> bool {
    &&& forall|j: int| 0 <= j < regions.len() ==> (#[trigger] regions[j])@.len() >= 1
    &&& forall|j: int, i: int|
        0 <= j < regions.len() && 0 <= i < regions[j]@.len() ==> (#[trigger] regions[j]@[i]) < free.len()
            && free[regions[j]@[i] as int]
    &&& forall|t: int| 0 <= t < free.len() && #[trigger] free[t] ==> in_regions(regions, t)
    &&& forall|j: int, i: int|
        0 <= j < regions.len() && 1 <= i < regions[j]@.len() ==> hangs_on(
            regions[j]@,
            i,
            (#[trigger] regions[j]@[i]) as int,
            x_size,
        )
    &&& forall|j: int, i: int, d: int|
        0 <= j < regions.len() && 0 <= i < regions[j]@.len() && 0 <= d < free.len() && beside(
            (#[trigger] regions[j]@[i]) as int,
            d,
            x_size,
        ) && free[d] ==> #[trigger] regions[j]@.contains(d as usize)
}

/// The cells that no mark was set on.
pub open spec fn unmarked(marked: Seq<RectState>) -> Seq<bool> {
    Seq::new(marked.len(), |t: int| marked[t] != RectState::ContainsPoints)
}

/// What holds while the cells of a box are sorted out, when the first
/// `scanned` cells have been looked at: the regions found are regions of the
/// unmarked cells but that they may not yet hold every one of them; they
/// hold the unmarked ones among the cells looked at, and every cell that
/// has left its first state; and the cells of a region of more than one
/// cell have all left it.
#[verifier::opaque]
pub open spec fn sorting(
    regions: Seq<Vec<usize>>,
    rects: Seq<RectState>,
    marked: Seq<RectState>,
    scanned: int,
    x_size: int,
) -> bool {
    &&& rects.len() == marked.len()
    &&& x_size >= 1
    &&& forall|t: int|
        0 <= t < marked.len() ==> ((#[trigger] rects[t]) == RectState::ContainsPoints) == (marked[t]
            == RectState::ContainsPoints)
    &&& forall|j: int| 0 <= j < regions.len() ==> (#[trigger] regions[j])@.len() >= 1
    &&& forall|j: int, i: int|
        0 <= j < regions.len() && 0 <= i < regions[j]@.len() ==> (#[trigger] regions[j]@[i]) < marked.len()
            && marked[regions[j]@[i] as int] != RectState::ContainsPoints
    &&& forall|t: int| 0 <= t < marked.len() && (#[trigger] rects[t]) == RectState::Processed ==> in_regions(regions, t)
    &&& forall|j: int, i: int|
        0 <= j < regions.len() && 0 <= i < regions[j]@.len() && regions[j]@.len() > 1 ==> rects[(
        #[trigger] regions[j]@[i]) as int] == RectState::Processed
    &&& forall|j: int, i: int|
        0 <= j < regions.len() && 1 <= i < regions[j]@.len() ==> hangs_on(
            regions[j]@,
            i,
            (#[trigger] regions[j]@[i]) as int,
            x_size,
        )
    &&& forall|j: int, i: int, d: int|
        0 <= j < regions.len() && 0 <= i < regions[j]@.len() && 0 <= d < marked.len() && beside(
            (#[trigger] regions[j]@[i]) as int,
            d,
            x_size,
        ) && marked[d] != RectState::ContainsPoints ==> #[trigger] regions[j]@.contains(d as usize)
    &&& forall|t: int|
        0 <= t < scanned && t < marked.len() && (#[trigger] marked[t]) != RectState::ContainsPoints ==> in_regions(
            regions,
            t,
        )
}

/// Before any cell is looked at, no region is found.
pub proof fn lemma_sort_start(marked: Seq<RectState>, x_size: int)
    requires
        x_size >= 1,
        forall|t: int|
            0 <= t < marked.len() ==> (#[trigger] marked[t]) == RectState::ContainsPoints || marked[t]
                == RectState::Initial,
    ensures
        sorting(Seq::<Vec<usize>>::empty(), marked, marked, 0, x_size),
{
    reveal(sorting);
}

/// A cell that is not in its first state is passed by.
pub proof fn lemma_sort_skip(
    regions: Seq<Vec<usize>>,
    rects: Seq<RectState>,
    marked: Seq<RectState>,
    scanned: int,
    x_size: int,
)
    requires
        sorting(regions, rects, marked, scanned, x_size),
        0 <= scanned < marked.len(),
        rects[scanned] != RectState::Initial,
    ensures
        sorting(regions, rects, marked, scanned + 1, x_size),
{
    reveal(sorting);
    assert forall|t: int|
        0 <= t < scanned + 1 && t < marked.len() && (#[trigger] marked[t]) != RectState::ContainsPoints implies in_regions(
        regions,
        t,
    ) by {
        if t == scanned {
            assert(rects[t] == RectState::Processed);
        }
    }
}

/// A cell in its first state begins a region: with the region that is
/// gathered from it the regions found stay what they are meant to be.
pub proof fn lemma_sort_region(
    regions: Seq<Vec<usize>>,
    before: Seq<RectState>,
    after: Seq<RectState>,
    marked: Seq<RectState>,
    scanned: int,
    x_size: int,
    points: Vec<usize>,
)
    requires
        sorting(regions, before, marked, scanned, x_size),
        0 <= scanned < marked.len(),
        before[scanned] == RectState::Initial,
        is_region(points@, before, after, scanned, x_size),
        marked.len() <= usize::MAX,
    ensures
        sorting(regions.push(points), after, marked, scanned + 1, x_size),
{
    reveal(sorting);
    let all = regions.push(points);
    let last = regions.len() as int;
    assert(all[last] == points);
    assert forall|t: int| in_regions(regions, t) implies in_regions(all, t) by {
        let j = choose|j: int| 0 <= j < regions.len() && (#[trigger] regions[j])@.contains(t as usize);
        assert(all[j] == regions[j]);
    }
    assert forall|t: int| 0 <= t < marked.len() implies ((#[trigger] after[t]) == RectState::ContainsPoints) == (
    marked[t] == RectState::ContainsPoints) by {
        assert((before[t] == RectState::ContainsPoints) == (marked[t] == RectState::ContainsPoints));
    }
    assert forall|j: int| 0 <= j < all.len() implies (#[trigger] all[j])@.len() >= 1 by {
        if j < last {
            assert(all[j] == regions[j]);
        }
    }
    assert forall|j: int, i: int| 0 <= j < all.len() && 0 <= i < all[j]@.len() implies (#[trigger] all[j]@[i])
        < marked.len() && marked[all[j]@[i] as int] != RectState::ContainsPoints by {
        if j < last {
            assert(all[j] == regions[j]);
        } else {
            assert(before[points@[i] as int] == RectState::Initial);
        }
    }
    assert forall|t: int| 0 <= t < marked.len() && (#[trigger] after[t]) == RectState::Processed implies in_regions(
        all,
        t,
    ) by {
        if before[t] == RectState::Processed {
            assert(in_regions(regions, t));
        } else {
            assert(points@.contains(t as usize));
        }
    }
    assert forall|j: int, i: int|
        0 <= j < all.len() && 0 <= i < all[j]@.len() && all[j]@.len() > 1 implies after[(#[trigger] all[j]@[i]) as int]
        == RectState::Processed by {
        if j < last {
            assert(all[j] == regions[j]);
            let t = regions[j]@[i] as int;
            assert(before[t] == RectState::Processed);
            assert(after[t] == before[t] || after[t] == RectState::Processed);
        }
    }
    assert forall|j: int, i: int| 0 <= j < all.len() && 1 <= i < all[j]@.len() implies hangs_on(
        all[j]@,
        i,
        (#[trigger] all[j]@[i]) as int,
        x_size,
    ) by {
        if j < last {
            assert(all[j] == regions[j]);
        }
    }
    assert forall|j: int, i: int, d: int|
        0 <= j < all.len() && 0 <= i < all[j]@.len() && 0 <= d < marked.len() && beside(
            (#[trigger] all[j]@[i]) as int,
            d,
            x_size,
        ) && marked[d] != RectState::ContainsPoints implies #[trigger] all[j]@.contains(d as usize) by {
        if j < last {
            assert(all[j] == regions[j]);
        } else {
            let c = points@[i] as int;
            assert(before[c] == RectState::Initial);
            if before[d] != RectState::Initial {
                assert(before[d] == RectState::Processed);
                assert(in_regions(regions, d));
                let k = choose|k: int| 0 <= k < regions.len() && (#[trigger] regions[k])@.contains(d as usize);
                let at = choose|at: int| 0 <= at < regions[k]@.len() && regions[k]@[at] == d as usize;
                assert(beside(regions[k]@[at] as int, c, x_size));
                assert(regions[k]@.contains(c as usize));
                let ac = choose|ac: int| 0 <= ac < regions[k]@.len() && regions[k]@[ac] == c as usize;
                assert(c != d);
                assert(ac != at);
                assert(regions[k]@.len() > 1);
                assert(before[regions[k]@[ac] as int] == RectState::Processed);
                assert(false);
            }
        }
    }
    assert forall|t: int|
        0 <= t < scanned + 1 && t < marked.len() && (#[trigger] marked[t]) != RectState::ContainsPoints implies in_regions(
        all,
        t,
    ) by {
        if t == scanned {
            assert(points@[0] == t as usize);
            assert(points@.contains(t as usize));
        } else {
            assert(in_regions(regions, t));
        }
    }
}

/// When every cell has been looked at, the regions found are the regions
/// of the unmarked cells.
pub proof fn lemma_sort_done(
    regions: Seq<Vec<usize>>,
    rects: Seq<RectState>,
    marked: Seq<RectState>,
    scanned: int,
    x_size: int,
)
    requires
        sorting(regions, rects, marked, scanned, x_size),
        scanned >= marked.len(),
    ensures
        are_regions(regions, unmarked(marked), x_size),
        rects.len() == marked.len(),
        forall|t: int|
            0 <= t < marked.len() ==> ((#[trigger] rects[t]) == RectState::ContainsPoints) == (marked[t]
                == RectState::ContainsPoints),
{
    reveal(sorting);
    let free = unmarked(marked);
    assert forall|t: int| 0 <= t < free.len() && #[trigger] free[t] implies in_regions(regions, t) by {
        assert(marked[t] != RectState::ContainsPoints);
    }
}

/// `ring` is the box `b` of the ring with the vertices `cells`, sorted
/// out: the cells that the border runs through are marked, and the others
/// are gathered into their regions.
pub open spec fn sorts_out(ring: RingCells, b: CellBox, cells: Seq<(i16, i16)>) -> bool {
    &&& ring.fits(b)
    &&& forall|idx: int|
        0 <= idx < b.cells() ==> ((#[trigger] ring.rects@[idx]) == RectState::ContainsPoints) == ring_marks(
            b,
            cells,
            cells.len() - 1,
            idx,
        )
    &&& are_regions(
        ring.regions@,
        Seq::new(b.cells() as nat, |idx: int| !ring_marks(b, cells, cells.len() - 1, idx)),
        b.x_size as int,
    )
}

/// Sorts out the cells of the box of a ring: marks those that the border
/// runs through, and gathers the others into regions, row by row.
pub fn ring_regions(b: &CellBox, cells: &Vec<(i16, i16)>) -> (ring: RingCells)
    requires
        b.valid(),
        ring_in_box(*b, cells@),
    ensures
        ring.fits(*b),
        forall|idx: int|
            0 <= idx < b.cells() ==> (ring.rects@[idx] == RectState::ContainsPoints) == ring_marks(
                *b,
                cells@,
                cells@.len() - 1,
                idx,
            ),
        forall|j: int, i: int|
            0 <= j < ring.regions@.len() && 0 <= i < ring.regions@[j]@.len() ==> !ring_marks(
                *b,
                cells@,
                cells@.len() - 1,
                (#[trigger] ring.regions@[j]@[i]) as int,
            ),
        sorts_out(ring, *b, cells@),
{
    let mut rects = mark_cells(b, cells);
    let ghost marked = rects@;
    let x_size: usize = b.x_size as usize;
    let y_size: usize = b.y_size as usize;
    let mut regions: Vec<Vec<usize>> = Vec::new();
    let mut r_y: usize = 0;
    proof {
        lemma_sort_start(marked, x_size as int);
        assert(regions@ =~= Seq::<Vec<usize>>::empty());
        assert(0 * x_size == 0) by (nonlinear_arith);
    }
    while r_y < y_size
        invariant
            b.valid(),
            x_size == b.x_size,
            y_size == b.y_size,
            r_y <= y_size,
            marked.len() == b.cells(),
            rects@.len() == b.cells(),
            sorting(regions@, rects@, marked, r_y * x_size, x_size as int),
        decreases y_size - r_y,
    {
        let mut r_x: usize = 0;
        while r_x < x_size
            invariant
                b.valid(),
                x_size == b.x_size,
                y_size == b.y_size,
                r_y < y_size,
                r_x <= x_size,
                marked.len() == b.cells(),
                rects@.len() == b.cells(),
                sorting(regions@, rects@, marked, r_x + r_y * x_size, x_size as int),
            decreases x_size - r_x,
        {
            proof {
                lemma_slot_of(r_x as int, r_y as int, x_size as int, y_size as int);
                assert(x_size * y_size == b.cells());
            }
            let cells_total: usize = rects.len();
            if rects[r_x + (r_y * x_size)] == RectState::Initial {
                let ghost before = rects@;
                let ghost earlier = regions@;
                let points = mark_coherent_rects(&mut rects, r_x, r_y, x_size, y_size);
                proof {
                    lemma_sort_region(earlier, before, rects@, marked, r_x + r_y * x_size, x_size as int, points);
                }
                regions.push(points);
            } else {
                proof {
                    lemma_sort_skip(regions@, rects@, marked, r_x + r_y * x_size, x_size as int);
                }
            }
            r_x += 1;
        }
        proof {
            assert((r_y + 1) * x_size == x_size + r_y * x_size) by (nonlinear_arith);
        }
        r_y += 1;
    }
    proof {
        assert(y_size * x_size == x_size * y_size) by (nonlinear_arith);
        lemma_sort_done(regions@, rects@, marked, r_y * x_size, x_size as int);
        let free = Seq::new(b.cells() as nat, |idx: int| !ring_marks(*b, cells@, cells@.len() - 1, idx));
        assert(free =~= unmarked(marked));
    }
    RingCells { rects, regions }
}

/// The cell of the grid that the slot `idx` of the box `b` stands for.
pub open spec fn cell_of(b: CellBox, idx: int) -> (int, int) {
    (idx - (idx / (b.x_size as int)) * b.x_size + b.x, idx / (b.x_size as int) + b.y)
}

/// Every slot of a box stands for a cell of the grid.
pub proof fn lemma_cell_on_grid(b: CellBox, idx: int)
    requires
        b.valid(),
        0 <= idx < b.cells(),
    ensures
        on_grid(cell_of(b, idx).0, cell_of(b, idx).1),
        b.holds(cell_of(b, idx).0, cell_of(b, idx).1),
{
    lemma_row_and_column(idx, b.x_size as int, b.y_size as int);
    let (cx, cy) = cell_of(b, idx);
    assert((cy + 90) * 360 <= 179 * 360) by (nonlinear_arith)
        requires
            cy + 90 <= 179,
    ;
    if cx == 180 {
        assert((cy + 90) * 360 <= 178 * 360) by (nonlinear_arith)
            requires
                cy + 90 <= 178,
        ;
    }
}

/// Where the cell at `idx` of the box `b` stands in the grid.
pub open spec fn slot_of(b: CellBox, idx: int) -> int {
    grid_slot(cell_of(b, idx).0, cell_of(b, idx).1)
}

/// What becomes of the entry `was` when `entry` is written over it.
pub open spec fn written(entry: GridEntry, was: GridEntry) -> GridEntry {
    if entry == GridEntry::Border || (entry == GridEntry::Polygon && was == GridEntry::Outside) {
        entry
    } else {
        was
    }
}

/// One of the first `upto` cells of the box that the border runs through
/// stands at `g` in the grid.
pub open spec fn border_at(b: CellBox, rects: Seq<RectState>, upto: int, g: int) -> bool {
    exists|idx: int| 0 <= idx < upto && rects[idx] == RectState::ContainsPoints && #[trigger] slot_of(b, idx) == g
}

/// A cell of a region on land stands at `g` in the grid: a cell of one of
/// the first `region` regions, or one of the first `cell` cells of the
/// region after them.
pub open spec fn land_at(
    b: CellBox,
    regions: Seq<Vec<usize>>,
    on_land: Seq<bool>,
    region: int,
    cell: int,
    g: int,
) -> bool {
    exists|j: int, i: int|
        0 <= j < regions.len() && 0 <= i < regions[j]@.len() && (j < region || (j == region && i < cell))
            && on_land[j] && slot_of(b, (#[trigger] regions[j]@[i]) as int) == g
}

/// What becomes of the entry `was` of a cell when a ring is written into
/// the grid: a border where the border of the ring runs through the cell,
/// a polygon where the cell was outside and lies in a region on land.
pub open spec fn ring_entry(was: GridEntry, border: bool, land: bool) -> GridEntry {
    if border {
        GridEntry::Border
    } else if land && was == GridEntry::Outside {
        GridEntry::Polygon
    } else {
        was
    }
}

/// The grid after a ring was written into it.
pub open spec fn ring_written(grid: Seq<GridEntry>, b: CellBox, ring: RingCells, on_land: Seq<bool>) -> Seq<GridEntry> {
    Seq::new(
        grid.len(),
        |g: int|
            ring_entry(
                grid[g],
                border_at(b, ring.rects@, ring.rects@.len() as int, g),
                land_at(b, ring.regions@, on_land, ring.regions@.len() as int, 0, g),
            ),
    )
}

/// Writes into `grid` the cell of the box `b` that stands at `idx`.
pub fn insert_cell(grid: &mut Vec<GridEntry>, entry: GridEntry, b: &CellBox, idx: usize)
    requires
        old(grid)@.len() == GRID_WIDTH * GRID_HEIGHT,
        b.valid(),
        idx < b.cells(),
    ensures
        0 <= slot_of(*b, idx as int) < GRID_WIDTH * GRID_HEIGHT,
        final(grid)@ == old(grid)@.update(
            slot_of(*b, idx as int),
            written(entry, old(grid)@[slot_of(*b, idx as int)]),
        ),
{
    proof {
        lemma_cell_on_grid(*b, idx as int);
        lemma_row_and_column(idx as int, b.x_size as int, b.y_size as int);
        lemma_slot_of(
            idx - (idx / (b.x_size as usize)) * b.x_size,
            (idx / (b.x_size as usize)) as int,
            b.x_size as int,
            b.y_size as int,
        );
    }
    let x_size: usize = b.x_size as usize;
    let p_y: usize = idx / x_size;
    let p_x: usize = idx - (p_y * x_size);
    insert_in_grid(grid, entry, (p_x as i32 + b.x as i32) as i16, (p_y as i32 + b.y as i32) as i16);
}

/// Writes a ring into `grid`: a border into every cell that the border of
/// the ring runs through, and into every cell of a region a polygon or
/// outside, as `on_land` says of the region.
pub fn apply_ring(grid: &mut Vec<GridEntry>, b: &CellBox, ring: &RingCells, on_land: &Vec<bool>)
    requires
        old(grid)@.len() == GRID_WIDTH * GRID_HEIGHT,
        b.valid(),
        ring.fits(*b),
        on_land@.len() == ring.regions@.len(),
    ensures
        final(grid)@ == ring_written(old(grid)@, *b, *ring, on_land@),
{
    let total: usize = ring.rects.len();
    let mut idx: usize = 0;
    while idx < total
        invariant
            b.valid(),
            total == b.cells(),
            total == ring.rects@.len(),
            idx <= total,
            grid@.len() == GRID_WIDTH * GRID_HEIGHT,
            old(grid)@.len() == GRID_WIDTH * GRID_HEIGHT,
            forall|g: int|
                0 <= g < grid@.len() ==> #[trigger] grid@[g] == ring_entry(
                    old(grid)@[g],
                    border_at(*b, ring.rects@, idx as int, g),
                    false,
                ),
        decreases total - idx,
    {
        let ghost before = grid@;
        if ring.rects[idx] == RectState::ContainsPoints {
            insert_cell(grid, GridEntry::Border, b, idx);
        }
        proof {
            let here = slot_of(*b, idx as int);
            assert forall|g: int| 0 <= g < grid@.len() implies #[trigger] grid@[g] == ring_entry(
                old(grid)@[g],
                border_at(*b, ring.rects@, idx + 1, g),
                false,
            ) by {
                let then = border_at(*b, ring.rects@, idx as int, g);
                let now = border_at(*b, ring.rects@, idx + 1, g);
                assert(before[g] == ring_entry(old(grid)@[g], then, false));
                if then {
                    let k = choose|k: int|
                        0 <= k < idx && ring.rects@[k] == RectState::ContainsPoints && #[trigger] slot_of(*b, k) == g;
                    assert(0 <= k < idx + 1 && ring.rects@[k] == RectState::ContainsPoints && slot_of(*b, k) == g);
                }
                if now && !then {
                    let k = choose|k: int|
                        0 <= k < idx + 1 && ring.rects@[k] == RectState::ContainsPoints && #[trigger] slot_of(*b, k)
                            == g;
                    if k < idx {
                        assert(0 <= k < idx && ring.rects@[k] == RectState::ContainsPoints && slot_of(*b, k) == g);
                    }
                    assert(k == idx);
                }
                if ring.rects@[idx as int] == RectState::ContainsPoints && g == here {
                    assert(0 <= idx < idx + 1 && ring.rects@[idx as int] == RectState::ContainsPoints && slot_of(
                        *b,
                        idx as int,
                    ) == g);
                }
            }
        }
        idx += 1;
    }
    let ghost bordered = grid@;
    let mut j: usize = 0;
    while j < ring.regions.len()
        invariant
            b.valid(),
            ring.fits(*b),
            on_land@.len() == ring.regions@.len(),
            total == ring.rects@.len(),
            j <= ring.regions@.len(),
            grid@.len() == GRID_WIDTH * GRID_HEIGHT,
            old(grid)@.len() == GRID_WIDTH * GRID_HEIGHT,
            forall|g: int|
                0 <= g < grid@.len() ==> #[trigger] grid@[g] == ring_entry(
                    old(grid)@[g],
                    border_at(*b, ring.rects@, total as int, g),
                    land_at(*b, ring.regions@, on_land@, j as int, 0, g),
                ),
        decreases ring.regions@.len() - j,
    {
        let entry = if on_land[j] {
            GridEntry::Polygon
        } else {
            GridEntry::Outside
        };
        let region = &ring.regions[j];
        let mut i: usize = 0;
        while i < region.len()
            invariant
                b.valid(),
                ring.fits(*b),
                on_land@.len() == ring.regions@.len(),
                total == ring.rects@.len(),
                j < ring.regions@.len(),
                *region == ring.regions@[j as int],
                entry == (if on_land@[j as int] {
                    GridEntry::Polygon
                } else {
                    GridEntry::Outside
                }),
                i <= region@.len(),
                grid@.len() == GRID_WIDTH * GRID_HEIGHT,
                old(grid)@.len() == GRID_WIDTH * GRID_HEIGHT,
                forall|g: int|
                    0 <= g < grid@.len() ==> #[trigger] grid@[g] == ring_entry(
                        old(grid)@[g],
                        border_at(*b, ring.rects@, total as int, g),
                        land_at(*b, ring.regions@, on_land@, j as int, i as int, g),
                    ),
            decreases region@.len() - i,
        {
            let ghost before = grid@;
            proof {
                assert(ring.regions@[j as int]@[i as int] < b.cells());
            }
            insert_cell(grid, entry, b, region[i]);
            proof {
                let here = slot_of(*b, region@[i as int] as int);
                assert forall|g: int| 0 <= g < grid@.len() implies #[trigger] grid@[g] == ring_entry(
                    old(grid)@[g],
                    border_at(*b, ring.rects@, total as int, g),
                    land_at(*b, ring.regions@, on_land@, j as int, i + 1, g),
                ) by {
                    let then = land_at(*b, ring.regions@, on_land@, j as int, i as int, g);
                    let now = land_at(*b, ring.regions@, on_land@, j as int, i + 1, g);
                    assert(before[g] == ring_entry(
                        old(grid)@[g],
                        border_at(*b, ring.rects@, total as int, g),
                        then,
                    ));
                    if then {
                        let (r, q) = choose|r: int, q: int|
                            0 <= r < ring.regions@.len() && 0 <= q < ring.regions@[r]@.len() && (r < j || (r == j && q
                                < i)) && on_land@[r] && slot_of(*b, (#[trigger] ring.regions@[r]@[q]) as int) == g;
                        assert(0 <= r < ring.regions@.len() && 0 <= q < ring.regions@[r]@.len() && (r < j || (r == j
                            && q < i + 1)) && on_land@[r] && slot_of(*b, ring.regions@[r]@[q] as int) == g);
                    }
                    if now && !then {
                        let (r, q) = choose|r: int, q: int|
                            0 <= r < ring.regions@.len() && 0 <= q < ring.regions@[r]@.len() && (r < j || (r == j && q
                                < i + 1)) && on_land@[r] && slot_of(*b, (#[trigger] ring.regions@[r]@[q]) as int) == g;
                        if !(r == j && q == i) {
                            assert(0 <= r < ring.regions@.len() && 0 <= q < ring.regions@[r]@.len() && (r < j || (r
                                == j && q < i)) && on_land@[r] && slot_of(*b, ring.regions@[r]@[q] as int) == g);
                        }
                        assert(g == here && on_land@[j as int]);
                    }
                    if g == here && on_land@[j as int] {
                        assert(0 <= j < ring.regions@.len() && 0 <= i < ring.regions@[j as int]@.len() && (j < j || (j
                            == j && i < i + 1)) && on_land@[j as int] && slot_of(
                            *b,
                            ring.regions@[j as int]@[i as int] as int,
                        ) == g);
                        assert(now);
                    }
                }
            }
            i += 1;
        }
        proof {
            assert forall|g: int| 0 <= g < grid@.len() implies land_at(
                *b,
                ring.regions@,
                on_land@,
                j as int,
                region@.len() as int,
                g,
            ) == land_at(*b, ring.regions@, on_land@, j + 1, 0, g) by {
                let then = land_at(*b, ring.regions@, on_land@, j as int, region@.len() as int, g);
                let now = land_at(*b, ring.regions@, on_land@, j + 1, 0, g);
                if then {
                    let (r, q) = choose|r: int, q: int|
                        0 <= r < ring.regions@.len() && 0 <= q < ring.regions@[r]@.len() && (r < j || (r == j && q
                            < region@.len())) && on_land@[r] && slot_of(*b, (#[trigger] ring.regions@[r]@[q]) as int)
                            == g;
                    assert(0 <= r < ring.regions@.len() && 0 <= q < ring.regions@[r]@.len() && (r < j + 1 || (r == j
                        + 1 && q < 0)) && on_land@[r] && slot_of(*b, ring.regions@[r]@[q] as int) == g);
                }
                if now {
                    let (r, q) = choose|r: int, q: int|
                        0 <= r < ring.regions@.len() && 0 <= q < ring.regions@[r]@.len() && (r < j + 1 || (r == j + 1
                            && q < 0)) && on_land@[r] && slot_of(*b, (#[trigger] ring.regions@[r]@[q]) as int) == g;
                    assert(0 <= r < ring.regions@.len() && 0 <= q < ring.regions@[r]@.len() && (r < j || (r == j && q
                        < region@.len())) && on_land@[r] && slot_of(*b, ring.regions@[r]@[q] as int) == g);
                }
            }
        }
        j += 1;
    }
    proof {
        assert(grid@ =~= ring_written(old(grid)@, *b, *ring, on_land@));
    }
}

/// The grid after the first `upto` rings were written, one after the
/// other, into a grid in which every cell is outside.
pub open spec fn grid_after(boxes: Seq<CellBox>, sorted: Seq<RingCells>, on_land: Seq<Vec<bool>>, upto: int) -> Seq<
    GridEntry,
>
    decreases upto,
{
    if upto <= 0 {
        Seq::new((GRID_WIDTH * GRID_HEIGHT) as nat, |g: int| GridEntry::Outside)
    } else {
        ring_written(
            grid_after(boxes, sorted, on_land, upto - 1),
            boxes[upto - 1],
            sorted[upto - 1],
            on_land[upto - 1]@,
        )
    }
}

/// Depth of the quadtree over the cells of the globe: its square has
/// sides of 512 cells.
pub const TREE_DEPTH: usize = 9;

/// A quadtree of depth 9 has sides of 512 cells.
pub proof fn lemma_tree_side()
    ensures
        side_of(9) == 512,
{
    assert(side_of(0) == 1);
    assert(side_of(1) == 2);
    assert(side_of(2) == 4);
    assert(side_of(3) == 8);
    assert(side_of(4) == 16);
    assert(side_of(5) == 32);
    assert(side_of(6) == 64);
    assert(side_of(7) == 128);
    assert(side_of(8) == 256);
}

/// The items that the quadtree holds for the boxes `boxes`: each box,
/// moved so that no corner is negative, with its position as the value.
pub open spec fn box_items(boxes: Seq<CellBox>) -> Seq<CellItem> {
    Seq::new(boxes.len(), |i: int| (boxes[i].area(), i as i32))
}

/// `list` holds the polygons whose box holds the cell `(x, y)`, and no
/// others.
pub open spec fn covers(boxes: Seq<CellBox>, x: int, y: int, list: Seq<usize>) -> bool {
    forall|p: usize| list.contains(p) <==> (p < boxes.len() && boxes[p as int].holds(x, y))
}

/// What is known of a point from the cell that it lies in.
pub enum CellAnswer {
    /// The cell lies inside a polygon: the point is on land.
    Land,
    /// The cell lies outside all polygons: the point is on water.
    Water,
    /// A border runs through the cell: the point is to be held against the
    /// polygons listed, those whose box holds the cell.
    Candidates(Vec<usize>),
}

/// The index over the polygons, as far as it works on whole cells: the
/// box of cells round every polygon, a quadtree over these boxes, and the
/// grid of the cells of the globe with what is known of each.
pub struct PointInPolygonTest {
    bounding_boxes: Vec<CellBox>,
    quadtree: CellTree,
    grid: Option<Vec<GridEntry>>,
}

impl PointInPolygonTest {
    /// The boxes of the polygons.
    pub closed spec fn boxes(&self) -> Seq<CellBox> {
        self.bounding_boxes@
    }

    /// The grid, once it is built.
    pub closed spec fn grid_view(&self) -> Option<Seq<GridEntry>> {
        match self.grid {
            Some(g) => Some(g@),
            None => None,
        }
    }

    /// The index is in a state that its methods keep.
    pub closed spec fn wf(&self) -> bool {
        &&& self.bounding_boxes@.len() <= i32::MAX
        &&& forall|i: int| 0 <= i < self.bounding_boxes@.len() ==> (#[trigger] self.bounding_boxes@[i]).valid()
        &&& cell_tree_items(self.quadtree) == box_items(self.bounding_boxes@)
        &&& match self.grid {
            Some(g) => g@.len() == GRID_WIDTH * GRID_HEIGHT,
            None => true,
        }
    }

    /// The index over the polygons with the boxes `bounding_boxes`; its
    /// grid is still to be built.
    pub fn new(bounding_boxes: Vec<CellBox>) -> (t: PointInPolygonTest)
        requires
            bounding_boxes@.len() <= i32::MAX,
            forall|i: int| 0 <= i < bounding_boxes@.len() ==> (#[trigger] bounding_boxes@[i]).valid(),
        ensures
            t.wf(),
            t.boxes() == bounding_boxes@,
            t.grid_view() is None,
    {
        let quadtree = PointInPolygonTest::build_quadtree(&bounding_boxes);
        PointInPolygonTest { bounding_boxes, quadtree, grid: None }
    }

    /// The quadtree over the boxes.
    fn build_quadtree(bounding_boxes: &Vec<CellBox>) -> (quadtree: CellTree)
        requires
            bounding_boxes@.len() <= i32::MAX,
            forall|i: int| 0 <= i < bounding_boxes@.len() ==> (#[trigger] bounding_boxes@[i]).valid(),
        ensures
            cell_tree_items(quadtree) == box_items(bounding_boxes@),
    {
        let mut quadtree = cell_tree_new(TREE_DEPTH);
        proof {
            lemma_tree_side();
            assert(cell_tree_items(quadtree) =~= box_items(bounding_boxes@.take(0)));
        }
        let mut i: usize = 0;
        while i < bounding_boxes.len()
            invariant
                i <= bounding_boxes@.len(),
                bounding_boxes@.len() <= i32::MAX,
                forall|k: int| 0 <= k < bounding_boxes@.len() ==> (#[trigger] bounding_boxes@[k]).valid(),
                cell_tree_side(quadtree) == 512,
                cell_tree_items(quadtree) == box_items(bounding_boxes@.take(i as int)),
            decreases bounding_boxes@.len() - i,
        {
            let bounding_box = bounding_boxes[i];
            proof {
                assert(bounding_boxes@[i as int].valid());
            }
            let area: CellArea = (
                bounding_box.x + 180i16,
                bounding_box.y + 90i16,
                bounding_box.x_size,
                bounding_box.y_size,
            );
            let ghost before = cell_tree_items(quadtree);
            let handle = cell_tree_insert(&mut quadtree, area, i as i32);
            proof {
                assert(handle is Some);
                assert(before.push((area, i as i32)) =~= box_items(bounding_boxes@.take(i + 1)));
            }
            i += 1;
        }
        proof {
            assert(bounding_boxes@.take(bounding_boxes@.len() as int) =~= bounding_boxes@);
        }
        quadtree
    }

    /// The boxes of the polygons.
    pub fn bounding_boxes(&self) -> (r: &Vec<CellBox>)
        ensures
            r@ == self.boxes(),
    {
        &self.bounding_boxes
    }

    /// Sorts out, for every polygon, the cells of its box.
    pub fn collect_regions(&self, rings: &Vec<Vec<(i16, i16)>>) -> (sorted: Vec<RingCells>)
        requires
            self.wf(),
            rings@.len() == self.boxes().len(),
            forall|i: int| 0 <= i < rings@.len() ==> ring_in_box(self.boxes()[i], (#[trigger] rings@[i])@),
        ensures
            sorted@.len() == rings@.len(),
            forall|i: int| 0 <= i < sorted@.len() ==> (#[trigger] sorted@[i]).fits(self.boxes()[i]),
            forall|i: int| 0 <= i < sorted@.len() ==> sorts_out(#[trigger] sorted@[i], self.boxes()[i], rings@[i]@),
    {
        let mut sorted: Vec<RingCells> = Vec::new();
        let mut i: usize = 0;
        while i < rings.len()
            invariant
                self.wf(),
                rings@.len() == self.boxes().len(),
                forall|k: int| 0 <= k < rings@.len() ==> ring_in_box(self.boxes()[k], (#[trigger] rings@[k])@),
                i <= rings@.len(),
                sorted@.len() == i,
                forall|k: int| 0 <= k < sorted@.len() ==> (#[trigger] sorted@[k]).fits(self.boxes()[k]),
                forall|k: int| 0 <= k < sorted@.len() ==> sorts_out(#[trigger] sorted@[k], self.boxes()[k], rings@[k]@),
            decreases rings@.len() - i,
        {
            proof {
                assert(self.bounding_boxes@[i as int].valid());
                assert(ring_in_box(self.boxes()[i as int], rings@[i as int]@));
            }
            let ring = ring_regions(&self.bounding_boxes[i], &rings[i]);
            sorted.push(ring);
            i += 1;
        }
        sorted
    }

    /// Builds the grid: every cell is outside, until the polygons are
    /// written into it one after the other, each with the regions of its
    /// box that `on_land` says lie inside it.
    pub fn build_grid(&mut self, sorted: &Vec<RingCells>, on_land: &Vec<Vec<bool>>)
        requires
            old(self).wf(),
            sorted@.len() == old(self).boxes().len(),
            on_land@.len() == sorted@.len(),
            forall|i: int|
                0 <= i < sorted@.len() ==> (#[trigger] sorted@[i]).fits(old(self).boxes()[i]) && on_land@[i]@.len()
                    == sorted@[i].regions@.len(),
        ensures
            final(self).wf(),
            final(self).boxes() == old(self).boxes(),
            final(self).grid_view() == Some(grid_after(old(self).boxes(), sorted@, on_land@, sorted@.len() as int)),
    {
        let mut grid: Vec<GridEntry> = Vec::with_capacity(GRID_WIDTH * GRID_HEIGHT);
        let mut n: usize = 0;
        while n < GRID_WIDTH * GRID_HEIGHT
            invariant
                n <= GRID_WIDTH * GRID_HEIGHT,
                grid@.len() == n,
                forall|g: int| 0 <= g < n ==> grid@[g] == GridEntry::Outside,
            decreases GRID_WIDTH * GRID_HEIGHT - n,
        {
            grid.push(GridEntry::Outside);
            n += 1;
        }
        proof {
            assert(grid@ =~= grid_after(self.boxes(), sorted@, on_land@, 0));
        }
        let mut i: usize = 0;
        while i < sorted.len()
            invariant
                self.wf(),
                self.bounding_boxes@ == old(self).bounding_boxes@,
                sorted@.len() == self.boxes().len(),
                on_land@.len() == sorted@.len(),
                forall|k: int|
                    0 <= k < sorted@.len() ==> (#[trigger] sorted@[k]).fits(self.boxes()[k]) && on_land@[k]@.len()
                        == sorted@[k].regions@.len(),
                i <= sorted@.len(),
                grid@.len() == GRID_WIDTH * GRID_HEIGHT,
                grid@ == grid_after(self.boxes(), sorted@, on_land@, i as int),
            decreases sorted@.len() - i,
        {
            proof {
                assert(self.bounding_boxes@[i as int].valid());
                assert(sorted@[i as int].fits(self.boxes()[i as int]));
            }
            apply_ring(&mut grid, &self.bounding_boxes[i], &sorted[i], &on_land[i]);
            i += 1;
        }
        self.grid = Some(grid);
    }

    /// What the grid knows of the cell `(x, y)`; a border while the grid
    /// is not built.
    pub fn check_grid(&self, x: i16, y: i16) -> (entry: GridEntry)
        requires
            self.wf(),
            on_grid(x as int, y as int),
        ensures
            entry == match self.grid_view() {
                Some(g) => g[grid_slot(x as int, y as int)],
                None => GridEntry::Border,
            },
    {
        match &self.grid {
            None => GridEntry::Border,
            Some(grid) => grid[(x as i32 + 180) as usize + ((y as i32 + 90) as usize * 360)],
        }
    }

    /// The polygons whose box holds the cell `(x, y)`, in no order that is
    /// stated.
    pub fn check_intersecting_bounding_boxes(&self, x: i16, y: i16) -> (matching_polygons: Vec<usize>)
        requires
            self.wf(),
            -180 <= x <= 180,
            -90 <= y <= 90,
        ensures
            covers(self.boxes(), x as int, y as int, matching_polygons@),
    {
        let query: CellArea = (x + 180i16, y + 90i16, 1, 1);
        let values = cell_tree_query(&self.quadtree, query);
        let ghost items = box_items(self.bounding_boxes@);
        let mut matching_polygons: Vec<usize> = Vec::with_capacity(values.len());
        let mut k: usize = 0;
        while k < values.len()
            invariant
                k <= values@.len(),
                self.wf(),
                items == box_items(self.bounding_boxes@),
                is_query_result(items, query, values@),
                matching_polygons@.len() == k,
                forall|j: int| 0 <= j < k ==> (#[trigger] values@[j]) >= 0 && matching_polygons@[j] == values@[j] as usize,
            decreases values@.len() - k,
        {
            let v: i32 = values[k];
            proof {
                assert(values@.contains(v));
                let i = choose|i: int| 0 <= i < items.len() && areas_meet(query, (#[trigger] items[i]).0) && items[i].1 == v;
                assert(items[i].1 == i as i32);
                assert(0 <= i <= i32::MAX);
                assert(v >= 0);
            }
            let ghost earlier = matching_polygons@;
            matching_polygons.push(v as usize);
            proof {
                assert forall|j: int| 0 <= j < k + 1 implies (#[trigger] values@[j]) >= 0 && matching_polygons@[j]
                    == values@[j] as usize by {
                    if j < k {
                        assert(matching_polygons@[j] == earlier[j]);
                    }
                }
            }
            k += 1;
        }
        proof {
            assert forall|p: usize| matching_polygons@.contains(p) <==> (p < self.boxes().len() && self.boxes()[p as int].holds(
                x as int,
                y as int,
            )) by {
                if matching_polygons@.contains(p) {
                    let j = choose|j: int| 0 <= j < matching_polygons@.len() && matching_polygons@[j] == p;
                    let v = values@[j];
                    assert(values@.contains(v));
                    let m = choose|m: int|
                        0 <= m < items.len() && areas_meet(query, (#[trigger] items[m]).0) && items[m].1 == v;
                    assert(items[m].1 == m as i32);
                    assert(m == p);
                    assert(self.bounding_boxes@[m].valid());
                }
                if p < self.boxes().len() && self.boxes()[p as int].holds(x as int, y as int) {
                    let i = p as int;
                    assert(self.bounding_boxes@[i].valid());
                    assert(areas_meet(query, items[i].0) && items[i].1 == i as i32);
                    assert(values@.contains(i as i32));
                    let j = choose|j: int| 0 <= j < values@.len() && values@[j] == i as i32;
                    assert(matching_polygons@[j] == p);
                }
            }
        }
        matching_polygons
    }

    /// `answer` is what the index knows of a point in the cell `(x, y)`.
    pub open spec fn is_answer(&self, x: int, y: int, answer: CellAnswer) -> bool {
        &&& match self.grid_view() {
            Some(g) => match g[grid_slot(x, y)] {
                GridEntry::Polygon => answer is Land,
                GridEntry::Outside => answer is Water,
                GridEntry::Border => answer is Candidates,
            },
            None => answer is Candidates,
        }
        &&& answer matches CellAnswer::Candidates(list) ==> covers(self.boxes(), x, y, list@)
    }

    /// Asked twice about the same cell, the index answers the same: land,
    /// water, or the same polygons to hold the point against.
    pub proof fn lemma_answers_agree(&self, x: int, y: int, first: CellAnswer, second: CellAnswer)
        requires
            self.is_answer(x, y, first),
            self.is_answer(x, y, second),
        ensures
            first is Land <==> second is Land,
            first is Water <==> second is Water,
            match (first, second) {
                (CellAnswer::Candidates(a), CellAnswer::Candidates(b)) => a@.to_set() == b@.to_set(),
                _ => true,
            },
    {
        match (first, second) {
            (CellAnswer::Candidates(a), CellAnswer::Candidates(b)) => {
                assert(a@.to_set() =~= b@.to_set());
            },
            _ => {},
        }
    }

    /// What the index knows of a point in the cell `(x, y)`: the answer of
    /// the grid where it has one, else the polygons that the point is to be
    /// held against.
    pub fn check_intersection(&self, x: i16, y: i16) -> (answer: CellAnswer)
        requires
            self.wf(),
            on_grid(x as int, y as int),
        ensures
            self.is_answer(x as int, y as int, answer),
    {
        let grid_entry = self.check_grid(x, y);
        if grid_entry == GridEntry::Polygon {
            return CellAnswer::Land;
        }
        if grid_entry == GridEntry::Outside {
            return CellAnswer::Water;
        }
        CellAnswer::Candidates(self.check_intersecting_bounding_boxes(x, y))
    }
}

} // verus!
