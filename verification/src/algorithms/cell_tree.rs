use vstd::prelude::*;

verus! {

/// A box of whole cells: its corner `(x, y)` and its width and height.
pub type CellArea = (i16, i16, i16, i16);

/// An item of a [`CellTree`]: the box it was put in with, and its value.
pub type CellItem = (CellArea, i32);

/// A quadtree over whole cells, of the crate `quadtree_rs`, which keeps
/// values by the boxes they were put in with and finds those whose box
/// meets a box asked for.
#[verifier::external_body]
pub struct CellTree {
    tree: quadtree_rs::Quadtree<i16, i32>,
}

/// What a [`CellTree`] holds: its items, in the order in which they were
/// put in.
pub uninterp spec fn cell_tree_items(tree: CellTree) -> Seq<CellItem>;

/// The length of the sides of the square of cells, with its corner at
/// `(0, 0)`, that a [`CellTree`] was made for.
pub uninterp spec fn cell_tree_side(tree: CellTree) -> int;

/// Two boxes have a cell in common.
pub open spec fn areas_meet(a: CellArea, b: CellArea) -> bool {
    a.0 < b.0 + b.2 && a.0 + a.2 > b.0 && a.1 < b.1 + b.3 && a.1 + a.3 > b.1
}

/// A box that a [`CellTree`] can be asked about: it has a cell, and its
/// far corner can be computed.
pub open spec fn area_ok(a: CellArea) -> bool {
    a.2 >= 1 && a.3 >= 1 && a.0 + a.2 <= i16::MAX && a.1 + a.3 <= i16::MAX
}

/// Number of items among the first `upto` of `items` whose box meets `q`.
pub open spec fn meeting_count(items: Seq<CellItem>, q: CellArea, upto: int) -> int
    decreases upto,
{
    if upto <= 0 {
        0
    } else {
        meeting_count(items, q, upto - 1) + if areas_meet(q, items[upto - 1].0) {
            1int
        } else {
            0int
        }
    }
}

/// `values` holds the value of every item of `items` whose box meets
/// `area`, once for each such item, and nothing else.
pub open spec fn is_query_result(items: Seq<CellItem>, area: CellArea, values: Seq<i32>) -> bool {
    &&& values.len() == meeting_count(items, area, items.len() as int)
    &&& forall|v: i32|
        values.contains(v) <==> exists|i: int|
            0 <= i < items.len() && areas_meet(area, (#[trigger] items[i]).0) && items[i].1 == v
}

/// Two to the power of `depth`.
pub open spec fn side_of(depth: int) -> int
    decreases depth,
{
    if depth <= 0 {
        1
    } else {
        2 * side_of(depth - 1)
    }
}

/// An empty tree for the square of cells with sides of two to the power of
/// `depth`.
///
/// Calls `quadtree_rs::Quadtree::new(depth)`, which makes an empty tree
/// over the square from `(0, 0)` with sides of `2^depth`; the side must fit
/// the type of the coordinates.
#[verifier::external_body]
pub(crate) fn cell_tree_new(depth: usize) -> (tree: CellTree)
    requires
        depth <= 14,
    ensures
        cell_tree_items(tree).len() == 0,
        cell_tree_side(tree) == side_of(depth as int),
{
    CellTree { tree: quadtree_rs::Quadtree::new(depth) }
}

/// Puts `value` into the tree with the box `area`.
///
/// Calls `quadtree_rs::Quadtree::insert` with the area built from `area`.
/// The tree takes the item where the box lies inside its square, and hands
/// a handle back; it leaves the item out and hands nothing back where it
/// does not.
#[verifier::external_body]
pub(crate) fn cell_tree_insert(tree: &mut CellTree, area: CellArea, value: i32) -> (handle: Option<u64>)
    requires
        area_ok(area),
    ensures
        handle is Some <==> (0 <= area.0 && 0 <= area.1 && area.0 + area.2 <= cell_tree_side(*old(tree)) && area.1
            + area.3 <= cell_tree_side(*old(tree))),
        handle is Some ==> cell_tree_items(*final(tree)) == cell_tree_items(*old(tree)).push((area, value)),
        handle is None ==> cell_tree_items(*final(tree)) == cell_tree_items(*old(tree)),
        cell_tree_side(*final(tree)) == cell_tree_side(*old(tree)),
{
    let built = quadtree_rs::area::AreaBuilder::default()
        .anchor(quadtree_rs::point::Point { x: area.0, y: area.1 })
        .dimensions((area.2, area.3))
        .build()
        .unwrap();
    tree.tree.insert(built, value)
}

/// The values of the items whose box meets `area`, each item once, in no
/// order that is stated.
///
/// Calls `quadtree_rs::Quadtree::query` with the area built from `area`,
/// which walks the items whose box overlaps that area, and collects their
/// values.
#[verifier::external_body]
pub(crate) fn cell_tree_query(tree: &CellTree, area: CellArea) -> (values: Vec<i32>)
    requires
        area_ok(area),
    ensures
        is_query_result(cell_tree_items(*tree), area, values@),
{
    let built = quadtree_rs::area::AreaBuilder::default()
        .anchor(quadtree_rs::point::Point { x: area.0, y: area.1 })
        .dimensions((area.2, area.3))
        .build()
        .unwrap();
    tree.tree.query(built).map(|entry| *entry.value_ref()).collect()
}

} // verus!
