use vstd::prelude::*;
use vstd::multiset::Multiset;
use rstar::primitives::{GeomWithData, Rectangle};
use rstar::{RTree, AABB};
use crate::geometry::COORD_LIMIT;

verus! {

/// An entry of the tree: `(min_x, min_y, max_x, max_y, slot)`.
pub type BoxEntry = (i64, i64, i64, i64, usize);

/// An R-tree over axis-aligned boxes, each tagged with a slot number.
#[verifier::external_body]
pub struct BoxTree {
    tree: RTree<GeomWithData<Rectangle<[i64; 2]>, usize>>,
}

/// The boxes held by a tree, with their slots.
pub uninterp spec fn tree_entries(t: BoxTree) -> Multiset<BoxEntry>;

/// Relies on `rstar::RTree::bulk_load`: the tree holds exactly the given objects,
/// and `Rectangle::from_corners` keeps corners that are already ordered.
#[verifier::external_body]
pub(crate) fn load_boxes(boxes: Vec<BoxEntry>) -> (r: BoxTree)
    requires
        forall|k: int| 0 <= k < boxes@.len() ==> boxes@[k].0 <= boxes@[k].2 && boxes@[k].1 <= boxes@[k].3,
    ensures
        tree_entries(r) =~= boxes@.to_multiset(),
{
    let objects = boxes
        .into_iter()
        .map(|(x0, y0, x1, y1, k)| GeomWithData::new(Rectangle::from_corners([x0, y0], [x1, y1]), k))
        .collect();
    BoxTree { tree: RTree::bulk_load(objects) }
}

pub open spec fn entry_in_range(e: BoxEntry) -> bool {
    -COORD_LIMIT <= e.0 && e.2 <= COORD_LIMIT && -COORD_LIMIT <= e.1 && e.3 <= COORD_LIMIT
}

/// The envelope of entry `e` intersects the box `[lx, hx] x [ly, hy]`.
pub open spec fn entry_meets(e: BoxEntry, lx: i64, ly: i64, hx: i64, hy: i64) -> bool {
    e.0 <= hx && e.2 >= lx && e.1 <= hy && e.3 >= ly
}

/// Squared distance from `(x, y)` to the box of `e`.
pub open spec fn box_dist2(x: i64, y: i64, e: BoxEntry) -> int {
    let dx: int = if x < e.0 { e.0 - x } else if x > e.2 { x - e.2 } else { 0 };
    let dy: int = if y < e.1 { e.1 - y } else if y > e.3 { y - e.3 } else { 0 };
    dx * dx + dy * dy
}

/// Relies on `rstar::RTree::locate_in_envelope_intersecting`: it yields each
/// object whose envelope intersects the query envelope, and only those.
#[verifier::external_body]
pub(crate) fn slots_meeting(t: &BoxTree, lx: i64, ly: i64, hx: i64, hy: i64) -> (r: Vec<usize>)
    requires
        lx <= hx,
        ly <= hy,
    ensures
        forall|e: BoxEntry|
            #![trigger tree_entries(*t).count(e)]
            tree_entries(*t).contains(e) && entry_meets(e, lx, ly, hx, hy) ==> r@.contains(e.4),
        forall|k: int|
            #![trigger r@[k]]
            0 <= k < r@.len() ==> exists|e: BoxEntry|
                #![trigger tree_entries(*t).count(e)]
                tree_entries(*t).contains(e) && e.4 == r@[k] && entry_meets(e, lx, ly, hx, hy),
{
    let query = AABB::from_corners([lx, ly], [hx, hy]);
    t.tree.locate_in_envelope_intersecting(query).map(|g| g.data).collect()
}

/// Relies on `rstar::RTree::nearest_neighbor`: `None` only for an empty tree,
/// else an object at the least distance from the query point.
#[verifier::external_body]
pub(crate) fn slot_nearest_box(t: &BoxTree, x: i64, y: i64) -> (r: Option<usize>)
    requires
        -COORD_LIMIT <= x <= COORD_LIMIT,
        -COORD_LIMIT <= y <= COORD_LIMIT,
        forall|e: BoxEntry| #[trigger] tree_entries(*t).count(e) > 0 ==> entry_in_range(e),
    ensures
        r is None <==> tree_entries(*t).len() == 0,
        r matches Some(k) ==> exists|e: BoxEntry|
            #![trigger tree_entries(*t).count(e)]
            tree_entries(*t).contains(e) && e.4 == k && forall|f: BoxEntry|
                #[trigger] tree_entries(*t).count(f) > 0 ==> box_dist2(x, y, e) <= box_dist2(x, y, f),
{
    t.tree.nearest_neighbor([x, y]).map(|g| g.data)
}

} // verus!
