//! Spatial index of structure positions: an `rstar` R-tree of integer points,
//! each carrying the structure id. The contents are modelled as a multiset of
//! `(x, y, id)` triples, since the tree imposes no traversal order.

use vstd::prelude::*;
use vstd::multiset::Multiset;

verus! {

/// Owns the backing R-tree. Only the trusted wrappers below touch it;
/// everything else sees it through `index_entries`.
#[verifier::external_body]
pub struct SpatialIndex {
    tree: rstar::RTree<rstar::primitives::GeomWithData<[i64; 2], i64>>,
}

/// What the index holds: a multiset of `(x, y, id)` triples.
pub uninterp spec fn index_entries(t: SpatialIndex) -> Multiset<(i64, i64, i64)>;

/// Whether the point of entry `e` lies in the closed box with the given
/// corners.
pub open spec fn in_box(e: (i64, i64, i64), min_x: int, min_y: int, max_x: int, max_y: int) -> bool {
    min_x <= e.0 <= max_x && min_y <= e.1 <= max_y
}

impl SpatialIndex {
    /// Relies on `rstar::RTree::new`: an empty tree.
    #[verifier::external_body]
    pub fn new() -> (t: SpatialIndex)
        ensures
            index_entries(t) == Multiset::<(i64, i64, i64)>::empty(),
    {
        SpatialIndex { tree: rstar::RTree::new() }
    }

    /// Relies on `rstar::RTree::bulk_load`: the tree holds exactly the given
    /// elements.
    #[verifier::external_body]
    pub fn bulk_load(items: Vec<(i64, i64, i64)>) -> (t: SpatialIndex)
        ensures
            index_entries(t) == items@.to_multiset(),
    {
        let elements = items
            .into_iter()
            .map(|(x, y, id)| rstar::primitives::GeomWithData::new([x, y], id))
            .collect();
        SpatialIndex { tree: rstar::RTree::bulk_load(elements) }
    }

    /// Relies on `rstar::RTree::insert`: adds exactly the given element.
    #[verifier::external_body]
    pub fn insert(&mut self, x: i64, y: i64, id: i64)
        ensures
            index_entries(*final(self)) == index_entries(*old(self)).insert((x, y, id)),
    {
        self.tree.insert(rstar::primitives::GeomWithData::new([x, y], id));
    }

    /// Relies on `rstar::RTree::remove`: removes one element equal to the
    /// given one if the tree holds any, and otherwise leaves the tree
    /// unchanged.
    #[verifier::external_body]
    pub fn remove(&mut self, x: i64, y: i64, id: i64) -> (removed: bool)
        ensures
            removed == index_entries(*old(self)).contains((x, y, id)),
            index_entries(*final(self)) == if index_entries(*old(self)).contains((x, y, id)) {
                index_entries(*old(self)).remove((x, y, id))
            } else {
                index_entries(*old(self))
            },
    {
        let item = rstar::primitives::GeomWithData::new([x, y], id);
        self.tree.remove(&item).is_some()
    }

    /// Relies on `rstar::RTree::locate_in_envelope` and
    /// `rstar::AABB::from_corners`: yields exactly the elements whose point
    /// lies in the closed box, each as often as the tree holds it.
    #[verifier::external_body]
    pub fn locate_box(&self, min_x: i64, min_y: i64, max_x: i64, max_y: i64) -> (r: Vec<
        (i64, i64, i64),
    >)
        requires
            min_x <= max_x,
            min_y <= max_y,
        ensures
            forall|e: (i64, i64, i64)|
                #[trigger] r@.to_multiset().count(e) == if in_box(e, min_x as int, min_y as int, max_x as int, max_y as int) {
                    index_entries(*self).count(e)
                } else {
                    0
                },
    {
        let aabb = rstar::AABB::from_corners([min_x, min_y], [max_x, max_y]);
        self.tree
            .locate_in_envelope(aabb)
            .map(|item| (item.geom()[0], item.geom()[1], item.data))
            .collect()
    }
}

} // verus!
