//! Authoritative table of placed structures, kept in sync with the spatial
//! index: after every public call the index holds exactly one `(x, y, id)`
//! triple per live structure.

use vstd::prelude::*;
use vstd::multiset::Multiset;
use crate::index::{SpatialIndex, index_entries, in_box};
use crate::structure::{
    Structure, StructureType, POS_LIMIT, damage_radius_of, can_be_powered_of,
    initially_powered_of, initial_amount_of,
};

verus! {

broadcast use vstd::seq_lib::group_to_multiset_ensures;

/// Health a freshly placed structure starts with, in thousandths of a hit
/// point.
pub const STRUCTURE_HEALTH: i64 = 100_000;

/// The index entry a structure stands under.
pub open spec fn triple_of(s: Structure) -> (i64, i64, i64) {
    (s.pos_x, s.pos_y, s.id)
}

/// The index entries of a whole structure table.
pub open spec fn triples(ss: Seq<Structure>) -> Seq<(i64, i64, i64)> {
    ss.map_values(|s: Structure| triple_of(s))
}

/// Whether `s` lies strictly inside the circle around `(cx, cy)` with the
/// given radius: strict `<` on the squared distance, so points exactly on
/// the boundary are excluded.
pub open spec fn within_radius(s: Structure, cx: i64, cy: i64, radius: i64) -> bool {
    (s.pos_x - cx) * (s.pos_x - cx) + (s.pos_y - cy) * (s.pos_y - cy) < radius * radius
}

/// A point strictly inside a circle lies inside the circle's bounding box.
proof fn lemma_dist_in_box(dx: int, dy: int, r: int)
    requires
        r >= 0,
        dx * dx + dy * dy < r * r,
    ensures
        -r < dx < r,
        -r < dy < r,
{
    assert(dx * dx >= 0 && dy * dy >= 0) by (nonlinear_arith);
    assert(dx * dx < r * r ==> -r < dx < r) by (nonlinear_arith)
        requires
            r >= 0,
    ;
    assert(dy * dy < r * r ==> -r < dy < r) by (nonlinear_arith)
        requires
            r >= 0,
    ;
}

/// Structure table plus spatial index.
pub struct StructureRegistry {
    pub structures: Vec<Structure>,
    pub index: SpatialIndex,
}

impl StructureRegistry {
    /// The structure table, in placement order.
    pub open spec fn s(self) -> Seq<Structure> {
        self.structures@
    }

    /// No two structures share an id.
    pub open spec fn ids_unique(self) -> bool {
        forall|i: int, j: int|
            0 <= i < j < self.s().len() ==> #[trigger] self.s()[i].id != #[trigger] self.s()[j].id
    }

    /// Every structure is well formed, ids are unique, and the index holds
    /// exactly the structures' triples.
    pub open spec fn wf(self) -> bool {
        &&& forall|i: int| 0 <= i < self.s().len() ==> (#[trigger] self.s()[i]).wf()
        &&& self.ids_unique()
        &&& index_entries(self.index) == triples(self.s()).to_multiset()
    }

    /// Whether some structure has this id.
    pub open spec fn has_id(self, id: i64) -> bool {
        exists|i: int| 0 <= i < self.s().len() && (#[trigger] self.s()[i]).id == id
    }

    /// The table position of the structure with this id.
    pub open spec fn id_index(self, id: i64) -> int {
        choose|i: int| 0 <= i < self.s().len() && (#[trigger] self.s()[i]).id == id
    }

    /// The structure with this id.
    pub open spec fn structure_of(self, id: i64) -> Structure {
        self.s()[self.id_index(id)]
    }

    /// An empty registry.
    pub fn new() -> (reg: StructureRegistry)
        ensures
            reg.wf(),
            reg.s().len() == 0,
    {
        let reg = StructureRegistry { structures: Vec::new(), index: SpatialIndex::new() };
        proof {
            assert(triples(reg.s()) =~= Seq::<(i64, i64, i64)>::empty());
            assert(triples(reg.s()).to_multiset() =~= Multiset::<(i64, i64, i64)>::empty());
        }
        reg
    }

    /// A registry holding exactly the given structures, bulk-loaded into the
    /// index.
    pub fn bulk_load(items: Vec<Structure>) -> (reg: StructureRegistry)
        requires
            forall|i: int| 0 <= i < items@.len() ==> (#[trigger] items@[i]).wf(),
            forall|i: int, j: int|
                0 <= i < j < items@.len() ==> #[trigger] items@[i].id != #[trigger] items@[j].id,
        ensures
            reg.wf(),
            reg.s() == items@,
    {
        let mut tv: Vec<(i64, i64, i64)> = Vec::new();
        let mut k: usize = 0;
        while k < items.len()
            invariant
                k <= items@.len(),
                tv@.len() == k,
                forall|m: int| 0 <= m < k ==> tv@[m] == triple_of(items@[m]),
            decreases items@.len() - k,
        {
            let s = &items[k];
            tv.push((s.pos_x, s.pos_y, s.id));
            k += 1;
        }
        let index = SpatialIndex::bulk_load(tv);
        proof {
            assert(tv@ =~= triples(items@));
        }
        StructureRegistry { structures: items, index }
    }

    /// How many structures are registered.
    pub fn count(&self) -> (n: usize)
        ensures
            n == self.s().len(),
    {
        self.structures.len()
    }

    /// The structure at table position `i`.
    pub fn get_at(&self, i: usize) -> (s: Structure)
        requires
            i < self.s().len(),
        ensures
            s == self.s()[i as int],
    {
        self.structures[i]
    }

    /// The table position of the structure with this id, if any.
    pub fn find_index(&self, id: i64) -> (r: Option<usize>)
        requires
            self.wf(),
        ensures
            r matches Some(i) ==> i < self.s().len() && self.s()[i as int].id == id
                && self.has_id(id) && i == self.id_index(id),
            r is None ==> !self.has_id(id),
    {
        let mut k: usize = 0;
        while k < self.structures.len()
            invariant
                self.wf(),
                k <= self.s().len(),
                forall|m: int| 0 <= m < k ==> (#[trigger] self.s()[m]).id != id,
            decreases self.s().len() - k,
        {
            if self.structures[k].instance_id() == id {
                proof {
                    assert(self.s()[k as int].id == id);
                    let w = self.id_index(id);
                    if w != k {
                        assert(self.s()[w].id == id);
                    }
                }
                return Some(k);
            }
            k += 1;
        }
        None
    }

    /// Whether a structure with this id is registered.
    pub fn contains_id(&self, id: i64) -> (r: bool)
        requires
            self.wf(),
        ensures
            r == self.has_id(id),
    {
        match self.find_index(id) {
            Some(_) => true,
            None => false,
        }
    }

    /// A copy of the structure with this id.
    pub fn get_copy(&self, id: i64) -> (s: Structure)
        requires
            self.wf(),
            self.has_id(id),
        ensures
            s == self.structure_of(id),
    {
        match self.find_index(id) {
            Some(i) => self.structures[i],
            None => unreached(),
        }
    }

    /// Registers a new structure with the type-determined defaults and
    /// inserts it into both the table and the spatial index.
    pub fn place(&mut self, ty: StructureType, pos_x: i64, pos_y: i64, id: i64)
        requires
            old(self).wf(),
            !old(self).has_id(id),
            -POS_LIMIT <= pos_x <= POS_LIMIT,
            -POS_LIMIT <= pos_y <= POS_LIMIT,
        ensures
            final(self).wf(),
            final(self).s() == old(self).s().push(
                Structure {
                    ty,
                    pos_x,
                    pos_y,
                    id,
                    health: STRUCTURE_HEALTH,
                    powered: initially_powered_of(ty),
                    amount: initial_amount_of(ty),
                },
            ),
    {
        let s = Structure::new(ty, pos_x, pos_y, id, STRUCTURE_HEALTH);
        self.index.insert(pos_x, pos_y, id);
        self.structures.push(s);
        proof {
            let prev = old(self).s();
            assert(triples(self.s()) =~= triples(prev).push(triple_of(s)));
            assert(forall|i: int|
                0 <= i < prev.len() ==> (#[trigger] prev[i]).id != id) by {
            }
        }
    }

    /// Removes the structure with this id from both the table and the
    /// spatial index; reports whether it was present.
    pub fn remove(&mut self, id: i64) -> (removed: bool)
        requires
            old(self).wf(),
        ensures
            final(self).wf(),
            removed == old(self).has_id(id),
            old(self).has_id(id) ==> final(self).s() == old(self).s().remove(
                old(self).id_index(id),
            ),
            !old(self).has_id(id) ==> *final(self) == *old(self),
    {
        match self.find_index(id) {
            Some(i) => {
                let s = self.structures[i];
                proof {
                    let ss = self.s();
                    assert(triples(ss)[i as int] == triple_of(s));
                    assert(triples(ss).contains(triple_of(s)));
                }
                let was_there = self.index.remove(s.pos_x, s.pos_y, s.id);
                self.structures.remove(i);
                proof {
                    let prev = old(self).s();
                    assert(triples(self.s()) =~= triples(prev).remove(i as int));
                    assert(triples(prev).remove(i as int).to_multiset() == triples(
                        prev,
                    ).to_multiset().remove(triples(prev)[i as int]));
                }
                true
            },
            None => false,
        }
    }

    /// Applies blight damage to the structure with this id; only types with
    /// a damage radius may be damaged.
    pub fn deal_damage(&mut self, id: i64, damage: u32)
        requires
            old(self).wf(),
            old(self).has_id(id),
            damage_radius_of(old(self).structure_of(id).ty) is Some,
        ensures
            final(self).wf(),
            final(self).s() == old(self).s().update(
                old(self).id_index(id),
                old(self).structure_of(id).damaged(damage),
            ),
    {
        match self.find_index(id) {
            Some(i) => {
                let mut s = self.structures[i];
                s.deal_damage(damage);
                self.structures[i] = s;
                proof {
                    assert(triples(self.s()) =~= triples(old(self).s()));
                }
            },
            None => unreached(),
        }
    }

    /// Switches the power flag of the structure with this id; only types
    /// that can be powered may be switched.
    pub fn set_powered(&mut self, id: i64, powered: bool)
        requires
            old(self).wf(),
            old(self).has_id(id),
            can_be_powered_of(old(self).structure_of(id).ty),
        ensures
            final(self).wf(),
            final(self).s() == old(self).s().update(
                old(self).id_index(id),
                old(self).structure_of(id).with_powered(powered),
            ),
    {
        match self.find_index(id) {
            Some(i) => {
                let mut s = self.structures[i];
                s.set_powered(powered);
                self.structures[i] = s;
                proof {
                    assert(triples(self.s()) =~= triples(old(self).s()));
                }
            },
            None => unreached(),
        }
    }

    /// Mines up to `amount` from the resource structure with this id,
    /// clamping the remainder at zero, and reports as `mine_amount` does.
    pub fn mine(&mut self, id: i64, amount: i32) -> (mined: i32)
        requires
            old(self).wf(),
            old(self).has_id(id),
            old(self).structure_of(id).amount is Some,
            amount >= 0,
        ensures
            final(self).wf(),
            final(self).s() == old(self).s().update(
                old(self).id_index(id),
                old(self).structure_of(id).mined(amount),
            ),
            mined == old(self).structure_of(id).mine_result(amount),
    {
        match self.find_index(id) {
            Some(i) => {
                let mut s = self.structures[i];
                let mined = s.mine_amount(amount);
                self.structures[i] = s;
                proof {
                    assert(triples(self.s()) =~= triples(old(self).s()));
                }
                mined
            },
            None => unreached(),
        }
    }

    /// Ids of all structures strictly inside the circle around `(cx, cy)`:
    /// a bounding-box query on the index followed by an exact squared
    /// distance check, strict on the boundary.
    pub fn query_radius(&self, cx: i64, cy: i64, radius: i64) -> (r: Vec<i64>)
        requires
            self.wf(),
            -POS_LIMIT <= cx <= POS_LIMIT,
            -POS_LIMIT <= cy <= POS_LIMIT,
            0 <= radius <= POS_LIMIT,
        ensures
            forall|m: int|
                0 <= m < self.s().len() && within_radius(#[trigger] self.s()[m], cx, cy, radius)
                    ==> r@.contains(self.s()[m].id),
            forall|id: i64|
                #[trigger] r@.contains(id) ==> exists|m: int|
                    0 <= m < self.s().len() && (#[trigger] self.s()[m]).id == id && within_radius(
                        self.s()[m],
                        cx,
                        cy,
                        radius,
                    ),
    {
        let cand = self.index.locate_box(cx - radius, cy - radius, cx + radius, cy + radius);
        proof {
            assert forall|m: int| 0 <= m < cand@.len() implies in_box(
                #[trigger] cand@[m],
                cx - radius,
                cy - radius,
                cx + radius,
                cy + radius,
            ) by {
                assert(cand@.contains(cand@[m]));
                assert(cand@.to_multiset().count(cand@[m]) > 0);
            }
        }
        let mut out: Vec<i64> = Vec::new();
        let mut k: usize = 0;
        while k < cand.len()
            invariant
                k <= cand@.len(),
                forall|m: int|
                    0 <= m < k && pass(#[trigger] cand@[m], cx, cy, radius) ==> out@.contains(
                        cand@[m].2,
                    ),
                forall|id: i64|
                    #[trigger] out@.contains(id) ==> exists|m: int|
                        0 <= m < k && pass(#[trigger] cand@[m], cx, cy, radius) && cand@[m].2 == id,
                -POS_LIMIT <= cx <= POS_LIMIT,
                -POS_LIMIT <= cy <= POS_LIMIT,
                0 <= radius <= POS_LIMIT,
                forall|m: int|
                    0 <= m < cand@.len() ==> in_box(
                        #[trigger] cand@[m],
                        cx - radius,
                        cy - radius,
                        cx + radius,
                        cy + radius,
                    ),
            decreases cand@.len() - k,
        {
            let e = cand[k];
            proof {
                assert(cand@.contains(e));
                assert(in_box(e, cx - radius, cy - radius, cx + radius, cy + radius));
            }
            let dx = e.0 - cx;
            let dy = e.1 - cy;
            proof {
                assert(0 <= dx * dx <= 1_000_000_000_000_000_000 && 0 <= dy * dy
                    <= 1_000_000_000_000_000_000 && 0 <= radius * radius
                    <= 1_000_000_000_000_000_000) by (nonlinear_arith)
                    requires
                        -1_000_000_000 <= dx <= 1_000_000_000,
                        -1_000_000_000 <= dy <= 1_000_000_000,
                        0 <= radius <= 1_000_000_000,
                ;
            }
            let ghost out_pre = out@;
            let cond = dx * dx + dy * dy < radius * radius;
            if cond {
                out.push(e.2);
            }
            proof {
                assert forall|m: int|
                    0 <= m < k + 1 && pass(#[trigger] cand@[m], cx, cy, radius) implies out@.contains(
                    cand@[m].2,
                ) by {
                    if m < k {
                        assert(out_pre.contains(cand@[m].2));
                        let n = choose|n: int|
                            0 <= n < out_pre.len() && out_pre[n] == cand@[m].2;
                        assert(out@[n] == cand@[m].2);
                    } else {
                        assert(out@[out@.len() - 1] == e.2);
                    }
                }
                assert forall|id: i64| #[trigger] out@.contains(id) implies exists|m: int|
                    0 <= m < k + 1 && pass(#[trigger] cand@[m], cx, cy, radius) && cand@[m].2
                        == id by {
                    let n = choose|n: int| 0 <= n < out@.len() && out@[n] == id;
                    if n < out_pre.len() {
                        assert(out_pre[n] == id);
                        assert(out_pre.contains(id));
                        let m0 = choose|m: int|
                            0 <= m < k && pass(#[trigger] cand@[m], cx, cy, radius) && cand@[m].2
                                == id;
                        assert(pass(cand@[m0], cx, cy, radius) && cand@[m0].2 == id);
                    } else {
                        assert(id == e.2);
                        assert(pass(cand@[k as int], cx, cy, radius));
                    }
                }
            }
            k += 1;
        }
        proof {
            self.lemma_query_radius_complete(cand@, out@, cx, cy, radius);
        }
        out
    }

    /// After the distance filter over the box candidates, an id is in the
    /// output exactly when a registered structure with that id lies strictly
    /// inside the circle.
    proof fn lemma_query_radius_complete(
        self,
        cand: Seq<(i64, i64, i64)>,
        out: Seq<i64>,
        cx: i64,
        cy: i64,
        radius: i64,
    )
        requires
            self.wf(),
            radius >= 0,
            forall|e: (i64, i64, i64)|
                #[trigger] cand.to_multiset().count(e) == if in_box(
                    e,
                    cx - radius,
                    cy - radius,
                    cx + radius,
                    cy + radius,
                ) {
                    index_entries(self.index).count(e)
                } else {
                    0
                },
            forall|m: int|
                0 <= m < cand.len() && pass(#[trigger] cand[m], cx, cy, radius) ==> out.contains(
                    cand[m].2,
                ),
            forall|id: i64|
                #[trigger] out.contains(id) ==> exists|m: int|
                    0 <= m < cand.len() && pass(#[trigger] cand[m], cx, cy, radius) && cand[m].2
                        == id,
        ensures
            forall|m: int|
                0 <= m < self.s().len() && within_radius(#[trigger] self.s()[m], cx, cy, radius)
                    ==> out.contains(self.s()[m].id),
            forall|id: i64|
                #[trigger] out.contains(id) ==> exists|m: int|
                    0 <= m < self.s().len() && (#[trigger] self.s()[m]).id == id && within_radius(
                        self.s()[m],
                        cx,
                        cy,
                        radius,
                    ),
    {
        let ss = self.s();
        let ts = triples(ss);
        // Every structure inside the circle shows up among the candidates
        // and passes the distance check.
        assert forall|m: int|
            0 <= m < ss.len() && within_radius(#[trigger] ss[m], cx, cy, radius) implies out.contains(
            ss[m].id,
        ) by {
            let e = triple_of(ss[m]);
            assert(ts[m] == e);
            assert(ts.contains(e));
            assert(ts.to_multiset().count(e) > 0);
            lemma_dist_in_box(ss[m].pos_x - cx, ss[m].pos_y - cy, radius as int);
            assert(in_box(e, cx - radius, cy - radius, cx + radius, cy + radius));
            assert(cand.to_multiset().count(e) > 0);
            assert(cand.contains(e));
            let w = choose|w: int| 0 <= w < cand.len() && cand[w] == e;
            assert(pass(cand[w], cx, cy, radius));
        }
        // Every output id belongs to a structure inside the circle.
        assert forall|id: i64| #[trigger] out.contains(id) implies exists|m: int|
            0 <= m < ss.len() && (#[trigger] ss[m]).id == id && within_radius(
                ss[m],
                cx,
                cy,
                radius,
            ) by {
            let m = choose|m: int|
                0 <= m < cand.len() && pass(#[trigger] cand[m], cx, cy, radius) && cand[m].2 == id;
            let e = cand[m];
            assert(cand.to_multiset().count(e) > 0);
            assert(index_entries(self.index).count(e) > 0);
            assert(ts.to_multiset().count(e) > 0);
            assert(ts.contains(e));
            let w = choose|w: int| 0 <= w < ts.len() && ts[w] == e;
            assert(ss[w].id == id && within_radius(ss[w], cx, cy, radius));
        }
    }
}

/// Whether index entry `e` lies strictly inside the circle around
/// `(cx, cy)`.
pub open spec fn pass(e: (i64, i64, i64), cx: i64, cy: i64, radius: i64) -> bool {
    (e.0 - cx) * (e.0 - cx) + (e.1 - cy) * (e.1 - cy) < radius * radius
}


/// What removing table entry `idx` does to membership: exactly that id
/// disappears, every other id keeps its structure.
pub proof fn lemma_remove_membership(a: StructureRegistry, b: StructureRegistry, idx: int)
    requires
        a.wf(),
        0 <= idx < a.s().len(),
        b.s() == a.s().remove(idx),
    ensures
        forall|x: i64| #[trigger] b.has_id(x) <==> (a.has_id(x) && x != a.s()[idx].id),
        forall|x: i64| #[trigger] b.has_id(x) ==> b.structure_of(x) == a.structure_of(x),
        forall|i: int|
            0 <= i < b.s().len() ==> exists|j: int|
                0 <= j < a.s().len() && #[trigger] b.s()[i] == a.s()[j],
{
    let removed_id = a.s()[idx].id;
    assert forall|i: int|
        0 <= i < b.s().len() implies exists|j: int|
            0 <= j < a.s().len() && #[trigger] b.s()[i] == a.s()[j] by {
        if i < idx {
            assert(b.s()[i] == a.s()[i]);
        } else {
            assert(b.s()[i] == a.s()[i + 1]);
        }
    }
    assert forall|x: i64| #[trigger] b.has_id(x) implies (a.has_id(x) && x != removed_id) by {
        let i = choose|i: int| 0 <= i < b.s().len() && (#[trigger] b.s()[i]).id == x;
        if i < idx {
            assert(b.s()[i] == a.s()[i]);
            assert(a.s()[i].id == x);
            if x == removed_id {
                assert(a.s()[i].id == a.s()[idx].id && i != idx);
            }
        } else {
            assert(b.s()[i] == a.s()[i + 1]);
            assert(a.s()[i + 1].id == x);
            if x == removed_id {
                assert(a.s()[i + 1].id == a.s()[idx].id && i + 1 != idx);
            }
        }
    }
    assert forall|x: i64| a.has_id(x) && x != removed_id implies #[trigger] b.has_id(x) by {
        let j = choose|j: int| 0 <= j < a.s().len() && (#[trigger] a.s()[j]).id == x;
        if j < idx {
            assert(b.s()[j] == a.s()[j]);
        } else {
            assert(j != idx);
            assert(b.s()[j - 1] == a.s()[j]);
        }
    }
    assert forall|x: i64| #[trigger] b.has_id(x) implies b.structure_of(x) == a.structure_of(
        x,
    ) by {
        let bi = b.id_index(x);
        assert(0 <= bi < b.s().len() && b.s()[bi].id == x);
        let ai = a.id_index(x);
        assert(0 <= ai < a.s().len() && a.s()[ai].id == x);
        if bi < idx {
            assert(b.s()[bi] == a.s()[bi]);
            assert(a.s()[bi].id == x);
            assert(ai == bi);
        } else {
            assert(b.s()[bi] == a.s()[bi + 1]);
            assert(a.s()[bi + 1].id == x);
            assert(ai == bi + 1);
        }
    }
}

} // verus!
