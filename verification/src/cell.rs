//! One grid cell: per-field aggregates, exact entity membership, and a
//! last-modified stamp.
//!
//! A cell stores one slot per schema field in each of three parallel
//! vectors; for a given field only the vector matching the field's kind is
//! meaningful, the others stay at their empty value. `cell_wf` ties each
//! meaningful slot to the mathematical aggregate over the cell's members.

use vstd::prelude::*;
use crate::coords::Coord;
use crate::model::{
    EntityModel, count_holders, sum_holders, has_comp, cnt_contrib, comp_val, opt_cnt, opt_val,
    lemma_count_bounds, lemma_sum_fits, lemma_usize_fits, lemma_holders_agree,
    lemma_holders_push, lemma_holders_remove, lemma_holders_update, lemma_no_dup_push,
    lemma_no_dup_remove, lemma_push_contains,
};
use crate::schema::FieldKind;

verus! {

/// Per-coordinate aggregate state plus exact entity membership.
pub struct Cell {
    /// For `CountBool` fields: how many members hold the component.
    pub counts: Vec<u64>,
    /// For `SumValue` fields: the sum of the component over members.
    pub amounts: Vec<i128>,
    /// For `AnySet`/`IdSet` fields: the ids of members holding the component.
    pub members: Vec<Vec<u64>>,
    /// The ids of all entities positioned in this cell.
    pub entities: Vec<u64>,
    /// The stamp of the batch that last touched this cell.
    pub last_updated: u64,
}

/// Both cells hold the same aggregates and membership, the stamp aside.
pub open spec fn cell_content_eq(a: Cell, b: Cell) -> bool {
    &&& a.counts@ == b.counts@
    &&& a.amounts@ == b.amounts@
    &&& a.members@.len() == b.members@.len()
    &&& forall|f: int| 0 <= f < a.members@.len() ==> a.members@[f]@ == b.members@[f]@
    &&& a.entities@ == b.entities@
}

/// Both cells hold the same aggregates, membership and stamp.
pub open spec fn cell_eq(a: Cell, b: Cell) -> bool {
    &&& cell_content_eq(a, b)
    &&& a.last_updated == b.last_updated
}

/// The cell has one slot per schema field in every aggregate vector.
pub open spec fn cell_dims(c: Cell, nfields: int) -> bool {
    &&& c.counts@.len() == nfields
    &&& c.amounts@.len() == nfields
    &&& c.members@.len() == nfields
}

/// All aggregates are zero or empty, no members, stamp zero.
pub open spec fn cell_is_empty(c: Cell, nfields: int) -> bool {
    &&& cell_dims(c, nfields)
    &&& forall|f: int| 0 <= f < nfields ==> c.counts@[f] == 0
    &&& forall|f: int| 0 <= f < nfields ==> c.amounts@[f] == 0
    &&& forall|f: int| 0 <= f < nfields ==> (#[trigger] c.members@[f])@.len() == 0
    &&& c.entities@.len() == 0
    &&& c.last_updated == 0
}

/// Field `f`'s slot holds exactly the aggregate that world `w` prescribes
/// for the cell at coordinate `c`.
pub open spec fn cell_field_wf(
    cell: Cell,
    w: Map<u64, EntityModel>,
    c: Coord,
    kinds: Seq<FieldKind>,
    f: int,
) -> bool {
    match kinds[f] {
        FieldKind::CountBool => cell.counts@[f] as int == count_holders(cell.entities@, w, f),
        FieldKind::SumValue => cell.amounts@[f] as int == sum_holders(cell.entities@, w, f),
        FieldKind::AnySet | FieldKind::IdSet => {
            &&& cell.members@[f]@.no_duplicates()
            &&& forall|id: u64|
                #[trigger] cell.members@[f]@.contains(id) <==> (w[id].pos == Some(c) && has_comp(
                    w,
                    id,
                    f,
                ))
        },
    }
}

/// The cell is a faithful materialization, at coordinate `c`, of world `w`:
/// membership is exactly the set of entities positioned at `c`, and every
/// field slot holds the prescribed aggregate over those members.
pub open spec fn cell_wf(cell: Cell, w: Map<u64, EntityModel>, c: Coord, kinds: Seq<FieldKind>) -> bool {
    &&& cell_dims(cell, kinds.len() as int)
    &&& cell.entities@.no_duplicates()
    &&& forall|id: u64| #[trigger] cell.entities@.contains(id) <==> w[id].pos == Some(c)
    &&& forall|f: int| 0 <= f < kinds.len() ==> cell_field_wf(cell, w, c, kinds, f)
}

/// A field slot's well-formedness carries over to another cell value with
/// the same membership and the same slot.
pub proof fn lemma_field_wf_slot_transfer(
    c1: Cell,
    c2: Cell,
    w: Map<u64, EntityModel>,
    c: Coord,
    kinds: Seq<FieldKind>,
    g: int,
)
    requires
        0 <= g < kinds.len(),
        cell_field_wf(c1, w, c, kinds, g),
        c2.entities@ == c1.entities@,
        c2.counts@[g] == c1.counts@[g],
        c2.amounts@[g] == c1.amounts@[g],
        c2.members@[g]@ == c1.members@[g]@,
    ensures
        cell_field_wf(c2, w, c, kinds, g),
{
    match kinds[g] {
        FieldKind::AnySet | FieldKind::IdSet => {
            assert forall|id: u64| #[trigger] c2.members@[g]@.contains(id) <==> (w[id].pos == Some(
                c,
            ) && has_comp(w, id, g)) by {
                assert(c2.members@[g]@.contains(id) == c1.members@[g]@.contains(id));
            }
        }
        _ => {}
    }
}


/// A cell at coordinate `c` stays well-formed when the world changes only
/// at an entity that is positioned at `c` in neither world.
pub proof fn lemma_cell_wf_agree(
    cell: Cell,
    w: Map<u64, EntityModel>,
    w2: Map<u64, EntityModel>,
    c: Coord,
    kinds: Seq<FieldKind>,
    id: u64,
)
    requires
        cell_wf(cell, w, c, kinds),
        forall|id2: u64| id2 != id ==> w2[id2] == w[id2],
        w[id].pos != Some(c),
        w2[id].pos != Some(c),
    ensures
        cell_wf(cell, w2, c, kinds),
{
    assert(!cell.entities@.contains(id));
    assert forall|id2: u64| #[trigger] cell.entities@.contains(id2) <==> w2[id2].pos == Some(
        c,
    ) by {
        if id2 != id {
            assert(cell.entities@.contains(id2) <==> w[id2].pos == Some(c));
        }
    }
    assert forall|f: int| 0 <= f < kinds.len() implies cell_field_wf(cell, w2, c, kinds, f) by {
        assert(cell_field_wf(cell, w, c, kinds, f));
        lemma_holders_agree(cell.entities@, w, w2, f, id);
        match kinds[f] {
            FieldKind::AnySet | FieldKind::IdSet => {
                assert(!cell.members@[f]@.contains(id));
                assert forall|id2: u64| #[trigger] cell.members@[f]@.contains(id2) <==> (
                w2[id2].pos == Some(c) && has_comp(w2, id2, f)) by {
                    if id2 != id {
                        assert(cell.members@[f]@.contains(id2) <==> (w[id2].pos == Some(c)
                            && has_comp(w, id2, f)));
                    }
                }
            }
            _ => {}
        }
    }
}

/// Finds the index of `id` in `v`.
pub(crate) fn find_id(v: &Vec<u64>, id: u64) -> (k: usize)
    requires
        v@.contains(id),
    ensures
        0 <= k < v@.len(),
        v@[k as int] == id,
{
    let mut k: usize = 0;
    loop
        invariant
            v@.contains(id),
            0 <= k <= v@.len(),
            forall|j: int| 0 <= j < k ==> v@[j] != id,
        decreases v@.len() - k,
    {
        if k >= v.len() {
            proof {
                let i = choose|i: int| 0 <= i < v@.len() && v@[i] == id;
                assert(false);
            }
        }
        if v[k] == id {
            return k;
        }
        k += 1;
    }
}

impl Cell {
    /// A freshly constructed cell: every aggregate empty, no members.
    pub fn new_empty(nfields: usize) -> (c: Cell)
        ensures
            cell_is_empty(c, nfields as int),
    {
        let counts: Vec<u64> = vec![0u64; nfields];
        let amounts: Vec<i128> = vec![0i128; nfields];
        let mut members: Vec<Vec<u64>> = Vec::new();
        let mut i: usize = 0;
        while i < nfields
            invariant
                0 <= i <= nfields,
                members@.len() == i,
                forall|f: int| 0 <= f < i ==> (#[trigger] members@[f])@.len() == 0,
            decreases nfields - i,
        {
            members.push(Vec::new());
            i += 1;
        }
        Cell { counts, amounts, members, entities: Vec::new(), last_updated: 0 }
    }

    /// Boolean-presence reading of a `CountBool` field: any member holds it.
    pub fn flag(&self, f: usize) -> (r: bool)
        ensures
            r == (f < self.counts@.len() && self.counts@[f as int] != 0),
    {
        if f < self.counts.len() {
            self.counts[f] != 0
        } else {
            false
        }
    }

    /// The accumulated value of a `SumValue` field.
    pub fn sum_value(&self, f: usize) -> (r: i128)
        ensures
            f < self.amounts@.len() ==> r == self.amounts@[f as int],
            f >= self.amounts@.len() ==> r == 0,
    {
        if f < self.amounts.len() {
            self.amounts[f]
        } else {
            0
        }
    }

    /// Whether any member holds a set-kind field's component.
    pub fn set_nonempty(&self, f: usize) -> (r: bool)
        ensures
            r == (f < self.members@.len() && self.members@[f as int]@.len() != 0),
    {
        if f < self.members.len() {
            self.members[f].len() != 0
        } else {
            false
        }
    }

    /// One member holding an `AnySet` field's component — which one is
    /// unspecified.
    pub fn any_member(&self, f: usize) -> (r: Option<u64>)
        ensures
            (r is Some) == (f < self.members@.len() && self.members@[f as int]@.len() != 0),
            r matches Some(id) ==> self.members@[f as int]@.contains(id),
    {
        if f < self.members.len() && self.members[f].len() > 0 {
            let id = self.members[f][0];
            assert(self.members@[f as int]@.contains(id)) by {
                assert(self.members@[f as int]@[0] == id);
            }
            Some(id)
        } else {
            None
        }
    }

    /// The number of members an `IdSet` field's set holds.
    pub fn set_len(&self, f: usize) -> (r: usize)
        ensures
            f < self.members@.len() ==> r == self.members@[f as int]@.len(),
            f >= self.members@.len() ==> r == 0,
    {
        if f < self.members.len() {
            self.members[f].len()
        } else {
            0
        }
    }

    /// The `i`th member of an `IdSet` field's set.
    pub fn set_member(&self, f: usize, i: usize) -> (r: u64)
        requires
            f < self.members@.len(),
            i < self.members@[f as int]@.len(),
        ensures
            r == self.members@[f as int]@[i as int],
            self.members@[f as int]@.contains(r),
    {
        let r = self.members[f][i];
        assert(self.members@[f as int]@[i as int] == r);
        r
    }

    /// The ids of all entities positioned in this cell.
    pub fn entity_ids(&self) -> (r: &Vec<u64>)
        ensures
            r@ == self.entities@,
    {
        &self.entities
    }

    /// The stamp of the batch that last touched this cell.
    pub fn last_updated(&self) -> (r: u64)
        ensures
            r == self.last_updated,
    {
        self.last_updated
    }

    /// Removes entity `id` — positioned here according to world `w` — from
    /// the membership together with every field contribution it makes. The
    /// cell then materializes the world in which `id` has no position.
    pub(crate) fn remove_entity(
        &mut self,
        Ghost(w): Ghost<Map<u64, EntityModel>>,
        Ghost(c): Ghost<Coord>,
        kinds: &Vec<FieldKind>,
        id: u64,
        comps: &Vec<Option<i64>>,
        stamp: u64,
    )
        requires
            cell_wf(*old(self), w, c, kinds@),
            w[id].pos == Some(c),
            comps@ == w[id].comps,
            w[id].comps.len() == kinds@.len(),
        ensures
            cell_wf(
                *final(self),
                w.insert(id, EntityModel { pos: None, comps: w[id].comps }),
                c,
                kinds@,
            ),
            final(self).last_updated == stamp,
    {
        let ghost w2 = w.insert(id, EntityModel { pos: None, comps: w[id].comps });
        assert(self.entities@.contains(id));
        let ghost s_old = self.entities@;
        let k = find_id(&self.entities, id);
        proof {
            lemma_no_dup_remove(s_old, k as int);
        }
        self.entities.remove(k);
        let el = self.entities.len();
        let ghost s_rem = self.entities@;
        proof {
            lemma_usize_fits(el);
        }
        let nf = kinds.len();
        let mut f: usize = 0;
        while f < nf
            invariant
                nf == kinds@.len(),
                cell_dims(*self, nf as int),
                cell_wf(*old(self), w, c, kinds@),
                w[id].pos == Some(c),
                comps@ == w[id].comps,
                w[id].comps.len() == nf as int,
                w2 == w.insert(id, EntityModel { pos: None, comps: w[id].comps }),
                s_old == old(self).entities@,
                0 <= k < s_old.len(),
                s_old[k as int] == id,
                s_rem == s_old.remove(k as int),
                self.entities@ == s_rem,
                !s_rem.contains(id),
                s_rem.no_duplicates(),
                el == s_rem.len(),
                0 <= f <= nf,
                forall|g: int| f <= g < nf ==> self.counts@[g] == old(self).counts@[g],
                forall|g: int| f <= g < nf ==> self.amounts@[g] == old(self).amounts@[g],
                forall|g: int|
                    f <= g < nf ==> (#[trigger] self.members@[g])@ == old(self).members@[g]@,
                forall|g: int| 0 <= g < f ==> cell_field_wf(*self, w2, c, kinds@, g),
                self.last_updated == old(self).last_updated,
            decreases nf - f,
        {
            let ghost cell_pre = *self;
            proof {
                assert(cell_field_wf(*old(self), w, c, kinds@, f as int));
                lemma_holders_remove(s_old, w, f as int, k as int);
                lemma_holders_agree(s_rem, w, w2, f as int, id);
                lemma_count_bounds(s_rem, w2, f as int);
                lemma_usize_fits(el);
                lemma_sum_fits(s_rem, w2, f as int);
            }
            match kinds[f] {
                FieldKind::CountBool => {
                    if comps[f].is_some() {
                        let n = self.counts[f];
                        proof {
                            assert(cnt_contrib(w, id, f as int) == 1);
                            assert(count_holders(s_rem, w2, f as int) == n as int - 1);
                        }
                        self.counts.set(f, n - 1);
                    }
                    assert(cell_field_wf(*self, w2, c, kinds@, f as int));
                }
                FieldKind::SumValue => {
                    if let Some(x) = comps[f] {
                        let b = self.amounts[f];
                        proof {
                            assert(comp_val(w, id, f as int) == x as int);
                            assert(sum_holders(s_rem, w2, f as int) == b as int - x as int);
                        }
                        self.amounts.set(f, b - (x as i128));
                    }
                    assert(cell_field_wf(*self, w2, c, kinds@, f as int));
                }
                FieldKind::AnySet | FieldKind::IdSet => {
                    let ghost m_old = self.members@[f as int]@;
                    if comps[f].is_some() {
                        assert(m_old.contains(id));
                        let mut mv = copy_ids(&self.members[f]);
                        let j = find_id(&mv, id);
                        proof {
                            lemma_no_dup_remove(m_old, j as int);
                        }
                        mv.remove(j);
                        self.members.set(f, mv);
                        assert forall|id2: u64| #[trigger] self.members@[f as int]@.contains(id2)
                            <==> (w2[id2].pos == Some(c) && has_comp(w2, id2, f as int)) by {
                            if id2 != id {
                                assert(self.members@[f as int]@.contains(id2) <==> m_old.contains(
                                    id2,
                                ));
                                assert(m_old.contains(id2) <==> (w[id2].pos == Some(c) && has_comp(
                                    w,
                                    id2,
                                    f as int,
                                )));
                            }
                        }
                    } else {
                        assert(!m_old.contains(id));
                        assert forall|id2: u64| #[trigger] self.members@[f as int]@.contains(id2)
                            <==> (w2[id2].pos == Some(c) && has_comp(w2, id2, f as int)) by {
                            if id2 != id {
                                assert(m_old.contains(id2) <==> (w[id2].pos == Some(c) && has_comp(
                                    w,
                                    id2,
                                    f as int,
                                )));
                            }
                        }
                    }
                    assert(cell_field_wf(*self, w2, c, kinds@, f as int));
                }
            }
            proof {
                assert forall|g: int| 0 <= g < f as int implies cell_field_wf(
                    *self,
                    w2,
                    c,
                    kinds@,
                    g,
                ) by {
                    lemma_field_wf_slot_transfer(cell_pre, *self, w2, c, kinds@, g);
                }
            }
            f += 1;
        }
        let ghost cell_done = *self;
        self.last_updated = stamp;
        proof {
            assert forall|g: int| 0 <= g < nf as int implies cell_field_wf(
                *self,
                w2,
                c,
                kinds@,
                g,
            ) by {
                lemma_field_wf_slot_transfer(cell_done, *self, w2, c, kinds@, g);
            }
        }
        proof {
            assert forall|id2: u64| #[trigger] self.entities@.contains(id2) <==> w2[id2].pos
                == Some(c) by {
                if id2 != id {
                    assert(s_old.contains(id2) <==> w[id2].pos == Some(c));
                }
            }
        }
    }

    /// Adds entity `id` — unpositioned according to world `w` — to the
    /// membership together with every field contribution it makes. The cell
    /// then materializes the world in which `id` is positioned here.
    pub(crate) fn add_entity(
        &mut self,
        Ghost(w): Ghost<Map<u64, EntityModel>>,
        Ghost(c): Ghost<Coord>,
        kinds: &Vec<FieldKind>,
        id: u64,
        comps: &Vec<Option<i64>>,
        stamp: u64,
    )
        requires
            cell_wf(*old(self), w, c, kinds@),
            w[id].pos == None::<Coord>,
            comps@ == w[id].comps,
            w[id].comps.len() == kinds@.len(),
        ensures
            cell_wf(
                *final(self),
                w.insert(id, EntityModel { pos: Some(c), comps: w[id].comps }),
                c,
                kinds@,
            ),
            final(self).last_updated == stamp,
    {
        let ghost w2 = w.insert(id, EntityModel { pos: Some(c), comps: w[id].comps });
        let ghost s_old = self.entities@;
        assert(!s_old.contains(id));
        proof {
            lemma_no_dup_push(s_old, id);
            lemma_push_contains(s_old, id);
        }
        self.entities.push(id);
        let el = self.entities.len();
        let ghost s_new = self.entities@;
        proof {
            lemma_usize_fits(el);
        }
        let nf = kinds.len();
        let mut f: usize = 0;
        while f < nf
            invariant
                nf == kinds@.len(),
                cell_dims(*self, nf as int),
                cell_wf(*old(self), w, c, kinds@),
                w[id].pos == None::<Coord>,
                comps@ == w[id].comps,
                w[id].comps.len() == nf as int,
                w2 == w.insert(id, EntityModel { pos: Some(c), comps: w[id].comps }),
                s_old == old(self).entities@,
                s_new == s_old.push(id),
                self.entities@ == s_new,
                !s_old.contains(id),
                s_new.no_duplicates(),
                el == s_new.len(),
                0 <= f <= nf,
                forall|g: int| f <= g < nf ==> self.counts@[g] == old(self).counts@[g],
                forall|g: int| f <= g < nf ==> self.amounts@[g] == old(self).amounts@[g],
                forall|g: int|
                    f <= g < nf ==> (#[trigger] self.members@[g])@ == old(self).members@[g]@,
                forall|g: int| 0 <= g < f ==> cell_field_wf(*self, w2, c, kinds@, g),
                self.last_updated == old(self).last_updated,
            decreases nf - f,
        {
            let ghost cell_pre = *self;
            proof {
                assert(cell_field_wf(*old(self), w, c, kinds@, f as int));
                lemma_holders_agree(s_old, w, w2, f as int, id);
                lemma_holders_push(s_old, w2, f as int, id);
                lemma_count_bounds(s_new, w2, f as int);
                lemma_usize_fits(el);
                lemma_sum_fits(s_new, w2, f as int);
            }
            match kinds[f] {
                FieldKind::CountBool => {
                    if comps[f].is_some() {
                        let n = self.counts[f];
                        proof {
                            assert(cnt_contrib(w2, id, f as int) == 1);
                            assert(count_holders(s_new, w2, f as int) == n as int + 1);
                            assert(n as int + 1 <= el as int);
                        }
                        self.counts.set(f, n + 1);
                    }
                    assert(cell_field_wf(*self, w2, c, kinds@, f as int));
                }
                FieldKind::SumValue => {
                    if let Some(x) = comps[f] {
                        let b = self.amounts[f];
                        proof {
                            assert(comp_val(w2, id, f as int) == x as int);
                            assert(sum_holders(s_new, w2, f as int) == b as int + x as int);
                        }
                        self.amounts.set(f, b + (x as i128));
                    }
                    assert(cell_field_wf(*self, w2, c, kinds@, f as int));
                }
                FieldKind::AnySet | FieldKind::IdSet => {
                    let ghost m_old = self.members@[f as int]@;
                    if comps[f].is_some() {
                        assert(!m_old.contains(id));
                        let mut mv = copy_ids(&self.members[f]);
                        proof {
                            lemma_no_dup_push(m_old, id);
                            lemma_push_contains(m_old, id);
                        }
                        mv.push(id);
                        self.members.set(f, mv);
                        assert forall|id2: u64| #[trigger] self.members@[f as int]@.contains(id2)
                            <==> (w2[id2].pos == Some(c) && has_comp(w2, id2, f as int)) by {
                            if id2 != id {
                                assert(m_old.contains(id2) <==> (w[id2].pos == Some(c) && has_comp(
                                    w,
                                    id2,
                                    f as int,
                                )));
                            }
                        }
                    } else {
                        assert(!m_old.contains(id));
                        assert forall|id2: u64| #[trigger] self.members@[f as int]@.contains(id2)
                            <==> (w2[id2].pos == Some(c) && has_comp(w2, id2, f as int)) by {
                            if id2 != id {
                                assert(m_old.contains(id2) <==> (w[id2].pos == Some(c) && has_comp(
                                    w,
                                    id2,
                                    f as int,
                                )));
                            }
                        }
                    }
                    assert(cell_field_wf(*self, w2, c, kinds@, f as int));
                }
            }
            proof {
                assert forall|g: int| 0 <= g < f as int implies cell_field_wf(
                    *self,
                    w2,
                    c,
                    kinds@,
                    g,
                ) by {
                    lemma_field_wf_slot_transfer(cell_pre, *self, w2, c, kinds@, g);
                }
            }
            f += 1;
        }
        let ghost cell_done = *self;
        self.last_updated = stamp;
        proof {
            assert forall|g: int| 0 <= g < nf as int implies cell_field_wf(
                *self,
                w2,
                c,
                kinds@,
                g,
            ) by {
                lemma_field_wf_slot_transfer(cell_done, *self, w2, c, kinds@, g);
            }
        }
        proof {
            assert forall|id2: u64| #[trigger] self.entities@.contains(id2) <==> w2[id2].pos
                == Some(c) by {
                if id2 != id {
                    assert(s_old.contains(id2) <==> w[id2].pos == Some(c));
                }
            }
        }
    }

    /// Applies one field transition for entity `id`, positioned here: its
    /// slot for field `f` goes from `cur` to `op`. The cell then
    /// materializes the world updated accordingly.
    pub(crate) fn apply_comp_op(
        &mut self,
        Ghost(w): Ghost<Map<u64, EntityModel>>,
        Ghost(c): Ghost<Coord>,
        kinds: &Vec<FieldKind>,
        f: usize,
        id: u64,
        cur: Option<i64>,
        op: Option<i64>,
        stamp: u64,
    )
        requires
            cell_wf(*old(self), w, c, kinds@),
            w[id].pos == Some(c),
            w[id].comps[f as int] == cur,
            f < kinds@.len(),
            w[id].comps.len() == kinds@.len(),
        ensures
            cell_wf(
                *final(self),
                w.insert(
                    id,
                    EntityModel { pos: Some(c), comps: w[id].comps.update(f as int, op) },
                ),
                c,
                kinds@,
            ),
            final(self).last_updated == stamp,
    {
        let ghost w2 = w.insert(
            id,
            EntityModel { pos: Some(c), comps: w[id].comps.update(f as int, op) },
        );
        let ghost s = self.entities@;
        assert(s.contains(id));
        let el = self.entities.len();
        proof {
            lemma_usize_fits(el);
            assert(cell_field_wf(*old(self), w, c, kinds@, f as int));
            lemma_holders_update(s, w, w2, f as int, id);
            lemma_count_bounds(s, w2, f as int);
            lemma_count_bounds(s, w, f as int);
            lemma_sum_fits(s, w2, f as int);
            assert(cnt_contrib(w, id, f as int) == opt_cnt(cur));
            assert(cnt_contrib(w2, id, f as int) == opt_cnt(op));
            assert(comp_val(w, id, f as int) == opt_val(cur));
            assert(comp_val(w2, id, f as int) == opt_val(op));
        }
        match kinds[f] {
            FieldKind::CountBool => {
                let n = self.counts[f];
                if cur.is_some() && op.is_none() {
                    proof {
                        assert(count_holders(s, w2, f as int) == n as int - 1);
                    }
                    self.counts.set(f, n - 1);
                } else if cur.is_none() && op.is_some() {
                    proof {
                        assert(count_holders(s, w2, f as int) == n as int + 1);
                        assert(n as int + 1 <= el as int);
                    }
                    self.counts.set(f, n + 1);
                }
                assert(cell_field_wf(*self, w2, c, kinds@, f as int));
            }
            FieldKind::SumValue => {
                let b = self.amounts[f];
                let sub = match cur {
                    Some(x) => x as i128,
                    None => 0,
                };
                let addv = match op {
                    Some(x) => x as i128,
                    None => 0,
                };
                let ghost w_mid = w.insert(
                    id,
                    EntityModel { pos: Some(c), comps: w[id].comps.update(f as int, None) },
                );
                proof {
                    lemma_sum_fits(s, w, f as int);
                    assert(b as int == sum_holders(s, w, f as int));
                    lemma_holders_update(s, w, w_mid, f as int, id);
                    lemma_sum_fits(s, w_mid, f as int);
                    assert(comp_val(w_mid, id, f as int) == 0);
                    assert(sum_holders(s, w_mid, f as int) == b as int - sub as int);
                    assert(sum_holders(s, w2, f as int) == b as int - sub as int + addv as int);
                }
                let t = b - sub;
                self.amounts.set(f, t + addv);
                assert(cell_field_wf(*self, w2, c, kinds@, f as int));
            }
            FieldKind::AnySet | FieldKind::IdSet => {
                let ghost m_old = self.members@[f as int]@;
                if cur.is_some() && op.is_none() {
                    assert(m_old.contains(id));
                    let mut mv = copy_ids(&self.members[f]);
                    let j = find_id(&mv, id);
                    proof {
                        lemma_no_dup_remove(m_old, j as int);
                    }
                    mv.remove(j);
                    self.members.set(f, mv);
                } else if cur.is_none() && op.is_some() {
                    assert(!m_old.contains(id));
                    let mut mv = copy_ids(&self.members[f]);
                    proof {
                        lemma_no_dup_push(m_old, id);
                        lemma_push_contains(m_old, id);
                    }
                    mv.push(id);
                    self.members.set(f, mv);
                }
                assert forall|id2: u64| #[trigger] self.members@[f as int]@.contains(id2) <==> (
                w2[id2].pos == Some(c) && has_comp(w2, id2, f as int)) by {
                    if id2 != id {
                        assert(m_old.contains(id2) <==> (w[id2].pos == Some(c) && has_comp(
                            w,
                            id2,
                            f as int,
                        )));
                    }
                }
                assert(cell_field_wf(*self, w2, c, kinds@, f as int));
            }
        }
        let ghost cell_done = *self;
        self.last_updated = stamp;
        proof {
            lemma_field_wf_slot_transfer(cell_done, *self, w2, c, kinds@, f as int);
            assert forall|g: int|
                0 <= g < kinds@.len() && g != f as int implies cell_field_wf(
                *self,
                w2,
                c,
                kinds@,
                g,
            ) by {
                assert(cell_field_wf(*old(self), w, c, kinds@, g));
                lemma_holders_update(s, w, w2, g, id);
                assert(w2[id].comps[g] == w[id].comps[g]);
                assert(cnt_contrib(w2, id, g) == cnt_contrib(w, id, g));
                assert(comp_val(w2, id, g) == comp_val(w, id, g));
                match kinds@[g] {
                    FieldKind::CountBool => {
                        assert(self.counts@[g] == old(self).counts@[g]);
                    }
                    FieldKind::SumValue => {
                        assert(self.amounts@[g] == old(self).amounts@[g]);
                    }
                    FieldKind::AnySet | FieldKind::IdSet => {
                        let m = self.members@[g]@;
                        assert(m == old(self).members@[g]@);
                        assert forall|id2: u64| #[trigger] m.contains(id2) <==> (w2[id2].pos
                            == Some(c) && has_comp(w2, id2, g)) by {
                            assert(m.contains(id2) <==> (w[id2].pos == Some(c) && has_comp(
                                w,
                                id2,
                                g,
                            )));
                        }
                    }
                }
            }
            assert forall|id2: u64| #[trigger] self.entities@.contains(id2) <==> w2[id2].pos
                == Some(c) by {
                assert(s.contains(id2) <==> w[id2].pos == Some(c));
            }
        }
    }
}

/// Copies a vector of ids.
pub(crate) fn copy_ids(v: &Vec<u64>) -> (r: Vec<u64>)
    ensures
        r@ == v@,
{
    let mut r: Vec<u64> = Vec::new();
    let mut i: usize = 0;
    while i < v.len()
        invariant
            0 <= i <= v@.len(),
            r@ =~= v@.take(i as int),
        decreases v@.len() - i,
    {
        r.push(v[i]);
        i += 1;
    }
    assert(v@.take(v@.len() as int) =~= v@);
    r
}


/// Equal cell contents materialize the same world at the same coordinate.
pub proof fn lemma_cell_eq_wf(
    a: Cell,
    b: Cell,
    w: Map<u64, EntityModel>,
    c: Coord,
    kinds: Seq<FieldKind>,
)
    requires
        cell_eq(a, b),
        cell_wf(a, w, c, kinds),
    ensures
        cell_wf(b, w, c, kinds),
{
    assert forall|id: u64| #[trigger] b.entities@.contains(id) <==> w[id].pos == Some(c) by {
        assert(b.entities@.contains(id) == a.entities@.contains(id));
    }
    assert forall|f: int| 0 <= f < kinds.len() implies cell_field_wf(b, w, c, kinds, f) by {
        assert(cell_field_wf(a, w, c, kinds, f));
        lemma_field_wf_slot_transfer(a, b, w, c, kinds, f);
    }
}

impl Cell {
    /// An exact copy of this cell's contents.
    pub fn duplicate(&self) -> (r: Cell)
        ensures
            cell_eq(r, *self),
    {
        let counts = copy_counts(&self.counts);
        let amounts = copy_amounts(&self.amounts);
        let mut members: Vec<Vec<u64>> = Vec::new();
        let mut i: usize = 0;
        while i < self.members.len()
            invariant
                0 <= i <= self.members@.len(),
                members@.len() == i,
                forall|f: int| 0 <= f < i ==> (#[trigger] members@[f])@ == self.members@[f]@,
            decreases self.members@.len() - i,
        {
            members.push(copy_ids(&self.members[i]));
            i += 1;
        }
        let entities = copy_ids(&self.entities);
        Cell { counts, amounts, members, entities, last_updated: self.last_updated }
    }
}

/// Copies a vector of counters.
fn copy_counts(v: &Vec<u64>) -> (r: Vec<u64>)
    ensures
        r@ == v@,
{
    copy_ids(v)
}

/// Copies a vector of accumulators.
fn copy_amounts(v: &Vec<i128>) -> (r: Vec<i128>)
    ensures
        r@ == v@,
{
    let mut r: Vec<i128> = Vec::new();
    let mut i: usize = 0;
    while i < v.len()
        invariant
            0 <= i <= v@.len(),
            r@ =~= v@.take(i as int),
        decreases v@.len() - i,
    {
        r.push(v[i]);
        i += 1;
    }
    assert(v@.take(v@.len() as int) =~= v@);
    r
}

} // verus!
