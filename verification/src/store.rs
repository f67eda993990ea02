//! The entity store: the mutable collection of entities the index mirrors.
//!
//! Every id denotes an entity; ids with no record are entities holding
//! nothing. The store's view is a total map from ids to modelled states.
//! `commit` applies a change-set to the store and resets the batch, so that
//! the same batch drives first the index (`update`) and then the store.

use vstd::prelude::*;
use crate::coords::Coord;
use crate::model::{EntityModel, empty_entity, empty_world, world_wf};
use crate::changeset::{
    ChangeSet, mixed_pos, mixed_comp, after_fields, lemma_mixed_pos_zero, lemma_mixed_pos_step,
    lemma_mixed_pos_wf, lemma_mixed_comp_zero, lemma_mixed_comp_step, lemma_apply_decomposition,
    lemma_after_fields_props,
};

verus! {

/// One stored entity: its id, optional position, and one optional value per
/// schema field.
pub struct EntityRec {
    pub id: u64,
    pub pos: Option<Coord>,
    pub comps: Vec<Option<i64>>,
}

/// Each id recorded at most once.
pub open spec fn rec_ids_unique(s: Seq<EntityRec>) -> bool {
    forall|i: int, j: int| 0 <= i < j < s.len() ==> s[i].id != s[j].id
}

/// The modelled state of `id` among the records: its record's state, or the
/// empty state if it has no record.
pub open spec fn lookup_rec(s: Seq<EntityRec>, id: u64, nf: nat) -> EntityModel
    decreases s.len(),
{
    if s.len() == 0 {
        empty_entity(nf)
    } else if s.last().id == id {
        EntityModel { pos: s.last().pos, comps: s.last().comps@ }
    } else {
        lookup_rec(s.drop_last(), id, nf)
    }
}

/// An id with no record models the empty state.
pub proof fn lemma_lookup_absent(s: Seq<EntityRec>, id: u64, nf: nat)
    requires
        forall|j: int| 0 <= j < s.len() ==> (#[trigger] s[j]).id != id,
    ensures
        lookup_rec(s, id, nf) == empty_entity(nf),
    decreases s.len(),
{
    if s.len() > 0 {
        assert(s[s.len() - 1] == s.last());
        lemma_lookup_absent(s.drop_last(), id, nf);
    }
}

/// With unique ids, the modelled state of `id` is its record's state.
pub proof fn lemma_lookup_at(s: Seq<EntityRec>, id: u64, nf: nat, i: int)
    requires
        rec_ids_unique(s),
        0 <= i < s.len(),
        s[i].id == id,
    ensures
        lookup_rec(s, id, nf) == (EntityModel { pos: s[i].pos, comps: s[i].comps@ }),
    decreases s.len(),
{
    if i == s.len() - 1 {
        assert(s.last() == s[i]);
    } else {
        assert(s.last().id != id);
        assert(rec_ids_unique(s.drop_last())) by {
            assert(forall|a: int, b: int|
                0 <= a < b < s.drop_last().len() ==> s.drop_last()[a] == s[a] && s.drop_last()[b]
                    == s[b]);
        }
        assert(s.drop_last()[i] == s[i]);
        lemma_lookup_at(s.drop_last(), id, nf, i);
    }
}

/// The mutable collection of entities.
pub struct EntityStore {
    pub nfields: usize,
    pub recs: Vec<EntityRec>,
}

impl View for EntityStore {
    type V = Map<u64, EntityModel>;

    open spec fn view(&self) -> Map<u64, EntityModel> {
        Map::total(|id: u64| lookup_rec(self.recs@, id, self.nfields as nat))
    }
}

impl EntityStore {
    /// Ids unique, every record with one slot per schema field.
    pub open spec fn wf(self) -> bool {
        &&& rec_ids_unique(self.recs@)
        &&& forall|i: int|
            0 <= i < self.recs@.len() ==> (#[trigger] self.recs@[i]).comps@.len()
                == self.nfields as int
    }

    /// A store in which every entity holds nothing.
    pub fn new(nfields: usize) -> (r: EntityStore)
        ensures
            r.wf(),
            r.nfields == nfields,
            r@ == empty_world(nfields as nat),
            world_wf(r@, nfields as nat),
    {
        let r = EntityStore { nfields, recs: Vec::new() };
        proof {
            assert forall|id: u64| r@[id] == empty_world(nfields as nat)[id] by {
                assert(lookup_rec(r.recs@, id, nfields as nat) == empty_entity(nfields as nat));
            }
            assert(r@ =~= empty_world(nfields as nat));
        }
        r
    }

    pub fn num_fields(&self) -> (n: usize)
        ensures
            n == self.nfields,
    {
        self.nfields
    }

    /// The store's view is a well-formed world.
    pub proof fn lemma_view_wf(&self)
        requires
            self.wf(),
        ensures
            world_wf(self@, self.nfields as nat),
    {
        assert forall|id: u64| (#[trigger] self@[id]).comps.len() == self.nfields as nat by {
            self.lemma_lookup_props(id);
        }
    }

    /// The looked-up state of any id is either the empty state or the state
    /// of one of the records.
    proof fn lemma_lookup_props(&self, id: u64)
        requires
            self.wf(),
        ensures
            self@[id].comps.len() == self.nfields as int,
            self@[id].pos == lookup_rec(self.recs@, id, self.nfields as nat).pos,
    {
        if exists|j: int| 0 <= j < self.recs@.len() && (#[trigger] self.recs@[j]).id == id {
            let j = choose|j: int|
                0 <= j < self.recs@.len() && (#[trigger] self.recs@[j]).id == id;
            lemma_lookup_at(self.recs@, id, self.nfields as nat, j);
        } else {
            assert(forall|j: int| 0 <= j < self.recs@.len() ==> (#[trigger] self.recs@[j]).id != id);
            lemma_lookup_absent(self.recs@, id, self.nfields as nat);
        }
    }

    /// Finds the record index of `id`, if a record exists.
    fn find_rec_index(&self, id: u64) -> (r: Option<usize>)
        ensures
            r matches Some(i) ==> i < self.recs@.len() && self.recs@[i as int].id == id,
            r is None ==> forall|j: int|
                0 <= j < self.recs@.len() ==> (#[trigger] self.recs@[j]).id != id,
    {
        let mut i: usize = 0;
        while i < self.recs.len()
            invariant
                0 <= i <= self.recs@.len(),
                forall|j: int| 0 <= j < i ==> (#[trigger] self.recs@[j]).id != id,
            decreases self.recs@.len() - i,
        {
            if self.recs[i].id == id {
                return Some(i);
            }
            i += 1;
        }
        None
    }

    /// The current position of entity `id`.
    pub fn get_position(&self, id: u64) -> (r: Option<Coord>)
        requires
            self.wf(),
        ensures
            r == self@[id].pos,
    {
        match self.find_rec_index(id) {
            Some(i) => {
                proof {
                    lemma_lookup_at(self.recs@, id, self.nfields as nat, i as int);
                }
                self.recs[i].pos
            }
            None => {
                proof {
                    lemma_lookup_absent(self.recs@, id, self.nfields as nat);
                }
                None
            }
        }
    }

    /// The current value entity `id` holds for field `f`, if any.
    pub fn get_component(&self, f: usize, id: u64) -> (r: Option<i64>)
        requires
            self.wf(),
            f < self.nfields,
        ensures
            r == self@[id].comps[f as int],
    {
        match self.find_rec_index(id) {
            Some(i) => {
                proof {
                    lemma_lookup_at(self.recs@, id, self.nfields as nat, i as int);
                }
                self.recs[i].comps[f]
            }
            None => {
                proof {
                    lemma_lookup_absent(self.recs@, id, self.nfields as nat);
                }
                None
            }
        }
    }

    /// A copy of all of entity `id`'s component slots.
    pub fn copy_components(&self, id: u64) -> (r: Vec<Option<i64>>)
        requires
            self.wf(),
        ensures
            r@ == self@[id].comps,
    {
        match self.find_rec_index(id) {
            Some(i) => {
                proof {
                    lemma_lookup_at(self.recs@, id, self.nfields as nat, i as int);
                }
                let src = &self.recs[i].comps;
                let mut r: Vec<Option<i64>> = Vec::new();
                let mut j: usize = 0;
                while j < src.len()
                    invariant
                        0 <= j <= src@.len(),
                        r@ =~= src@.take(j as int),
                    decreases src@.len() - j,
                {
                    r.push(src[j]);
                    j += 1;
                }
                assert(src@.take(src@.len() as int) =~= src@);
                r
            }
            None => {
                proof {
                    lemma_lookup_absent(self.recs@, id, self.nfields as nat);
                }
                let mut r: Vec<Option<i64>> = Vec::new();
                let mut j: usize = 0;
                while j < self.nfields
                    invariant
                        0 <= j <= self.nfields,
                        r@.len() == j,
                        forall|g: int| 0 <= g < j ==> r@[g] is None,
                    decreases self.nfields - j,
                {
                    r.push(None);
                    j += 1;
                }
                assert(r@ =~= empty_entity(self.nfields as nat).comps);
                r
            }
        }
    }

    /// Sets or clears entity `id`'s position.
    pub fn set_position(&mut self, id: u64, p: Option<Coord>)
        requires
            old(self).wf(),
        ensures
            final(self).wf(),
            final(self).nfields == old(self).nfields,
            final(self)@ == old(self)@.insert(
                id,
                EntityModel { pos: p, comps: old(self)@[id].comps },
            ),
    {
        let ghost olds = self.recs@;
        let ghost nf = self.nfields as nat;
        let idx = self.find_rec_index(id);
        match idx {
            Some(i) => {
                proof {
                    lemma_lookup_at(olds, id, nf, i as int);
                }
                let r = &mut self.recs[i];
                r.pos = p;
                proof {
                    self.lemma_view_after_update(olds, i as int, id);
                }
            }
            None => {
                proof {
                    lemma_lookup_absent(olds, id, nf);
                }
                let comps = none_slots(self.nfields);
                self.recs.push(EntityRec { id, pos: p, comps });
                proof {
                    assert(self.recs@.drop_last() =~= olds);
                    self.lemma_view_after_push(olds, id);
                }
            }
        }
    }

    /// Sets or clears entity `id`'s slot for field `f`.
    pub fn set_component(&mut self, f: usize, id: u64, op: Option<i64>)
        requires
            old(self).wf(),
            f < old(self).nfields,
        ensures
            final(self).wf(),
            final(self).nfields == old(self).nfields,
            final(self)@ == old(self)@.insert(
                id,
                EntityModel {
                    pos: old(self)@[id].pos,
                    comps: old(self)@[id].comps.update(f as int, op),
                },
            ),
    {
        let ghost olds = self.recs@;
        let ghost nf = self.nfields as nat;
        let idx = self.find_rec_index(id);
        match idx {
            Some(i) => {
                proof {
                    lemma_lookup_at(olds, id, nf, i as int);
                }
                let r = &mut self.recs[i];
                r.comps.set(f, op);
                proof {
                    self.lemma_view_after_update(olds, i as int, id);
                }
            }
            None => {
                proof {
                    lemma_lookup_absent(olds, id, nf);
                }
                let mut comps = none_slots(self.nfields);
                comps.set(f, op);
                self.recs.push(EntityRec { id, pos: None, comps });
                proof {
                    assert(self.recs@.drop_last() =~= olds);
                    assert(self.recs@.last().comps@ =~= empty_entity(nf).comps.update(
                        f as int,
                        op,
                    ));
                    self.lemma_view_after_push(olds, id);
                }
            }
        }
    }

    /// After replacing the record at `i` (same id, same slot count), the view
    /// changes exactly at that id.
    proof fn lemma_view_after_update(&self, olds: Seq<EntityRec>, i: int, id: u64)
        requires
            0 <= i < olds.len(),
            olds[i].id == id,
            rec_ids_unique(olds),
            self.recs@.len() == olds.len(),
            forall|j: int| 0 <= j < olds.len() && j != i ==> self.recs@[j] == olds[j],
            self.recs@[i].id == id,
            forall|j: int| 0 <= j < olds.len() ==> (#[trigger] olds[j]).comps@.len() == self.nfields as int,
            self.recs@[i].comps@.len() == self.nfields as int,
        ensures
            self.wf(),
            self@ == Map::total(|id2: u64| lookup_rec(olds, id2, self.nfields as nat)).insert(
                id,
                EntityModel { pos: self.recs@[i].pos, comps: self.recs@[i].comps@ },
            ),
    {
        let nf = self.nfields as nat;
        let news = self.recs@;
        assert forall|a: int, b: int| 0 <= a < b < news.len() implies (#[trigger] news[a]).id
            != (#[trigger] news[b]).id by {
            if a != i {
                assert(news[a] == olds[a]);
            }
            if b != i {
                assert(news[b] == olds[b]);
            }
        }
        assert forall|j: int|
            0 <= j < news.len() implies (#[trigger] news[j]).comps@.len()
            == self.nfields as int by {
            if j != i {
                assert(news[j] == olds[j]);
            }
        }
        let oldv = Map::total(|id2: u64| lookup_rec(olds, id2, nf));
        let target = oldv.insert(
            id,
            EntityModel { pos: news[i].pos, comps: news[i].comps@ },
        );
        assert forall|id2: u64| self@[id2] == target[id2] by {
            if id2 == id {
                lemma_lookup_at(news, id, nf, i);
            } else {
                if exists|j: int| 0 <= j < olds.len() && (#[trigger] olds[j]).id == id2 {
                    let j = choose|j: int| 0 <= j < olds.len() && (#[trigger] olds[j]).id == id2;
                    assert(j != i);
                    assert(news[j] == olds[j]);
                    lemma_lookup_at(olds, id2, nf, j);
                    lemma_lookup_at(news, id2, nf, j);
                } else {
                    assert(forall|j: int|
                        0 <= j < olds.len() ==> (#[trigger] olds[j]).id != id2);
                    assert forall|j: int|
                        0 <= j < news.len() implies (#[trigger] news[j]).id != id2 by {
                        if j != i {
                            assert(news[j] == olds[j]);
                        }
                    }
                    lemma_lookup_absent(olds, id2, nf);
                    lemma_lookup_absent(news, id2, nf);
                }
            }
        }
        assert(self@ =~= target);
    }

    /// After pushing a fresh record, the view changes exactly at its id.
    proof fn lemma_view_after_push(&self, olds: Seq<EntityRec>, id: u64)
        requires
            rec_ids_unique(olds),
            forall|j: int| 0 <= j < olds.len() ==> (#[trigger] olds[j]).id != id,
            self.recs@.len() == olds.len() + 1,
            self.recs@.drop_last() == olds,
            self.recs@.last().id == id,
            forall|j: int|
                0 <= j < olds.len() ==> (#[trigger] olds[j]).comps@.len() == self.nfields as int,
            self.recs@.last().comps@.len() == self.nfields as int,
        ensures
            self.wf(),
            self@ == Map::total(|id2: u64| lookup_rec(olds, id2, self.nfields as nat)).insert(
                id,
                EntityModel { pos: self.recs@.last().pos, comps: self.recs@.last().comps@ },
            ),
    {
        let nf = self.nfields as nat;
        let news = self.recs@;
        assert(forall|j: int| 0 <= j < olds.len() ==> news[j] == olds[j]);
        assert forall|a: int, b: int| 0 <= a < b < news.len() implies (#[trigger] news[a]).id != (
        #[trigger] news[b]).id by {
            if b == news.len() - 1 {
                assert(news[a] == olds[a]);
            } else {
                assert(news[a] == olds[a]);
                assert(news[b] == olds[b]);
            }
        }
        assert forall|j: int|
            0 <= j < news.len() implies (#[trigger] news[j]).comps@.len()
            == self.nfields as int by {
            if j < news.len() - 1 {
                assert(news[j] == olds[j]);
            } else {
                assert(news[j] == news.last());
            }
        }
        let oldv = Map::total(|id2: u64| lookup_rec(olds, id2, nf));
        let target = oldv.insert(
            id,
            EntityModel { pos: news.last().pos, comps: news.last().comps@ },
        );
        assert forall|id2: u64| self@[id2] == target[id2] by {
            if id2 != id {
                assert(news.last().id != id2);
                assert(lookup_rec(news, id2, nf) == lookup_rec(olds, id2, nf));
            }
        }
        assert(self@ =~= target);
    }

    /// Applies the batch to the store and resets the batch. The store's
    /// state afterwards is exactly the world the batch prescribes.
    pub fn commit(&mut self, action: &mut ChangeSet)
        requires
            old(self).wf(),
            old(action).wf(),
            old(action).nfields == old(self).nfields,
        ensures
            final(self).wf(),
            final(self).nfields == old(self).nfields,
            final(self)@ == old(action).post_world(old(self)@),
            final(action).wf(),
            final(action).is_clear(),
            final(action).nfields == old(action).nfields,
    {
        let ghost w0 = self@;
        let ghost cs = *old(action);
        let ghost nf = self.nfields as nat;
        proof {
            self.lemma_view_wf();
            lemma_mixed_pos_zero(w0, cs.pos_ops@, nf);
        }
        let n = action.pos_len();
        let mut i: usize = 0;
        while i < n
            invariant
                self.wf(),
                self.nfields == old(self).nfields,
                nf == self.nfields as nat,
                *action == cs,
                cs.wf(),
                world_wf(w0, nf),
                n == cs.pos_ops@.len(),
                0 <= i <= n,
                self@ == mixed_pos(w0, cs.pos_ops@, i as int),
            decreases n - i,
        {
            let (id, op) = action.pos_at(i);
            proof {
                lemma_mixed_pos_step(w0, cs.pos_ops@, i as int, nf);
            }
            self.set_position(id, op);
            i += 1;
        }
        let ghost w1 = mixed_pos(w0, cs.pos_ops@, cs.pos_ops@.len() as int);
        proof {
            lemma_mixed_pos_wf(w0, cs.pos_ops@, cs.pos_ops@.len() as int, nf);
        }
        let nfx = action.num_fields();
        let mut f: usize = 0;
        while f < nfx
            invariant
                self.wf(),
                self.nfields == old(self).nfields,
                nf == self.nfields as nat,
                *action == cs,
                cs.wf(),
                cs.nfields == nfx,
                nfx == self.nfields,
                world_wf(w1, nf),
                w1 == mixed_pos(w0, cs.pos_ops@, cs.pos_ops@.len() as int),
                0 <= f <= nfx,
                self@ == after_fields(w1, cs, f as int),
            decreases nfx - f,
        {
            let ghost wbase = after_fields(w1, cs, f as int);
            proof {
                lemma_after_fields_props(w1, cs, f as int);
                lemma_mixed_comp_zero(wbase, f as int, cs.comp_ops@[f as int]@, nf);
            }
            let m = action.comp_len(f);
            let mut j: usize = 0;
            while j < m
                invariant
                    self.wf(),
                    self.nfields == old(self).nfields,
                    nf == self.nfields as nat,
                    *action == cs,
                    cs.wf(),
                    cs.nfields == nfx,
                    nfx == self.nfields,
                    world_wf(wbase, nf),
                    0 <= f < nfx,
                    m == cs.comp_ops@[f as int]@.len(),
                    0 <= j <= m,
                    wbase == after_fields(w1, cs, f as int),
                    self@ == mixed_comp(wbase, f as int, cs.comp_ops@[f as int]@, j as int),
                decreases m - j,
            {
                let (id, op) = action.comp_at(f, j);
                proof {
                    lemma_mixed_comp_step(wbase, f as int, cs.comp_ops@[f as int]@, j as int, nf);
                }
                self.set_component(f, id, op);
                j += 1;
            }
            proof {
                assert(after_fields(w1, cs, f as int + 1) == mixed_comp(
                    wbase,
                    f as int,
                    cs.comp_ops@[f as int]@,
                    cs.comp_ops@[f as int]@.len() as int,
                ));
            }
            f += 1;
        }
        proof {
            lemma_apply_decomposition(w0, cs);
        }
        action.clear();
    }
}

/// A row of empty component slots.
fn none_slots(nfields: usize) -> (r: Vec<Option<i64>>)
    ensures
        r@ =~= empty_entity(nfields as nat).comps,
        r@.len() == nfields,
{
    let mut r: Vec<Option<i64>> = Vec::new();
    let mut j: usize = 0;
    while j < nfields
        invariant
            0 <= j <= nfields,
            r@.len() == j,
            forall|g: int| 0 <= g < j ==> r@[g] is None,
        decreases nfields - j,
    {
        r.push(None);
        j += 1;
    }
    assert(r@ =~= empty_entity(nfields as nat).comps);
    r
}

} // verus!
