//! A change-set: one turn's batch of entity edits, read-only while it is
//! applied.
//!
//! Per entity the batch holds at most one pending position op and, per
//! schema field, at most one pending component op. An op is `Some(value)`
//! for gaining/setting and `None` for removal. The world a batch produces
//! from a pre-state is given by `post_world`; the incremental update engine
//! and the store's `commit` are both verified against it.

use vstd::prelude::*;
use crate::coords::Coord;
use crate::model::{EntityModel, world_wf, world_positions_in_bounds};
use crate::store::EntityStore;

verus! {

/// Each id keyed at most once.
pub open spec fn ops_unique<T>(s: Seq<(u64, T)>) -> bool {
    forall|i: int, j: int| 0 <= i < j < s.len() ==> s[i].0 != s[j].0
}

/// The last-recorded op for `id`, if any. Builders keep ids unique, so at
/// most one op per id exists.
pub open spec fn find_op<T>(s: Seq<(u64, T)>, id: u64) -> Option<T>
    decreases s.len(),
{
    if s.len() == 0 {
        None
    } else if s.last().0 == id {
        Some(s.last().1)
    } else {
        find_op(s.drop_last(), id)
    }
}

/// No entry for `id` means no op is found.
pub proof fn lemma_find_op_absent<T>(s: Seq<(u64, T)>, id: u64)
    requires
        forall|j: int| 0 <= j < s.len() ==> (#[trigger] s[j]).0 != id,
    ensures
        find_op(s, id) is None,
    decreases s.len(),
{
    if s.len() > 0 {
        assert(s[s.len() - 1] == s.last());
        lemma_find_op_absent(s.drop_last(), id);
    }
}

/// With unique ids, the op found for `id` is the one at its entry.
pub proof fn lemma_find_op_at<T>(s: Seq<(u64, T)>, id: u64, i: int)
    requires
        ops_unique(s),
        0 <= i < s.len(),
        s[i].0 == id,
    ensures
        find_op(s, id) == Some(s[i].1),
    decreases s.len(),
{
    if i == s.len() - 1 {
        assert(s.last() == s[i]);
    } else {
        assert(s.last().0 != id);
        assert(ops_unique(s.drop_last())) by {
            assert(forall|a: int, b: int|
                0 <= a < b < s.drop_last().len() ==> s.drop_last()[a] == s[a] && s.drop_last()[b]
                    == s[b]);
        }
        assert(s.drop_last()[i] == s[i]);
        lemma_find_op_at(s.drop_last(), id, i);
    }
}

/// Extending the searched prefix by one entry.
pub proof fn lemma_find_take_step<T>(s: Seq<(u64, T)>, id: u64, n: int)
    requires
        0 <= n < s.len(),
    ensures
        find_op(s.take(n + 1), id) == (if s[n].0 == id {
            Some(s[n].1)
        } else {
            find_op(s.take(n), id)
        }),
{
    assert(s.take(n + 1).drop_last() =~= s.take(n));
    assert(s.take(n + 1).last() == s[n]);
}


/// A found op is the op of some entry.
pub proof fn lemma_find_op_member<T>(s: Seq<(u64, T)>, id: u64)
    requires
        find_op(s, id) is Some,
    ensures
        exists|j: int| 0 <= j < s.len() && s[j] == (id, find_op(s, id)->Some_0),
    decreases s.len(),
{
    if s.len() > 0 {
        if s.last().0 == id {
            assert(s[s.len() - 1] == (id, find_op(s, id)->Some_0));
        } else {
            lemma_find_op_member(s.drop_last(), id);
            let j = choose|j: int|
                0 <= j < s.drop_last().len() && s.drop_last()[j] == (
                    id,
                    find_op(s.drop_last(), id)->Some_0,
                );
            assert(s[j] == (id, find_op(s, id)->Some_0));
        }
    }
}

/// A batch of pending entity edits: one optional position op per entity and
/// one optional component op per entity and field.
pub struct ChangeSet {
    pub nfields: usize,
    pub pos_ops: Vec<(u64, Option<Coord>)>,
    pub comp_ops: Vec<Vec<(u64, Option<i64>)>>,
}

impl ChangeSet {
    /// One op vector per schema field; ids unique in every vector.
    pub open spec fn wf(self) -> bool {
        &&& self.comp_ops@.len() == self.nfields as int
        &&& ops_unique(self.pos_ops@)
        &&& forall|f: int|
            0 <= f < self.comp_ops@.len() ==> ops_unique((#[trigger] self.comp_ops@[f])@)
    }

    /// The pending position op for `id`, if any.
    pub open spec fn spec_pos_op(self, id: u64) -> Option<Option<Coord>> {
        find_op(self.pos_ops@, id)
    }

    /// The pending op for `id` on field `f`, if any.
    pub open spec fn spec_comp_op(self, f: int, id: u64) -> Option<Option<i64>> {
        find_op(self.comp_ops@[f]@, id)
    }

    /// `id`'s position once this batch is applied to world `w`.
    pub open spec fn post_pos(self, w: Map<u64, EntityModel>, id: u64) -> Option<Coord> {
        match self.spec_pos_op(id) {
            Some(p) => p,
            None => w[id].pos,
        }
    }

    /// `id`'s slot for field `f` once this batch is applied to world `w`.
    pub open spec fn post_comp(self, w: Map<u64, EntityModel>, id: u64, f: int) -> Option<i64> {
        match self.spec_comp_op(f, id) {
            Some(o) => o,
            None => w[id].comps[f],
        }
    }

    /// The world this batch produces from pre-state `w`.
    pub open spec fn post_world(self, w: Map<u64, EntityModel>) -> Map<u64, EntityModel> {
        Map::total(
            |id: u64|
                EntityModel {
                    pos: self.post_pos(w, id),
                    comps: Seq::new(self.nfields as nat, |f: int| self.post_comp(w, id, f)),
                },
        )
    }

    /// No pending ops at all.
    pub open spec fn is_clear(self) -> bool {
        &&& self.pos_ops@.len() == 0
        &&& forall|f: int| 0 <= f < self.comp_ops@.len() ==> (#[trigger] self.comp_ops@[f])@.len()
            == 0
    }

    /// Every position this batch assigns lies inside a `width` x `height`
    /// grid.
    pub open spec fn positions_in_bounds(self, width: int, height: int) -> bool {
        forall|j: int|
            0 <= j < self.pos_ops@.len() ==> match (#[trigger] self.pos_ops@[j]).1 {
                Some(c) => 0 <= c.x < width && 0 <= c.y < height,
                None => true,
            }
    }

    /// An empty batch for a schema with `nfields` fields.
    pub fn new(nfields: usize) -> (r: ChangeSet)
        ensures
            r.wf(),
            r.is_clear(),
            r.nfields == nfields,
            forall|wd: int, ht: int| #[trigger] r.positions_in_bounds(wd, ht),
            forall|id: u64| #[trigger] r.spec_pos_op(id) is None,
            forall|f: int, id: u64|
                0 <= f < nfields ==> #[trigger] r.spec_comp_op(f, id) is None,
    {
        let mut comp_ops: Vec<Vec<(u64, Option<i64>)>> = Vec::new();
        let mut i: usize = 0;
        while i < nfields
            invariant
                0 <= i <= nfields,
                comp_ops@.len() == i,
                forall|f: int| 0 <= f < i ==> (#[trigger] comp_ops@[f])@.len() == 0,
            decreases nfields - i,
        {
            comp_ops.push(Vec::new());
            i += 1;
        }
        let r = ChangeSet { nfields, pos_ops: Vec::new(), comp_ops };
        proof {
            assert forall|id: u64| #[trigger] r.spec_pos_op(id) is None by {
                lemma_find_op_absent(r.pos_ops@, id);
            }
            assert forall|f: int, id: u64|
                0 <= f < nfields implies #[trigger] r.spec_comp_op(f, id) is None by {
                lemma_find_op_absent(r.comp_ops@[f]@, id);
            }
        }
        r
    }

    /// Empties the batch (after a commit) so it can be reused.
    pub fn clear(&mut self)
        ensures
            final(self).wf(),
            final(self).is_clear(),
            final(self).nfields == old(self).nfields,
    {
        self.pos_ops.clear();
        let n = self.nfields;
        self.comp_ops.clear();
        let mut i: usize = 0;
        while i < n
            invariant
                0 <= i <= n,
                self.comp_ops@.len() == i,
                self.pos_ops@.len() == 0,
                self.nfields == old(self).nfields,
                n == self.nfields,
                forall|f: int| 0 <= f < i ==> (#[trigger] self.comp_ops@[f])@.len() == 0,
            decreases n - i,
        {
            self.comp_ops.push(Vec::new());
            i += 1;
        }
    }

    pub fn num_fields(&self) -> (n: usize)
        ensures
            n == self.nfields,
    {
        self.nfields
    }

    pub fn pos_len(&self) -> (n: usize)
        ensures
            n == self.pos_ops@.len(),
    {
        self.pos_ops.len()
    }

    pub fn pos_at(&self, i: usize) -> (r: (u64, Option<Coord>))
        requires
            i < self.pos_ops@.len(),
        ensures
            r == self.pos_ops@[i as int],
    {
        self.pos_ops[i]
    }

    pub fn comp_len(&self, f: usize) -> (n: usize)
        requires
            f < self.comp_ops@.len(),
        ensures
            n == self.comp_ops@[f as int]@.len(),
    {
        self.comp_ops[f].len()
    }

    pub fn comp_at(&self, f: usize, i: usize) -> (r: (u64, Option<i64>))
        requires
            f < self.comp_ops@.len(),
            i < self.comp_ops@[f as int]@.len(),
        ensures
            r == self.comp_ops@[f as int]@[i as int],
    {
        self.comp_ops[f][i]
    }

    /// The pending position op recorded for `id`, if any.
    pub fn find_pos_op(&self, id: u64) -> (r: Option<Option<Coord>>)
        ensures
            r == self.spec_pos_op(id),
    {
        find_in_ops(&self.pos_ops, id)
    }

    /// The pending op recorded for `id` on field `f`, if any.
    pub fn find_comp_op(&self, f: usize, id: u64) -> (r: Option<Option<i64>>)
        requires
            f < self.comp_ops@.len(),
        ensures
            r == self.spec_comp_op(f as int, id),
    {
        find_in_ops(&self.comp_ops[f], id)
    }

    /// Atomically exchanges two entities' pending value for field `f`:
    /// each ends up with what the other would have held after this batch.
    /// One side lacking the component degenerates to a plain transfer.
    pub fn swap_component(&mut self, f: usize, store: &EntityStore, a: u64, b: u64)
        requires
            old(self).wf(),
            store.wf(),
            f < old(self).nfields,
            old(self).nfields == store.nfields,
        ensures
            final(self).wf(),
            final(self).nfields == old(self).nfields,
            final(self).pos_ops@ == old(self).pos_ops@,
            final(self).comp_ops@.len() == old(self).comp_ops@.len(),
            forall|g: int|
                0 <= g < old(self).comp_ops@.len() && g != f as int ==> final(self).comp_ops@[g]
                    == old(self).comp_ops@[g],
            final(self).spec_comp_op(f as int, a) == Some(
                old(self).post_comp(store@, b, f as int),
            ),
            final(self).spec_comp_op(f as int, b) == Some(
                old(self).post_comp(store@, a, f as int),
            ),
            forall|id2: u64|
                id2 != a && id2 != b ==> final(self).spec_comp_op(f as int, id2) == old(
                    self,
                ).spec_comp_op(f as int, id2),
    {
        let va = match self.find_comp_op(f, a) {
            Some(op) => op,
            None => store.get_component(f, a),
        };
        let vb = match self.find_comp_op(f, b) {
            Some(op) => op,
            None => store.get_component(f, b),
        };
        let ops = &mut self.comp_ops[f];
        upsert_op(ops, a, vb);
        upsert_op(ops, b, va);
    }

    /// Atomically exchanges two entities' pending position: each ends up
    /// where the other would have stood after this batch.
    pub fn swap_position(&mut self, store: &EntityStore, a: u64, b: u64)
        requires
            old(self).wf(),
            store.wf(),
        ensures
            final(self).wf(),
            final(self).nfields == old(self).nfields,
            final(self).comp_ops@ == old(self).comp_ops@,
            final(self).spec_pos_op(a) == Some(old(self).post_pos(store@, b)),
            final(self).spec_pos_op(b) == Some(old(self).post_pos(store@, a)),
            forall|id2: u64|
                id2 != a && id2 != b ==> final(self).spec_pos_op(id2) == old(self).spec_pos_op(
                    id2,
                ),
            forall|wd: int, ht: int|
                old(self).positions_in_bounds(wd, ht) && world_positions_in_bounds(store@, wd, ht)
                    ==> final(self).positions_in_bounds(wd, ht),
    {
        let ghost olds = self.pos_ops@;
        let pa = match self.find_pos_op(a) {
            Some(op) => op,
            None => store.get_position(a),
        };
        let pb = match self.find_pos_op(b) {
            Some(op) => op,
            None => store.get_position(b),
        };
        proof {
            if old(self).spec_pos_op(a) is Some {
                lemma_find_op_member(olds, a);
            }
            if old(self).spec_pos_op(b) is Some {
                lemma_find_op_member(olds, b);
            }
        }
        upsert_op(&mut self.pos_ops, a, pb);
        let ghost after1 = self.pos_ops@;
        upsert_op(&mut self.pos_ops, b, pa);
        proof {
            assert forall|wd: int, ht: int|
                ChangeSet::pos_seq_in_bounds(olds, wd, ht) && world_positions_in_bounds(
                    store@,
                    wd,
                    ht,
                ) implies ChangeSet::pos_seq_in_bounds(self.pos_ops@, wd, ht) by {
                assert(match pa {
                    Some(cc) => 0 <= cc.x < wd && 0 <= cc.y < ht,
                    None => true,
                }) by {
                    if old(self).spec_pos_op(a) is Some {
                        let j = choose|j: int| 0 <= j < olds.len() && olds[j] == (a, pa);
                    }
                }
                assert(match pb {
                    Some(cc) => 0 <= cc.x < wd && 0 <= cc.y < ht,
                    None => true,
                }) by {
                    if old(self).spec_pos_op(b) is Some {
                        let j = choose|j: int| 0 <= j < olds.len() && olds[j] == (b, pb);
                    }
                }
                assert forall|j: int| 0 <= j < self.pos_ops@.len() implies match (
                #[trigger] self.pos_ops@[j]).1 {
                    Some(cc) => 0 <= cc.x < wd && 0 <= cc.y < ht,
                    None => true,
                } by {
                    if self.pos_ops@[j].1 != pa {
                        let j1 = choose|j1: int|
                            0 <= j1 < after1.len() && after1[j1] == self.pos_ops@[j];
                        if after1[j1].1 != pb {
                            let j2 = choose|j2: int|
                                0 <= j2 < olds.len() && olds[j2] == after1[j1];
                        }
                    }
                }
            }
        }
    }

    /// Records that `id` gains or changes its position to `c`.
    pub fn set_position(&mut self, id: u64, c: Coord)
        requires
            old(self).wf(),
        ensures
            final(self).wf(),
            final(self).nfields == old(self).nfields,
            final(self).comp_ops@ == old(self).comp_ops@,
            final(self).spec_pos_op(id) == Some(Some(c)),
            forall|id2: u64|
                id2 != id ==> final(self).spec_pos_op(id2) == old(self).spec_pos_op(id2),
            forall|wd: int, ht: int|
                old(self).positions_in_bounds(wd, ht) && 0 <= c.x < wd && 0 <= c.y < ht
                    ==> final(self).positions_in_bounds(wd, ht),
    {
        let ghost oldops = self.pos_ops@;
        upsert_op(&mut self.pos_ops, id, Some(c));
        proof {
            assert forall|wd: int, ht: int|
                ChangeSet::pos_seq_in_bounds(oldops, wd, ht) && 0 <= c.x < wd && 0 <= c.y
                    < ht implies ChangeSet::pos_seq_in_bounds(self.pos_ops@, wd, ht) by {
                assert forall|j: int| 0 <= j < self.pos_ops@.len() implies match (
                #[trigger] self.pos_ops@[j]).1 {
                    Some(cc) => 0 <= cc.x < wd && 0 <= cc.y < ht,
                    None => true,
                } by {
                    if self.pos_ops@[j].1 != Some(c) {
                        let j2 = choose|j2: int|
                            0 <= j2 < oldops.len() && oldops[j2] == self.pos_ops@[j];
                    }
                }
            }
        }
    }

    /// `positions_in_bounds` stated over a raw op sequence.
    pub open spec fn pos_seq_in_bounds(s: Seq<(u64, Option<Coord>)>, width: int, height: int) -> bool {
        forall|j: int|
            0 <= j < s.len() ==> match (#[trigger] s[j]).1 {
                Some(c) => 0 <= c.x < width && 0 <= c.y < height,
                None => true,
            }
    }

    /// Records that `id` loses its position.
    pub fn remove_position(&mut self, id: u64)
        requires
            old(self).wf(),
        ensures
            final(self).wf(),
            final(self).nfields == old(self).nfields,
            final(self).comp_ops@ == old(self).comp_ops@,
            final(self).spec_pos_op(id) == Some(None::<Coord>),
            forall|id2: u64|
                id2 != id ==> final(self).spec_pos_op(id2) == old(self).spec_pos_op(id2),
            forall|wd: int, ht: int|
                old(self).positions_in_bounds(wd, ht) ==> final(self).positions_in_bounds(wd, ht),
    {
        let ghost oldops = self.pos_ops@;
        upsert_op(&mut self.pos_ops, id, None);
        proof {
            assert forall|wd: int, ht: int|
                ChangeSet::pos_seq_in_bounds(oldops, wd, ht) implies ChangeSet::pos_seq_in_bounds(
                self.pos_ops@,
                wd,
                ht,
            ) by {
                assert forall|j: int| 0 <= j < self.pos_ops@.len() implies match (
                #[trigger] self.pos_ops@[j]).1 {
                    Some(cc) => 0 <= cc.x < wd && 0 <= cc.y < ht,
                    None => true,
                } by {
                    if self.pos_ops@[j].1 != None::<Coord> {
                        let j2 = choose|j2: int|
                            0 <= j2 < oldops.len() && oldops[j2] == self.pos_ops@[j];
                    }
                }
            }
        }
    }

    /// Records that `id` gains field `f`'s component with value `v` (or
    /// changes its value to `v`).
    pub fn set_component(&mut self, f: usize, id: u64, v: i64)
        requires
            old(self).wf(),
            f < old(self).nfields,
        ensures
            final(self).wf(),
            final(self).nfields == old(self).nfields,
            final(self).pos_ops@ == old(self).pos_ops@,
            final(self).comp_ops@.len() == old(self).comp_ops@.len(),
            forall|g: int|
                0 <= g < old(self).comp_ops@.len() && g != f as int ==> final(self).comp_ops@[g]
                    == old(self).comp_ops@[g],
            final(self).spec_comp_op(f as int, id) == Some(Some(v)),
            forall|id2: u64|
                id2 != id ==> final(self).spec_comp_op(f as int, id2) == old(self).spec_comp_op(
                    f as int,
                    id2,
                ),
    {
        let ops = &mut self.comp_ops[f];
        upsert_op(ops, id, Some(v));
    }

    /// Records that `id` loses field `f`'s component.
    pub fn remove_component(&mut self, f: usize, id: u64)
        requires
            old(self).wf(),
            f < old(self).nfields,
        ensures
            final(self).wf(),
            final(self).nfields == old(self).nfields,
            final(self).pos_ops@ == old(self).pos_ops@,
            final(self).comp_ops@.len() == old(self).comp_ops@.len(),
            forall|g: int|
                0 <= g < old(self).comp_ops@.len() && g != f as int ==> final(self).comp_ops@[g]
                    == old(self).comp_ops@[g],
            final(self).spec_comp_op(f as int, id) == Some(None::<i64>),
            forall|id2: u64|
                id2 != id ==> final(self).spec_comp_op(f as int, id2) == old(self).spec_comp_op(
                    f as int,
                    id2,
                ),
    {
        let ops = &mut self.comp_ops[f];
        upsert_op(ops, id, None);
    }
}

/// Scans an op vector for the entry keyed by `id`.
fn find_in_ops<T: Copy>(v: &Vec<(u64, T)>, id: u64) -> (r: Option<T>)
    ensures
        r == find_op(v@, id),
{
    let mut i: usize = v.len();
    assert(v@.take(v@.len() as int) =~= v@);
    while i > 0
        invariant
            0 <= i <= v@.len(),
            find_op(v@, id) == find_op(v@.take(i as int), id),
        decreases i,
    {
        proof {
            lemma_find_take_step(v@, id, i as int - 1);
        }
        if v[i - 1].0 == id {
            return Some(v[i - 1].1);
        }
        i -= 1;
    }
    assert(v@.take(0) =~= Seq::<(u64, T)>::empty());
    None
}

/// Inserts or overwrites the op keyed by `id`.
fn upsert_op<T: Copy>(v: &mut Vec<(u64, T)>, id: u64, op: T)
    requires
        ops_unique(old(v)@),
    ensures
        ops_unique(final(v)@),
        find_op(final(v)@, id) == Some(op),
        forall|id2: u64| id2 != id ==> find_op(final(v)@, id2) == find_op(old(v)@, id2),
        forall|j: int|
            0 <= j < final(v)@.len() ==> ((#[trigger] final(v)@[j]).1 == op || old(v)@.contains(
                final(v)@[j],
            )),
{
    let ghost olds = v@;
    let idx = find_key_index(v, id);
    match idx {
        Some(i) => {
            v.set(i, (id, op));
            proof {
                let news = v@;
                assert(ops_unique(news)) by {
                    assert(forall|a: int, b: int|
                        0 <= a < b < news.len() ==> (#[trigger] news[a]).0 == olds[a].0 && (
                        #[trigger] news[b]).0 == olds[b].0);
                }
                lemma_find_op_at(news, id, i as int);
                assert forall|id2: u64| id2 != id implies find_op(news, id2) == find_op(
                    olds,
                    id2,
                ) by {
                    if exists|j: int| 0 <= j < olds.len() && (#[trigger] olds[j]).0 == id2 {
                        let j = choose|j: int| 0 <= j < olds.len() && (#[trigger] olds[j]).0 == id2;
                        assert(news[j] == olds[j]);
                        lemma_find_op_at(olds, id2, j);
                        lemma_find_op_at(news, id2, j);
                    } else {
                        assert(forall|j: int| 0 <= j < olds.len() ==> (#[trigger] olds[j]).0 != id2);
                        assert(forall|j: int| 0 <= j < news.len() ==> (#[trigger] news[j]).0 != id2);
                        lemma_find_op_absent(olds, id2);
                        lemma_find_op_absent(news, id2);
                    }
                }
                assert forall|j: int|
                    0 <= j < news.len() implies ((#[trigger] news[j]).1 == op || olds.contains(
                    news[j],
                )) by {
                    if j != i as int {
                        assert(news[j] == olds[j]);
                    }
                }
            }
        }
        None => {
            v.push((id, op));
            proof {
                let news = v@;
                assert(news.last() == (id, op));
                assert(news.drop_last() =~= olds);
                assert(ops_unique(news)) by {
                    assert forall|a: int, b: int| 0 <= a < b < news.len() implies (
                    #[trigger] news[a]).0 != (#[trigger] news[b]).0 by {
                        if b == news.len() - 1 {
                            assert(news[a] == olds[a]);
                            assert(olds[a].0 != id);
                        }
                    }
                }
                assert(find_op(news, id) == Some(op));
                assert forall|id2: u64| id2 != id implies find_op(news, id2) == find_op(
                    olds,
                    id2,
                ) by {
                    assert(news.last().0 != id2);
                }
                assert forall|j: int|
                    0 <= j < news.len() implies ((#[trigger] news[j]).1 == op || olds.contains(
                    news[j],
                )) by {
                    if j < news.len() - 1 {
                        assert(news[j] == olds[j]);
                        assert(olds.contains(olds[j]));
                    }
                }
            }
        }
    }
}

/// Finds the index of the entry keyed by `id`, if one exists.
fn find_key_index<T: Copy>(v: &Vec<(u64, T)>, id: u64) -> (r: Option<usize>)
    ensures
        r matches Some(i) ==> i < v@.len() && v@[i as int].0 == id,
        r is None ==> forall|j: int| 0 <= j < v@.len() ==> (#[trigger] v@[j]).0 != id,
{
    let mut i: usize = 0;
    while i < v.len()
        invariant
            0 <= i <= v@.len(),
            forall|j: int| 0 <= j < i ==> (#[trigger] v@[j]).0 != id,
        decreases v@.len() - i,
    {
        if v[i].0 == id {
            return Some(i);
        }
        i += 1;
    }
    None
}


/// The world mid-way through the position phase: the first `n` position ops
/// applied, everything else still pre-state.
pub open spec fn mixed_pos(
    w: Map<u64, EntityModel>,
    ops: Seq<(u64, Option<Coord>)>,
    n: int,
) -> Map<u64, EntityModel> {
    Map::total(
        |id: u64|
            EntityModel {
                pos: match find_op(ops.take(n), id) {
                    Some(p) => p,
                    None => w[id].pos,
                },
                comps: w[id].comps,
            },
    )
}

/// The world mid-way through field `f`'s phase on base world `w`: the first
/// `n` ops of that field applied.
pub open spec fn mixed_comp(
    w: Map<u64, EntityModel>,
    f: int,
    ops: Seq<(u64, Option<i64>)>,
    n: int,
) -> Map<u64, EntityModel> {
    Map::total(
        |id: u64|
            EntityModel {
                pos: w[id].pos,
                comps: w[id].comps.update(
                    f,
                    match find_op(ops.take(n), id) {
                        Some(o) => o,
                        None => w[id].comps[f],
                    },
                ),
            },
    )
}

/// Before any position op is applied, the mixed world is the pre-state.
pub proof fn lemma_mixed_pos_zero(
    w: Map<u64, EntityModel>,
    ops: Seq<(u64, Option<Coord>)>,
    nf: nat,
)
    requires
        world_wf(w, nf),
    ensures
        mixed_pos(w, ops, 0) == w,
{
    let m = mixed_pos(w, ops, 0);
    assert(ops.take(0) =~= Seq::<(u64, Option<Coord>)>::empty());
    assert forall|id: u64| m[id] == w[id] by {
        assert(find_op(ops.take(0), id) is None);
    }
    assert(m =~= w);
}

/// Applying one more position op inserts that entity's new position.
pub proof fn lemma_mixed_pos_step(
    w: Map<u64, EntityModel>,
    ops: Seq<(u64, Option<Coord>)>,
    n: int,
    nf: nat,
)
    requires
        world_wf(w, nf),
        ops_unique(ops),
        0 <= n < ops.len(),
    ensures
        mixed_pos(w, ops, n)[ops[n].0] == (EntityModel {
            pos: w[ops[n].0].pos,
            comps: w[ops[n].0].comps,
        }),
        mixed_pos(w, ops, n + 1) == mixed_pos(w, ops, n).insert(
            ops[n].0,
            EntityModel { pos: ops[n].1, comps: w[ops[n].0].comps },
        ),
{
    let id0 = ops[n].0;
    let m1 = mixed_pos(w, ops, n);
    let m2 = mixed_pos(w, ops, n + 1);
    assert(forall|j: int| 0 <= j < n ==> (#[trigger] ops.take(n)[j]).0 != id0);
    lemma_find_op_absent(ops.take(n), id0);
    assert forall|id: u64| m2[id] == m1.insert(
        id0,
        EntityModel { pos: ops[n].1, comps: w[id0].comps },
    )[id] by {
        lemma_find_take_step(ops, id, n);
    }
    assert(m2 =~= m1.insert(id0, EntityModel { pos: ops[n].1, comps: w[id0].comps }));
}

/// After the whole position phase, each entity sits at its net position.
pub proof fn lemma_mixed_pos_end(w: Map<u64, EntityModel>, ops: Seq<(u64, Option<Coord>)>)
    ensures
        forall|id: u64| (#[trigger] mixed_pos(w, ops, ops.len() as int)[id]).comps == w[id].comps,
        forall|id: u64|
            (#[trigger] mixed_pos(w, ops, ops.len() as int)[id]).pos == (match find_op(ops, id) {
                Some(p) => p,
                None => w[id].pos,
            }),
{
    assert(ops.take(ops.len() as int) =~= ops);
}

/// The mixed position world is still a well-formed world.
pub proof fn lemma_mixed_pos_wf(
    w: Map<u64, EntityModel>,
    ops: Seq<(u64, Option<Coord>)>,
    n: int,
    nf: nat,
)
    requires
        world_wf(w, nf),
    ensures
        world_wf(mixed_pos(w, ops, n), nf),
{
    assert forall|id: u64| (#[trigger] mixed_pos(w, ops, n)[id]).comps.len() == nf by {
        assert(w[id].comps.len() == nf);
    }
}

/// Before any of field `f`'s ops is applied, the mixed world is the base.
pub proof fn lemma_mixed_comp_zero(
    w: Map<u64, EntityModel>,
    f: int,
    ops: Seq<(u64, Option<i64>)>,
    nf: nat,
)
    requires
        world_wf(w, nf),
        0 <= f < nf,
    ensures
        mixed_comp(w, f, ops, 0) == w,
{
    let m = mixed_comp(w, f, ops, 0);
    assert(ops.take(0) =~= Seq::<(u64, Option<i64>)>::empty());
    assert forall|id: u64| m[id] == w[id] by {
        assert(find_op(ops.take(0), id) is None);
        assert(w[id].comps.update(f, w[id].comps[f]) =~= w[id].comps);
    }
    assert(m =~= w);
}

/// Applying one more of field `f`'s ops updates that entity's slot.
pub proof fn lemma_mixed_comp_step(
    w: Map<u64, EntityModel>,
    f: int,
    ops: Seq<(u64, Option<i64>)>,
    n: int,
    nf: nat,
)
    requires
        world_wf(w, nf),
        0 <= f < nf,
        ops_unique(ops),
        0 <= n < ops.len(),
    ensures
        mixed_comp(w, f, ops, n)[ops[n].0] == w[ops[n].0],
        mixed_comp(w, f, ops, n + 1) == mixed_comp(w, f, ops, n).insert(
            ops[n].0,
            EntityModel { pos: w[ops[n].0].pos, comps: w[ops[n].0].comps.update(f, ops[n].1) },
        ),
{
    let id0 = ops[n].0;
    let m1 = mixed_comp(w, f, ops, n);
    let m2 = mixed_comp(w, f, ops, n + 1);
    assert(forall|j: int| 0 <= j < n ==> (#[trigger] ops.take(n)[j]).0 != id0);
    lemma_find_op_absent(ops.take(n), id0);
    assert(w[id0].comps.update(f, w[id0].comps[f]) =~= w[id0].comps);
    assert(m1[id0] == w[id0]);
    assert forall|id: u64| m2[id] == m1.insert(
        id0,
        EntityModel { pos: w[id0].pos, comps: w[id0].comps.update(f, ops[n].1) },
    )[id] by {
        lemma_find_take_step(ops, id, n);
    }
    assert(m2 =~= m1.insert(
        id0,
        EntityModel { pos: w[id0].pos, comps: w[id0].comps.update(f, ops[n].1) },
    ));
}

/// After all of field `f`'s ops, each entity's slot holds its net value.
pub proof fn lemma_mixed_comp_end(
    w: Map<u64, EntityModel>,
    f: int,
    ops: Seq<(u64, Option<i64>)>,
    nf: nat,
)
    requires
        world_wf(w, nf),
        0 <= f < nf,
    ensures
        forall|id: u64|
            (#[trigger] mixed_comp(w, f, ops, ops.len() as int)[id]).pos == w[id].pos,
        forall|id: u64|
            (#[trigger] mixed_comp(w, f, ops, ops.len() as int)[id]).comps == w[id].comps.update(
                f,
                match find_op(ops, id) {
                    Some(o) => o,
                    None => w[id].comps[f],
                },
            ),
{
    assert(ops.take(ops.len() as int) =~= ops);
}

/// The mixed component world is still a well-formed world.
pub proof fn lemma_mixed_comp_wf(
    w: Map<u64, EntityModel>,
    f: int,
    ops: Seq<(u64, Option<i64>)>,
    n: int,
    nf: nat,
)
    requires
        world_wf(w, nf),
        0 <= f < nf,
    ensures
        world_wf(mixed_comp(w, f, ops, n), nf),
{
    assert forall|id: u64| (#[trigger] mixed_comp(w, f, ops, n)[id]).comps.len() == nf by {
        assert(w[id].comps.len() == nf);
    }
}

/// The world after the position phase and the first `f` field phases.
pub open spec fn after_fields(w1: Map<u64, EntityModel>, cs: ChangeSet, f: int) -> Map<
    u64,
    EntityModel,
>
    decreases f,
{
    if f <= 0 {
        w1
    } else {
        let prev = after_fields(w1, cs, f - 1);
        mixed_comp(prev, f - 1, cs.comp_ops@[f - 1]@, cs.comp_ops@[f - 1]@.len() as int)
    }
}

/// Pointwise characterization of `after_fields`: positions untouched,
/// processed fields at their net value, the rest at the base value.
pub proof fn lemma_after_fields_props(w1: Map<u64, EntityModel>, cs: ChangeSet, f: int)
    requires
        cs.wf(),
        world_wf(w1, cs.nfields as nat),
        0 <= f <= cs.nfields,
    ensures
        world_wf(after_fields(w1, cs, f), cs.nfields as nat),
        forall|id: u64| (#[trigger] after_fields(w1, cs, f)[id]).pos == w1[id].pos,
        forall|id: u64, g: int|
            f <= g < cs.nfields ==> (#[trigger] after_fields(w1, cs, f)[id].comps[g])
                == w1[id].comps[g],
        forall|id: u64, g: int|
            0 <= g < f ==> (#[trigger] after_fields(w1, cs, f)[id].comps[g]) == cs.post_comp(
                w1,
                id,
                g,
            ),
    decreases f,
{
    if f > 0 {
        lemma_after_fields_props(w1, cs, f - 1);
        let prev = after_fields(w1, cs, f - 1);
        let ops = cs.comp_ops@[f - 1]@;
        let cur = after_fields(w1, cs, f);
        lemma_mixed_comp_wf(prev, f - 1, ops, ops.len() as int, cs.nfields as nat);
        lemma_mixed_comp_end(prev, f - 1, ops, cs.nfields as nat);
        assert forall|id: u64, g: int|
            0 <= g < f implies (#[trigger] cur[id].comps[g]) == cs.post_comp(w1, id, g) by {
            assert(cur[id].comps == prev[id].comps.update(
                f - 1,
                match find_op(ops, id) {
                    Some(o) => o,
                    None => prev[id].comps[f - 1],
                },
            ));
            if g < f - 1 {
                assert(cur[id].comps[g] == prev[id].comps[g]);
            } else {
                assert(prev[id].comps[f - 1] == w1[id].comps[f - 1]);
            }
        }
    }
}

/// Applying the position phase and then every field phase yields exactly
/// the batch's post-world.
pub proof fn lemma_apply_decomposition(w: Map<u64, EntityModel>, cs: ChangeSet)
    requires
        cs.wf(),
        world_wf(w, cs.nfields as nat),
    ensures
        after_fields(
            mixed_pos(w, cs.pos_ops@, cs.pos_ops@.len() as int),
            cs,
            cs.nfields as int,
        ) == cs.post_world(w),
{
    let w1 = mixed_pos(w, cs.pos_ops@, cs.pos_ops@.len() as int);
    lemma_mixed_pos_wf(w, cs.pos_ops@, cs.pos_ops@.len() as int, cs.nfields as nat);
    lemma_mixed_pos_end(w, cs.pos_ops@);
    lemma_after_fields_props(w1, cs, cs.nfields as int);
    let lhs = after_fields(w1, cs, cs.nfields as int);
    let rhs = cs.post_world(w);
    assert forall|id: u64| lhs[id] == rhs[id] by {
        assert(lhs[id].pos == w1[id].pos);
        assert(rhs[id].pos == cs.post_pos(w, id));
        assert(lhs[id].comps.len() == cs.nfields as nat);
        assert(rhs[id].comps.len() == cs.nfields as nat);
        assert forall|g: int| 0 <= g < cs.nfields implies lhs[id].comps[g] == rhs[id].comps[g] by {
            assert(lhs[id].comps[g] == cs.post_comp(w1, id, g));
            assert(w1[id].comps == w[id].comps);
            assert(rhs[id].comps[g] == cs.post_comp(w, id, g));
        }
        assert(lhs[id].comps =~= rhs[id].comps);
        assert(lhs[id] =~= rhs[id]);
    }
    assert(lhs =~= rhs);
}

} // verus!
