//! The spatial hash table: a grid of cells kept consistent with the entity
//! store by incremental updates.
//!
//! `update` consumes one change-set together with the pre-batch store and
//! applies exactly the diff the batch implies: first every position change
//! (a move is a full removal from the old cell followed by a full insertion
//! into the new one), then each schema field's component changes, attributed
//! to each entity's final position for the batch. Its contract is the
//! central invariant of the whole crate: a table consistent with the store
//! before the batch is consistent with the store after it.

use vstd::prelude::*;
use crate::coords::Coord;
use crate::schema::Schema;
use crate::cell::{
    Cell, cell_wf, cell_is_empty, cell_dims, cell_content_eq, lemma_cell_wf_agree, cell_field_wf,
};
use crate::model::{
    EntityModel, world_wf, world_positions_in_bounds, empty_world, count_holders, sum_holders,
    has_comp,
};
use crate::store::EntityStore;
use crate::changeset::{
    ChangeSet, mixed_pos, mixed_comp, after_fields, lemma_mixed_pos_zero, lemma_mixed_pos_step,
    lemma_mixed_pos_wf, lemma_mixed_pos_end, lemma_mixed_comp_zero, lemma_mixed_comp_step,
    lemma_apply_decomposition, lemma_after_fields_props,
};

verus! {

/// Row-major grid indexing is injective and stays inside the grid.
pub proof fn lemma_grid_index(width: int, height: int, c: Coord, d: Coord)
    requires
        0 <= c.x < width,
        0 <= c.y < height,
        0 <= d.x < width,
        0 <= d.y < height,
    ensures
        0 <= c.y * width + c.x < width * height,
        (c.y * width + c.x == d.y * width + d.x) ==> c == d,
{
    assert(0 <= c.y * width + c.x < width * height) by (nonlinear_arith)
        requires
            0 <= c.x < width,
            0 <= c.y < height,
    ;
    if c.y * width + c.x == d.y * width + d.x {
        assert(c.x == d.x && c.y == d.y) by (nonlinear_arith)
            requires
                0 <= c.x < width,
                0 <= c.y < height,
                0 <= d.x < width,
                0 <= d.y < height,
                c.y * width + c.x == d.y * width + d.x,
        ;
    }
}

/// The grid-indexed materialized view over the entity store.
pub struct SpatialHashTable {
    pub schema: Schema,
    pub width: usize,
    pub height: usize,
    pub cells: Vec<Cell>,
    /// The shared read-only cell returned for out-of-bounds reads.
    pub empty: Cell,
}

impl SpatialHashTable {
    pub open spec fn spec_num_fields(self) -> int {
        self.schema.kinds@.len() as int
    }

    /// Whether `c` addresses a cell of this grid.
    pub open spec fn spec_in_bounds(self, c: Coord) -> bool {
        0 <= c.x < self.width && 0 <= c.y < self.height
    }

    /// The row-major cell index of an in-bounds coordinate.
    pub open spec fn cell_index(self, c: Coord) -> int {
        c.y * self.width + c.x
    }

    /// Structural well-formedness: a valid schema, one cell per coordinate,
    /// and a pristine sentinel cell.
    pub open spec fn base_wf(self) -> bool {
        &&& self.schema.wf()
        &&& self.cells@.len() == self.width * self.height
        &&& self.width <= i32::MAX
        &&& self.height <= i32::MAX
        &&& cell_is_empty(self.empty, self.spec_num_fields())
        &&& forall|i: int|
            0 <= i < self.cells@.len() ==> cell_dims(
                #[trigger] self.cells@[i],
                self.spec_num_fields(),
            )
    }

    /// The central invariant: the table is a faithful materialization of
    /// world `w`. Every in-bounds cell holds exactly the membership and the
    /// per-field aggregates that `w` prescribes for its coordinate.
    pub open spec fn wf_with(self, w: Map<u64, EntityModel>) -> bool {
        &&& self.base_wf()
        &&& world_wf(w, self.spec_num_fields() as nat)
        &&& world_positions_in_bounds(w, self.width as int, self.height as int)
        &&& forall|c: Coord|
            self.spec_in_bounds(c) ==> cell_wf(
                #[trigger] self.cells@[self.cell_index(c)],
                w,
                c,
                self.schema.kinds@,
            )
    }

    /// A fresh table: every cell empty, consistent with the world in which
    /// no entity holds anything.
    pub fn new(schema: Schema, width: usize, height: usize) -> (r: SpatialHashTable)
        requires
            schema.wf(),
            width <= i32::MAX,
            height <= i32::MAX,
            width * height <= usize::MAX,
        ensures
            r.wf_with(empty_world(schema.kinds@.len() as nat)),
            r.schema == schema,
            r.width == width,
            r.height == height,
            r.spec_num_fields() == schema.kinds@.len() as int,
            forall|i: int| 0 <= i < r.cells@.len() ==> (#[trigger] r.cells@[i]).last_updated == 0,
    {
        let nf = schema.num_fields();
        let total = width * height;
        let mut cells: Vec<Cell> = Vec::new();
        let mut i: usize = 0;
        while i < total
            invariant
                0 <= i <= total,
                cells@.len() == i,
                forall|k: int|
                    0 <= k < i ==> cell_is_empty(#[trigger] cells@[k], nf as int),
                nf == schema.kinds@.len(),
            decreases total - i,
        {
            cells.push(Cell::new_empty(nf));
            i += 1;
        }
        let r = SpatialHashTable { schema, width, height, cells, empty: Cell::new_empty(nf) };
        proof {
            let w = empty_world(r.spec_num_fields() as nat);
            assert forall|c: Coord|
                r.spec_in_bounds(c) implies cell_wf(
                #[trigger] r.cells@[r.cell_index(c)],
                w,
                c,
                r.schema.kinds@,
            ) by {
                lemma_grid_index(r.width as int, r.height as int, c, c);
                lemma_empty_cell_wf(r.cells@[r.cell_index(c)], w, c, r.schema.kinds@);
            }
        }
        r
    }

    pub fn num_fields(&self) -> (n: usize)
        ensures
            n == self.spec_num_fields(),
    {
        self.schema.num_fields()
    }

    pub fn width(&self) -> (w: usize)
        ensures
            w == self.width,
    {
        self.width
    }

    pub fn height(&self) -> (h: usize)
        ensures
            h == self.height,
    {
        self.height
    }

    /// Whether `c` addresses a cell of this grid.
    pub fn is_valid_coord(&self, c: Coord) -> (r: bool)
        ensures
            r == self.spec_in_bounds(c),
    {
        c.x >= 0 && c.y >= 0 && (c.x as usize) < self.width && (c.y as usize) < self.height
    }

    /// The smallest in-bounds coordinate.
    pub fn limits_min(&self) -> (r: Coord)
        ensures
            r == (Coord { x: 0, y: 0 }),
    {
        Coord { x: 0, y: 0 }
    }

    /// The largest in-bounds coordinate.
    pub fn limits_max(&self) -> (r: Coord)
        requires
            self.base_wf(),
            self.width >= 1,
            self.height >= 1,
        ensures
            r.x as int == self.width - 1,
            r.y as int == self.height - 1,
    {
        Coord { x: (self.width - 1) as i32, y: (self.height - 1) as i32 }
    }

    /// The row-major cell index of an in-bounds coordinate.
    fn index_of(&self, c: Coord) -> (i: usize)
        requires
            self.base_wf(),
            self.spec_in_bounds(c),
        ensures
            i as int == self.cell_index(c),
            i < self.cells@.len(),
    {
        proof {
            lemma_grid_index(self.width as int, self.height as int, c, c);
        }
        let l = self.cells.len();
        let i = (c.y as usize) * self.width + (c.x as usize);
        assert(i < l);
        i
    }

    /// The cell at `c`, or the shared empty cell for out-of-bounds reads.
    /// Never fails and never mutates.
    pub fn get(&self, c: Coord) -> (r: &Cell)
        requires
            self.base_wf(),
        ensures
            self.spec_in_bounds(c) ==> r == &self.cells@[self.cell_index(c)],
            !self.spec_in_bounds(c) ==> r == &self.empty,
    {
        if self.is_valid_coord(c) {
            let i = self.index_of(c);
            &self.cells[i]
        } else {
            &self.empty
        }
    }

    /// The full row-major grid, for whole-grid iteration.
    pub fn cells(&self) -> (r: &Vec<Cell>)
        ensures
            r@ == self.cells@,
    {
        &self.cells
    }

    /// Resets every cell and membership to the default; the table is then
    /// consistent with a store in which no entity holds anything.
    pub fn clear(&mut self)
        requires
            old(self).base_wf(),
        ensures
            final(self).wf_with(empty_world(old(self).spec_num_fields() as nat)),
            final(self).schema == old(self).schema,
            final(self).width == old(self).width,
            final(self).height == old(self).height,
            final(self).empty == old(self).empty,
            forall|i: int|
                0 <= i < final(self).cells@.len() ==> (#[trigger] final(self).cells@[i]).last_updated
                    == 0,
    {
        let nf = self.schema.num_fields();
        let total = self.cells.len();
        let mut cells: Vec<Cell> = Vec::new();
        let mut i: usize = 0;
        while i < total
            invariant
                0 <= i <= total,
                cells@.len() == i,
                forall|k: int| 0 <= k < i ==> cell_is_empty(#[trigger] cells@[k], nf as int),
                nf == old(self).schema.kinds@.len(),
                self == old(self),
            decreases total - i,
        {
            cells.push(Cell::new_empty(nf));
            i += 1;
        }
        self.cells = cells;
        proof {
            let w = empty_world(self.spec_num_fields() as nat);
            assert forall|c: Coord|
                self.spec_in_bounds(c) implies cell_wf(
                #[trigger] self.cells@[self.cell_index(c)],
                w,
                c,
                self.schema.kinds@,
            ) by {
                lemma_grid_index(self.width as int, self.height as int, c, c);
                lemma_empty_cell_wf(self.cells@[self.cell_index(c)], w, c, self.schema.kinds@);
            }
        }
    }
}


impl SpatialHashTable {
    /// Removes entity `id` and its contributions from the cell at `c`, its
    /// position in world `w`. Only that cell changes, and it gets stamped.
    fn remove_entity_cell(
        &mut self,
        Ghost(w): Ghost<Map<u64, EntityModel>>,
        id: u64,
        comps: &Vec<Option<i64>>,
        c: Coord,
        stamp: u64,
    )
        requires
            old(self).wf_with(w),
            w[id].pos == Some(c),
            comps@ == w[id].comps,
        ensures
            final(self).wf_with(w.insert(id, EntityModel { pos: None, comps: w[id].comps })),
            final(self).schema == old(self).schema,
            final(self).width == old(self).width,
            final(self).height == old(self).height,
            final(self).empty == old(self).empty,
            final(self).cells@.len() == old(self).cells@.len(),
            forall|k: int|
                0 <= k < old(self).cells@.len() && k != old(self).cell_index(c) ==> final(self).cells@[k] == old(self).cells@[k],
            final(self).cells@[old(self).cell_index(c)].last_updated == stamp,
    {
        let ghost w2 = w.insert(id, EntityModel { pos: None, comps: w[id].comps });
        let ghost nfn = self.spec_num_fields() as nat;
        proof {
            assert(self.spec_in_bounds(c)) by {
                assert(w[id].pos == Some(c));
            }
        }
        let i = self.index_of(c);
        proof {
            assert(cell_wf(self.cells@[self.cell_index(c)], w, c, self.schema.kinds@));
            assert(w[id].comps.len() == self.schema.kinds@.len());
        }
        let cellref = &mut self.cells[i];
        cellref.remove_entity(Ghost(w), Ghost(c), &self.schema.kinds, id, comps, stamp);
        proof {
            assert forall|c2: Coord|
                self.spec_in_bounds(c2) && c2 != c implies cell_wf(
                #[trigger] self.cells@[self.cell_index(c2)],
                w,
                c2,
                self.schema.kinds@,
            ) by {
                lemma_grid_index(self.width as int, self.height as int, c2, c);
                assert(cell_wf(
                    old(self).cells@[old(self).cell_index(c2)],
                    w,
                    c2,
                    old(self).schema.kinds@,
                ));
            }
            assert forall|k: int|
                0 <= k < self.cells@.len() implies cell_dims(
                #[trigger] self.cells@[k],
                self.spec_num_fields(),
            ) by {
                if k != i as int {
                    assert(self.cells@[k] == old(self).cells@[k]);
                    assert(cell_dims(old(self).cells@[k], old(self).spec_num_fields()));
                }
            }
            self.lemma_one_cell_changed(w, w2, c, i as int, id);
        }
    }

    /// Adds entity `id` — unpositioned in world `w` — with its contributions
    /// to the in-bounds cell at `c`. Only that cell changes; it gets stamped.
    fn add_entity_cell(
        &mut self,
        Ghost(w): Ghost<Map<u64, EntityModel>>,
        id: u64,
        comps: &Vec<Option<i64>>,
        c: Coord,
        stamp: u64,
    )
        requires
            old(self).wf_with(w),
            w[id].pos is None,
            old(self).spec_in_bounds(c),
            comps@ == w[id].comps,
        ensures
            final(self).wf_with(w.insert(id, EntityModel { pos: Some(c), comps: w[id].comps })),
            final(self).schema == old(self).schema,
            final(self).width == old(self).width,
            final(self).height == old(self).height,
            final(self).empty == old(self).empty,
            final(self).cells@.len() == old(self).cells@.len(),
            forall|k: int|
                0 <= k < old(self).cells@.len() && k != old(self).cell_index(c) ==> final(self).cells@[k] == old(self).cells@[k],
            final(self).cells@[old(self).cell_index(c)].last_updated == stamp,
    {
        let ghost w2 = w.insert(id, EntityModel { pos: Some(c), comps: w[id].comps });
        let i = self.index_of(c);
        proof {
            assert(cell_wf(self.cells@[self.cell_index(c)], w, c, self.schema.kinds@));
            assert(w[id].comps.len() == self.schema.kinds@.len());
        }
        let cellref = &mut self.cells[i];
        cellref.add_entity(Ghost(w), Ghost(c), &self.schema.kinds, id, comps, stamp);
        proof {
            assert forall|c2: Coord|
                self.spec_in_bounds(c2) && c2 != c implies cell_wf(
                #[trigger] self.cells@[self.cell_index(c2)],
                w,
                c2,
                self.schema.kinds@,
            ) by {
                lemma_grid_index(self.width as int, self.height as int, c2, c);
                assert(cell_wf(
                    old(self).cells@[old(self).cell_index(c2)],
                    w,
                    c2,
                    old(self).schema.kinds@,
                ));
            }
            assert forall|k: int|
                0 <= k < self.cells@.len() implies cell_dims(
                #[trigger] self.cells@[k],
                self.spec_num_fields(),
            ) by {
                if k != i as int {
                    assert(self.cells@[k] == old(self).cells@[k]);
                    assert(cell_dims(old(self).cells@[k], old(self).spec_num_fields()));
                }
            }
            self.lemma_one_cell_changed(w, w2, c, i as int, id);
        }
    }

    /// Applies one field transition for entity `id` at its cell `c`. Only
    /// that cell changes; it gets stamped.
    fn apply_comp_cell(
        &mut self,
        Ghost(w): Ghost<Map<u64, EntityModel>>,
        f: usize,
        id: u64,
        cur: Option<i64>,
        op: Option<i64>,
        c: Coord,
        stamp: u64,
    )
        requires
            old(self).wf_with(w),
            w[id].pos == Some(c),
            w[id].comps[f as int] == cur,
            f < old(self).spec_num_fields(),
        ensures
            final(self).wf_with(
                w.insert(
                    id,
                    EntityModel { pos: Some(c), comps: w[id].comps.update(f as int, op) },
                ),
            ),
            final(self).schema == old(self).schema,
            final(self).width == old(self).width,
            final(self).height == old(self).height,
            final(self).empty == old(self).empty,
            final(self).cells@.len() == old(self).cells@.len(),
            forall|k: int|
                0 <= k < old(self).cells@.len() && k != old(self).cell_index(c) ==> final(self).cells@[k] == old(self).cells@[k],
            final(self).cells@[old(self).cell_index(c)].last_updated == stamp,
    {
        let ghost w2 = w.insert(
            id,
            EntityModel { pos: Some(c), comps: w[id].comps.update(f as int, op) },
        );
        proof {
            assert(self.spec_in_bounds(c)) by {
                assert(w[id].pos == Some(c));
            }
        }
        let i = self.index_of(c);
        proof {
            assert(cell_wf(self.cells@[self.cell_index(c)], w, c, self.schema.kinds@));
            assert(w[id].comps.len() == self.schema.kinds@.len());
        }
        let cellref = &mut self.cells[i];
        cellref.apply_comp_op(Ghost(w), Ghost(c), &self.schema.kinds, f, id, cur, op, stamp);
        proof {
            assert forall|c2: Coord|
                self.spec_in_bounds(c2) && c2 != c implies cell_wf(
                #[trigger] self.cells@[self.cell_index(c2)],
                w,
                c2,
                self.schema.kinds@,
            ) by {
                lemma_grid_index(self.width as int, self.height as int, c2, c);
                assert(cell_wf(
                    old(self).cells@[old(self).cell_index(c2)],
                    w,
                    c2,
                    old(self).schema.kinds@,
                ));
            }
            assert forall|k: int|
                0 <= k < self.cells@.len() implies cell_dims(
                #[trigger] self.cells@[k],
                self.spec_num_fields(),
            ) by {
                if k != i as int {
                    assert(self.cells@[k] == old(self).cells@[k]);
                    assert(cell_dims(old(self).cells@[k], old(self).spec_num_fields()));
                }
            }
            self.lemma_one_cell_changed(w, w2, c, i as int, id);
        }
    }

    /// After mutating only the cell at `c` — re-established against `w2` by
    /// the cell's own contract — the whole table materializes `w2`, provided
    /// the two worlds agree outside `id` and `id` is positioned at `c` (or
    /// nowhere) in `w2`.
    proof fn lemma_one_cell_changed(
        &self,
        w: Map<u64, EntityModel>,
        w2: Map<u64, EntityModel>,
        c: Coord,
        i: int,
        id: u64,
    )
        requires
            self.base_wf(),
            world_wf(w, self.spec_num_fields() as nat),
            world_positions_in_bounds(w, self.width as int, self.height as int),
            self.spec_in_bounds(c),
            i == self.cell_index(c),
            forall|id2: u64| id2 != id ==> w2[id2] == w[id2],
            forall|id2: u64| w2.dom().contains(id2) <==> w.dom().contains(id2),
            w2[id].comps.len() == self.spec_num_fields(),
            w2[id].pos == Some(c) || w2[id].pos is None,
            w[id].pos == Some(c) || w[id].pos is None,
            cell_wf(self.cells@[i], w2, c, self.schema.kinds@),
            forall|c2: Coord|
                self.spec_in_bounds(c2) && c2 != c ==> cell_wf(
                    #[trigger] self.cells@[self.cell_index(c2)],
                    w,
                    c2,
                    self.schema.kinds@,
                ),
        ensures
            self.wf_with(w2),
    {
        let nfn = self.spec_num_fields() as nat;
        assert(world_wf(w2, nfn)) by {
            assert forall|id2: u64| w2.dom().contains(id2) by {
                assert(w.dom().contains(id2));
            }
            assert forall|id2: u64| (#[trigger] w2[id2]).comps.len() == nfn by {
                if id2 != id {
                    assert(w2[id2] == w[id2]);
                }
            }
        }
        assert(world_positions_in_bounds(w2, self.width as int, self.height as int)) by {
            assert forall|id2: u64|
                match (#[trigger] w2[id2]).pos {
                    Some(cc) => 0 <= cc.x < self.width && 0 <= cc.y < self.height,
                    None => true,
                } by {
                if id2 != id {
                    assert(w2[id2] == w[id2]);
                }
            }
        }
        assert forall|c2: Coord|
            self.spec_in_bounds(c2) implies cell_wf(
            #[trigger] self.cells@[self.cell_index(c2)],
            w2,
            c2,
            self.schema.kinds@,
        ) by {
            if c2 != c {
                lemma_grid_index(self.width as int, self.height as int, c2, c);
                assert(cell_wf(self.cells@[self.cell_index(c2)], w, c2, self.schema.kinds@));
                lemma_cell_wf_agree(
                    self.cells@[self.cell_index(c2)],
                    w,
                    w2,
                    c2,
                    self.schema.kinds@,
                    id,
                );
            }
        }
    }

    /// A component edit on an unpositioned entity touches no cell.
    proof fn lemma_wf_unpositioned_change(
        &self,
        w: Map<u64, EntityModel>,
        v: EntityModel,
        id: u64,
    )
        requires
            self.wf_with(w),
            w[id].pos is None,
            v.pos is None,
            v.comps.len() == self.spec_num_fields(),
        ensures
            self.wf_with(w.insert(id, v)),
    {
        let w2 = w.insert(id, v);
        let nfn = self.spec_num_fields() as nat;
        assert(world_wf(w2, nfn)) by {
            assert forall|id2: u64| w2.dom().contains(id2) by {
                assert(w.dom().contains(id2));
            }
            assert forall|id2: u64| (#[trigger] w2[id2]).comps.len() == nfn by {
                if id2 != id {
                    assert(w2[id2] == w[id2]);
                }
            }
        }
        assert(world_positions_in_bounds(w2, self.width as int, self.height as int)) by {
            assert forall|id2: u64|
                match (#[trigger] w2[id2]).pos {
                    Some(cc) => 0 <= cc.x < self.width && 0 <= cc.y < self.height,
                    None => true,
                } by {
                if id2 != id {
                    assert(w2[id2] == w[id2]);
                }
            }
        }
        assert forall|c2: Coord|
            self.spec_in_bounds(c2) implies cell_wf(
            #[trigger] self.cells@[self.cell_index(c2)],
            w2,
            c2,
            self.schema.kinds@,
        ) by {
            assert(cell_wf(self.cells@[self.cell_index(c2)], w, c2, self.schema.kinds@));
            lemma_cell_wf_agree(
                self.cells@[self.cell_index(c2)],
                w,
                w2,
                c2,
                self.schema.kinds@,
                id,
            );
        }
    }

    /// Consumes one change-set plus the pre-batch store and applies every
    /// position change and every tracked-component change to the affected
    /// cells: position changes first (a move leaves the old cell entirely,
    /// then enters the new one), then each field's changes at each entity's
    /// final position for the batch. A table consistent with the store
    /// before the batch is consistent, afterwards, with the world the batch
    /// prescribes — the store then reaches that same world by `commit`.
    /// Every touched cell carries `stamp`; untouched cells keep their stamp.
    pub fn update(&mut self, store: &EntityStore, action: &ChangeSet, stamp: u64)
        requires
            old(self).wf_with(store@),
            store.wf(),
            action.wf(),
            action.nfields == store.nfields,
            store.nfields as int == old(self).spec_num_fields(),
            action.positions_in_bounds(old(self).width as int, old(self).height as int),
        ensures
            final(self).wf_with(action.post_world(store@)),
            final(self).schema == old(self).schema,
            final(self).width == old(self).width,
            final(self).height == old(self).height,
            final(self).empty == old(self).empty,
            final(self).cells@.len() == old(self).cells@.len(),
            forall|k: int|
                0 <= k < old(self).cells@.len() ==> ((#[trigger] final(self).cells@[k]).last_updated
                    == stamp || final(self).cells@[k].last_updated == old(self).cells@[k].last_updated),
            forall|k: int|
                0 <= k < old(self).cells@.len() ==> (cell_content_eq(
                    #[trigger] final(self).cells@[k],
                    old(self).cells@[k],
                ) || final(self).cells@[k].last_updated == stamp),
    {
        let ghost w0 = store@;
        let ghost cs = *action;
        let ghost nfn = old(self).spec_num_fields() as nat;
        proof {
            store.lemma_view_wf();
            lemma_mixed_pos_zero(w0, cs.pos_ops@, nfn);
        }
        let n = action.pos_len();
        let mut i: usize = 0;
        while i < n
            invariant
                self.schema == old(self).schema,
                self.width == old(self).width,
                self.height == old(self).height,
                self.empty == old(self).empty,
                self.cells@.len() == old(self).cells@.len(),
                store.wf(),
                cs.wf(),
                cs == *action,
                cs.nfields == store.nfields,
                w0 == store@,
                nfn == self.spec_num_fields() as nat,
                cs.nfields as int == self.spec_num_fields(),
                world_wf(w0, nfn),
                n == cs.pos_ops@.len(),
                cs.positions_in_bounds(self.width as int, self.height as int),
                0 <= i <= n,
                self.wf_with(mixed_pos(w0, cs.pos_ops@, i as int)),
                forall|k: int|
                    0 <= k < old(self).cells@.len() ==> ((#[trigger] self.cells@[k]).last_updated
                        == stamp || self.cells@[k].last_updated == old(self).cells@[k].last_updated),
                forall|k: int|
                    0 <= k < old(self).cells@.len() ==> (cell_content_eq(
                        #[trigger] self.cells@[k],
                        old(self).cells@[k],
                    ) || self.cells@[k].last_updated == stamp),
            decreases n - i,
        {
            let ghost wcur = mixed_pos(w0, cs.pos_ops@, i as int);
            let (id, op) = action.pos_at(i);
            proof {
                lemma_mixed_pos_step(w0, cs.pos_ops@, i as int, nfn);
            }
            let ghost wnext = mixed_pos(w0, cs.pos_ops@, i as int + 1);
            let curp = store.get_position(id);
            let comps = store.copy_components(id);
            proof {
                assert(wcur[id] == (EntityModel { pos: w0[id].pos, comps: w0[id].comps }));
                assert(wnext == wcur.insert(id, EntityModel { pos: op, comps: w0[id].comps }));
            }
            match (curp, op) {
                (Some(c0), Some(c1)) => {
                    let ghost wmid = wcur.insert(
                        id,
                        EntityModel { pos: None, comps: w0[id].comps },
                    );
                    self.remove_entity_cell(Ghost(wcur), id, &comps, c0, stamp);
                    proof {
                        assert(wcur.insert(
                            id,
                            EntityModel { pos: None, comps: wcur[id].comps },
                        ) =~= wmid);
                        assert(wmid[id].comps == w0[id].comps);
                    }
                    self.add_entity_cell(Ghost(wmid), id, &comps, c1, stamp);
                    proof {
                        assert(wmid.insert(
                            id,
                            EntityModel { pos: Some(c1), comps: wmid[id].comps },
                        ) =~= wnext);
                    }
                }
                (Some(c0), None) => {
                    self.remove_entity_cell(Ghost(wcur), id, &comps, c0, stamp);
                    proof {
                        assert(wcur.insert(
                            id,
                            EntityModel { pos: None, comps: wcur[id].comps },
                        ) =~= wnext);
                    }
                }
                (None, Some(c1)) => {
                    self.add_entity_cell(Ghost(wcur), id, &comps, c1, stamp);
                    proof {
                        assert(wcur.insert(
                            id,
                            EntityModel { pos: Some(c1), comps: wcur[id].comps },
                        ) =~= wnext);
                    }
                }
                (None, None) => {
                    proof {
                        assert(wcur.insert(id, wcur[id]) =~= wcur);
                        assert(wnext =~= wcur);
                    }
                }
            }
            i += 1;
        }
        let ghost w1 = mixed_pos(w0, cs.pos_ops@, cs.pos_ops@.len() as int);
        proof {
            lemma_mixed_pos_wf(w0, cs.pos_ops@, cs.pos_ops@.len() as int, nfn);
        }
        let nfx = action.num_fields();
        let mut f: usize = 0;
        while f < nfx
            invariant
                self.schema == old(self).schema,
                self.width == old(self).width,
                self.height == old(self).height,
                self.empty == old(self).empty,
                self.cells@.len() == old(self).cells@.len(),
                store.wf(),
                cs.wf(),
                cs == *action,
                cs.nfields == store.nfields,
                w0 == store@,
                nfn == self.spec_num_fields() as nat,
                cs.nfields as int == self.spec_num_fields(),
                cs.nfields == nfx,
                world_wf(w0, nfn),
                world_wf(w1, nfn),
                w1 == mixed_pos(w0, cs.pos_ops@, cs.pos_ops@.len() as int),
                0 <= f <= nfx,
                self.wf_with(after_fields(w1, cs, f as int)),
                forall|k: int|
                    0 <= k < old(self).cells@.len() ==> ((#[trigger] self.cells@[k]).last_updated
                        == stamp || self.cells@[k].last_updated == old(self).cells@[k].last_updated),
                forall|k: int|
                    0 <= k < old(self).cells@.len() ==> (cell_content_eq(
                        #[trigger] self.cells@[k],
                        old(self).cells@[k],
                    ) || self.cells@[k].last_updated == stamp),
            decreases nfx - f,
        {
            let ghost wbase = after_fields(w1, cs, f as int);
            proof {
                lemma_after_fields_props(w1, cs, f as int);
                lemma_mixed_comp_zero(wbase, f as int, cs.comp_ops@[f as int]@, nfn);
            }
            let m = action.comp_len(f);
            let mut j: usize = 0;
            while j < m
                invariant
                    self.schema == old(self).schema,
                    self.width == old(self).width,
                    self.height == old(self).height,
                    self.empty == old(self).empty,
                    self.cells@.len() == old(self).cells@.len(),
                    store.wf(),
                    cs.wf(),
                    cs == *action,
                    cs.nfields == store.nfields,
                    w0 == store@,
                    nfn == self.spec_num_fields() as nat,
                    cs.nfields as int == self.spec_num_fields(),
                    cs.nfields == nfx,
                    world_wf(w0, nfn),
                    world_wf(w1, nfn),
                    world_wf(wbase, nfn),
                    w1 == mixed_pos(w0, cs.pos_ops@, cs.pos_ops@.len() as int),
                    wbase == after_fields(w1, cs, f as int),
                    0 <= f < nfx,
                    m == cs.comp_ops@[f as int]@.len(),
                    0 <= j <= m,
                    self.wf_with(mixed_comp(wbase, f as int, cs.comp_ops@[f as int]@, j as int)),
                    forall|k: int|
                        0 <= k < old(self).cells@.len() ==> ((
                        #[trigger] self.cells@[k]).last_updated == stamp
                            || self.cells@[k].last_updated == old(self).cells@[k].last_updated),
                    forall|k: int|
                        0 <= k < old(self).cells@.len() ==> (cell_content_eq(
                            #[trigger] self.cells@[k],
                            old(self).cells@[k],
                        ) || self.cells@[k].last_updated == stamp),
                decreases m - j,
            {
                let ghost wcur = mixed_comp(wbase, f as int, cs.comp_ops@[f as int]@, j as int);
                let (id, op) = action.comp_at(f, j);
                proof {
                    lemma_mixed_comp_step(wbase, f as int, cs.comp_ops@[f as int]@, j as int, nfn);
                    lemma_after_fields_props(w1, cs, f as int);
                    lemma_mixed_pos_end(w0, cs.pos_ops@);
                }
                let ghost wnext = mixed_comp(
                    wbase,
                    f as int,
                    cs.comp_ops@[f as int]@,
                    j as int + 1,
                );
                let posn = post_position(store, action, id);
                let cur = store.get_component(f, id);
                proof {
                    assert(wcur[id] == wbase[id]);
                    assert(wbase[id].comps[f as int] == w1[id].comps[f as int]);
                    assert(w1[id].comps == w0[id].comps);
                    assert(wbase[id].pos == w1[id].pos);
                    assert(posn == wcur[id].pos);
                    assert(cur == wcur[id].comps[f as int]);
                    assert(wnext == wcur.insert(
                        id,
                        EntityModel { pos: wbase[id].pos, comps: wbase[id].comps.update(f as int, op) },
                    ));
                }
                match posn {
                    Some(cpos) => {
                        self.apply_comp_cell(Ghost(wcur), f, id, cur, op, cpos, stamp);
                        proof {
                            assert(wcur.insert(
                                id,
                                EntityModel {
                                    pos: Some(cpos),
                                    comps: wcur[id].comps.update(f as int, op),
                                },
                            ) =~= wnext);
                        }
                    }
                    None => {
                        proof {
                            self.lemma_wf_unpositioned_change(
                                wcur,
                                EntityModel {
                                    pos: wbase[id].pos,
                                    comps: wbase[id].comps.update(f as int, op),
                                },
                                id,
                            );
                        }
                    }
                }
                j += 1;
            }
            proof {
                assert(after_fields(w1, cs, f as int + 1) == mixed_comp(
                    wbase,
                    f as int,
                    cs.comp_ops@[f as int]@,
                    cs.comp_ops@[f as int]@.len() as int,
                ));
            }
            f += 1;
        }
        proof {
            lemma_apply_decomposition(w0, cs);
        }
    }
}

/// One full game turn against the index and the store: the table absorbs
/// the batch's diff, the store commits it, and the batch is reset for
/// reuse. This is the crate's central law in one contract: a table
/// consistent with the store before the turn is consistent with the store
/// after it — for every batch, at every stamp.
pub fn apply_turn(
    table: &mut SpatialHashTable,
    store: &mut EntityStore,
    action: &mut ChangeSet,
    stamp: u64,
)
    requires
        old(table).wf_with(old(store)@),
        old(store).wf(),
        old(action).wf(),
        old(action).nfields == old(store).nfields,
        old(store).nfields as int == old(table).spec_num_fields(),
        old(action).positions_in_bounds(old(table).width as int, old(table).height as int),
    ensures
        final(table).wf_with(final(store)@),
        final(store).wf(),
        final(store).nfields == old(store).nfields,
        final(store)@ == old(action).post_world(old(store)@),
        final(action).wf(),
        final(action).is_clear(),
        final(action).nfields == old(action).nfields,
        final(table).schema == old(table).schema,
        final(table).width == old(table).width,
        final(table).height == old(table).height,
        final(table).cells@.len() == old(table).cells@.len(),
        forall|k: int|
            0 <= k < old(table).cells@.len() ==> ((#[trigger] final(table).cells@[k]).last_updated
                == stamp || final(table).cells@[k].last_updated == old(
                table,
            ).cells@[k].last_updated),
        forall|k: int|
            0 <= k < old(table).cells@.len() ==> (cell_content_eq(
                #[trigger] final(table).cells@[k],
                old(table).cells@[k],
            ) || final(table).cells@[k].last_updated == stamp),
{
    table.update(store, action, stamp);
    store.commit(action);
}

/// The position entity `id` ends at once `action` is applied: its pending
/// position op if one exists, else its stored position.
fn post_position(store: &EntityStore, action: &ChangeSet, id: u64) -> (r: Option<Coord>)
    requires
        store.wf(),
    ensures
        r == action.post_pos(store@, id),
{
    match action.find_pos_op(id) {
        Some(p) => p,
        None => store.get_position(id),
    }
}

/// An all-empty cell materializes, at any coordinate, any world in which no
/// entity is positioned or holds a component.
proof fn lemma_empty_cell_wf(
    cell: Cell,
    w: Map<u64, EntityModel>,
    c: Coord,
    kinds: Seq<crate::schema::FieldKind>,
)
    requires
        cell_is_empty(cell, kinds.len() as int),
        forall|id: u64| (#[trigger] w[id]).pos is None,
        forall|id: u64, f: int| 0 <= f < kinds.len() ==> !has_comp(w, id, f),
    ensures
        cell_wf(cell, w, c, kinds),
{
    assert(cell.entities@ =~= Seq::<u64>::empty());
    assert forall|f: int| 0 <= f < kinds.len() implies cell_field_wf(cell, w, c, kinds, f) by {
        assert(count_holders(cell.entities@, w, f) == 0);
        assert(sum_holders(cell.entities@, w, f) == 0);
        match kinds[f] {
            crate::schema::FieldKind::AnySet | crate::schema::FieldKind::IdSet => {
                assert(cell.members@[f]@ =~= Seq::<u64>::empty());
                assert forall|id: u64| #[trigger] cell.members@[f]@.contains(id) <==> (w[id].pos
                    == Some(c) && has_comp(w, id, f)) by {
                    assert(!cell.members@[f]@.contains(id));
                }
            }
            _ => {}
        }
    }
    assert forall|id: u64| #[trigger] cell.entities@.contains(id) <==> w[id].pos == Some(c) by {
        assert(!cell.entities@.contains(id));
    }
}

} // verus!
