//! Persisting a table: conversion to and from a plain-data snapshot.
//!
//! A snapshot carries the grid dimensions, the schema identity (field names
//! and kind codes), and every cell's aggregates, membership and stamp.
//! `to_snapshot` always yields a valid snapshot; `from_snapshot` accepts
//! exactly the valid ones and restores a table with equal cell contents, so
//! the pair round-trips aggregate values and membership sets exactly.

use vstd::prelude::*;
use crate::cell::{Cell, cell_eq, cell_dims, cell_wf, lemma_cell_eq_wf};
use crate::coords::Coord;
use crate::model::EntityModel;
use crate::schema::{FieldDef, FieldKind, Schema, names_distinct};
use crate::table::SpatialHashTable;

verus! {

/// The persisted representation of a table.
pub struct TableSnapshot {
    pub width: u64,
    pub height: u64,
    pub field_names: Vec<String>,
    pub field_kinds: Vec<u8>,
    pub cells: Vec<Cell>,
}

/// What `from_snapshot` accepts: dimensions a grid can have, a decodable and
/// duplicate-free schema, and one dimensionally consistent cell per
/// coordinate.
pub open spec fn valid_snapshot(s: TableSnapshot) -> bool {
    &&& s.width <= i32::MAX
    &&& s.height <= i32::MAX
    &&& s.width * s.height <= usize::MAX
    &&& s.field_names@.len() == s.field_kinds@.len()
    &&& names_distinct(s.field_names@.map_values(|n: String| n@))
    &&& forall|f: int|
        0 <= f < s.field_kinds@.len() ==> FieldKind::spec_from_code(#[trigger] s.field_kinds@[f])
            is Some
    &&& s.cells@.len() == s.width * s.height
    &&& forall|i: int|
        0 <= i < s.cells@.len() ==> cell_dims(#[trigger] s.cells@[i], s.field_kinds@.len() as int)
}

/// The snapshot records the table's schema identity: the same names, and
/// each kind by its code.
pub open spec fn snapshot_matches_schema(s: TableSnapshot, schema: Schema) -> bool {
    &&& s.field_names@.len() == schema.names@.len()
    &&& forall|f: int|
        0 <= f < schema.names@.len() ==> (#[trigger] s.field_names@[f])@ == schema.names@[f]@
    &&& s.field_kinds@.len() == schema.kinds@.len()
    &&& forall|f: int|
        0 <= f < schema.kinds@.len() ==> FieldKind::spec_from_code(#[trigger] s.field_kinds@[f])
            == Some(schema.kinds@[f])
}

impl SpatialHashTable {
    /// Converts the live grid to its persisted representation.
    pub fn to_snapshot(&self) -> (s: TableSnapshot)
        requires
            self.base_wf(),
        ensures
            valid_snapshot(s),
            s.width == self.width,
            s.height == self.height,
            snapshot_matches_schema(s, self.schema),
            s.cells@.len() == self.cells@.len(),
            forall|i: int| 0 <= i < self.cells@.len() ==> cell_eq(#[trigger] s.cells@[i], self.cells@[i]),
    {
        let nf = self.schema.num_fields();
        let mut field_names: Vec<String> = Vec::new();
        let mut field_kinds: Vec<u8> = Vec::new();
        let mut f: usize = 0;
        while f < nf
            invariant
                0 <= f <= nf,
                nf == self.schema.kinds@.len(),
                self.schema.wf(),
                field_names@.len() == f,
                field_kinds@.len() == f,
                forall|g: int|
                    0 <= g < f ==> (#[trigger] field_names@[g])@ == self.schema.names@[g]@,
                forall|g: int|
                    0 <= g < f ==> FieldKind::spec_from_code(#[trigger] field_kinds@[g]) == Some(
                        self.schema.kinds@[g],
                    ),
            decreases nf - f,
        {
            field_names.push(self.schema.name(f).clone());
            field_kinds.push(self.schema.kind(f).code());
            f += 1;
        }
        let mut cells: Vec<Cell> = Vec::new();
        let mut i: usize = 0;
        let total = self.cells.len();
        while i < total
            invariant
                0 <= i <= total,
                total == self.cells@.len(),
                self.base_wf(),
                cells@.len() == i,
                forall|k: int| 0 <= k < i ==> cell_eq(#[trigger] cells@[k], self.cells@[k]),
                forall|k: int|
                    0 <= k < i ==> cell_dims(#[trigger] cells@[k], self.schema.kinds@.len() as int),
            decreases total - i,
        {
            cells.push(self.cells[i].duplicate());
            proof {
                assert(cell_eq(cells@[i as int], self.cells@[i as int]));
                assert(cell_dims(self.cells@[i as int], self.schema.kinds@.len() as int));
            }
            i += 1;
        }
        let s = TableSnapshot {
            width: self.width as u64,
            height: self.height as u64,
            field_names,
            field_kinds,
            cells,
        };
        proof {
            assert(s.field_names@.map_values(|n: String| n@) =~= self.schema.names@.map_values(
                |n: String| n@,
            ));
            assert forall|k: int|
                0 <= k < s.cells@.len() implies cell_dims(
                #[trigger] s.cells@[k],
                s.field_kinds@.len() as int,
            ) by {}
        }
        s
    }

    /// Restores a table from its persisted representation. An unrecognized
    /// kind code, a duplicate field name, impossible dimensions or a
    /// dimensionally inconsistent cell is a configuration error, reported as
    /// `None`. On success the restored table carries exactly the snapshot's
    /// cell contents.
    pub fn from_snapshot(snap: TableSnapshot) -> (r: Option<SpatialHashTable>)
        ensures
            (r is Some) == valid_snapshot(snap),
            r matches Some(t) ==> {
                &&& t.base_wf()
                &&& t.width == snap.width
                &&& t.height == snap.height
                &&& snapshot_matches_schema(snap, t.schema)
                &&& t.cells@.len() == snap.cells@.len()
                &&& forall|i: int|
                    0 <= i < snap.cells@.len() ==> cell_eq(
                        #[trigger] t.cells@[i],
                        snap.cells@[i],
                    )
            },
    {
        let TableSnapshot { width, height, field_names, field_kinds, cells } = snap;
        proof {
            assert((width as int) * (height as int) <= 0xffff_ffff_ffff_ffff
                * 0xffff_ffff_ffff_ffff) by (nonlinear_arith)
                requires
                    width <= 0xffff_ffff_ffff_ffff,
                    height <= 0xffff_ffff_ffff_ffff,
            ;
        }
        if width > (i32::MAX as u64) || height > (i32::MAX as u64) {
            assert(!valid_snapshot(snap));
            return None;
        }
        let prod = (width as u128) * (height as u128);
        proof {
            assert(prod == (width as int) * (height as int));
        }
        if prod > (usize::MAX as u128) {
            assert(!valid_snapshot(snap));
            return None;
        }
        if field_names.len() != field_kinds.len() {
            assert(!valid_snapshot(snap));
            return None;
        }
        let nf = field_kinds.len();
        let mut defs: Vec<FieldDef> = Vec::new();
        let mut f: usize = 0;
        while f < nf
            invariant
                0 <= f <= nf,
                nf == field_kinds@.len(),
                nf == field_names@.len(),
                field_kinds@ == snap.field_kinds@,
                field_names@ == snap.field_names@,
                defs@.len() == f,
                forall|g: int|
                    0 <= g < f ==> FieldKind::spec_from_code(#[trigger] field_kinds@[g]) == Some(
                        defs@[g].kind,
                    ),
                forall|g: int| 0 <= g < f ==> (#[trigger] defs@[g]).name@ == field_names@[g]@,
            decreases nf - f,
        {
            match FieldKind::from_code(field_kinds[f]) {
                Some(kind) => {
                    defs.push(FieldDef { name: field_names[f].clone(), kind });
                }
                None => {
                    assert(FieldKind::spec_from_code(snap.field_kinds@[f as int]) is None);
                    assert(!valid_snapshot(snap));
                    return None;
                }
            }
            f += 1;
        }
        let ghost gdefs = defs@;
        proof {
            assert(crate::schema::def_names(defs@) =~= field_names@.map_values(|n: String| n@));
        }
        let schema = match Schema::new(defs) {
            Some(s) => s,
            None => {
                assert(!names_distinct(snap.field_names@.map_values(|n: String| n@)));
                assert(!valid_snapshot(snap));
                return None;
            }
        };
        let wid = width as usize;
        let hei = height as usize;
        let total = wid * hei;
        proof {
            assert(total as int == (width as int) * (height as int));
        }
        if cells.len() != total {
            assert(!valid_snapshot(snap));
            return None;
        }
        let mut i: usize = 0;
        while i < total
            invariant
                0 <= i <= total,
                total == cells@.len(),
                cells@ == snap.cells@,
                nf == schema.kinds@.len(),
                nf == snap.field_kinds@.len(),
                forall|k: int| 0 <= k < i ==> cell_dims(#[trigger] cells@[k], nf as int),
            decreases total - i,
        {
            let c = &cells[i];
            if c.counts.len() != nf || c.amounts.len() != nf || c.members.len() != nf {
                assert(!cell_dims(snap.cells@[i as int], snap.field_kinds@.len() as int));
                assert(!valid_snapshot(snap));
                return None;
            }
            i += 1;
        }
        let t = SpatialHashTable {
            schema,
            width: wid,
            height: hei,
            cells,
            empty: Cell::new_empty(nf),
        };
        proof {
            assert(valid_snapshot(snap));
            assert forall|k: int|
                0 <= k < t.cells@.len() implies cell_eq(#[trigger] t.cells@[k], snap.cells@[k]) by {}
            assert(t.base_wf());
            assert forall|g: int|
                0 <= g < t.schema.names@.len() implies (#[trigger] snap.field_names@[g])@
                == t.schema.names@[g]@ by {
                assert(t.schema.names@.map_values(|n: String| n@)[g] == t.schema.names@[g]@);
                assert(crate::schema::def_names(gdefs)[g] == gdefs[g].name@);
            }
            assert forall|g: int|
                0 <= g < t.schema.kinds@.len() implies FieldKind::spec_from_code(
                #[trigger] snap.field_kinds@[g],
            ) == Some(t.schema.kinds@[g]) by {
                assert(gdefs.map_values(|d: FieldDef| d.kind)[g] == gdefs[g].kind);
            }
        }
        Some(t)
    }
}


/// A table restored with the same schema, dimensions and cell contents as a
/// consistent table is consistent with the same world: persisting and
/// reloading loses nothing the index states.
pub proof fn lemma_restored_table_consistent(
    t1: SpatialHashTable,
    t2: SpatialHashTable,
    w: Map<u64, EntityModel>,
)
    requires
        t1.wf_with(w),
        t2.base_wf(),
        t2.width == t1.width,
        t2.height == t1.height,
        t2.schema.kinds@ == t1.schema.kinds@,
        t2.cells@.len() == t1.cells@.len(),
        forall|i: int| 0 <= i < t1.cells@.len() ==> cell_eq(#[trigger] t2.cells@[i], t1.cells@[i]),
    ensures
        t2.wf_with(w),
{
    assert forall|c: Coord|
        t2.spec_in_bounds(c) implies cell_wf(
        #[trigger] t2.cells@[t2.cell_index(c)],
        w,
        c,
        t2.schema.kinds@,
    ) by {
        crate::table::lemma_grid_index(t2.width as int, t2.height as int, c, c);
        assert(cell_wf(t1.cells@[t1.cell_index(c)], w, c, t1.schema.kinds@));
        lemma_cell_eq_wf(
            t1.cells@[t1.cell_index(c)],
            t2.cells@[t2.cell_index(c)],
            w,
            c,
            t1.schema.kinds@,
        );
    }
}

} // verus!
