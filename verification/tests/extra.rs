//! Set-kind fields, schema validation, snapshots, bounds and stamps.

use spatial_hash::{
    apply_turn, ChangeSet, Coord, EntityStore, FieldDef, FieldKind, Schema, SpatialHashTable,
    TableSnapshot,
};

const SOLID: usize = 0;
const OPACITY: usize = 1;
const DOOR: usize = 2;
const TURRET: usize = 3;

fn full_schema() -> Schema {
    Schema::new(vec![
        FieldDef { name: "solid".to_string(), kind: FieldKind::CountBool },
        FieldDef { name: "opacity".to_string(), kind: FieldKind::SumValue },
        FieldDef { name: "door".to_string(), kind: FieldKind::AnySet },
        FieldDef { name: "turret".to_string(), kind: FieldKind::IdSet },
    ])
    .unwrap()
}

fn full_env() -> (SpatialHashTable, EntityStore) {
    let schema = full_schema();
    let nfields = schema.num_fields();
    (SpatialHashTable::new(schema, 10, 10), EntityStore::new(nfields))
}

#[test]
fn any_set_untyped_marker() {
    // An `AnySet` field over a bare marker component: the payload carries no
    // information, only presence counts.
    let (mut sh, mut ctx) = full_env();
    let mut action = ChangeSet::new(4);
    let coord = Coord::new(4, 4);

    action.set_position(7, coord);
    action.set_component(DOOR, 7, 0);
    sh.update(&ctx, &action, 1);
    ctx.commit(&mut action);

    assert!(sh.get(coord).set_nonempty(DOOR));
    assert_eq!(sh.get(coord).any_member(DOOR), Some(7));

    action.remove_component(DOOR, 7);
    sh.update(&ctx, &action, 2);
    ctx.commit(&mut action);

    assert!(!sh.get(coord).set_nonempty(DOOR));
    assert_eq!(sh.get(coord).any_member(DOOR), None);
}

#[test]
fn any_set_typed_payload() {
    // An `AnySet` field over a component that carries a payload: changing
    // the payload keeps membership; only removal drops the id.
    let (mut sh, mut ctx) = full_env();
    let mut action = ChangeSet::new(4);
    let coord = Coord::new(2, 9);

    action.set_position(3, coord);
    action.set_component(DOOR, 3, 42);
    sh.update(&ctx, &action, 1);
    ctx.commit(&mut action);

    assert_eq!(sh.get(coord).any_member(DOOR), Some(3));

    // change the payload in a later batch: still a member
    action.set_component(DOOR, 3, 43);
    sh.update(&ctx, &action, 2);
    ctx.commit(&mut action);

    assert_eq!(sh.get(coord).any_member(DOOR), Some(3));

    // the entity moves: membership follows it
    action.set_position(3, Coord::new(3, 9));
    sh.update(&ctx, &action, 3);
    ctx.commit(&mut action);

    assert_eq!(sh.get(coord).any_member(DOOR), None);
    assert_eq!(sh.get(Coord::new(3, 9)).any_member(DOOR), Some(3));
}

#[test]
fn id_set_enumeration() {
    let (mut sh, mut ctx) = full_env();
    let mut action = ChangeSet::new(4);
    let coord = Coord::new(5, 5);

    action.set_position(10, coord);
    action.set_component(TURRET, 10, 0);
    action.set_position(11, coord);
    action.set_component(TURRET, 11, 0);
    action.set_position(12, coord);
    sh.update(&ctx, &action, 1);
    ctx.commit(&mut action);

    let cell = sh.get(coord);
    assert_eq!(cell.set_len(TURRET), 2);
    let mut found = vec![];
    for i in 0..cell.set_len(TURRET) {
        found.push(cell.set_member(TURRET, i));
    }
    found.sort();
    assert_eq!(found, vec![10, 11]);
    assert_eq!(cell.entity_ids().len(), 3);

    // one holder leaves the component, the other leaves the cell
    action.remove_component(TURRET, 10);
    action.set_position(11, Coord::new(6, 5));
    sh.update(&ctx, &action, 2);
    ctx.commit(&mut action);

    assert_eq!(sh.get(coord).set_len(TURRET), 0);
    assert_eq!(sh.get(Coord::new(6, 5)).set_len(TURRET), 1);
    assert_eq!(sh.get(Coord::new(6, 5)).set_member(TURRET, 0), 11);
}

#[test]
fn all_aggregates_one_batch() {
    // One batch touching all four kinds at once nets out correctly.
    let (mut sh, mut ctx) = full_env();
    let mut action = ChangeSet::new(4);
    let coord = Coord::new(0, 0);

    action.set_position(1, coord);
    action.set_component(SOLID, 1, 1);
    action.set_component(OPACITY, 1, 300);
    action.set_component(DOOR, 1, 0);
    action.set_position(2, coord);
    action.set_component(OPACITY, 2, 200);
    action.set_component(TURRET, 2, 0);
    sh.update(&ctx, &action, 5);
    ctx.commit(&mut action);

    let cell = sh.get(coord);
    assert!(cell.flag(SOLID));
    assert_eq!(cell.sum_value(OPACITY), 500);
    assert!(cell.set_nonempty(DOOR));
    assert_eq!(cell.set_len(TURRET), 1);
    assert_eq!(cell.entity_ids().len(), 2);
    assert_eq!(cell.last_updated(), 5);
}

#[test]
fn duplicate_field_name_rejected() {
    let r = Schema::new(vec![
        FieldDef { name: "solid".to_string(), kind: FieldKind::CountBool },
        FieldDef { name: "solid".to_string(), kind: FieldKind::SumValue },
    ]);
    assert!(r.is_none());
}

#[test]
fn unknown_kind_code_rejected() {
    assert_eq!(FieldKind::from_code(0), Some(FieldKind::CountBool));
    assert_eq!(FieldKind::from_code(1), Some(FieldKind::SumValue));
    assert_eq!(FieldKind::from_code(2), Some(FieldKind::AnySet));
    assert_eq!(FieldKind::from_code(3), Some(FieldKind::IdSet));
    assert_eq!(FieldKind::from_code(4), None);
    assert_eq!(FieldKind::from_code(255), None);
}

#[test]
fn out_of_bounds_reads_empty() {
    let (mut sh, mut ctx) = full_env();
    let mut action = ChangeSet::new(4);
    let coord = Coord::new(9, 9);
    action.set_position(1, coord);
    action.set_component(SOLID, 1, 1);
    sh.update(&ctx, &action, 1);
    ctx.commit(&mut action);

    for bad in [
        Coord::new(-1, 0),
        Coord::new(0, -1),
        Coord::new(10, 0),
        Coord::new(0, 10),
        Coord::new(1000, 1000),
    ] {
        let cell = sh.get(bad);
        assert!(!cell.flag(SOLID));
        assert_eq!(cell.sum_value(OPACITY), 0);
        assert!(cell.entity_ids().is_empty());
        assert_eq!(cell.last_updated(), 0);
        assert!(!sh.is_valid_coord(bad));
    }
    assert!(sh.is_valid_coord(coord));
    assert_eq!(sh.width(), 10);
    assert_eq!(sh.height(), 10);
    assert_eq!(sh.limits_min(), Coord::new(0, 0));
    assert_eq!(sh.limits_max(), Coord::new(9, 9));
}

#[test]
fn clear_resets_everything() {
    let (mut sh, mut ctx) = full_env();
    let mut action = ChangeSet::new(4);
    let coord = Coord::new(3, 3);
    action.set_position(1, coord);
    action.set_component(SOLID, 1, 1);
    action.set_component(OPACITY, 1, 100);
    sh.update(&ctx, &action, 7);
    ctx.commit(&mut action);

    assert!(sh.get(coord).flag(SOLID));
    sh.clear();
    assert!(!sh.get(coord).flag(SOLID));
    assert_eq!(sh.get(coord).sum_value(OPACITY), 0);
    assert!(sh.get(coord).entity_ids().is_empty());
    assert_eq!(sh.get(coord).last_updated(), 0);
    assert_eq!(sh.cells().len(), 100);
}

#[test]
fn stamps_only_touched_cells() {
    let (mut sh, mut ctx) = full_env();
    let mut action = ChangeSet::new(4);
    let a = Coord::new(1, 1);
    let b = Coord::new(8, 8);

    action.set_position(1, a);
    sh.update(&ctx, &action, 3);
    ctx.commit(&mut action);

    assert_eq!(sh.get(a).last_updated(), 3);
    assert_eq!(sh.get(b).last_updated(), 0);

    // a move stamps both the old and the new cell
    action.set_position(1, b);
    sh.update(&ctx, &action, 4);
    ctx.commit(&mut action);

    assert_eq!(sh.get(a).last_updated(), 4);
    assert_eq!(sh.get(b).last_updated(), 4);
    assert_eq!(sh.get(Coord::new(5, 5)).last_updated(), 0);
}

#[test]
fn snapshot_round_trip() {
    let (mut sh, mut ctx) = full_env();
    let mut action = ChangeSet::new(4);
    let coord = Coord::new(2, 2);
    action.set_position(1, coord);
    action.set_component(SOLID, 1, 1);
    action.set_component(OPACITY, 1, 250);
    action.set_component(DOOR, 1, 0);
    sh.update(&ctx, &action, 9);
    ctx.commit(&mut action);

    let snap = sh.to_snapshot();
    let restored = SpatialHashTable::from_snapshot(snap).unwrap();

    assert_eq!(restored.width(), 10);
    assert_eq!(restored.height(), 10);
    let cell = restored.get(coord);
    assert!(cell.flag(SOLID));
    assert_eq!(cell.sum_value(OPACITY), 250);
    assert!(cell.set_nonempty(DOOR));
    assert_eq!(cell.entity_ids(), sh.get(coord).entity_ids());
    assert_eq!(cell.last_updated(), 9);

    // a second snapshot of the restored table matches the first
    let snap2 = restored.to_snapshot();
    assert_eq!(snap2.width, 10);
    assert_eq!(snap2.field_kinds, vec![0u8, 1, 2, 3]);
    assert_eq!(snap2.field_names[0], "solid");
}

#[test]
fn snapshot_rejects_bad_input() {
    let (sh, _) = full_env();
    let snap = sh.to_snapshot();

    // unknown kind code
    let mut bad = TableSnapshot {
        width: snap.width,
        height: snap.height,
        field_names: snap.field_names,
        field_kinds: snap.field_kinds,
        cells: snap.cells,
    };
    bad.field_kinds[0] = 99;
    assert!(SpatialHashTable::from_snapshot(bad).is_none());

    // wrong cell count
    let snap = sh.to_snapshot();
    let mut bad = snap;
    bad.cells.pop();
    assert!(SpatialHashTable::from_snapshot(bad).is_none());

    // duplicate field names
    let mut bad = sh.to_snapshot();
    bad.field_names[1] = "solid".to_string();
    assert!(SpatialHashTable::from_snapshot(bad).is_none());
}

#[test]
fn membership_matches_store_after_many_batches() {
    // A small randomized-free soak: several batches of moves and component
    // churn; the cell aggregates always equal what a direct recount gives.
    let (mut sh, mut ctx) = full_env();
    let mut action = ChangeSet::new(4);

    for id in 0..6u64 {
        action.set_position(id, Coord::new(id as i32 % 3, id as i32 / 3));
        if id % 2 == 0 {
            action.set_component(SOLID, id, 1);
        }
        action.set_component(OPACITY, id, (id as i64) * 10);
    }
    sh.update(&ctx, &action, 1);
    ctx.commit(&mut action);

    for id in 0..6u64 {
        action.set_position(id, Coord::new(id as i32 % 2, 7));
        if id % 2 == 0 {
            action.remove_component(SOLID, id);
        } else {
            action.set_component(SOLID, id, 1);
        }
    }
    sh.update(&ctx, &action, 2);
    ctx.commit(&mut action);

    // recount directly from the store
    for x in 0..10i32 {
        for y in 0..10i32 {
            let coord = Coord::new(x, y);
            let cell = sh.get(coord);
            let mut count = 0u64;
            let mut sum = 0i128;
            let mut members = 0usize;
            for id in 0..6u64 {
                if ctx.get_position(id) == Some(coord) {
                    members += 1;
                    if ctx.get_component(SOLID, id).is_some() {
                        count += 1;
                    }
                    if let Some(v) = ctx.get_component(OPACITY, id) {
                        sum += v as i128;
                    }
                }
            }
            assert_eq!(cell.flag(SOLID), count != 0);
            assert_eq!(cell.sum_value(OPACITY), sum);
            assert_eq!(cell.entity_ids().len(), members);
        }
    }
}

#[test]
fn apply_turn_drives_a_whole_round() {
    let (mut sh, mut ctx) = full_env();
    let mut action = ChangeSet::new(4);
    let coord = Coord::new(7, 1);

    action.set_position(42, coord);
    action.set_component(SOLID, 42, 1);
    apply_turn(&mut sh, &mut ctx, &mut action, 1);

    assert!(sh.get(coord).flag(SOLID));
    assert_eq!(ctx.get_position(42), Some(coord));

    // the batch was reset, so the next turn starts clean
    action.remove_component(SOLID, 42);
    apply_turn(&mut sh, &mut ctx, &mut action, 2);

    assert!(!sh.get(coord).flag(SOLID));
    assert!(sh.get(coord).entity_ids().contains(&42));
    assert_eq!(ctx.get_component(SOLID, 42), None);
}
