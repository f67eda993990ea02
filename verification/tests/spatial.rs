//! The core spatial-hash scenarios: inserts, removals, moves, value
//! tracking, membership and swaps, on a 10 x 10 grid with a "solid"
//! boolean-presence field and an "opacity" sum field.

use spatial_hash::{ChangeSet, Coord, EntityStore, FieldDef, FieldKind, Schema, SpatialHashTable};

const SOLID: usize = 0;
const OPACITY: usize = 1;
const SCALE: f64 = 1000.0;

struct Env {
    sh: SpatialHashTable,
    ctx: EntityStore,
    next_id: u64,
}

impl Env {
    fn new() -> Self {
        let schema = Schema::new(vec![
            FieldDef { name: "solid".to_string(), kind: FieldKind::CountBool },
            FieldDef { name: "opacity".to_string(), kind: FieldKind::SumValue },
        ])
        .unwrap();
        let nfields = schema.num_fields();
        Env {
            sh: SpatialHashTable::new(schema, 10, 10),
            ctx: EntityStore::new(nfields),
            next_id: 0,
        }
    }

    fn reserve(&mut self) -> u64 {
        let id = self.next_id;
        self.next_id += 1;
        id
    }
}

fn new_action() -> ChangeSet {
    ChangeSet::new(2)
}

fn insert_opacity(action: &mut ChangeSet, id: u64, value: f64) {
    action.set_component(OPACITY, id, (value * SCALE) as i64);
}

fn get_opacity(env: &Env, coord: Coord) -> f64 {
    env.sh.get(coord).sum_value(OPACITY) as f64 / SCALE
}

fn is_solid(env: &Env, coord: Coord) -> bool {
    env.sh.get(coord).flag(SOLID)
}

#[test]
fn insert_remove() {
    let mut env = Env::new();

    let mut action = new_action();
    let coord = Coord::new(1, 2);

    let id = {
        let id = env.reserve();
        action.set_position(id, coord);
        action.set_component(SOLID, id, 1);
        id
    };

    assert!(!is_solid(&env, coord));
    env.sh.update(&env.ctx, &action, 0);
    env.ctx.commit(&mut action); // this resets the action so it can be reused
    assert!(is_solid(&env, coord));

    action.remove_component(SOLID, id);

    env.sh.update(&env.ctx, &action, 0);
    env.ctx.commit(&mut action);
    assert!(!is_solid(&env, coord));
}

#[test]
fn insert_move() {
    let mut env = Env::new();

    let mut action = new_action();
    let start_coord = Coord::new(1, 2);
    let end_coord = Coord::new(1, 3);

    let id = {
        let id = env.reserve();
        action.set_position(id, start_coord);
        action.set_component(SOLID, id, 1);
        id
    };

    env.sh.update(&env.ctx, &action, 0);
    env.ctx.commit(&mut action);

    action.set_position(id, end_coord);

    env.sh.update(&env.ctx, &action, 0);
    env.ctx.commit(&mut action);

    assert!(!is_solid(&env, start_coord));
    assert!(is_solid(&env, end_coord));
}

#[test]
fn remove_position() {
    let mut env = Env::new();

    let mut action = new_action();
    let start_coord = Coord::new(1, 2);

    let id = {
        let id = env.reserve();
        action.set_position(id, start_coord);
        action.set_component(SOLID, id, 1);
        id
    };

    env.sh.update(&env.ctx, &action, 0);
    env.ctx.commit(&mut action);

    action.remove_position(id);

    env.sh.update(&env.ctx, &action, 0);
    env.ctx.commit(&mut action);

    assert!(!is_solid(&env, start_coord));
}

#[test]
fn insert_solid() {
    let mut env = Env::new();

    let mut action = new_action();
    let start_coord = Coord::new(1, 2);

    let id = {
        let id = env.reserve();
        action.set_position(id, start_coord);
        id
    };

    env.sh.update(&env.ctx, &action, 0);
    env.ctx.commit(&mut action);

    action.set_component(SOLID, id, 1);

    assert!(!is_solid(&env, start_coord));

    env.sh.update(&env.ctx, &action, 0);
    env.ctx.commit(&mut action);

    assert!(is_solid(&env, start_coord));
}

#[test]
fn track_opacity() {
    let mut env = Env::new();

    let mut action = new_action();
    let start_coord = Coord::new(1, 2);
    let end_coord = Coord::new(1, 3);

    // initialise with no opacity
    let id = {
        let id = env.reserve();
        action.set_position(id, start_coord);
        id
    };

    env.sh.update(&env.ctx, &action, 0);
    env.ctx.commit(&mut action);

    assert_eq!((get_opacity(&env, start_coord) * 10.0).round(), 0.0 * 10.0);

    // add an opacity of 0.5
    insert_opacity(&mut action, id, 0.5);

    env.sh.update(&env.ctx, &action, 0);
    env.ctx.commit(&mut action);

    assert_eq!(
        (get_opacity(&env, start_coord) * 10.0).round(),
        (0.5_f64 * 10.0).round()
    );

    // decrease opacity to 0.2
    insert_opacity(&mut action, id, 0.2);

    env.sh.update(&env.ctx, &action, 0);
    env.ctx.commit(&mut action);

    assert_eq!((get_opacity(&env, start_coord) * 10.0).round(), 0.2 * 10.0);

    // move the entity
    action.set_position(id, end_coord);

    env.sh.update(&env.ctx, &action, 0);
    env.ctx.commit(&mut action);
    assert_eq!((get_opacity(&env, start_coord) * 10.0).round(), 0.0 * 10.0);
    assert_eq!((get_opacity(&env, end_coord) * 10.0).round(), 0.2 * 10.0);
}

#[test]
fn insert_move_multiple() {
    let mut env = Env::new();

    let mut action = new_action();
    let start_coord = Coord::new(1, 2);
    let end_coord = Coord::new(1, 3);

    // add solid entity
    let id_a = {
        let id = env.reserve();
        action.set_position(id, start_coord);
        action.set_component(SOLID, id, 1);
        id
    };

    env.sh.update(&env.ctx, &action, 0);
    env.ctx.commit(&mut action);

    assert!(is_solid(&env, start_coord));

    // add second solid entity in same cell
    let id_b = {
        let id = env.reserve();
        action.set_position(id, start_coord);
        action.set_component(SOLID, id, 1);
        id
    };

    env.sh.update(&env.ctx, &action, 0);
    env.ctx.commit(&mut action);

    assert!(is_solid(&env, start_coord));

    // move original entity
    action.set_position(id_a, end_coord);

    env.sh.update(&env.ctx, &action, 0);
    env.ctx.commit(&mut action);

    assert!(is_solid(&env, start_coord));
    assert!(is_solid(&env, end_coord));

    // move second entity
    action.set_position(id_b, end_coord);

    env.sh.update(&env.ctx, &action, 0);
    env.ctx.commit(&mut action);

    assert!(!is_solid(&env, start_coord));
    assert!(is_solid(&env, end_coord));

    // move both entities in single action
    action.set_position(id_a, start_coord);
    action.set_position(id_b, start_coord);

    env.sh.update(&env.ctx, &action, 0);
    env.ctx.commit(&mut action);

    assert!(is_solid(&env, start_coord));
    assert!(!is_solid(&env, end_coord));
}

#[test]
fn entity_set() {
    let mut env = Env::new();

    let mut action = new_action();

    let coord_a = Coord::new(1, 2);
    let coord_b = Coord::new(1, 3);

    let id_a = {
        let id = env.reserve();
        action.set_position(id, coord_a);
        id
    };

    let id_b = {
        let id = env.reserve();
        action.set_position(id, coord_a);
        id
    };

    assert!(env.sh.get(coord_a).entity_ids().is_empty());

    env.sh.update(&env.ctx, &action, 0);
    env.ctx.commit(&mut action);

    {
        let entities = env.sh.get(coord_a).entity_ids();
        assert!(entities.contains(&id_a));
        assert!(entities.contains(&id_b));
        assert!(entities.len() == 2);
    }

    action.set_position(id_b, coord_b);
    env.sh.update(&env.ctx, &action, 0);
    env.ctx.commit(&mut action);

    {
        let entities_a = env.sh.get(coord_a).entity_ids();
        let entities_b = env.sh.get(coord_b).entity_ids();

        assert!(entities_a.len() == 1);
        assert!(entities_b.len() == 1);
        assert!(entities_a.contains(&id_a));
        assert!(entities_b.contains(&id_b));
    }
}

#[test]
fn component_swap() {
    let mut env = Env::new();
    let mut action = new_action();

    let coord_a = Coord::new(1, 2);
    let coord_b = Coord::new(1, 3);

    let id_a = {
        let id = env.reserve();
        action.set_position(id, coord_a);
        insert_opacity(&mut action, id, 1.0);
        id
    };

    let id_b = {
        let id = env.reserve();
        action.set_position(id, coord_b);
        insert_opacity(&mut action, id, 0.5);
        id
    };

    env.sh.update(&env.ctx, &action, 0);
    env.ctx.commit(&mut action);

    assert_eq!(
        (get_opacity(&env, coord_a) * 10.0).round(),
        (1.0_f64 * 10.0).round()
    );
    assert_eq!(
        (get_opacity(&env, coord_b) * 10.0).round(),
        (0.5_f64 * 10.0).round()
    );

    action.swap_component(OPACITY, &env.ctx, id_b, id_a);

    env.sh.update(&env.ctx, &action, 0);
    env.ctx.commit(&mut action);

    assert_eq!(
        (get_opacity(&env, coord_a) * 10.0).round(),
        (0.5_f64 * 10.0).round()
    );
    assert_eq!(
        (get_opacity(&env, coord_b) * 10.0).round(),
        (1.0_f64 * 10.0).round()
    );
}

#[test]
fn component_empty_swap() {
    let mut env = Env::new();
    let mut action = new_action();

    let coord_a = Coord::new(1, 2);
    let coord_b = Coord::new(1, 3);

    let id_a = {
        let id = env.reserve();
        action.set_position(id, coord_a);
        id
    };

    let id_b = {
        let id = env.reserve();
        action.set_position(id, coord_b);
        insert_opacity(&mut action, id, 0.5);
        id
    };

    env.sh.update(&env.ctx, &action, 0);
    env.ctx.commit(&mut action);

    assert_eq!(
        (get_opacity(&env, coord_a) * 10.0).round(),
        (0.0_f64 * 10.0).round()
    );
    assert_eq!(
        (get_opacity(&env, coord_b) * 10.0).round(),
        (0.5_f64 * 10.0).round()
    );

    action.swap_component(OPACITY, &env.ctx, id_b, id_a);

    env.sh.update(&env.ctx, &action, 0);
    env.ctx.commit(&mut action);

    assert_eq!(
        (get_opacity(&env, coord_a) * 10.0).round(),
        (0.5_f64 * 10.0).round()
    );
    assert_eq!(
        (get_opacity(&env, coord_b) * 10.0).round(),
        (0_f64 * 10.0).round()
    );
}

#[test]
fn component_position_swap() {
    let mut env = Env::new();
    let mut action = new_action();

    let coord_a = Coord::new(1, 2);
    let coord_b = Coord::new(1, 3);

    let id_a = {
        let id = env.reserve();
        action.set_position(id, coord_a);
        insert_opacity(&mut action, id, 1.0);
        id
    };

    let id_b = {
        let id = env.reserve();
        action.set_position(id, coord_b);
        insert_opacity(&mut action, id, 0.5);
        id
    };

    env.sh.update(&env.ctx, &action, 0);
    env.ctx.commit(&mut action);

    assert_eq!(
        (get_opacity(&env, coord_a) * 10.0).round(),
        (1.0_f64 * 10.0).round()
    );
    assert_eq!(
        (get_opacity(&env, coord_b) * 10.0).round(),
        (0.5_f64 * 10.0).round()
    );

    action.swap_position(&env.ctx, id_b, id_a);

    env.sh.update(&env.ctx, &action, 0);
    env.ctx.commit(&mut action);

    assert_eq!(
        (get_opacity(&env, coord_a) * 10.0).round(),
        (0.5_f64 * 10.0).round()
    );
    assert_eq!(
        (get_opacity(&env, coord_b) * 10.0).round(),
        (1.0_f64 * 10.0).round()
    );
}
