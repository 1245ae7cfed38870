use engine_core::collections::KeySet;
use engine_core::ecs::registry::ComponentRegistry;
use engine_core::ecs::world::fog::{EXPLORED, UNEXPLORED, VISIBLE};
use engine_core::ecs::world::World;
use engine_core::json::Json;
use engine_core::map::cell_key::CellKey;

type Handler = fn(&Json);

fn sq(x: i32, y: i32) -> CellKey {
    CellKey::Square { x, y, z: 0 }
}

fn cells(list: Vec<CellKey>) -> KeySet<CellKey> {
    let mut set = KeySet::new();
    for c in list {
        set.insert(c);
    }
    set
}

#[test]
fn visibility_states_follow_seen_and_explored_cells() {
    let mut world: World<Handler> = World::new(ComponentRegistry::new());
    world.set_visible_cells(1, cells(vec![sq(0, 0)]));
    world.set_explored_cells(1, cells(vec![sq(0, 0), sq(1, 0)]));
    assert_eq!(world.get_visibility_state(1, &sq(0, 0)), VISIBLE);
    assert_eq!(world.get_visibility_state(1, &sq(1, 0)), EXPLORED);
    assert_eq!(world.get_visibility_state(1, &sq(2, 0)), UNEXPLORED);
    assert_eq!(world.get_visibility_state(2, &sq(0, 0)), UNEXPLORED);
}

#[test]
fn reset_fog_forgets_one_entity_only() {
    let mut world: World<Handler> = World::new(ComponentRegistry::new());
    world.set_visible_cells(1, cells(vec![sq(0, 0)]));
    world.set_explored_cells(1, cells(vec![sq(0, 0), sq(1, 0)]));
    world.set_explored_cells(2, cells(vec![sq(1, 0)]));
    world.reset_fog(1);
    assert!(world.get_explored_cells(1).is_none());
    assert_eq!(world.get_visibility_state(1, &sq(0, 0)), VISIBLE);
    assert_eq!(world.get_visibility_state(1, &sq(1, 0)), UNEXPLORED);
    assert_eq!(world.get_visibility_state(2, &sq(1, 0)), EXPLORED);
    world.reset_all_fog();
    assert_eq!(world.get_visibility_state(2, &sq(1, 0)), UNEXPLORED);
    assert_eq!(world.get_visible_cells(1).unwrap().len(), 1);
}
