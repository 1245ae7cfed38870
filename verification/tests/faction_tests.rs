use engine_core::ecs::registry::ComponentRegistry;
use engine_core::ecs::schema::ComponentSchema;
use engine_core::ecs::world::World;
use engine_core::faction::{get_faction, get_reputation, modify_reputation, set_faction};
use engine_core::json::Json;

type Handler = fn(&Json);

fn object_schema() -> Json {
    Json::Object(vec![("type".to_string(), Json::Str("object".to_string()))])
}

fn setup_world() -> World<Handler> {
    let mut registry = ComponentRegistry::new();
    let modes = vec!["colony".to_string(), "roguelike".to_string(), "simulation".to_string()];
    registry.register_external_schema(ComponentSchema {
        name: "Faction".to_string(),
        schema: object_schema(),
        modes: modes.clone(),
    });
    registry.register_external_schema(ComponentSchema {
        name: "Reputation".to_string(),
        schema: object_schema(),
        modes,
    });
    let mut world: World<Handler> = World::new(registry);
    world.current_mode = "colony".to_string();
    world
}

#[test]
fn test_set_faction_creates_component() {
    let mut world = setup_world();
    let entity = world.spawn_entity();
    let result = set_faction(&mut world, entity, "goblins", "member");
    assert!(result.is_ok());

    let comp = world.get_component(entity, "Faction").unwrap();
    assert_eq!(comp.get("faction_id"), Some(&Json::Str("goblins".to_string())));
    assert_eq!(comp.get("role"), Some(&Json::Str("member".to_string())));
    assert_eq!(comp.get("joined_tick"), Some(&Json::Int(0)));
}

#[test]
fn test_get_faction_returns_faction_id() {
    let mut world = setup_world();
    let entity = world.spawn_entity();
    set_faction(&mut world, entity, "humans", "leader").unwrap();
    let result = get_faction(&world, entity);
    assert_eq!(result, Some("humans".to_string()));
}

#[test]
fn test_get_faction_returns_none_when_absent() {
    let mut world = setup_world();
    let entity = world.spawn_entity();
    let result = get_faction(&world, entity);
    assert_eq!(result, None);
}

#[test]
fn test_modify_reputation_creates_component() {
    let mut world = setup_world();
    let entity = world.spawn_entity();
    let result = modify_reputation(&mut world, entity, "goblins", 10);
    assert!(result.is_ok());

    let comp = world.get_component(entity, "Reputation").unwrap();
    assert_eq!(comp.get("values").unwrap().get("goblins"), Some(&Json::Int(10)));
    match comp.get("decay_rate") {
        Some(Json::Float(text)) => assert_eq!(text.parse::<f64>().unwrap(), 0.0),
        other => panic!("unexpected decay_rate: {:?}", other),
    }
}

#[test]
fn test_modify_reputation_clamps_to_max() {
    let mut world = setup_world();
    let entity = world.spawn_entity();
    modify_reputation(&mut world, entity, "goblins", 150).unwrap();
    let value = get_reputation(&world, entity, "goblins");
    assert_eq!(value, 100);
}

#[test]
fn test_modify_reputation_clamps_to_min() {
    let mut world = setup_world();
    let entity = world.spawn_entity();
    modify_reputation(&mut world, entity, "goblins", -150).unwrap();
    let value = get_reputation(&world, entity, "goblins");
    assert_eq!(value, -100);
}

#[test]
fn test_modify_reputation_emits_event() {
    let mut world = setup_world();
    let entity = world.spawn_entity();

    modify_reputation(&mut world, entity, "goblins", 10).unwrap();

    // Advance the event buses so this frame's events become the last frame's.
    world.event_buses.update_event_buses();

    let drained: Vec<Json> = world.take_events("reputation_changed");
    assert!(!drained.is_empty(), "Should have events");
    if let Some(event) = drained.first() {
        assert_eq!(event.get("entity"), Some(&Json::Int(entity as i64)));
        assert_eq!(event.get("faction"), Some(&Json::Str("goblins".to_string())));
        assert_eq!(event.get("old"), Some(&Json::Int(0)));
        assert_eq!(event.get("new"), Some(&Json::Int(10)));
        assert_eq!(event.get("delta"), Some(&Json::Int(10)));
    }
}

#[test]
fn test_get_reputation_returns_zero_when_absent() {
    let mut world = setup_world();
    let entity = world.spawn_entity();
    let result = get_reputation(&world, entity, "goblins");
    assert_eq!(result, 0);
}

#[test]
fn test_get_reputation_returns_zero_for_unknown_faction() {
    let mut world = setup_world();
    let entity = world.spawn_entity();
    modify_reputation(&mut world, entity, "goblins", 25).unwrap();
    let result = get_reputation(&world, entity, "humans");
    assert_eq!(result, 0);
}

#[test]
fn test_get_reputation_returns_correct_value() {
    let mut world = setup_world();
    let entity = world.spawn_entity();
    modify_reputation(&mut world, entity, "goblins", 25).unwrap();
    let result = get_reputation(&world, entity, "goblins");
    assert_eq!(result, 25);
}

#[test]
fn reputation_changes_accumulate_and_clamp() {
    let mut world = setup_world();
    let entity = world.spawn_entity();
    modify_reputation(&mut world, entity, "goblins", 60).unwrap();
    modify_reputation(&mut world, entity, "goblins", 30).unwrap();
    assert_eq!(get_reputation(&world, entity, "goblins"), 90);
    modify_reputation(&mut world, entity, "goblins", 30).unwrap();
    assert_eq!(get_reputation(&world, entity, "goblins"), 100);
    modify_reputation(&mut world, entity, "humans", -5).unwrap();
    assert_eq!(get_reputation(&world, entity, "humans"), -5);
    assert_eq!(get_reputation(&world, entity, "goblins"), 100);
}

#[test]
fn faction_refused_outside_its_modes() {
    let mut world = setup_world();
    let entity = world.spawn_entity();
    world.current_mode = "dungeon".to_string();
    let result = set_faction(&mut world, entity, "goblins", "member");
    assert_eq!(result, Err("Component Faction not allowed in mode dungeon".to_string()));
    assert_eq!(get_faction(&world, entity), None);
}
