use engine_core::collections::{KeyMap, KeySet};
use engine_core::ecs::equipment_set::{EquipmentSet, EquipmentSetRegistry};
use engine_core::ecs::item::ItemRegistry;
use engine_core::ecs::registry::ComponentRegistry;
use engine_core::ecs::schema::ComponentSchema;
use engine_core::ecs::template::UnitTemplate;
use engine_core::ecs::world::zone::ZoneShape;
use engine_core::ecs::world::World;
use engine_core::json::Json;

type Handler = fn(&Json);

fn obj(entries: Vec<(&str, Json)>) -> Json {
    Json::Object(entries.into_iter().map(|(k, v)| (k.to_string(), v)).collect())
}

fn s(text: &str) -> Json {
    Json::Str(text.to_string())
}

fn world_with(components: &[&str], modes: &[&str]) -> World<Handler> {
    let mut registry = ComponentRegistry::new();
    for name in components {
        registry.register_external_schema(ComponentSchema {
            name: name.to_string(),
            schema: obj(vec![("type", s("object"))]),
            modes: modes.iter().map(|m| m.to_string()).collect(),
        });
    }
    World::new(registry)
}

fn colony_world() -> World<Handler> {
    world_with(
        &["Health", "Tag", "Item", "Inventory", "Equipment", "Stats", "Zone", "ZoneRect", "RegionAssignment"],
        &["colony"],
    )
}

#[test]
fn spawn_gives_fresh_increasing_ids() {
    let mut world = colony_world();
    let a = world.spawn_entity();
    let b = world.spawn_entity();
    assert_eq!(a, 1);
    assert_eq!(b, 2);
    assert!(world.entity_exists(a) && world.entity_exists(b));
    assert_eq!(world.get_entities(), vec![1, 2]);
}

#[test]
fn get_after_set_returns_value() {
    let mut world = colony_world();
    let e = world.spawn_entity();
    let v = obj(vec![("hp", Json::Int(7))]);
    world.set_component(e, "Health", v).unwrap();
    assert_eq!(world.get_component(e, "Health"), Some(&obj(vec![("hp", Json::Int(7))])));
    assert!(world.has_component(e, "Health"));
    assert_eq!(world.get_entities_with_component("Health"), vec![e]);
}

#[test]
fn set_refused_outside_mode_and_unknown() {
    let mut world = colony_world();
    let e = world.spawn_entity();
    world.set_mode("roguelike");
    let r = world.set_component(e, "Health", obj(vec![]));
    assert_eq!(r, Err("Component Health not allowed in mode roguelike".to_string()));
    world.set_mode("colony");
    let r = world.set_component(e, "Unknown", obj(vec![]));
    assert_eq!(r, Err("Component Unknown not allowed in mode colony".to_string()));
    assert!(world.get_component(e, "Health").is_none());
}

#[test]
fn schema_validation_failure_is_reported() {
    let mut registry = ComponentRegistry::new();
    registry.register_external_schema(ComponentSchema {
        name: "Health".to_string(),
        schema: obj(vec![("type", s("object")), ("required", Json::Array(vec![s("hp")]))]),
        modes: vec!["colony".to_string()],
    });
    let mut world: World<Handler> = World::new(registry);
    let e = world.spawn_entity();
    let r = world.set_component(e, "Health", obj(vec![]));
    assert!(r.unwrap_err().starts_with("Schema validation failed: "));
    assert!(world.set_component(e, "Health", obj(vec![("hp", Json::Int(3))])).is_ok());
}

#[test]
fn mode_hides_components() {
    let mut world = colony_world();
    let e = world.spawn_entity();
    world.set_component(e, "Health", obj(vec![])).unwrap();
    world.set_mode("roguelike");
    assert!(world.get_component(e, "Health").is_none());
    assert_eq!(world.get_mode(), "roguelike");
}

#[test]
fn despawn_removes_entity_and_components() {
    let mut world = colony_world();
    let a = world.spawn_entity();
    let b = world.spawn_entity();
    world.set_component(a, "Health", obj(vec![])).unwrap();
    world.set_component(b, "Health", obj(vec![])).unwrap();
    world.despawn_entity(a);
    assert!(!world.entity_exists(a));
    assert!(world.get_component(a, "Health").is_none());
    assert!(world.get_component(b, "Health").is_some());
}

#[test]
fn remove_component_reports_missing() {
    let mut world = colony_world();
    let e = world.spawn_entity();
    world.set_component(e, "Health", obj(vec![])).unwrap();
    assert!(world.remove_component(e, "Health").is_ok());
    assert!(world.get_component(e, "Health").is_none());
    assert!(world.remove_component(e, "Health").is_err());
}

#[test]
fn component_changes_are_announced() {
    let mut world = colony_world();
    let e = world.spawn_entity();
    world.set_component(e, "Health", obj(vec![("hp", Json::Int(1))])).unwrap();
    world.event_buses.update_event_buses();
    let events = world.take_events("component_changed");
    assert_eq!(events.len(), 1);
    assert_eq!(events[0].get("action"), Some(&s("set")));
    assert_eq!(events[0].get("component"), Some(&s("Health")));
    assert_eq!(events[0].get("entity"), Some(&Json::Int(e as i64)));
}

fn zone_id(r: Result<String, String>) -> String {
    r.unwrap()
}

#[test]
fn designate_and_remove_rect_zone() {
    let mut world = colony_world();
    let id = zone_id(world.designate_zone("stockpile", Some("Main"), ZoneShape::Rect { x0: 0, y0: 0, z: 0, x1: 2, y1: 3 }));
    assert_eq!(id, "zone-1");
    let second = zone_id(world.designate_zone("farm", None, ZoneShape::Rect { x0: 1, y0: 1, z: 0, x1: 1, y1: 1 }));
    assert_eq!(second, "zone-2");
    assert_eq!(world.remove_zone("zone-1"), Ok(true));
    assert_eq!(world.remove_zone("zone-1"), Ok(false));
    // The other zone is untouched.
    assert_eq!(world.rename_zone("zone-2", "Fields"), Ok(true));
}

#[test]
fn designate_zone_errors() {
    let mut world = colony_world();
    assert_eq!(
        world.designate_zone("", None, ZoneShape::Rect { x0: 0, y0: 0, z: 0, x1: 1, y1: 1 }),
        Err("designate_zone: 'kind' must be a non-empty string".to_string())
    );
    assert_eq!(
        world.designate_zone("farm", None, ZoneShape::Rect { x0: 5, y0: 0, z: 0, x1: -1, y1: 1 }),
        Err("designate_zone: rect 'x0' (5) must be <= 'x1' (-1)".to_string())
    );
    assert_eq!(
        world.designate_zone("farm", None, ZoneShape::Rect { x0: 0, y0: 2, z: 0, x1: 1, y1: 1 }),
        Err("designate_zone: rect 'y0' (2) must be <= 'y1' (1)".to_string())
    );
    assert_eq!(
        world.designate_zone("farm", None, ZoneShape::Cells(vec![s("nowhere")])),
        Err("designate_zone: cells[0] is not a valid Square/Hex cell or Region reference".to_string())
    );
    world.set_mode("roguelike");
    assert_eq!(
        world.remove_zone("zone-1"),
        Err("remove_zone: world is in 'roguelike' mode; zone management requires 'colony' mode".to_string())
    );
}

#[test]
fn removing_zone_strips_shared_assignment() {
    let mut world = colony_world();
    let cell = obj(vec![("Square", obj(vec![("x", Json::Int(0)), ("y", Json::Int(0)), ("z", Json::Int(0))]))]);
    let id = zone_id(world.designate_zone("farm", None, ZoneShape::Cells(vec![cell])));
    let e = world.spawn_entity();
    world
        .set_component(e, "RegionAssignment", obj(vec![("region_id", Json::Array(vec![s(&id), s("zone-9")]))]))
        .unwrap();
    assert_eq!(world.remove_zone(&id), Ok(true));
    assert_eq!(
        world.get_component(e, "RegionAssignment").unwrap().get("region_id"),
        Some(&Json::Array(vec![s("zone-9")]))
    );
}

#[test]
fn validate_zones_drops_orphan_rects() {
    let mut world = colony_world();
    let e = world.spawn_entity();
    world.set_component(e, "ZoneRect", obj(vec![("zone_id", s("zone-42"))])).unwrap();
    world.validate_zones();
    assert!(!world.entity_exists(e));
    assert!(world.get_component(e, "ZoneRect").is_none());
}

fn item(id: &str, slot: &str) -> Json {
    obj(vec![("id", s(id)), ("name", s(id)), ("slot", s(slot))])
}

fn loadout_world() -> (World<Handler>, u32) {
    let mut world = colony_world();
    world.item_registry.register_item(item("sword", "weapon")).unwrap();
    world.item_registry.register_item(item("mail", "armor")).unwrap();
    let mut items: KeyMap<String, String> = KeyMap::new();
    items.insert("weapon".to_string(), "sword".to_string());
    items.insert("armor".to_string(), "mail".to_string());
    world.equipment_set_registry.register_set(EquipmentSet {
        name: "starter".to_string(),
        version: "1.0.0".to_string(),
        description: String::new(),
        items,
    });
    let e = world.spawn_entity();
    world.set_component(e, "Inventory", obj(vec![("slots", Json::Array(vec![]))])).unwrap();
    (world, e)
}

#[test]
fn apply_loadout_equips_and_stocks() {
    let (mut world, e) = loadout_world();
    assert_eq!(world.apply_loadout(e, "starter"), Ok(e));
    assert_eq!(
        world.get_component(e, "Inventory").unwrap().get("slots"),
        Some(&Json::Array(vec![s("sword"), s("mail")]))
    );
    let eq = world.get_component(e, "Equipment").unwrap();
    assert_eq!(eq.get("slots").unwrap().get("weapon"), Some(&s("sword")));
    assert_eq!(eq.get("slots").unwrap().get("armor"), Some(&s("mail")));
    assert_eq!(world.get_component(e + 1, "Item"), Some(&item("sword", "weapon")));
    assert_eq!(world.get_component(e + 2, "Item"), Some(&item("mail", "armor")));
    assert!(world.validate_equipment(e, &KeySet::new()).is_empty());
}

#[test]
fn apply_loadout_errors() {
    let (mut world, e) = loadout_world();
    assert_eq!(world.apply_loadout(e, "missing"), Err("Equipment set 'missing' not found".to_string()));
    let bare = world.spawn_entity();
    assert_eq!(world.apply_loadout(bare, "starter"), Err("Entity has no Inventory component".to_string()));
    let mut items: KeyMap<String, String> = KeyMap::new();
    items.insert("weapon".to_string(), "sword".to_string());
    items.insert("ring".to_string(), "ghost_ring".to_string());
    world.equipment_set_registry.register_set(EquipmentSet {
        name: "broken".to_string(),
        version: "1.0.0".to_string(),
        description: String::new(),
        items,
    });
    let before = world.get_entities().len();
    assert_eq!(world.apply_loadout(e, "broken"), Err("Item 'ghost_ring' not found in registry".to_string()));
    // The sword entity created before the failure is gone again.
    assert_eq!(world.get_entities().len(), before);
}

#[test]
fn validate_equipment_reports_issues() {
    let (mut world, e) = loadout_world();
    world
        .set_component(
            e,
            "Equipment",
            obj(vec![("slots", obj(vec![("head", s("sword")), ("weapon", s("nothing")), ("armor", s("sword")), ("hand", Json::Null)]))]),
        )
        .unwrap();
    let mut valid: KeySet<String> = KeySet::new();
    valid.insert("weapon".to_string());
    valid.insert("armor".to_string());
    let issues = world.validate_equipment(e, &valid);
    let got: Vec<(String, String, String)> =
        issues.into_iter().map(|i| (i.slot, i.item_id, i.reason)).collect();
    assert_eq!(
        got,
        vec![
            ("head".to_string(), "sword".to_string(), "unknown_slot".to_string()),
            ("weapon".to_string(), "nothing".to_string(), "item_not_registered".to_string()),
            ("armor".to_string(), "sword".to_string(), "slot_mismatch".to_string()),
        ]
    );
}

#[test]
fn spawn_from_template_merges_overrides() {
    let mut world = colony_world();
    let mut components: KeyMap<String, Json> = KeyMap::new();
    components.insert("Health".to_string(), obj(vec![("hp", Json::Int(10)), ("max", Json::Int(10))]));
    components.insert("Tag".to_string(), obj(vec![("kind", s("goblin"))]));
    world.template_registry.register_template(UnitTemplate {
        name: "goblin".to_string(),
        version: "1.0.0".to_string(),
        description: String::new(),
        components,
    });
    let overrides = obj(vec![("Health", obj(vec![("hp", Json::Int(5))]))]);
    let e = world.spawn_from_template("goblin", Some(&overrides)).unwrap();
    assert_eq!(world.get_component(e, "Health"), Some(&obj(vec![("hp", Json::Int(5)), ("max", Json::Int(10))])));
    assert_eq!(world.get_component(e, "Tag"), Some(&obj(vec![("kind", s("goblin"))])));
    assert_eq!(
        world.spawn_from_template("dragon", None),
        Err("Template 'dragon' not found".to_string())
    );
}

#[test]
fn item_registry_checks_fields() {
    let mut reg = ItemRegistry::new();
    assert_eq!(reg.register_item(obj(vec![])), Err("Item definition missing required 'id' field".to_string()));
    assert_eq!(
        reg.register_item(obj(vec![("id", s("a"))])),
        Err("Item 'a' missing required 'name' field".to_string())
    );
    assert_eq!(
        reg.register_item(obj(vec![("id", s("a")), ("name", s("A"))])),
        Err("Item 'a' missing required 'slot' field".to_string())
    );
    assert!(reg.register_item(item("a", "hand")).is_ok());
    assert_eq!(reg.get_item("a"), Some(&item("a", "hand")));
    assert_eq!(reg.list_items(), vec!["a".to_string()]);
}

#[test]
fn equipment_set_registry_roundtrip() {
    let mut reg = EquipmentSetRegistry::new();
    assert!(reg.get_set("x").is_none());
    reg.register_set(EquipmentSet {
        name: "x".to_string(),
        version: "2.0.0".to_string(),
        description: "d".to_string(),
        items: KeyMap::new(),
    });
    assert_eq!(reg.get_set("x").unwrap().version, "2.0.0");
    assert_eq!(reg.list_sets(), vec!["x".to_string()]);
}

#[test]
fn failed_loadout_restores_entities_and_inventory() {
    let (mut world, e) = loadout_world();
    world.set_component(e, "Equipment", obj(vec![("slots", obj(vec![("back", s("cloak"))]))])).unwrap();
    world.set_component(e, "Inventory", obj(vec![("slots", Json::Array(vec![s("bread")]))])).unwrap();
    let mut items: KeyMap<String, String> = KeyMap::new();
    items.insert("weapon".to_string(), "sword".to_string());
    items.insert("armor".to_string(), "mail".to_string());
    items.insert("ring".to_string(), "ghost_ring".to_string());
    world.equipment_set_registry.register_set(EquipmentSet {
        name: "broken".to_string(),
        version: "1.0.0".to_string(),
        description: String::new(),
        items,
    });
    let entities = world.get_entities();
    assert_eq!(world.apply_loadout(e, "broken"), Err("Item 'ghost_ring' not found in registry".to_string()));
    assert_eq!(world.get_entities(), entities);
    assert_eq!(
        world.get_component(e, "Inventory").unwrap().get("slots"),
        Some(&Json::Array(vec![s("bread")]))
    );
    assert!(world.get_component(e + 1, "Item").is_none());
    assert!(world.get_component(e + 2, "Item").is_none());
    let eq = world.get_component(e, "Equipment").unwrap();
    assert_eq!(eq.get("slots").unwrap().get("weapon"), Some(&Json::Null));
    assert_eq!(eq.get("slots").unwrap().get("armor"), Some(&Json::Null));
    assert_eq!(eq.get("slots").unwrap().get("back"), Some(&s("cloak")));
}

#[test]
fn loadout_with_a_refused_item_store_restores_entities_and_inventory() {
    let (mut world, e) = loadout_world();
    world.set_component(e, "Inventory", obj(vec![("slots", Json::Array(vec![s("bread")]))])).unwrap();
    let only_weapons = ComponentSchema {
        name: "Item".to_string(),
        schema: obj(vec![("type", s("object")), ("properties", obj(vec![("slot", obj(vec![("const", s("weapon"))]))]))]),
        modes: vec!["colony".to_string()],
    };
    assert!(world.hotreload_schema(only_weapons).is_ok());
    let entities = world.get_entities();
    let r = world.apply_loadout(e, "starter");
    assert!(r.unwrap_err().starts_with("Schema validation failed: "));
    assert_eq!(world.get_entities(), entities);
    assert_eq!(
        world.get_component(e, "Inventory").unwrap().get("slots"),
        Some(&Json::Array(vec![s("bread")]))
    );
    assert!(world.get_component(e + 1, "Item").is_none());
    assert!(world.get_component(e + 2, "Item").is_none());
    let eq = world.get_component(e, "Equipment").unwrap();
    assert_eq!(eq.get("slots").unwrap().get("weapon"), Some(&Json::Null));
}
