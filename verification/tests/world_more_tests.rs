use engine_core::ecs::event::EventBus;
use engine_core::ecs::event_bus_registry::EventBusRegistry;
use engine_core::ecs::registry::ComponentRegistry;
use engine_core::ecs::schema::ComponentSchema;
use engine_core::ecs::system::SystemRegistry;
use engine_core::ecs::world::World;
use engine_core::json::{json_eq, Json};
use engine_core::map::cell_key::CellKey;
use engine_core::map::{SquareGridMap, Topology, WorldMap};

type Handler = fn(&Json);

fn obj(entries: Vec<(&str, Json)>) -> Json {
    Json::Object(entries.into_iter().map(|(k, v)| (k.to_string(), v)).collect())
}

fn s(text: &str) -> Json {
    Json::Str(text.to_string())
}

fn world() -> World<Handler> {
    let mut registry = ComponentRegistry::new();
    for name in [
        "Position", "Building", "Region", "Zone", "ZoneRect", "RegionAssignment", "Type", "Camera", "Agent",
        "SkillLevels", "Stockpile", "A", "B",
    ] {
        registry.register_external_schema(ComponentSchema {
            name: name.to_string(),
            schema: obj(vec![("type", s("object"))]),
            modes: vec!["colony".to_string()],
        });
    }
    World::new(registry)
}

fn square_pos(x: i64, y: i64, z: i64) -> Json {
    obj(vec![("pos", obj(vec![("Square", obj(vec![("x", Json::Int(x)), ("y", Json::Int(y)), ("z", Json::Int(z))]))]))])
}

fn sorted(mut v: Vec<u32>) -> Vec<u32> {
    v.sort();
    v
}

#[test]
fn entities_in_cell_and_zlevel() {
    let mut w = world();
    let a = w.spawn_entity();
    let b = w.spawn_entity();
    let c = w.spawn_entity();
    w.set_component(a, "Position", square_pos(1, 2, 0)).unwrap();
    w.set_component(b, "Position", square_pos(1, 2, 0)).unwrap();
    w.set_component(c, "Position", square_pos(4, 4, 1)).unwrap();
    assert_eq!(w.entities_in_cell(&CellKey::Square { x: 1, y: 2, z: 0 }), vec![a, b]);
    assert_eq!(w.entities_in_zlevel(1), vec![c]);
    assert_eq!(w.entities_in_zlevel(0), vec![a, b]);
    // Province cells count only buildings.
    let p = w.spawn_entity();
    let q = w.spawn_entity();
    let prov = obj(vec![("pos", obj(vec![("Province", obj(vec![("id", s("north"))]))]))]);
    w.set_component(p, "Position", prov.deep_clone()).unwrap();
    w.set_component(q, "Position", prov).unwrap();
    w.set_component(q, "Building", obj(vec![])).unwrap();
    assert_eq!(w.entities_in_cell(&CellKey::Province { id: "north".to_string() }), vec![q]);
}

#[test]
fn entities_with_several_components() {
    let mut w = world();
    let a = w.spawn_entity();
    let b = w.spawn_entity();
    w.set_component(a, "A", obj(vec![])).unwrap();
    w.set_component(a, "B", obj(vec![])).unwrap();
    w.set_component(b, "A", obj(vec![])).unwrap();
    assert_eq!(sorted(w.get_entities_with_components(&["A", "B"])), vec![a]);
    assert_eq!(sorted(w.get_entities_with_components(&["A"])), vec![a, b]);
    assert_eq!(w.get_entities_with_components(&[]), vec![a, b]);
    // A name never stored is ignored; only unknown names give nothing.
    assert_eq!(sorted(w.get_entities_with_components(&["A", "Camera"])), vec![a, b]);
    assert!(w.get_entities_with_components(&["Nope"]).is_empty());
}

#[test]
fn regions_and_kinds() {
    let mut w = world();
    let farm = w.designate_zone("farm", None, engine_core::ecs::world::zone::ZoneShape::Rect { x0: 0, y0: 0, z: 0, x1: 0, y1: 0 }).unwrap();
    let a = w.spawn_entity();
    let b = w.spawn_entity();
    let c = w.spawn_entity();
    w.set_component(a, "Region", obj(vec![("id", s("r1")), ("kind", s("forest"))])).unwrap();
    w.set_component(b, "Region", obj(vec![("id", Json::Array(vec![s("r2"), s(&farm)]))])).unwrap();
    w.set_component(c, "Region", obj(vec![("id", s("r1"))])).unwrap();
    assert_eq!(sorted(w.entities_in_region("r1")), vec![a, c]);
    assert_eq!(w.entities_in_region("r2"), vec![b]);
    assert_eq!(w.entities_in_region_kind("forest"), vec![a]);
    assert_eq!(w.entities_in_region_kind("farm"), vec![b]);
}

#[test]
fn count_by_type() {
    let mut w = world();
    for kind in ["dwarf", "dwarf", "goblin"] {
        let e = w.spawn_entity();
        w.set_component(e, "Type", obj(vec![("kind", s(kind))])).unwrap();
    }
    assert_eq!(w.count_entities_with_type("dwarf"), 2);
    assert_eq!(w.count_entities_with_type("goblin"), 1);
    assert_eq!(w.count_entities_with_type("elf"), 0);
}

fn cell(x: i64, y: i64) -> Json {
    obj(vec![("Square", obj(vec![("x", Json::Int(x)), ("y", Json::Int(y)), ("z", Json::Int(0))]))])
}

#[test]
fn assign_and_unassign_cells() {
    let mut w = world();
    let id = w.designate_zone("farm", None, engine_core::ecs::world::zone::ZoneShape::Cells(vec![cell(0, 0)])).unwrap();
    let before = w.get_entities().len();
    assert_eq!(w.assign_cells_to_zone(&id, vec![cell(0, 0), cell(1, 0)]), Ok(true));
    // Only the new cell gets an assignment.
    assert_eq!(w.get_entities().len(), before + 1);
    assert_eq!(w.assign_cells_to_zone("zone-99", vec![cell(5, 5)]), Ok(false));
    assert_eq!(
        w.assign_cells_to_zone(&id, vec![cell(2, 0), s("bad")]),
        Err("assign_cells_to_zone: cells[1] is not a valid Square/Hex cell or Region reference".to_string())
    );
    assert_eq!(w.unassign_cells_from_zone(&id, vec![cell(1, 0)]), Ok(true));
    assert_eq!(w.get_entities().len(), before);
    assert_eq!(w.unassign_cells_from_zone("zone-99", vec![cell(1, 0)]), Ok(false));
}

#[test]
fn agent_skills_migrate_once() {
    let mut w = world();
    let a = w.spawn_entity();
    let b = w.spawn_entity();
    let skills = obj(vec![("mining", Json::Int(3))]);
    w.set_component(a, "Agent", obj(vec![("skills", skills.deep_clone())])).unwrap();
    w.set_component(b, "Agent", obj(vec![("skills", obj(vec![]))])).unwrap();
    w.migrate_agent_skills();
    let rec = w.get_component(a, "SkillLevels").unwrap();
    assert_eq!(rec.get("skills"), Some(&skills));
    assert_eq!(rec.get("total_xp"), Some(&Json::Float("0.0".to_string())));
    assert!(w.get_component(b, "SkillLevels").is_none());
    // An existing record is kept.
    w.set_component(a, "SkillLevels", obj(vec![("skills", obj(vec![]))])).unwrap();
    w.migrate_agent_skills();
    assert_eq!(w.get_component(a, "SkillLevels"), Some(&obj(vec![("skills", obj(vec![]))])));
}

#[test]
fn scarcity_levels() {
    let mut w = world();
    assert_eq!(w.resource_scarcity("wood"), 10);
    let e = w.spawn_entity();
    w.set_component(e, "Stockpile", obj(vec![("resources", obj(vec![("wood", Json::Int(4))]))])).unwrap();
    assert_eq!(w.resource_scarcity("wood"), 5);
    let f = w.spawn_entity();
    w.set_component(f, "Stockpile", obj(vec![("resources", obj(vec![("wood", Json::Int(40))]))])).unwrap();
    assert_eq!(w.resource_scarcity("wood"), 1);
    w.set_component(f, "Stockpile", obj(vec![("resources", obj(vec![("wood", Json::Int(400))]))])).unwrap();
    assert_eq!(w.resource_scarcity("wood"), 0);
}

fn small_map() -> WorldMap {
    let mut g = SquareGridMap::new();
    g.add_cell(0, 0, 0);
    g.add_cell(1, 0, 0);
    WorldMap::new(Topology::Square(g))
}

#[test]
fn maps_links_and_transitions() {
    let mut w = world();
    assert!(w.register_map("town", small_map()).is_ok());
    assert_eq!(w.register_map("town", small_map()), Err("Map 'town' is already registered".to_string()));
    assert!(w.register_map("cave", small_map()).is_ok());
    assert_eq!(w.set_active_map("nowhere"), Err("Map 'nowhere' is not registered".to_string()));
    w.set_active_map("town").unwrap();
    assert_eq!(w.get_active_map_name(), "town");
    let src = CellKey::Square { x: 1, y: 0, z: 0 };
    let dst = CellKey::Square { x: 0, y: 0, z: 0 };
    w.link_maps("town", src.copy_key(), "cave", dst.copy_key()).unwrap();
    assert!(w.map_cell("town", &src).unwrap().same(&dst));
    assert!(w.map_cell("town", &dst).is_none());
    assert!(w.unmap_cell("cave", &dst).unwrap().same(&src));
    w.enter_map("cave", dst.copy_key()).unwrap();
    assert_eq!(w.get_active_map_name(), "cave");
    let cams = w.get_entities_with_component("Camera");
    assert_eq!(cams.len(), 1);
    assert_eq!(w.get_component(cams[0], "Camera"), Some(&obj(vec![("x", Json::Int(0)), ("y", Json::Int(0)), ("z", Json::Int(0))])));
    w.exit_map().unwrap();
    assert_eq!(w.get_active_map_name(), "town");
    assert_eq!(w.exit_map(), Err("Cannot exit map: no previous map on the stack".to_string()));
}

#[test]
fn active_map_metadata() {
    let mut w = world();
    let c = CellKey::Square { x: 0, y: 0, z: 0 };
    w.set_cell_metadata(&c, obj(vec![]));
    assert!(w.get_cell_metadata(&c).is_none());
    w.register_map("town", small_map()).unwrap();
    w.set_active_map("town").unwrap();
    w.set_cell_metadata(&c, obj(vec![("walkable", Json::Bool(true))]));
    w.merge_cell_metadata(&c, obj(vec![("terrain", s("grass"))]));
    assert_eq!(
        w.get_cell_metadata(&c),
        Some(&obj(vec![("walkable", Json::Bool(true)), ("terrain", s("grass"))]))
    );
}

#[test]
fn event_queues_deliver_after_update() {
    let mut w = world();
    w.emit_event("tick", Json::Int(1));
    let mut seen: Vec<i64> = Vec::new();
    w.process_events("tick", |e: &Json| {
        if let Json::Int(n) = e {
            seen.push(*n)
        }
    });
    assert!(seen.is_empty());
    w.update_event_queues();
    w.process_events("tick", |e: &Json| {
        if let Json::Int(n) = e {
            seen.push(*n)
        }
    });
    assert_eq!(seen, vec![1]);
    w.process_events("tick", |e: &Json| {
        if let Json::Int(n) = e {
            seen.push(*n)
        }
    });
    assert_eq!(seen, vec![1]);
}

fn note(_: &u32) {}

#[test]
fn bus_listing() {
    let mut reg: EventBusRegistry<u32, fn(&u32)> = EventBusRegistry::new();
    let mut bus: EventBus<u32, fn(&u32)> = EventBus::new();
    bus.subscribe(note);
    reg.register_event_bus("hits".to_string(), bus);
    let info = reg.list_buses();
    assert_eq!(info.len(), 1);
    assert_eq!(info[0].name, "hits");
    assert_eq!(info[0].type_label, "<unknown>");
    assert_eq!(info[0].subscriber_count, 1);
}

#[test]
fn systems_sorted_after_dependencies() {
    let mut reg = SystemRegistry::new();
    reg.register_system("render", vec!["physics".to_string(), "ghost".to_string()]);
    reg.register_system("physics", vec!["input".to_string()]);
    reg.register_system("input", vec![]);
    assert_eq!(reg.list_systems(), vec!["render", "physics", "input"]);
    assert_eq!(reg.sorted_system_names(), Ok(vec!["input".to_string(), "physics".to_string(), "render".to_string()]));
    reg.register_system("input", vec!["render".to_string()]);
    assert!(reg.sorted_system_names().is_err());
    reg.unregister_system("input");
    assert!(!reg.is_registered("input"));
    assert_eq!(reg.list_systems(), vec!["render", "physics"]);
    assert_eq!(reg.sorted_system_names(), Ok(vec!["physics".to_string(), "render".to_string()]));
}

#[test]
fn json_equality_is_structural() {
    let a = obj(vec![("x", Json::Array(vec![Json::Int(1), s("y")]))]);
    assert!(json_eq(&a, &a.deep_clone()));
    assert!(!json_eq(&a, &obj(vec![("x", Json::Array(vec![Json::Int(1)]))])));
    assert!(!json_eq(&Json::Int(1), &Json::UInt(1)));
}

fn on_json(_: &Json) {}

#[test]
fn world_event_buses_subscribe_and_list() {
    let mut w = world();
    assert_eq!(w.subscribe("hits", on_json), None);
    w.register_event_bus("hits");
    assert_eq!(w.subscribe("hits", on_json), Some(0));
    assert_eq!(w.subscribe("hits", on_json), Some(1));
    assert_eq!(w.event_bus_subscriber_count("hits"), Some(2));
    assert!(w.unsubscribe("hits", 0));
    assert!(!w.unsubscribe("hits", 0));
    assert_eq!(w.event_bus_subscriber_count("hits"), Some(1));
    w.get_or_create_event_bus("hits");
    assert_eq!(w.event_bus_subscriber_count("hits"), Some(1));
    w.get_or_create_event_bus("misses");
    assert_eq!(w.event_bus_subscriber_count("misses"), Some(0));
    let mut names = w.list_event_bus_names();
    names.sort();
    assert_eq!(names, vec!["hits".to_string(), "misses".to_string()]);
    assert_eq!(w.list_event_buses().len(), 2);
    assert_eq!(w.list_event_bus_types_and_names().len(), 2);
    assert!(w.get_event_bus("hits").is_some());
    assert!(w.get_event_bus("nothing").is_none());
    assert!(w.send_event("hits", Json::Int(3)).is_ok());
    w.update_event_buses();
    assert_eq!(w.get_event_bus("hits").unwrap().last_events().len(), 1);
}

#[test]
fn hotreload_schema_changes_what_is_accepted() {
    let mut w = world();
    let e = w.spawn_entity();
    assert!(w.set_component(e, "A", obj(vec![])).is_ok());
    let strict = ComponentSchema {
        name: "A".to_string(),
        schema: obj(vec![("type", s("object")), ("required", Json::Array(vec![s("hp")]))]),
        modes: vec!["colony".to_string()],
    };
    assert!(w.hotreload_schema(strict).is_ok());
    assert!(json_eq(w.get_component(e, "A").unwrap(), &obj(vec![])));
    let r = w.set_component(e, "A", obj(vec![]));
    assert!(r.unwrap_err().starts_with("Schema validation failed: "));
    assert!(w.set_component(e, "A", obj(vec![("hp", Json::Int(3))])).is_ok());
}

fn bump(v: &Json) -> Json {
    match v {
        Json::Object(entries) if entries.len() == 1 => obj(vec![("v", Json::Int(2))]),
        _ => Json::Null,
    }
}

#[test]
fn hotreload_schema_with_migration_rewrites_values() {
    let mut w = world();
    let e = w.spawn_entity();
    let f = w.spawn_entity();
    assert!(w.set_component(e, "A", obj(vec![("v", Json::Int(1))])).is_ok());
    assert!(w.set_component(f, "B", obj(vec![("v", Json::Int(1))])).is_ok());
    let schema = ComponentSchema {
        name: "A".to_string(),
        schema: obj(vec![("type", s("object"))]),
        modes: vec!["colony".to_string()],
    };
    assert!(w.hotreload_schema_with_migration(schema, bump).is_ok());
    assert!(json_eq(w.get_component(e, "A").unwrap(), &obj(vec![("v", Json::Int(2))])));
    assert!(json_eq(w.get_component(f, "B").unwrap(), &obj(vec![("v", Json::Int(1))])));
}

#[test]
fn get_map_follows_the_active_map() {
    let mut w = world();
    assert!(w.get_map().is_none());
    assert!(w.register_map("town", small_map()).is_ok());
    w.set_active_map("town").unwrap();
    let m = w.get_map().unwrap();
    assert!(m.contains(&CellKey::Square { x: 0, y: 0, z: 0 }));
}
