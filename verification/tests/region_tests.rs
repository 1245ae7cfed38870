use engine_core::ecs::registry::ComponentRegistry;
use engine_core::ecs::schema::ComponentSchema;
use engine_core::ecs::world::zone::ZoneShape;
use engine_core::ecs::world::World;
use engine_core::json::{json_eq, Json};

type Handler = fn(&Json);

fn obj(entries: Vec<(&str, Json)>) -> Json {
    Json::Object(entries.into_iter().map(|(k, v)| (k.to_string(), v)).collect())
}

fn s(text: &str) -> Json {
    Json::Str(text.to_string())
}

fn world() -> World<Handler> {
    let mut registry = ComponentRegistry::new();
    for name in ["Region", "Zone", "ZoneRect", "RegionAssignment"] {
        registry.register_external_schema(ComponentSchema {
            name: name.to_string(),
            schema: obj(vec![("type", s("object"))]),
            modes: vec!["colony".to_string()],
        });
    }
    World::new(registry)
}

fn square(x: i64, y: i64, z: i64) -> Json {
    obj(vec![("Square", obj(vec![("x", Json::Int(x)), ("y", Json::Int(y)), ("z", Json::Int(z))]))])
}

fn region_ref(id: &str) -> Json {
    obj(vec![("Region", obj(vec![("id", s(id))]))])
}

fn assign(w: &mut World<Handler>, region: Json, cell: Json) {
    let e = w.spawn_entity();
    w.set_component(e, "RegionAssignment", obj(vec![("region_id", region), ("cell", cell)])).unwrap();
}

fn has(cells: &[Json], c: &Json) -> bool {
    cells.iter().any(|x| json_eq(x, c))
}

#[test]
fn region_cells_follow_nested_references() {
    let mut w = world();
    assign(&mut w, s("north"), square(1, 1, 0));
    assign(&mut w, s("north"), region_ref("valley"));
    assign(&mut w, Json::Array(vec![s("valley"), s("other")]), square(2, 2, 0));
    assign(&mut w, s("valley"), region_ref("north"));
    assign(&mut w, s("elsewhere"), square(9, 9, 0));
    let cells = w.cells_in_region("north");
    assert!(has(&cells, &square(1, 1, 0)));
    assert!(has(&cells, &square(2, 2, 0)));
    assert!(!has(&cells, &square(9, 9, 0)));
    assert!(!has(&cells, &region_ref("valley")));
    assert_eq!(cells.len(), 2);
    let valley = w.cells_in_region("valley");
    assert_eq!(valley.len(), 2);
    assert!(w.cells_in_region("nowhere").is_empty());
}

#[test]
fn region_cells_expand_zone_rects_without_repeats() {
    let mut w = world();
    let e = w.spawn_entity();
    w.set_component(
        e,
        "ZoneRect",
        obj(vec![
            ("zone_id", s("zone-1")),
            ("x0", Json::Int(0)),
            ("y0", Json::Int(0)),
            ("z", Json::Int(0)),
            ("x1", Json::Int(1)),
            ("y1", Json::Int(2)),
        ]),
    )
    .unwrap();
    assign(&mut w, s("zone-1"), square(0, 0, 0));
    let cells = w.cells_in_region("zone-1");
    assert_eq!(cells.len(), 6);
    for x in 0..=1 {
        for y in 0..=2 {
            assert!(has(&cells, &square(x, y, 0)));
        }
    }
}

#[test]
fn region_kind_cells_union_regions_and_zones() {
    let mut w = world();
    let r = w.spawn_entity();
    w.set_component(r, "Region", obj(vec![("id", Json::Array(vec![s("farm-a"), s("farm-b")])), ("kind", s("farm"))])).unwrap();
    let z = w.spawn_entity();
    w.set_component(z, "Zone", obj(vec![("id", s("zone-7")), ("kind", s("farm"))])).unwrap();
    let other = w.spawn_entity();
    w.set_component(other, "Region", obj(vec![("id", s("mine")), ("kind", s("mine"))])).unwrap();
    assign(&mut w, s("farm-a"), square(1, 0, 0));
    assign(&mut w, s("farm-b"), square(2, 0, 0));
    assign(&mut w, s("zone-7"), square(3, 0, 0));
    assign(&mut w, s("mine"), square(4, 0, 0));
    let cells = w.cells_in_region_kind("farm");
    assert_eq!(cells.len(), 3);
    assert!(has(&cells, &square(1, 0, 0)));
    assert!(has(&cells, &square(2, 0, 0)));
    assert!(has(&cells, &square(3, 0, 0)));
    assert!(!has(&cells, &square(4, 0, 0)));
}

fn zone_record(w: &mut World<Handler>, id: &str, kind: &str, label: Option<&str>) {
    let e = w.spawn_entity();
    let mut fields = vec![("id", s(id)), ("kind", s(kind))];
    if let Some(l) = label {
        fields.push(("label", s(l)));
    }
    w.set_component(e, "Zone", obj(fields)).unwrap();
}

fn zone_rect(w: &mut World<Handler>, id: &str, x0: i64, x1: i64) {
    let e = w.spawn_entity();
    w.set_component(
        e,
        "ZoneRect",
        obj(vec![
            ("zone_id", s(id)),
            ("x0", Json::Int(x0)),
            ("y0", Json::Int(0)),
            ("z", Json::Int(0)),
            ("x1", Json::Int(x1)),
            ("y1", Json::Int(0)),
        ]),
    )
    .unwrap();
}

#[test]
fn list_zones_sorted_by_id_with_counts() {
    let mut w = world();
    zone_record(&mut w, "zone-2", "farm", None);
    zone_record(&mut w, "zone-1", "stock", Some("Main"));
    zone_rect(&mut w, "zone-1", 0, 2);
    assign(&mut w, s("zone-2"), square(5, 5, 0));
    let rows = w.list_zones();
    assert_eq!(rows.len(), 2);
    assert_eq!(rows[0].get_str("id"), Some("zone-1"));
    assert_eq!(rows[0].get_str("label"), Some("Main"));
    assert_eq!(rows[0].get_str("kind"), Some("stock"));
    assert_eq!(rows[0].get_i64("cell_count"), Some(3));
    assert_eq!(rows[1].get_str("id"), Some("zone-2"));
    assert!(json_eq(rows[1].get("label").unwrap(), &Json::Null));
    assert_eq!(rows[1].get_i64("cell_count"), Some(1));
}

#[test]
fn get_zone_describes_record_rects_and_cells() {
    let mut w = world();
    assert!(w.get_zone("zone-1").is_none());
    zone_record(&mut w, "zone-1", "stock", Some("Main"));
    zone_rect(&mut w, "zone-1", 3, 4);
    zone_rect(&mut w, "zone-1", 1, 2);
    zone_rect(&mut w, "zone-9", 7, 8);
    assign(&mut w, s("zone-1"), square(9, 9, 0));
    let z = w.get_zone("zone-1").unwrap();
    assert_eq!(z.get_str("id"), Some("zone-1"));
    assert_eq!(z.get_str("label"), Some("Main"));
    assert_eq!(z.get_str("kind"), Some("stock"));
    let rects = z.get("rects").unwrap().as_array().unwrap();
    assert_eq!(rects.len(), 2);
    assert_eq!(rects[0].get_i64("x0"), Some(1));
    assert_eq!(rects[1].get_i64("x0"), Some(3));
    let cells = z.get("cells").unwrap().as_array().unwrap();
    assert_eq!(cells.len(), 1);
    assert!(json_eq(&cells[0], &square(9, 9, 0)));
}

#[test]
fn designate_rect_zone_then_describe_it() {
    let mut w = world();
    let id = w
        .designate_zone("stockpile", Some("north"), ZoneShape::Rect { x0: 0, y0: 0, z: 0, x1: 2, y1: 1 })
        .unwrap();
    assert!(id.starts_with("zone-"));
    let z = w.get_zone(&id).unwrap();
    assert_eq!(z.get_str("id"), Some(id.as_str()));
    assert_eq!(z.get_str("kind"), Some("stockpile"));
    assert_eq!(z.get_str("label"), Some("north"));
    let rects = z.get("rects").unwrap().as_array().unwrap();
    assert_eq!(rects.len(), 1);
    assert_eq!(rects[0].get_i64("x1"), Some(2));
    assert_eq!(z.get("cells").unwrap().as_array().unwrap().len(), 0);
    assert_eq!(w.cells_in_region(&id).len(), 6);
}

#[test]
fn designate_zone_fails_when_a_record_is_refused() {
    let mut registry = ComponentRegistry::new();
    for (name, body) in [
        ("Zone", obj(vec![("type", s("object"))])),
        ("ZoneRect", obj(vec![("type", s("object")), ("required", Json::Array(vec![s("missing")]))])),
    ] {
        registry.register_external_schema(ComponentSchema { name: name.to_string(), schema: body, modes: vec!["colony".to_string()] });
    }
    let mut w: World<Handler> = World::new(registry);
    let r = w.designate_zone("farm", None, ZoneShape::Rect { x0: 0, y0: 0, z: 0, x1: 0, y1: 0 });
    assert!(r.unwrap_err().starts_with("Schema validation failed: "));
}

fn same_cells(a: &[Json], b: &[Json]) -> bool {
    a.len() == b.len() && a.iter().all(|x| has(b, x)) && b.iter().all(|x| has(a, x))
}

#[test]
fn assigning_cells_twice_is_the_same_as_once() {
    let mut w = world();
    let id = w.designate_zone("farm", None, ZoneShape::Rect { x0: 0, y0: 0, z: 0, x1: 1, y1: 0 }).unwrap();
    let extra = || vec![square(5, 5, 0), square(6, 5, 0)];
    assert_eq!(w.assign_cells_to_zone(&id, extra()), Ok(true));
    let entities = w.get_entities();
    let zone = w.get_zone(&id).unwrap();
    let cells = w.cells_in_region(&id);
    assert_eq!(cells.len(), 4);
    assert_eq!(w.assign_cells_to_zone(&id, extra()), Ok(true));
    assert_eq!(w.get_entities(), entities);
    assert!(json_eq(&w.get_zone(&id).unwrap(), &zone));
    assert!(same_cells(&w.cells_in_region(&id), &cells));
}

#[test]
fn assigning_then_unassigning_a_cell_restores_the_zone() {
    let mut w = world();
    let id = w.designate_zone("farm", None, ZoneShape::Rect { x0: 0, y0: 0, z: 0, x1: 1, y1: 1 }).unwrap();
    let zone = w.get_zone(&id).unwrap();
    let cells = w.cells_in_region(&id);
    assert_eq!(w.assign_cells_to_zone(&id, vec![square(7, 7, 0)]), Ok(true));
    assert_eq!(w.cells_in_region(&id).len(), 5);
    assert_eq!(w.unassign_cells_from_zone(&id, vec![square(7, 7, 0)]), Ok(true));
    assert!(json_eq(&w.get_zone(&id).unwrap(), &zone));
    assert!(same_cells(&w.cells_in_region(&id), &cells));
}

#[test]
fn removing_a_zone_keeps_the_other_zones() {
    let mut w = world();
    let a = w.designate_zone("farm", None, ZoneShape::Rect { x0: 0, y0: 0, z: 0, x1: 1, y1: 0 }).unwrap();
    let b = w.designate_zone("stockpile", Some("south"), ZoneShape::Cells(vec![square(4, 4, 0), square(4, 5, 0)])).unwrap();
    assign(&mut w, Json::Array(vec![s(&a), s(&b)]), square(9, 9, 0));
    let zone_b = w.get_zone(&b).unwrap();
    let cells_b = w.cells_in_region(&b);
    assert_eq!(cells_b.len(), 3);
    assert_eq!(w.remove_zone(&a), Ok(true));
    assert!(w.get_zone(&a).is_none());
    assert!(w.cells_in_region(&a).is_empty());
    assert!(json_eq(&w.get_zone(&b).unwrap(), &zone_b));
    assert!(same_cells(&w.cells_in_region(&b), &cells_b));
}

#[test]
fn validating_zones_twice_changes_nothing_more() {
    let mut w = world();
    let live = w.designate_zone("farm", None, ZoneShape::Cells(vec![square(1, 1, 0)])).unwrap();
    assign(&mut w, s("zone-77"), square(2, 2, 0));
    assign(&mut w, Json::Array(vec![s(&live), s("zone-78"), s("plain")]), square(3, 3, 0));
    let r = w.spawn_entity();
    w.set_component(r, "ZoneRect", obj(vec![("zone_id", s("zone-79")), ("x0", Json::Int(0))])).unwrap();
    w.validate_zones();
    let entities = w.get_entities();
    let cells = w.cells_in_region(&live);
    assert_eq!(cells.len(), 2);
    assert!(w.get_entities_with_component("ZoneRect").is_empty());
    w.validate_zones();
    assert_eq!(w.get_entities(), entities);
    assert!(same_cells(&w.cells_in_region(&live), &cells));
    assert!(w.get_zone(&live).is_some());
}
