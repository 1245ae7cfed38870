use engine_core::ecs::item::ItemRegistry;
use engine_core::ecs::loadout::valid_slots_from_json;
use engine_core::json::Json;
use engine_core::map_json::validate_map_schema;
use engine_core::text::join_with;

fn obj(entries: Vec<(&str, Json)>) -> Json {
    Json::Object(entries.into_iter().map(|(k, v)| (k.to_string(), v)).collect())
}

fn s(text: &str) -> Json {
    Json::Str(text.to_string())
}

const MAP_SCHEMA: &str = r#"{"type": "object", "required": ["topology", "cells"]}"#;

#[test]
fn map_schema_accepts_a_conforming_map() {
    let map = obj(vec![("topology", s("square")), ("cells", Json::Array(vec![]))]);
    assert_eq!(validate_map_schema(MAP_SCHEMA, &map), Ok(()));
}

#[test]
fn map_schema_reports_missing_fields_joined() {
    let map = obj(vec![]);
    let err = validate_map_schema(MAP_SCHEMA, &map).unwrap_err();
    assert!(err.starts_with("Map schema validation failed: "));
    assert!(err.contains("topology"));
    assert!(err.contains("; "));
    assert!(err.contains("cells"));
}

#[test]
fn map_schema_text_that_does_not_parse() {
    let err = validate_map_schema("{", &obj(vec![])).unwrap_err();
    assert!(err.starts_with("Failed to parse map schema: "));
    assert!(err.len() > "Failed to parse map schema: ".len());
}

#[test]
fn map_schema_that_does_not_compile() {
    let err = validate_map_schema(r#"{"type": 5}"#, &obj(vec![])).unwrap_err();
    assert!(err.starts_with("Failed to compile map schema: "));
}

#[test]
fn join_with_separates_neighbours_only() {
    let msgs = vec!["a".to_string(), "b".to_string(), "c".to_string()];
    assert_eq!(join_with(&msgs, "; "), "a; b; c");
    assert_eq!(join_with(&vec!["only".to_string()], "; "), "only");
    assert_eq!(join_with(&vec![], "; "), "");
}

#[test]
fn slot_list_keeps_string_items() {
    let list = obj(vec![("slots", Json::Array(vec![s("head"), Json::Int(3), s("hands"), s("head")]))]);
    let slots = valid_slots_from_json(&list);
    assert_eq!(slots.len(), 2);
    assert!(slots.contains(&"head".to_string()));
    assert!(slots.contains(&"hands".to_string()));
    assert!(!slots.contains(&"feet".to_string()));
}

#[test]
fn slot_list_without_slots_is_empty() {
    assert_eq!(valid_slots_from_json(&obj(vec![("other", s("x"))])).len(), 0);
    assert_eq!(valid_slots_from_json(&obj(vec![("slots", s("head"))])).len(), 0);
}

#[test]
fn loaded_item_needs_only_an_id() {
    let mut reg = ItemRegistry::new();
    reg.add_loaded_item(obj(vec![("id", s("sword"))]), "items/sword.json").unwrap();
    assert!(reg.get_item("sword").is_some());
    let err = reg.add_loaded_item(obj(vec![("name", s("Axe"))]), "items/axe.json").unwrap_err();
    assert_eq!(err, "Item in items/axe.json missing required 'id' field");
    assert_eq!(reg.list_items(), vec!["sword".to_string()]);
}

#[test]
fn loaded_item_overrides_same_id() {
    let mut reg = ItemRegistry::new();
    reg.add_loaded_item(obj(vec![("id", s("sword")), ("power", Json::Int(1))]), "a.json").unwrap();
    reg.add_loaded_item(obj(vec![("id", s("sword")), ("power", Json::Int(2))]), "b.json").unwrap();
    assert_eq!(reg.get_item("sword").unwrap().get_i64("power"), Some(2));
    assert_eq!(reg.list_items().len(), 1);
}
