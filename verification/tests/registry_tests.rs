use engine_core::collections::KeyMap;
use engine_core::ecs::registry::{ComponentRegistry, RegistryError};
use engine_core::ecs::schema::ComponentSchema;
use engine_core::json::Json;

fn obj(entries: Vec<(&str, Json)>) -> Json {
    Json::Object(entries.into_iter().map(|(k, v)| (k.to_string(), v)).collect())
}

fn s(text: &str) -> Json {
    Json::Str(text.to_string())
}

fn schema(name: &str, body: Json, modes: Vec<&str>) -> ComponentSchema {
    ComponentSchema {
        name: name.to_string(),
        schema: body,
        modes: modes.into_iter().map(|m| m.to_string()).collect(),
    }
}

fn empty_registry() -> ComponentRegistry {
    ComponentRegistry::new()
}

/// The name a natively registered `Health` component carries.
const HEALTH_NAME: &str = "engine_core::ecs::components::Health";

#[test]
fn test_new_is_empty_len() {
    let reg = empty_registry();
    assert!(reg.all_component_names().is_empty());
    assert!(reg.all_modes().len() == 0);
    assert!(!reg.is_registered("anything"));
}

#[test]
fn test_register_external_schema_roundtrip() {
    let mut reg = empty_registry();
    reg.register_external_schema(schema("TestComponent", obj(vec![("type", s("object"))]), vec![]));
    let retrieved = reg.get_schema_by_name("TestComponent");
    assert!(retrieved.is_some());
    assert_eq!(retrieved.unwrap().name, "TestComponent");
}

#[test]
fn test_unregister_external_schema() {
    let mut reg = empty_registry();
    reg.register_external_schema(schema("TestComponent", obj(vec![]), vec![]));
    reg.unregister_external_schema("TestComponent");
    assert!(reg.get_schema_by_name("TestComponent").is_none());
}

#[test]
fn test_register_external_from_json() {
    let mut reg = empty_registry();
    let json = r#"{"title": "FromJson", "type": "object", "modes": ["Colony"]}"#;
    reg.register_external_schema_from_json(json).unwrap();
    let schema = reg.get_schema_by_name("FromJson");
    assert!(schema.is_some());
    assert_eq!(schema.unwrap().name, "FromJson");
    assert_eq!(schema.unwrap().modes, vec!["Colony"]);
}

#[test]
fn test_register_external_from_json_missing_title() {
    let mut reg = empty_registry();
    let json = r#"{"type": "object"}"#;
    let result = reg.register_external_schema_from_json(json);
    assert!(result.is_err());
    assert_eq!(result.unwrap_err(), "Missing 'title' in schema");
}

#[test]
fn test_register_external_from_json_empty_string() {
    let mut reg = empty_registry();
    let result = reg.register_external_schema_from_json("");
    assert!(result.is_err());
    assert!(reg.all_component_names().is_empty());
}

#[test]
fn test_is_registered_native_and_external() {
    let mut reg = empty_registry();
    reg.register_external_schema(schema(HEALTH_NAME, obj(vec![]), vec![]));
    reg.register_external_schema(schema("External", obj(vec![]), vec![]));

    assert!(reg.is_registered(HEALTH_NAME));
    assert!(reg.is_registered("External"));
    assert!(!reg.is_registered("NonExistent"));
}

#[test]
fn test_all_component_names() {
    let mut reg = empty_registry();
    reg.register_external_schema(schema(HEALTH_NAME, obj(vec![]), vec![]));
    reg.register_external_schema(schema("ExternalComp", obj(vec![]), vec![]));

    let names = reg.all_component_names();
    assert!(names.contains(&HEALTH_NAME.to_string()));
    assert!(names.contains(&"ExternalComp".to_string()));
    assert_eq!(names.len(), 2);
}

#[test]
fn test_all_modes_deduplicated() {
    let mut reg = empty_registry();
    reg.register_external_schema(schema("A", obj(vec![]), vec!["Colony", "Roguelike"]));
    reg.register_external_schema(schema("B", obj(vec![]), vec!["Colony"]));

    let modes = reg.all_modes();
    assert!(modes.contains(&"Colony".to_string()));
    assert!(modes.contains(&"Roguelike".to_string()));
    assert_eq!(modes.len(), 2);
}

#[test]
fn test_components_for_mode() {
    let mut reg = empty_registry();
    reg.register_external_schema(schema("ModeComp", obj(vec![]), vec!["Dungeon"]));

    let matched = reg.components_for_mode("Dungeon");
    assert_eq!(matched, vec!["ModeComp"]);

    let no_match = reg.components_for_mode("Nonexistent");
    assert!(no_match.is_empty());
}

#[test]
fn test_components_for_mode_no_match() {
    let reg = empty_registry();
    let result = reg.components_for_mode("MissingMode");
    assert!(result.is_empty());
}

#[test]
fn test_update_external_schema_replace() {
    let mut reg = empty_registry();
    reg.register_external_schema(schema("Updatable", obj(vec![("version", Json::Int(1))]), vec![]));
    reg.update_external_schema(schema("Updatable", obj(vec![("version", Json::Int(2))]), vec!["NewMode"]))
        .unwrap();

    let retrieved = reg.get_schema_by_name("Updatable").unwrap();
    assert_eq!(retrieved.schema, obj(vec![("version", Json::Int(2))]));
    assert_eq!(retrieved.modes, vec!["NewMode"]);
}

#[test]
fn test_update_external_schema_insert() {
    let mut reg = empty_registry();
    reg.update_external_schema(schema("NewInsert", obj(vec![("key", s("value"))]), vec![])).unwrap();
    assert!(reg.get_schema_by_name("NewInsert").is_some());
}

#[test]
fn test_update_external_schema_with_migration() {
    let mut reg = empty_registry();
    let mut data: KeyMap<u32, Json> = KeyMap::new();
    data.insert(1u32, obj(vec![("val", Json::Int(10))]));
    data.insert(2u32, obj(vec![("val", Json::Int(20))]));

    reg.update_external_schema_with_migration(
        schema("Migrated", obj(vec![("version", Json::Int(2))]), vec![]),
        &mut data,
        |v: &Json| {
            let mut map = v.deep_clone();
            map.insert("migrated".to_string(), Json::Bool(true));
            map
        },
    )
    .unwrap();

    assert_eq!(data.get(&1u32).unwrap().get("migrated"), Some(&Json::Bool(true)));
    assert_eq!(data.get(&2u32).unwrap().get("migrated"), Some(&Json::Bool(true)));
    assert_eq!(data.get(&1u32).unwrap().get("val"), Some(&Json::Int(10)));
    assert!(reg.get_schema_by_name("Migrated").is_some());
}

#[test]
fn test_unregister_external_schema_never_registered() {
    let mut reg = empty_registry();
    reg.unregister_external_schema("NeverRegistered");
    assert!(!reg.is_registered("NeverRegistered"));
}

#[test]
fn test_register_external_schema_overwrite() {
    let mut reg = empty_registry();
    reg.register_external_schema(schema("Overwrite", obj(vec![("data", s("first"))]), vec![]));
    reg.register_external_schema(schema("Overwrite", obj(vec![("data", s("second"))]), vec![]));

    let retrieved = reg.get_schema_by_name("Overwrite").unwrap();
    assert_eq!(retrieved.schema, obj(vec![("data", s("second"))]));
}

#[test]
fn test_get_schema_by_name_empty_registry() {
    let reg = empty_registry();
    assert!(reg.get_schema_by_name("Anything").is_none());
}

#[test]
fn registry_error_messages() {
    assert_eq!(RegistryError::UnregisteredComponent.message(), "Component not registered");
    assert_eq!(RegistryError::InvalidSchema.message(), "Invalid schema");
    assert_eq!(
        RegistryError::SerializationError("bad".to_string()).message(),
        "Serialization error: bad"
    );
}

#[test]
fn registry_modes_from_json_schema() {
    let mut reg = empty_registry();
    reg.register_external_schema_from_json(r#"{"title": "Multi", "modes": ["colony", "roguelike"]}"#)
        .unwrap();
    let matched = reg.components_for_mode("roguelike");
    assert_eq!(matched, vec!["Multi"]);
}
