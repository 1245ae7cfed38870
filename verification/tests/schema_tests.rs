use engine_core::ecs::schema::{extract_name, is_json_path, ComponentSchema};
use engine_core::json::Json;

fn obj(entries: Vec<(&str, Json)>) -> Json {
    Json::Object(entries.into_iter().map(|(k, v)| (k.to_string(), v)).collect())
}

fn s(text: &str) -> Json {
    Json::Str(text.to_string())
}

#[test]
fn test_non_json_extension_skipped() {
    assert!(!is_json_path("schema.txt"));
    assert!(!is_json_path("schema"));
    assert!(!is_json_path(".json")); // hidden file, no stem
    assert!(is_json_path("schema.json"));
    assert!(is_json_path("dir/schema.json"));
}

#[test]
fn test_name_field_wins() {
    let v = obj(vec![("name", s("ExplicitName")), ("title", s("FallbackTitle"))]);
    assert_eq!(extract_name(&v, Some("file")), "ExplicitName");
}

#[test]
fn test_title_fallback() {
    let v = obj(vec![("title", s("TitleOnly"))]);
    assert_eq!(extract_name(&v, Some("file")), "TitleOnly");
}

#[test]
fn test_filename_fallback() {
    let v = obj(vec![]);
    assert_eq!(extract_name(&v, Some("my_schema")), "my_schema");
}

#[test]
fn test_unknown_fallback() {
    let v = obj(vec![]);
    assert_eq!(extract_name(&v, None), "unknown");
}

#[test]
fn test_empty_name_falls_to_title() {
    let v = obj(vec![("name", s("")), ("title", s("TitleValue"))]);
    assert_eq!(extract_name(&v, Some("file")), "TitleValue");
}

#[test]
fn test_empty_title_falls_to_filename() {
    let v = obj(vec![("name", s("")), ("title", s(""))]);
    assert_eq!(extract_name(&v, Some("stem_name")), "stem_name");
}

#[test]
fn test_both_empty_falls_to_filename() {
    let v = obj(vec![("name", s("")), ("title", s(""))]);
    assert_eq!(extract_name(&v, Some("fallback_stem")), "fallback_stem");
}

#[test]
fn test_null_name_falls_through() {
    let v = obj(vec![("name", Json::Null), ("title", s("TitleValue"))]);
    assert_eq!(extract_name(&v, Some("file")), "TitleValue");
}

#[test]
fn test_null_title_falls_through() {
    let v = obj(vec![("name", Json::Null), ("title", Json::Null)]);
    assert_eq!(extract_name(&v, Some("stem")), "stem");
}

#[test]
fn test_component_schema_construction() {
    let schema = ComponentSchema {
        name: "MyComponent".into(),
        schema: Json::Object(vec![
            ("type".to_string(), Json::Str("object".to_string())),
            ("properties".to_string(), Json::Object(vec![])),
        ]),
        modes: vec!["Colony".into(), "Roguelike".into()],
    };
    assert_eq!(schema.name, "MyComponent");
    assert!(schema.schema.get("type").and_then(|v| v.as_str()) == Some("object"));
    assert_eq!(schema.modes.len(), 2);
    assert!(schema.modes.contains(&"Colony".to_string()));
}

#[test]
fn test_non_array_modes_error() {
    let v = Json::Object(vec![
        ("name".to_string(), Json::Str("BadModes".to_string())),
        ("modes".to_string(), Json::Str("not_an_array".to_string())),
    ]);
    let modes_result = v.get("modes").and_then(|m| m.as_array());
    assert!(modes_result.is_none());
}
