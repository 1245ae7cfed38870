use engine_core::json::Json;
use engine_core::ui::{ui_load_json, ui_try_load_json, UiState};

#[test]
fn ui_load_json_builds_tree() {
    let mut ui = UiState::new();
    let text = r#"{"widgets": [
        {"id": 1, "type": "Panel", "children": [2, 3]},
        {"id": 2, "type": "Button", "props": {"label": "OK"}},
        {"id": 3, "type": "Label"}
    ]}"#;
    let ids = ui_load_json(&mut ui, text).unwrap();
    assert_eq!(ids, vec![1, 2, 3]);
    assert_eq!(ui.widget_roots, vec![1]);
    assert_eq!(ui.widget_tree.get(&1).unwrap(), &vec![2, 3]);
    assert_eq!(ui.widget_parents.get(&2), Some(&1));
    assert_eq!(ui.widget_types.get(&2).unwrap(), "Button");
    assert_eq!(ui.widget_registry.get(&2).unwrap().get_str("label"), Some("OK"));
    assert!(ui.widget_registry.get(&3).unwrap().is_object());
    assert_eq!(ui.next_widget_id, 4);
}

#[test]
fn ui_load_json_refuses_taken_ids_and_bad_input() {
    let mut ui = UiState::new();
    ui_load_json(&mut ui, r#"{"widgets": [{"id": 5, "type": "Panel"}]}"#).unwrap();
    assert!(ui_load_json(&mut ui, r#"{"widgets": [{"id": 5, "type": "Label"}]}"#).is_none());
    assert_eq!(ui.widget_types.get(&5).unwrap(), "Panel");
    assert!(ui_load_json(&mut ui, "not json").is_none());
    assert!(ui_load_json(&mut ui, r#"{"widgets": []}"#).is_none());
    assert!(ui_load_json(&mut ui, r#"{"widgets": [{"id": 6}]}"#).is_none());
    assert_eq!(ui.widget_registry.len(), 1);
}

#[test]
fn ui_load_json_unknown_child_stops() {
    let mut ui = UiState::new();
    let r = ui_load_json(&mut ui, r#"{"widgets": [{"id": 1, "type": "Panel", "children": [9]}]}"#);
    assert!(r.is_none());
    assert!(ui.widget_registry.contains_key(&1));
}

#[test]
fn ui_try_load_json_refuses_max_id() {
    let mut ui = UiState::new();
    let text = format!(r#"{{"widgets": [{{"id": {}, "type": "Panel"}}]}}"#, u32::MAX);
    assert!(ui_try_load_json(&mut ui, &text).is_none());
    assert_eq!(ui.widget_registry.len(), 0);
    assert_eq!(ui_try_load_json(&mut ui, r#"{"widgets": [{"id": 2, "type": "Panel"}]}"#), Some(Some(vec![2])));
    let _ = Json::Null;
}
