use openhuman_core::gameplay_review::{all_controller_schemas, all_registered_controllers, schemas, ControllerHandler, TypeSchema};
use openhuman_core::preferences::general_preferences_from;

#[test]
fn schema_table_lookup() {
    let s = schemas("get_session");
    assert_eq!(s.namespace, "gameplay_review");
    assert_eq!(s.function, "get_session");
    assert_eq!(s.inputs.len(), 1);
    assert_eq!(s.inputs[0].name, "session_id");
    assert!(matches!(s.inputs[0].ty, TypeSchema::String));
    assert_eq!(s.outputs[0].name, "session");
    let u = schemas("nope");
    assert_eq!(u.function, "unknown");
    assert_eq!(u.outputs[0].name, "error");
}

#[test]
fn all_schemas_in_order() {
    let names: Vec<&str> = all_controller_schemas().iter().map(|s| s.function).collect();
    assert_eq!(
        names,
        ["register_session", "analyze_session", "get_session", "list_sessions", "set_preset", "list_presets", "ask_session", "draft_clip_metadata"]
    );
}

#[test]
fn standing_preferences_skip_blank_and_cap() {
    let fetched = vec![Some(" dark mode ".to_string()), None, Some("  ".to_string()), Some("vim".to_string()), Some("tabs".to_string())];
    assert_eq!(general_preferences_from(&fetched, 10), vec!["dark mode".to_string(), "vim".to_string(), "tabs".to_string()]);
    assert_eq!(general_preferences_from(&fetched, 4), vec!["dark mode".to_string(), "vim".to_string()]);
}

#[test]
fn registered_controllers_pair_schema_with_handler() {
    let all = all_registered_controllers();
    assert_eq!(all.len(), 8);
    assert_eq!(all[0].schema.function, "register_session");
    assert_eq!(all[0].handler, ControllerHandler::RegisterSession);
    assert_eq!(all[5].schema.function, "list_presets");
    assert_eq!(all[5].handler, ControllerHandler::ListPresets);
    assert!(all[5].schema.inputs.is_empty());
    assert_eq!(all[7].handler, ControllerHandler::DraftClipMetadata);
}
