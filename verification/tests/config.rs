//! Configuration and lock names.

use openlogi::config::{
    schema_supported, AppSettings, Appearance, Config, KeyTrigger, SCHEMA_VERSION,
};
use openlogi::host_lock::{lock_step, node_lock_name, LockAttempt, LockStep, NodeId, POLL};

type Settings = Config<&'static str, ()>;

#[test]
fn node_lock_names_are_stable_and_distinct() {
    let a = NodeId::from("RegistryEntryId(4295012345)".to_string());
    let same = NodeId::from("RegistryEntryId(4295012345)".to_string());
    let b = NodeId::from("RegistryEntryId(4295012346)".to_string());
    assert_eq!(node_lock_name(&a), node_lock_name(&same));
    assert_ne!(node_lock_name(&a), node_lock_name(&b));
}

#[test]
fn a_lock_name_is_the_hash_of_the_node() {
    let name = |node: &str| node_lock_name(&NodeId::from(node.to_string()));
    assert_eq!(name("RegistryEntryId(4295012345)"), "node-9c3620b2dbcff4d5");
    assert_eq!(name(""), "node-cbf29ce484222325");
    assert_eq!(name("é"), "node-0ac21707b7181e01");
}

#[test]
fn a_held_lock_is_tried_until_the_deadline() {
    assert_eq!(lock_step(LockAttempt::Taken, 5, 9), LockStep::Hold);
    assert_eq!(
        lock_step(LockAttempt::Held, 5, 4),
        LockStep::RetryAfter(POLL)
    );
    assert_eq!(lock_step(LockAttempt::Held, 5, 5), LockStep::GiveUp);
    assert_eq!(lock_step(LockAttempt::Unusable, 5, 0), LockStep::GiveUp);
}

#[test]
fn a_fresh_configuration_has_the_documented_defaults() {
    let config = Settings::default();
    assert_eq!(config.schema_version, 7);
    assert_eq!(config.schema_version, SCHEMA_VERSION);
    assert_eq!(
        config.app_settings,
        AppSettings {
            launch_at_login: false,
            check_for_updates: false,
            auto_install_updates: false,
            show_in_menu_bar: true,
            capture_mouse_events: true,
            auto_download_assets: true,
            language: None,
            thumbwheel_sensitivity: 14,
            appearance: Appearance::System,
            theme_light: None,
            theme_dark: None,
            ui_radius: None,
            ui_scale: 100,
        }
    );
    assert_eq!(config.selected_device(), None);
    assert!(config.devices.is_empty());
    assert!(config.keyboard_bindings().is_empty());
    assert!(config.is_saved());
}

#[test]
fn an_ephemeral_configuration_is_never_saved() {
    assert!(!Settings::ephemeral().is_saved());
}

#[test]
fn key_bindings_are_set_and_cleared() {
    let mut config = Settings::ephemeral();
    let f5 = KeyTrigger {
        key: 5,
        modifiers: 0,
    };
    let shift_f5 = KeyTrigger {
        key: 5,
        modifiers: 1,
    };
    config.set_keyboard_binding(f5, Some("Copy"));
    config.set_keyboard_binding(shift_f5, Some("Paste"));
    config.set_keyboard_binding(f5, Some("Cut"));
    assert_eq!(config.keyboard_bindings().get(&f5.code()), Some(&"Cut"));
    assert_eq!(
        config.keyboard_bindings().get(&shift_f5.code()),
        Some(&"Paste")
    );
    config.set_keyboard_binding(f5, None);
    assert_eq!(config.keyboard_bindings().get(&f5.code()), None);
    assert_eq!(config.keyboard_bindings().len(), 1);
}

#[test]
fn the_selected_device_is_remembered() {
    let mut config = Settings::ephemeral();
    config.set_selected_device(Some("unit:6be9d300".to_string()));
    assert_eq!(config.selected_device(), Some("unit:6be9d300"));
    config.set_selected_device(None);
    assert_eq!(config.selected_device(), None);
}

#[test]
fn older_layouts_are_read_and_newer_ones_refused() {
    assert!(!schema_supported(0));
    assert!(schema_supported(1));
    assert!(schema_supported(7));
    assert!(!schema_supported(8));
}
