use powermenu::loader::{load_from_contents, LoadStatus};
use powermenu::registry::{default_registry, ActionRegistry, ActionSpec};

fn assert_action(a: &ActionSpec, label: &str, command: &str, key: Option<u8>) {
    assert_eq!(a.label, label.as_bytes().to_vec());
    assert_eq!(a.command, command.as_bytes().to_vec());
    assert_eq!(a.key, key);
}

fn assert_is_default(r: &ActionRegistry) {
    assert_action(&r.shutdown, "(s) Shutdown", "systemctl poweroff", Some(b's'));
    assert_action(&r.reboot, "(r) Reboot", "systemctl reboot", Some(b'r'));
    assert_action(&r.exit, "(e) Exit", "swaymsg exit", Some(b'e'));
    assert_action(&r.lock, "(l) Lock", "swaylock", Some(b'l'));
    assert_action(&r.suspend, "(h) Suspend", "systemctl suspend", Some(b'h'));
}

#[test]
fn default_registry_matches_documented_triples() {
    let r = default_registry();
    assert_is_default(&r);
}

#[test]
fn action_at_walks_the_canonical_order() {
    let r = default_registry();
    let labels: Vec<&str> = ["(s) Shutdown", "(r) Reboot", "(e) Exit", "(l) Lock", "(h) Suspend"]
        .to_vec();
    for (i, want) in labels.iter().enumerate() {
        assert_eq!(r.action_at(i).label, want.as_bytes().to_vec());
    }
}

#[test]
fn load_without_file_returns_defaults_and_asks_to_persist() {
    let out = load_from_contents(None);
    assert_is_default(&out.registry);
    assert!(matches!(out.status, LoadStatus::MissingUsedDefaults));
    assert!(out.write_defaults);
}

#[test]
fn load_with_malformed_file_returns_defaults_without_overwriting() {
    let junk = b"this is not a configuration file".to_vec();
    let out = load_from_contents(Some(&junk));
    assert_is_default(&out.registry);
    assert!(matches!(out.status, LoadStatus::MalformedUsedDefaults));
    assert!(!out.write_defaults);
}

#[test]
fn load_with_empty_file_returns_defaults_without_overwriting() {
    let empty = Vec::new();
    let out = load_from_contents(Some(&empty));
    assert_is_default(&out.registry);
    assert!(matches!(out.status, LoadStatus::MalformedUsedDefaults));
    assert!(!out.write_defaults);
}
