use powermenu::codec::{parse_toml, to_toml};
use powermenu::loader::{load_from_contents, LoadStatus};
use powermenu::registry::{default_registry, ActionRegistry, ActionSpec};

fn action(label: &str, command: &str, key: Option<u8>) -> ActionSpec {
    ActionSpec {
        label: label.as_bytes().to_vec(),
        command: command.as_bytes().to_vec(),
        key,
    }
}

fn assert_same(a: &ActionRegistry, b: &ActionRegistry) {
    for (x, y) in [
        (&a.shutdown, &b.shutdown),
        (&a.reboot, &b.reboot),
        (&a.exit, &b.exit),
        (&a.lock, &b.lock),
        (&a.suspend, &b.suspend),
    ] {
        assert_eq!(x.label, y.label);
        assert_eq!(x.command, y.command);
        assert_eq!(x.key, y.key);
    }
}

#[test]
fn serialize_default_is_the_documented_text() {
    let text = to_toml(&default_registry());
    let expected = "\
[commands.shutdown]
label = \"(s) Shutdown\"
command = \"systemctl poweroff\"
key = \"s\"

[commands.reboot]
label = \"(r) Reboot\"
command = \"systemctl reboot\"
key = \"r\"

[commands.exit]
label = \"(e) Exit\"
command = \"swaymsg exit\"
key = \"e\"

[commands.lock]
label = \"(l) Lock\"
command = \"swaylock\"
key = \"l\"

[commands.suspend]
label = \"(h) Suspend\"
command = \"systemctl suspend\"
key = \"h\"
";
    assert_eq!(text, expected.as_bytes().to_vec());
}

#[test]
fn round_trip_of_default_registry() {
    let r = default_registry();
    let text = to_toml(&r);
    let back = parse_toml(&text).expect("default serialization must parse");
    assert_same(&back, &r);
}

#[test]
fn round_trip_with_escapes_and_missing_key() {
    let r = ActionRegistry {
        shutdown: action("say \"bye\"", "echo \"bye\\now\"", Some(b'x')),
        reboot: action("re\\boot", "true", None),
        exit: action("", "swaymsg exit", Some(b'"')),
        lock: action("Lock", "", Some(b'\\')),
        suspend: action("(h) Suspend", "systemctl suspend", None),
    };
    let text = to_toml(&r);
    let back = parse_toml(&text).expect("escaped serialization must parse");
    assert_same(&back, &r);
}

#[test]
fn parse_rejects_text_that_is_not_a_serialized_registry() {
    assert!(parse_toml(&b"garbage".to_vec()).is_none());
    assert!(parse_toml(&Vec::new()).is_none());
    let mut almost = to_toml(&default_registry());
    almost.pop();
    assert!(parse_toml(&almost).is_none());
    let mut trailing = to_toml(&default_registry());
    trailing.push(b'\n');
    assert!(parse_toml(&trailing).is_none());
}

#[test]
fn load_takes_a_well_formed_file_as_it_stands() {
    let r = ActionRegistry {
        shutdown: action("(p) Poweroff", "loginctl poweroff", Some(b'p')),
        reboot: action("(r) Reboot", "loginctl reboot", Some(b'r')),
        exit: action("(q) Quit", "i3-msg exit", None),
        lock: action("(l) Lock", "i3lock", Some(b'l')),
        suspend: action("(z) Zzz", "systemctl suspend", Some(b'z')),
    };
    let text = to_toml(&r);
    let out = load_from_contents(Some(&text));
    assert!(matches!(out.status, LoadStatus::LoadedFromFile));
    assert!(!out.write_defaults);
    assert_same(&out.registry, &r);
}

#[test]
fn emitted_text_is_real_toml_with_the_expected_fields() {
    let text = String::from_utf8(to_toml(&default_registry())).unwrap();
    let table: toml::Table = text.parse().expect("emitted text must be valid TOML");
    let commands = table.get("commands").unwrap().as_table().unwrap();
    assert_eq!(commands.len(), 5);
    for (name, label, command, key) in [
        ("shutdown", "(s) Shutdown", "systemctl poweroff", "s"),
        ("reboot", "(r) Reboot", "systemctl reboot", "r"),
        ("exit", "(e) Exit", "swaymsg exit", "e"),
        ("lock", "(l) Lock", "swaylock", "l"),
        ("suspend", "(h) Suspend", "systemctl suspend", "h"),
    ] {
        let entry = commands.get(name).unwrap().as_table().unwrap();
        assert_eq!(entry.get("label").unwrap().as_str().unwrap(), label);
        assert_eq!(entry.get("command").unwrap().as_str().unwrap(), command);
        assert_eq!(entry.get("key").unwrap().as_str().unwrap(), key);
    }
}
