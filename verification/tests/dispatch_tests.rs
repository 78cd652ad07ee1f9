use powermenu::dispatch::{on_button_click, on_key, on_pointer, KeyPress, Outcome};
use powermenu::registry::{default_registry, ActionRegistry, ActionSpec};

fn action(label: &str, command: &str, key: Option<u8>) -> ActionSpec {
    ActionSpec {
        label: label.as_bytes().to_vec(),
        command: command.as_bytes().to_vec(),
        key,
    }
}

fn expect_execute(out: Outcome, command: &str) {
    match out {
        Outcome::Execute(cmd) => assert_eq!(cmd, command.as_bytes().to_vec()),
        _ => panic!("expected an execute outcome"),
    }
}

#[test]
fn key_matching_is_case_insensitive() {
    let r = default_registry();
    let (lower, handled_lower) = on_key(&r, KeyPress::Printable(b's'));
    let (upper, handled_upper) = on_key(&r, KeyPress::Printable(b'S'));
    expect_execute(lower, "systemctl poweroff");
    expect_execute(upper, "systemctl poweroff");
    assert!(handled_lower && handled_upper);
}

#[test]
fn escape_and_reserved_q_always_dismiss() {
    let r = ActionRegistry {
        shutdown: action("Quit", "systemctl poweroff", Some(b'q')),
        reboot: action("(r) Reboot", "systemctl reboot", Some(b'r')),
        exit: action("(e) Exit", "swaymsg exit", Some(b'e')),
        lock: action("(l) Lock", "swaylock", Some(b'l')),
        suspend: action("(h) Suspend", "systemctl suspend", Some(b'h')),
    };
    assert!(matches!(on_key(&r, KeyPress::Escape), (Outcome::Dismiss, true)));
    assert!(matches!(on_key(&r, KeyPress::Printable(b'q')), (Outcome::Dismiss, true)));
    assert!(matches!(on_key(&r, KeyPress::Printable(b'Q')), (Outcome::Dismiss, true)));
}

#[test]
fn unmatched_printable_and_other_keys_dismiss() {
    let r = default_registry();
    assert!(matches!(on_key(&r, KeyPress::Printable(b'z')), (Outcome::Dismiss, true)));
    assert!(matches!(on_key(&r, KeyPress::Other), (Outcome::Dismiss, true)));
}

#[test]
fn duplicate_trigger_keys_resolve_to_the_first_in_canonical_order() {
    let r = ActionRegistry {
        shutdown: action("(s) Shutdown", "systemctl poweroff", Some(b's')),
        reboot: action("A", "first-of-the-pair", Some(b'x')),
        exit: action("(e) Exit", "swaymsg exit", Some(b'e')),
        lock: action("B", "second-of-the-pair", Some(b'x')),
        suspend: action("(h) Suspend", "systemctl suspend", Some(b'h')),
    };
    let (out, _) = on_key(&r, KeyPress::Printable(b'x'));
    expect_execute(out, "first-of-the-pair");
}

#[test]
fn pointer_outside_dismisses_and_inside_is_a_no_op() {
    let (out, handled) = on_pointer(-1, 10, 300, 250);
    assert!(matches!(out, Outcome::Dismiss));
    assert!(handled);
    let (out, handled) = on_pointer(150, 100, 300, 250);
    assert!(matches!(out, Outcome::NoOp));
    assert!(!handled);
    let (out, handled) = on_pointer(0, 0, 300, 250);
    assert!(matches!(out, Outcome::NoOp));
    assert!(!handled);
    let (out, handled) = on_pointer(301, 100, 300, 250);
    assert!(matches!(out, Outcome::Dismiss));
    assert!(handled);
}

#[test]
fn button_click_executes_that_action_directly() {
    let mut r = default_registry();
    r.exit = action("(e) Exit", "true", Some(b'e'));
    expect_execute(on_button_click(&r, 0), "systemctl poweroff");
    expect_execute(on_button_click(&r, 2), "true");
    expect_execute(on_button_click(&r, 4), "systemctl suspend");
}
