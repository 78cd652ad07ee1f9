use vstd::prelude::*;
use crate::registry::ActionRegistry;
use crate::registry::SpecRegistry;

verus! {

/// A keyboard event as the presentation shell reports it: the Escape
/// key, a key carrying a printable character, or any other key
/// (modifiers, function keys, ...).
#[derive(Clone, Copy, PartialEq, Eq, Structural)]
pub enum KeyPress {
    Escape,
    Printable(u8),
    Other,
}

/// What the dispatcher decides for one incoming event.
pub enum Outcome {
    /// Remain idle; the event falls through to the widget underneath.
    NoOp,
    /// Close the menu without launching anything.
    Dismiss,
    /// Launch this command line, then close the menu.
    Execute(Vec<u8>),
}

/// Mathematical model of an `Outcome`.
pub ghost enum SpecOutcome {
    NoOp,
    Dismiss,
    Execute(Seq<u8>),
}

impl View for Outcome {
    type V = SpecOutcome;

    open spec fn view(&self) -> SpecOutcome {
        match self {
            Outcome::NoOp => SpecOutcome::NoOp,
            Outcome::Dismiss => SpecOutcome::Dismiss,
            Outcome::Execute(cmd) => SpecOutcome::Execute(cmd@),
        }
    }
}

/// ASCII lowercasing of one byte; bytes outside 'A'..='Z' are unchanged.
pub open spec fn lower(c: u8) -> u8 {
    if 'A' as u8 <= c && c <= 'Z' as u8 {
        (c + 32) as u8
    } else {
        c
    }
}

/// First-match trigger-key lookup: the command of the first action in
/// canonical order whose trigger key equals the lowercased input byte,
/// or `None` when no action matches.
pub open spec fn spec_key_match(r: SpecRegistry, c: u8) -> Option<Seq<u8>> {
    let k = lower(c);
    if r.shutdown.key == Some(k) {
        Some(r.shutdown.command)
    } else if r.reboot.key == Some(k) {
        Some(r.reboot.command)
    } else if r.exit.key == Some(k) {
        Some(r.exit.command)
    } else if r.lock.key == Some(k) {
        Some(r.lock.command)
    } else if r.suspend.key == Some(k) {
        Some(r.suspend.command)
    } else {
        None
    }
}

/// The dispatch rule for keyboard events. Escape and the reserved 'q'
/// character dismiss unconditionally ('q' stays reserved even when some
/// action is configured with it); a printable character that matches a
/// trigger key executes the first matching action; everything else
/// dismisses the menu.
pub open spec fn spec_on_key(r: SpecRegistry, k: KeyPress) -> SpecOutcome {
    match k {
        KeyPress::Escape => SpecOutcome::Dismiss,
        KeyPress::Printable(c) => if lower(c) == 'q' as u8 {
            SpecOutcome::Dismiss
        } else {
            match spec_key_match(r, c) {
                Some(cmd) => SpecOutcome::Execute(cmd),
                None => SpecOutcome::Dismiss,
            }
        },
        KeyPress::Other => SpecOutcome::Dismiss,
    }
}

/// The dispatch rule for pointer presses, in window-local coordinates:
/// a press outside the client rectangle dismisses; a press inside is a
/// no-op left to the button underneath.
pub open spec fn spec_on_pointer(x: int, y: int, w: int, h: int) -> SpecOutcome {
    if x < 0 || y < 0 || x > w || y > h {
        SpecOutcome::Dismiss
    } else {
        SpecOutcome::NoOp
    }
}

/// ASCII-lowercases one byte.
pub fn lower_byte(c: u8) -> (r: u8)
    ensures
        r == lower(c),
{
    if 'A' as u8 <= c && c <= 'Z' as u8 {
        c + 32
    } else {
        c
    }
}

/// Resolves one keyboard event. Returns the outcome together with the
/// handled flag reported back to the presentation shell; key events are
/// always fully handled, so propagation always stops.
pub fn on_key(r: &ActionRegistry, k: KeyPress) -> (out: (Outcome, bool))
    ensures
        out.0@ == spec_on_key(r@, k),
        out.1 == true,
{
    match k {
        KeyPress::Escape => (Outcome::Dismiss, true),
        KeyPress::Printable(c) => {
            let lc = lower_byte(c);
            if lc == 'q' as u8 {
                (Outcome::Dismiss, true)
            } else if r.shutdown.key == Some(lc) {
                (Outcome::Execute(clone_bytes(&r.shutdown.command)), true)
            } else if r.reboot.key == Some(lc) {
                (Outcome::Execute(clone_bytes(&r.reboot.command)), true)
            } else if r.exit.key == Some(lc) {
                (Outcome::Execute(clone_bytes(&r.exit.command)), true)
            } else if r.lock.key == Some(lc) {
                (Outcome::Execute(clone_bytes(&r.lock.command)), true)
            } else if r.suspend.key == Some(lc) {
                (Outcome::Execute(clone_bytes(&r.suspend.command)), true)
            } else {
                (Outcome::Dismiss, true)
            }
        },
        KeyPress::Other => (Outcome::Dismiss, true),
    }
}

/// Resolves one pointer press in window-local coordinates against the
/// window's client rectangle. The handled flag stops propagation exactly
/// in the dismissing case; an inside press proceeds to the widgets.
pub fn on_pointer(x: i64, y: i64, width: i64, height: i64) -> (out: (Outcome, bool))
    ensures
        out.0@ == spec_on_pointer(x as int, y as int, width as int, height as int),
        out.1 == (x < 0 || y < 0 || x > width || y > height),
{
    if x < 0 || y < 0 || x > width || y > height {
        (Outcome::Dismiss, true)
    } else {
        (Outcome::NoOp, false)
    }
}

/// A button-click notification for the action at `index` in canonical
/// order: executes that action's command directly, bypassing the
/// trigger-key scan.
pub fn on_button_click(r: &ActionRegistry, index: usize) -> (out: Outcome)
    requires
        index < 5,
    ensures
        out@ == SpecOutcome::Execute(r@.actions()[index as int].command),
{
    let cmd = if index == 0 {
        clone_bytes(&r.shutdown.command)
    } else if index == 1 {
        clone_bytes(&r.reboot.command)
    } else if index == 2 {
        clone_bytes(&r.exit.command)
    } else if index == 3 {
        clone_bytes(&r.lock.command)
    } else {
        clone_bytes(&r.suspend.command)
    };
    Outcome::Execute(cmd)
}

/// Copies a byte vector.
fn clone_bytes(v: &Vec<u8>) -> (r: Vec<u8>)
    ensures
        r@ == v@,
{
    let mut out: Vec<u8> = Vec::new();
    let mut i: usize = 0;
    while i < v.len()
        invariant
            i <= v@.len(),
            out@ == v@.subrange(0, i as int),
        decreases v@.len() - i,
    {
        out.push(v[i]);
        proof {
            assert(out@ =~= v@.subrange(0, i + 1 as int));
        }
        i = i + 1;
    }
    proof {
        assert(out@ =~= v@);
    }
    out
}

/// Law: key matching is case-insensitive — a key event resolves exactly
/// as its ASCII-lowercased form does, whatever the configuration.
pub proof fn lemma_case_insensitive(r: SpecRegistry, c: u8)
    ensures
        spec_on_key(r, KeyPress::Printable(c)) == spec_on_key(r, KeyPress::Printable(lower(c))),
{
}

/// Law: Escape and the reserved 'q' character always dismiss, whatever
/// the configuration holds — reserved keys take precedence even over an
/// action configured with trigger key 'q'.
pub proof fn lemma_reserved_dismiss(r: SpecRegistry, c: u8)
    requires
        lower(c) == 'q' as u8,
    ensures
        spec_on_key(r, KeyPress::Escape) == SpecOutcome::Dismiss,
        spec_on_key(r, KeyPress::Printable(c)) == SpecOutcome::Dismiss,
{
}

/// Law: duplicate trigger keys resolve deterministically to the first
/// action in canonical order — if the action at position `i` matches the
/// event and no earlier action does, the event executes that action's
/// command.
pub proof fn lemma_first_match(r: SpecRegistry, c: u8, i: int)
    requires
        0 <= i < 5,
        r.actions()[i].key == Some(lower(c)),
        forall|j: int| 0 <= j < i ==> r.actions()[j].key != Some(lower(c)),
        lower(c) != 'q' as u8,
    ensures
        spec_on_key(r, KeyPress::Printable(c)) == SpecOutcome::Execute(r.actions()[i].command),
{
    assert(r.actions()[0] == r.shutdown);
    assert(r.actions()[1] == r.reboot);
    assert(r.actions()[2] == r.exit);
    assert(r.actions()[3] == r.lock);
    assert(r.actions()[4] == r.suspend);
}

} // verus!
