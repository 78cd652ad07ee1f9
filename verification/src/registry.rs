use vstd::prelude::*;
use crate::text::ascii_bytes;
use crate::text::lit_bytes;

verus! {

/// One configurable power-menu entry: a button label, the shell command
/// line it launches, and an optional single-byte trigger key. Trigger
/// matching is ASCII case-insensitive, so the key is stored lowercase by
/// convention but matched case-insensitively either way.
pub struct ActionSpec {
    pub label: Vec<u8>,
    pub command: Vec<u8>,
    pub key: Option<u8>,
}

/// Mathematical model of an `ActionSpec`.
pub ghost struct SpecAction {
    pub label: Seq<u8>,
    pub command: Seq<u8>,
    pub key: Option<u8>,
}

impl View for ActionSpec {
    type V = SpecAction;

    open spec fn view(&self) -> SpecAction {
        SpecAction { label: self.label@, command: self.command@, key: self.key }
    }
}

/// The five fixed power actions in canonical order: shutdown, reboot,
/// exit, lock, suspend. The order is significant: it is both the button
/// display order and the first-match order of the trigger-key scan.
pub struct ActionRegistry {
    pub shutdown: ActionSpec,
    pub reboot: ActionSpec,
    pub exit: ActionSpec,
    pub lock: ActionSpec,
    pub suspend: ActionSpec,
}

/// Mathematical model of an `ActionRegistry`.
pub ghost struct SpecRegistry {
    pub shutdown: SpecAction,
    pub reboot: SpecAction,
    pub exit: SpecAction,
    pub lock: SpecAction,
    pub suspend: SpecAction,
}

impl View for ActionRegistry {
    type V = SpecRegistry;

    open spec fn view(&self) -> SpecRegistry {
        SpecRegistry {
            shutdown: self.shutdown@,
            reboot: self.reboot@,
            exit: self.exit@,
            lock: self.lock@,
            suspend: self.suspend@,
        }
    }
}

impl SpecRegistry {
    /// The actions in canonical (display and scan) order.
    pub open spec fn actions(self) -> Seq<SpecAction> {
        seq![self.shutdown, self.reboot, self.exit, self.lock, self.suspend]
    }
}

impl ActionRegistry {
    /// The action at `index` in canonical order, the order in which
    /// buttons are laid out and trigger keys are scanned.
    pub fn action_at(&self, index: usize) -> (a: &ActionSpec)
        requires
            index < 5,
        ensures
            a@ == self@.actions()[index as int],
    {
        if index == 0 {
            &self.shutdown
        } else if index == 1 {
            &self.reboot
        } else if index == 2 {
            &self.exit
        } else if index == 3 {
            &self.lock
        } else {
            &self.suspend
        }
    }
}

/// The documented default configuration: label, command and trigger key
/// of each of the five actions.
pub open spec fn spec_default_registry() -> SpecRegistry {
    SpecRegistry {
        shutdown: SpecAction {
            label: ascii_bytes("(s) Shutdown"@),
            command: ascii_bytes("systemctl poweroff"@),
            key: Some('s' as u8),
        },
        reboot: SpecAction {
            label: ascii_bytes("(r) Reboot"@),
            command: ascii_bytes("systemctl reboot"@),
            key: Some('r' as u8),
        },
        exit: SpecAction {
            label: ascii_bytes("(e) Exit"@),
            command: ascii_bytes("swaymsg exit"@),
            key: Some('e' as u8),
        },
        lock: SpecAction {
            label: ascii_bytes("(l) Lock"@),
            command: ascii_bytes("swaylock"@),
            key: Some('l' as u8),
        },
        suspend: SpecAction {
            label: ascii_bytes("(h) Suspend"@),
            command: ascii_bytes("systemctl suspend"@),
            key: Some('h' as u8),
        },
    }
}

/// Builds the default `ActionRegistry`, used whenever no configuration
/// file exists or the existing one cannot be parsed.
pub fn default_registry() -> (r: ActionRegistry)
    ensures
        r@ == spec_default_registry(),
{
    proof {
        reveal_strlit("(s) Shutdown");
        reveal_strlit("systemctl poweroff");
        reveal_strlit("(r) Reboot");
        reveal_strlit("systemctl reboot");
        reveal_strlit("(e) Exit");
        reveal_strlit("swaymsg exit");
        reveal_strlit("(l) Lock");
        reveal_strlit("swaylock");
        reveal_strlit("(h) Suspend");
        reveal_strlit("systemctl suspend");
    }
    ActionRegistry {
        shutdown: ActionSpec {
            label: lit_bytes("(s) Shutdown"),
            command: lit_bytes("systemctl poweroff"),
            key: Some('s' as u8),
        },
        reboot: ActionSpec {
            label: lit_bytes("(r) Reboot"),
            command: lit_bytes("systemctl reboot"),
            key: Some('r' as u8),
        },
        exit: ActionSpec {
            label: lit_bytes("(e) Exit"),
            command: lit_bytes("swaymsg exit"),
            key: Some('e' as u8),
        },
        lock: ActionSpec {
            label: lit_bytes("(l) Lock"),
            command: lit_bytes("swaylock"),
            key: Some('l' as u8),
        },
        suspend: ActionSpec {
            label: lit_bytes("(h) Suspend"),
            command: lit_bytes("systemctl suspend"),
            key: Some('h' as u8),
        },
    }
}

} // verus!
