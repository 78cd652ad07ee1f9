use vstd::prelude::*;
use crate::codec::parse_toml;
use crate::codec::toml_bytes;
use crate::registry::ActionRegistry;
use crate::registry::SpecRegistry;
use crate::registry::default_registry;
use crate::registry::spec_default_registry;

verus! {

/// How the configuration in force was obtained.
#[derive(Clone, Copy, PartialEq, Eq, Structural)]
pub enum LoadStatus {
    /// The file was read and parsed; its contents are in force.
    LoadedFromFile,
    /// No file existed; the defaults are in force and should be
    /// persisted for the next run.
    MissingUsedDefaults,
    /// A file existed but could not be parsed; the defaults are in
    /// force and the file is left untouched for the user to inspect.
    MalformedUsedDefaults,
}

/// The loader's decision: which registry runs, how it was obtained,
/// and whether the caller should persist the defaults to disk.
pub struct LoadOutcome {
    pub registry: ActionRegistry,
    pub status: LoadStatus,
    pub write_defaults: bool,
}

/// Decides the configuration in force from what the configuration file
/// held: `None` when no file exists, `Some` of its bytes otherwise.
///
/// A missing file yields the documented defaults and asks the caller
/// to persist them; a file that parses is taken as it stands; a
/// malformed file yields the defaults but is never overwritten, so the
/// user's edits survive. Persisting is requested only for a missing
/// file.
pub fn load_from_contents(contents: Option<&Vec<u8>>) -> (out: LoadOutcome)
    ensures
        out.write_defaults == (contents is None),
        match contents {
            None => out.registry@ == spec_default_registry() && out.status
                == LoadStatus::MissingUsedDefaults,
            Some(c) => {
                &&& (exists|v: SpecRegistry| c@ == toml_bytes(v)) ==> c@ == toml_bytes(
                    out.registry@,
                ) && out.status == LoadStatus::LoadedFromFile
                &&& !(exists|v: SpecRegistry| c@ == toml_bytes(v)) ==> out.registry@
                    == spec_default_registry() && out.status == LoadStatus::MalformedUsedDefaults
            },
        },
{
    match contents {
        None => LoadOutcome {
            registry: default_registry(),
            status: LoadStatus::MissingUsedDefaults,
            write_defaults: true,
        },
        Some(c) => match parse_toml(c) {
            Some(reg) => LoadOutcome {
                registry: reg,
                status: LoadStatus::LoadedFromFile,
                write_defaults: false,
            },
            None => LoadOutcome {
                registry: default_registry(),
                status: LoadStatus::MalformedUsedDefaults,
                write_defaults: false,
            },
        },
    }
}

} // verus!
