//! A minimal desktop power-menu core: a fixed registry of five shell
//! actions (shutdown, reboot, exit, lock, suspend), a human-editable
//! text configuration for their labels, commands and trigger keys, and
//! the event-dispatch rules that turn a key press or pointer press into
//! "run this command", "dismiss the menu" or "do nothing".
//!
//! Window rendering, file reading and writing, and process spawning are
//! left to a thin unverified shell around this crate; everything here
//! works on plain bytes and integers.

pub mod codec;
pub mod dispatch;
pub mod loader;
pub mod registry;
pub mod text;
