//! Event-handling core of an input remapper: key and motion events in, the
//! events to write to a virtual device out, by modmap and keymap rules.

pub mod client;
pub mod config;
pub mod event;
pub mod handler;
pub mod invariants;
