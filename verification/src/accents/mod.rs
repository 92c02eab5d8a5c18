//! Text accents: rule-driven rewriting of chat messages.
pub mod callback;
pub mod defs;
pub mod outside;
pub mod rules;
pub mod accent;
pub mod convert;
