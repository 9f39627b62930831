//! ProjectHub: the verified core of an always-on-top project dock.

pub mod clock;
pub mod commands;
pub mod event_log;
pub mod hotkeys;
pub mod preferences;
pub mod project;
pub mod pruner;
pub mod store;
pub mod text;
pub mod window_manager;
