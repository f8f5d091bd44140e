//! What a language server answers and does.

pub mod code_action;
pub mod dependencies;
pub mod diagnose;
pub mod document;
pub mod documents;
pub mod hints;
pub mod keyed;
pub mod shown;
pub mod status;
pub mod watch;
pub mod workspaces;
