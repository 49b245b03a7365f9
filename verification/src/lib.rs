//! Text-location helpers and refactorings for source files, and the protocol between
//! the `kyber` tool and its plugins.
pub mod byte_text;
pub mod containing_scope;
pub mod error;
pub mod file_location;
pub mod hardening;
pub mod number;
pub mod pattern;
pub mod plugin;
pub mod plugin_action;
pub mod refactoring;
pub mod replace_range;
pub mod selected_str;
pub mod support;
pub mod text;
