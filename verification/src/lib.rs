//! Translation of GNOME Terminal keyboard shortcuts into Ghostty key bindings,
//! and their merge into a Ghostty configuration tree.

pub mod config;
pub mod dictionary;
pub mod directive;
pub mod failure;
pub mod mapping;
pub mod merge;
pub mod readback;
pub mod source;
pub mod text;
pub mod translate;
pub mod wiring;
