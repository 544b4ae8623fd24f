//! Forensic artifact parsing with one normalized timeline.

pub mod artifacts;
pub mod text;
pub mod timeline;
