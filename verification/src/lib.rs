//! The state behind a terminal file browser's directory pane and its
//! document preview: a keyed, ordered listing that keeps what the user did to
//! an entry across refreshes, and the decisions around a one-page render.

pub mod decimal;
pub mod file;
pub mod files;
pub mod index_map;
pub mod listing;
pub mod order;
pub mod preview;
