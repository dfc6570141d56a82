//! Verified core of a small CSV viewer and editor.
pub mod csv_handler;
pub mod encoding;
pub mod state;
pub mod text;
pub mod presets;
pub mod layout;
