//! Reading and writing the binary list of custom shortcuts kept by a game-library client.

pub mod app_id_generator;
pub mod bytes;
pub mod format;
pub mod laws;
pub mod shortcut;
pub mod shortcuts_parser;
pub mod shortcuts_writer;
pub mod text;

pub use app_id_generator::{calculate_app_id, calculate_app_id_for_shortcut};
pub use format::{DecodeError, Token};
pub use shortcut::{Shortcut, ShortcutOwned};
pub use shortcuts_parser::{decode_shortcuts, parse_shortcuts, LineType};
pub use shortcuts_writer::shortcuts_to_bytes;
