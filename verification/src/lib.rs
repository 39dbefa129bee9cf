//! An editing model for Hyprland's brace-delimited, line-oriented
//! configuration grammar: `name { ... }` blocks holding `key = value` entries.
//!
//! A document is kept as its raw lines, so serialization reproduces the
//! input exactly; a section index maps each nested section path to the line
//! range it occupies, and the upsert engine inserts or replaces entries while
//! keeping every tracked range valid.

pub mod color;
pub mod config;
pub mod laws;
pub mod model;
pub mod text;

pub use color::format_color;
pub use color::parse_color;
pub use config::parse_config;
pub use config::ConfigError;
pub use config::HyprlandConfig;
pub use config::Section;
pub use config::SourcedDoc;
pub use text::trim_str;
