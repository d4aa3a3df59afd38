//! Paragraph chunking and the rewrite session behind the `deslop` tool.

pub mod app;
pub mod chunks;
pub mod diff;
pub mod hints;
pub mod layout;
pub mod paths;
pub mod text;
