//! Diagram processing for a PlantUML-compatible renderer: preprocessing,
//! C4 translation, parsing helpers, and the structural parts of layout.
pub mod ast;
pub mod cli;
pub mod error;
pub mod init_genai;
pub mod layout;
pub mod output;
pub mod parser;
pub mod render;
pub mod text;
pub mod watch;
