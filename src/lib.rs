//! Colorful rendering of Android logcat lines: a line parser, a tag color
//! assigner and a renderer that filters, colors and wraps each record, with
//! the readers of the `adb` outputs and arguments that the program needs.
pub mod adb;
pub mod cli;
pub mod color;
pub mod parser;
pub mod render;
pub mod tag_regex;
pub mod text;
pub mod wrap;

pub use parser::{parse, LogCatLine};
pub use render::Plogcat;
pub use tag_regex::from_tag_list;
