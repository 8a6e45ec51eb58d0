//! A line-editing and command-tokenizing engine for an interactive shell.

pub mod text;
pub mod format;
pub mod command;
pub mod signal;
pub mod editor;
pub mod highlight;
pub mod render;
