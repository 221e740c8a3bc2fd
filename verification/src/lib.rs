//! Verified core of a Grim Dawn gear comparison tool.

pub mod catalog;
pub mod import;
pub mod json;
pub mod resolve;
pub mod save_parser;
pub mod settings;
pub mod stats;
pub mod text;
