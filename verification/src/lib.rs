use vstd::prelude::*;

pub mod cli;
pub mod clipboard;
pub mod color;
pub mod detect;
pub mod documents;
pub mod error_context;
pub mod json_tree;
pub mod output;
pub mod ndjson;
pub mod paths;
pub mod render;
pub mod render_xml;
pub mod schema;
pub mod stats;
pub mod text;
pub mod tui;
pub mod xml_tree;

verus! {
} // verus!
