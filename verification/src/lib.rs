//! A verified model of the `.gui` format: a document of two forests (`inherit`
//! and `drill`), named navs, per-node attributes and groups, together with
//! the reader that takes it from `.gui` text and the checker of its page
//! rules.

pub mod strings;
pub mod collections;
pub mod model;
pub mod messages;
pub mod yaml;
pub mod parse;
pub mod validate;
pub mod render;
pub mod cli;

pub use model::{AttrValue, Document, GroupSpec, NodeSpec, TreeChild, TreeSection, ValidationError};
pub use parse::parse_document;
pub use validate::{page_nodes, validate_document};
