//! A library for building a markdown changelog of pull requests:
//! normalized item records, classification of items under configured
//! label groups, deduplicated reference-link extraction, and
//! deterministic markdown rendering.

pub mod text;
pub mod item;
pub mod refs;
pub mod matcher;
pub mod render;
pub mod pipeline;
