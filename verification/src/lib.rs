//! Extracts documentation from C sources and lays it out as a static site.
pub mod text;
pub mod model;
pub mod doxycomment;
pub mod paths;
pub mod order;
pub mod merge;
pub mod render;
pub mod config;
pub mod syntax;
pub mod parse;
pub mod pipeline;
pub mod content;
pub mod serve;
