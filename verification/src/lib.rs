//! A documentation-site generator core: turns a tree of markdown sources
//! into a navigable plan of rendered HTML pages.
//!
//! Markdown parsing and HTML emission are delegated to `pulldown-cmark`
//! through a small set of trusted wrappers in [`md`]. All filesystem work is
//! left to the embedding binary, which feeds the library an in-memory
//! directory tree ([`doctree::SourceDir`]) and carries out the plan of
//! operations ([`render::RenderOp`]) the library returns.

pub mod asset;
pub mod docket;
pub mod doctree;
pub mod error;
pub mod md;
pub mod render;
pub mod search;
pub mod toc;
pub mod utils;
