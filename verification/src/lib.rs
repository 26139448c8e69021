//! Structural readers for documentation pages and code: the page readers, the
//! construct-module helpers, the token matchers and the mixture-of-experts judge.

pub mod text;
pub mod lexer;
pub mod hv;
pub mod moe;
pub mod lang_layer;
pub mod markup;
pub mod pattern;
pub mod module;
pub mod select;
pub mod graded;
pub mod doc_page;
