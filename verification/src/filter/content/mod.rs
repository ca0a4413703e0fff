//! Extraction of readable text from article pages.
pub mod common;
pub mod grok;
pub mod text;
pub mod wiki;
pub mod cleanup_laws;
pub mod extraction_laws;
