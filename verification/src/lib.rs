//! HTML to Markdown conversion with verified text processing.
pub mod text;
pub mod comments;
pub mod markdown;
pub mod table;
pub mod buffer;
pub mod dom;
pub mod walker;
pub mod error;
pub mod html;
