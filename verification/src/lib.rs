//! Line-level Markdown editing, parsing and conversion.

pub mod blocks;
pub mod clock;
pub mod codeblock;
pub mod commonmark;
pub mod document;
pub mod drag;
pub mod editor;
pub mod erase;
pub mod filedrop;
pub mod find;
pub mod format;
pub mod html2md;
pub mod inline;
pub mod laws;
pub mod line;
pub mod markdown;
pub mod newline;
pub mod ops;
pub mod preprocess;
pub mod session;
pub mod spans;
pub mod text;
pub mod urls;
pub mod vitepress;
