//! Renders a parsed notebook section as a folder of HTML pages and media files.
//!
//! A caller hands over the document as page series, pages and content nodes
//! (`model`) and gets back, for each page, its file-name stem, its HTML and
//! the files that go beside it (`export`, `page`, `render`, `output`). Titles
//! become stems (`sanitize`), and text is escaped before it goes into HTML
//! (`escape`).
//!
//! The library computes every path and every byte of content; writing the
//! files is left to the caller.

pub mod text;
pub mod escape;
pub mod sanitize;
pub mod model;
pub mod output;
pub mod render;
pub mod page;
pub mod export;
