//! Parsing of the metadata block ("front matter") that heads a blog post,
//! and of the markdown documents that carry it.
pub mod text;
pub mod date;
pub mod fields;
pub mod metadata;
pub mod frontmatter;
pub mod markdown;
