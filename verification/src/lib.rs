//! The logic of a Markdown blog: front matter, post listings, tags, search,
//! title wrapping and the Markdown to Typst conversion used for PDF export.
pub mod text;
pub mod frontmatter;
pub mod markdown;
pub mod pdf;
pub mod posts;
pub mod ranking;
pub mod site;
pub mod laws;
pub mod typst_laws;
