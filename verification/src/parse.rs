//! Readers of the formats that the dump comes in.

pub mod parse_html_index;
pub mod wikitext;
pub mod xml;
