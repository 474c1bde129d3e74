//! Turns notes with a custom front matter and wiki-style image embeds into
//! blog posts, with the copies of images they need.
//!
//! - `text`: characters, trimming, lines.
//! - `extract`: `key: value` lines and heading titles of a note's meta block.
//! - `site`: the registry of sites and the `[[site]]` markers that pick one.
//! - `images`: rewriting image lines and the copies they call for.
//! - `post`: from a note to the text of its post, and whether to write it.
pub mod extract;
pub mod images;
pub mod post;
pub mod site;
pub mod text;
