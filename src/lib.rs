//! Extension-to-media-type lookup built from registries in the `mime.types` format.
//!
//! A registry is parsed line by line into `(extension, type, subtype)` records
//! (`registry`), reduced to one record per extension with the first one winning,
//! and turned into an immutable table that answers lookups by exact extension
//! (`table`), or rendered as Rust source for a `match` on the extension
//! (`generator`).
//!
//! Only one extension per line is taken: the first run of non-whitespace after
//! `type/subtype`. A line such as `text/plain txt, text` yields the extension `txt,`.
pub mod chars;
pub mod generator;
pub mod keys;
pub mod registry;
pub mod table;

pub use generator::generate;
pub use registry::parse_mimes;
pub use table::{ExtensionTable, MediaType, RawMediaType, get_content_type, to_media_type};
