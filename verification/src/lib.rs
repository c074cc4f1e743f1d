//! Schema-guided extraction of structured values from malformed,
//! machine-generated quasi-JSON text.
//!
//! A schema description is compiled once into an immutable schema tree;
//! each extraction scans arbitrary surrounding text for a parseable
//! object and speculatively parses it, tolerating broken delimiters,
//! mixed quoting and stray prose.

pub mod structural;
pub mod utils;
pub mod value;
pub mod extractor;

pub use crate::extractor::{JsonExtractor, NotFound};
