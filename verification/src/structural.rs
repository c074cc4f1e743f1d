//! The schema-guided engine: compiled schemas, the key matcher, the
//! schema compiler and the speculative parser.

pub mod compiler;
pub mod matcher;
pub mod parser;
pub mod schema;
