//! Byte-level scanning utilities: the cursor and the spec vocabulary
//! its contracts are written in.

pub mod bytes;
pub mod cursor;
