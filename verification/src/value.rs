//! Neutral output values: what an extraction hands to the caller.

use vstd::prelude::*;

verus! {

/// A freshly built, caller-owned output value.
///
/// Numbers and texts carry the bytes consumed from the input (for a
/// number, with thousands-separator commas removed); turning a number's
/// digits into a machine float, or a text's bytes into a host string,
/// is left to an adapter outside the engine. An object is an ordered
/// name-to-value mapping; insertion order is preserved.
#[derive(Debug, PartialEq, Eq)]
pub enum Value {
    Null,
    Bool(bool),
    Number(Vec<u8>),
    Text(Vec<u8>),
    Array(Vec<Value>),
    Object(Vec<(Vec<u8>, Value)>),
}

} // verus!
