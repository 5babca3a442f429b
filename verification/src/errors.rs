//! Error types: malformed calendar input, out-of-range list indices, and
//! undecodable snapshot bytes.

use vstd::prelude::*;

verus! {

/// Malformed calendar input: a date or time out of range, or text that does
/// not parse.
#[derive(Clone, Copy, Debug, PartialEq, Eq, Structural, PartialOrd)]
pub struct ValidationError;

/// A list operation was asked for an index that is out of range.
#[derive(Clone, Copy, Debug, PartialEq, Eq, Structural, PartialOrd)]
pub struct IndexError;

/// Snapshot bytes that do not decode to an application aggregate.
#[derive(Clone, Copy, Debug, PartialEq, Eq, Structural, PartialOrd)]
pub struct DecodeError;

} // verus!
