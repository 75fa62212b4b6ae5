//! Error values for the guarded mutation layer.

use vstd::prelude::*;

verus! {

/// An operation on a `Bitset` produced an unintended empty set.  Holds a
/// human-readable description of the operation and its operands.
#[derive(Clone, Debug)]
pub struct EmptiedBitsetError(pub String);

/// A candidate element could not be converted to an index: it is
/// negative, so it cannot name a member of any set of naturals.
#[derive(Clone, Copy, Debug, PartialEq, Eq, Structural)]
pub struct ConversionError;

/// What can go wrong when removing an element under the non-empty guard:
/// either the candidate is not convertible to an index, or the removal
/// would have emptied the set.
#[derive(Clone, Debug)]
pub enum RemoveError {
    Conversion(ConversionError),
    Emptied(EmptiedBitsetError),
}

} // verus!
