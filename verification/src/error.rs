use vstd::prelude::*;

verus! {

/// The ways in which an operation of this library can refuse its input.
#[derive(Clone, Copy, Debug, PartialEq, Eq, Structural)]
pub enum MerkleError {
    /// An address is shorter than its two-byte prefix, or what follows the
    /// prefix is not an even number of hexadecimal digits.
    InvalidEncoding,
    /// A tree was asked for over no leaves at all.
    DegenerateInput,
    /// A proof was asked for a position that the tree does not hold.
    IndexOutOfRange,
}

} // verus!
