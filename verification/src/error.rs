//! One tagged error type per failure class.

use vstd::prelude::*;

verus! {

/// Why a descriptor, an address or a private key in text form was refused.
#[derive(Clone, Copy, Debug, PartialEq, Eq, Structural)]
pub enum ParseError {
    /// The descriptor has no `#` followed by a checksum.
    MissingChecksum,
    /// The descriptor is not of the form `sh(multi(...))`.
    UnsupportedWrapper,
    /// The text inside the wrapper does not follow the grammar.
    Malformed,
    /// The threshold is not a number from 1 to 16, or exceeds the number of keys.
    BadThreshold,
    /// More than 16 keys, or none.
    BadKeyCount,
    /// A key is not lower-case hex.
    MalformedHex,
    /// A key does not start with 0x02 or 0x03.
    UncompressedKey,
    /// A key is not a point of the curve.
    InvalidKey,
    /// A key occurs twice.
    DuplicateKey,
    /// The checksum is not that of the descriptor.
    BadChecksum,
    /// The recipient address does not decode.
    BadAddress,
    /// The private key does not decode, or is not a valid scalar.
    BadWif,
    /// The private key was encoded for another network.
    WrongKeyNetwork,
}

/// Why no transaction could be built.
#[derive(Clone, Copy, Debug, PartialEq, Eq, Structural)]
pub enum BuildError {
    /// The recipient address belongs to another network.
    WrongNetwork,
}

/// What was asked for, fee included, and what the wallet holds; each is the
/// largest `u64` where the number is larger.
#[derive(Clone, Copy, Debug, PartialEq, Eq, Structural)]
pub struct InsufficientFunds {
    pub requested: u64,
    pub available: u64,
}

/// Why signing stopped.
#[derive(Clone, Copy, Debug, PartialEq, Eq, Structural)]
pub enum SignError {
    /// The redeem script of this input does not hash to the script hash that the
    /// spent output commits to.
    DescriptorMismatch(usize),
}

/// Every way in which building, signing and finalizing a transaction fails.
#[derive(Debug)]
pub enum Error {
    Parse(ParseError),
    Build(BuildError),
    InsufficientFunds(InsufficientFunds),
    Sign(SignError),
    /// More signers are needed for these inputs.
    Incomplete { short_inputs: Vec<usize> },
    /// A signature does not verify, or an input is not bound to its redeem
    /// script.
    Invalid,
}

} // verus!
