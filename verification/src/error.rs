//! The errors of building and reading CIDR blocks.

use vstd::prelude::*;

verus! {

/// What can go wrong when a CIDR block is built or read from text. Each
/// variant carries a message for people.
#[derive(Clone, Debug, Eq, Ord, PartialEq, PartialOrd)]
pub enum Error {
    /// The address has bits set below the prefix.
    InvalidNetwork(String),
    /// The prefix is longer than 32 bits.
    InvalidPrefix(String),
    /// The text is not of the form `a.b.c.d/p`.
    Parse(String),
}

} // verus!
