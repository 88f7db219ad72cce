//! Set algebra over the IPv4 address space, expressed as CIDR blocks.
//!
//! A [`Cidr`] is one aligned block of addresses. An [`Fcidr`] is an arbitrary
//! set of addresses, kept as a binary trie in canonical form, so that walking
//! it in order gives the shortest list of disjoint blocks that covers the set.

pub mod cidr;
pub mod error;
pub mod fcidr;
pub mod text;

pub use crate::cidr::Cidr;
pub use crate::error::Error;
pub use crate::fcidr::{Fcidr, FcidrIntoIterator};
