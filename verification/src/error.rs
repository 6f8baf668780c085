//! What can go wrong, and how far it reaches.

use vstd::prelude::*;

verus! {

/// A failure that ends one connection and leaves every other one alone.
#[derive(Clone, Copy, Debug, PartialEq, Eq, Structural)]
pub enum ConnectionError {
    /// Buffered bytes up to a delimiter are not well-formed UTF-8.
    MalformedFrame,
    /// The socket failed, accepted no byte of a write, or ended inside a line.
    Io,
}

/// The listening socket is gone, so the whole service ends.
#[derive(Clone, Copy, Debug, PartialEq, Eq, Structural)]
pub struct ListenerFailure;

} // verus!
