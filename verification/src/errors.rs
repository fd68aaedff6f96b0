use vstd::prelude::*;

verus! {

/// The error kinds of the client core. Every component reports its failure to
/// the caller; nothing is silently degraded except the documented lossy
/// decode of a branch display name.
#[derive(Clone, Copy, PartialEq, Eq, Structural, Debug)]
pub enum GitError {
    /// Connection or URL failure while reaching the remote.
    Transport,
    /// Malformed discovery or negotiation exchange.
    Protocol,
    /// An object whose bytes do not hash to its declared identifier, or an
    /// unresolvable or cyclic delta.
    CorruptObject,
    /// A working-tree write failure or a mode conflict.
    Checkout,
    /// A reference whose target cannot be resolved.
    Reference,
    /// Cooperative cancellation was observed.
    Cancelled,
}

} // verus!
