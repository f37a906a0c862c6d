//! The ways in which the engine refuses.

use vstd::prelude::*;

verus! {

/// Why the engine refused an operation.
#[derive(Clone, Copy, Debug, PartialEq, Eq, Hash, Structural)]
pub enum AuthError {
    /// No pending node, scoped or root, matches the call that asked. The
    /// enclosing transaction must be aborted as a whole.
    AuthorizationDenied,
    /// A declared tree holds a context that is not well formed. Nothing of
    /// the declaration was inserted.
    MalformedDeclaration,
    /// The tracker was misused: a frame was exited twice or out of order, or
    /// an operation that needs an active frame was called without one.
    FrameInvariantViolation,
}

} // verus!
