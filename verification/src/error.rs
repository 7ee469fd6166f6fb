//! The ways a lock request can fail.

use vstd::prelude::*;

verus! {

/// Why the manager refused or ended a request.
///
/// Every failure leaves the manager exactly as it was before the call, or,
/// for [`LockError::Timeout`], with the expired waiter fully removed.
#[derive(Clone, Copy, Debug, PartialEq, Eq, Structural)]
pub enum LockError {
    /// The client asked for a resource it already holds.
    AlreadyHeld,
    /// The client tried to release a resource it does not hold.
    NotHolder,
    /// Waiting would close a cycle of clients waiting on one another.
    Deadlock,
    /// The wait ran out before the resource was handed over.
    Timeout,
    /// The resource is held by someone else and the caller refused to wait.
    WouldBlock,
}

/// The sentence that describes each failure.
pub open spec fn message_of(error: LockError) -> Seq<char> {
    match error {
        LockError::AlreadyHeld => "the client already holds the resource"@,
        LockError::NotHolder => "the client does not hold the resource"@,
        LockError::Deadlock => "waiting for the resource would close a cycle of waits"@,
        LockError::Timeout => "the wait for the resource timed out"@,
        LockError::WouldBlock => "the resource is held by another client"@,
    }
}

impl LockError {
    /// A sentence that describes the failure.
    pub fn message(&self) -> (text: &'static str)
        ensures
            text@ == message_of(*self),
    {
        match self {
            LockError::AlreadyHeld => "the client already holds the resource",
            LockError::NotHolder => "the client does not hold the resource",
            LockError::Deadlock => "waiting for the resource would close a cycle of waits",
            LockError::Timeout => "the wait for the resource timed out",
            LockError::WouldBlock => "the resource is held by another client",
        }
    }
}

} // verus!
