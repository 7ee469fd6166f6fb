//! The channel on which a parked waiter learns that the resource is now its own.
//!
//! The channel is a `tokio::sync::Notify`. It keeps one wake-up in store when
//! nobody is parked yet, so a waiter that is signalled between being queued
//! and going to sleep still wakes.

use std::sync::Arc;
use tokio::sync::Notify;
use vstd::prelude::*;

verus! {

/// `tokio::sync::Notify`, carried through as an opaque value.
#[verifier::external_type_specification]
#[verifier::external_body]
pub struct ExNotify(tokio::sync::Notify);

/// `tokio::sync::Notify::new` makes a channel with no wake-up in store.
/// Nothing is claimed of the value it returns.
pub assume_specification[ tokio::sync::Notify::new ]() -> (notify: tokio::sync::Notify)
;

/// `tokio::sync::Notify::notify_one` wakes the task parked on the channel, or
/// stores one wake-up for the next task that parks. It returns nothing, and
/// nothing is claimed of its effect.
pub assume_specification[ tokio::sync::Notify::notify_one ](notify: &tokio::sync::Notify)
;

/// One end of a wake-up channel. The manager keeps one end with the queued
/// waiter and hands the other to the caller that has to wait.
#[derive(Debug)]
pub struct WakeChannel {
    notify: Arc<Notify>,
}

impl WakeChannel {
    /// A channel on which nothing has been signalled yet.
    pub fn new() -> (channel: Self) {
        WakeChannel { notify: Arc::new(Notify::new()) }
    }

    /// Another end of the same channel.
    pub fn share(&self) -> (twin: Self)
        ensures
            twin == *self,
    {
        WakeChannel { notify: self.notify.clone() }
    }

    /// Wakes the waiter parked on the channel. A waiter that has not parked
    /// yet finds the wake-up waiting for it.
    pub fn signal(&self) {
        self.notify.notify_one();
    }

    /// The underlying channel, for the caller to park on.
    pub fn notifier(&self) -> (notify: &Notify)
        ensures
            *notify == self.underlying(),
    {
        &*self.notify
    }

    /// The `Notify` that this end stands for. Every end of one channel stands
    /// for the same one.
    pub closed spec fn underlying(&self) -> Notify {
        *self.notify
    }
}

} // verus!
