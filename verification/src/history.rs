//! Sequences of requests: what a manager has become after any number of
//! calls, made by any clients in any order.

use crate::ident::Name;
use crate::model::{
    admission, after_acquire, after_expiry, after_release, after_try_acquire, holds,
    lemma_enqueued, lemma_granted, lemma_released, lemma_withdrawn, state_valid, Admission, State,
};
use vstd::prelude::*;

verus! {

/// One call to the manager.
pub enum Request {
    /// `client` asks for `resource` and is ready to wait.
    Acquire { resource: Name, client: Name },
    /// `client` asks for `resource` and is not ready to wait.
    TryAcquire { resource: Name, client: Name },
    /// `client` gives `resource` back.
    Release { resource: Name, client: Name },
    /// The wait of `client` for `resource` runs out.
    Expire { resource: Name, client: Name },
}

/// The table after one call.
pub open spec fn step(s: State, request: Request) -> State {
    match request {
        Request::Acquire { resource, client } => after_acquire(s, resource, client),
        Request::TryAcquire { resource, client } => after_try_acquire(s, resource, client),
        Request::Release { resource, client } => after_release(s, resource, client),
        Request::Expire { resource, client } => after_expiry(s, resource, client),
    }
}

/// The table after a sequence of calls, the first of them made first.
pub open spec fn run(s: State, requests: Seq<Request>) -> State
    decreases requests.len(),
{
    if requests.len() == 0 {
        s
    } else {
        step(run(s, requests.drop_last()), requests.last())
    }
}

/// The call passes `r` from its holder to the head of the queue, or frees it.
pub open spec fn hands_off(s: State, request: Request, r: Name) -> bool {
    request matches Request::Release { resource, client } && resource == r && holds(s, r, client)
}

/// How many of the calls passed `r` on.
pub open spec fn hand_offs(s: State, requests: Seq<Request>, r: Name) -> nat
    decreases requests.len(),
{
    if requests.len() == 0 {
        0
    } else {
        hand_offs(s, requests.drop_last(), r) + if hands_off(
            run(s, requests.drop_last()),
            requests.last(),
            r,
        ) {
            1nat
        } else {
            0nat
        }
    }
}

/// Every call leaves a valid table valid.
pub proof fn lemma_step_keeps_valid(s: State, request: Request)
    requires
        state_valid(s),
    ensures
        state_valid(step(s, request)),
{
    match request {
        Request::Acquire { resource, client } => {
            match admission(s, resource, client) {
                Admission::Granted => lemma_granted(s, resource, client),
                Admission::Queued => lemma_enqueued(s, resource, client),
                _ => {},
            }
        },
        Request::TryAcquire { resource, client } => {
            if !s.contains_key(resource) {
                lemma_granted(s, resource, client);
            }
        },
        Request::Release { resource, client } => {
            if holds(s, resource, client) {
                lemma_released(s, resource);
            }
        },
        Request::Expire { resource, client } => {
            lemma_withdrawn(s, resource, client);
        },
    }
}

/// Whatever is asked of it, in whatever order, a manager that starts valid
/// stays valid: every resource in its table has one holder, who does not wait
/// for it, and nobody waits for it twice.
pub proof fn lemma_run_keeps_valid(s: State, requests: Seq<Request>)
    requires
        state_valid(s),
    ensures
        state_valid(run(s, requests)),
    decreases requests.len(),
{
    if requests.len() > 0 {
        lemma_run_keeps_valid(s, requests.drop_last());
        lemma_step_keeps_valid(run(s, requests.drop_last()), requests.last());
    }
}

} // verus!
