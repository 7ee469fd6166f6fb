//! The lock manager: grants, queues and refuses requests, and passes a
//! released resource on to the client that has waited longest.
//!
//! Nothing here blocks. A request that has to wait comes back at once as
//! [`Acquired::Pending`], with the channel on which the caller parks until
//! [`LockManager::release`] wakes it or its time runs out. A caller whose time
//! ran out reports back through [`LockManager::expire_wait`]. The manager is
//! meant to live behind one mutex, each call being one critical section.

use crate::error::LockError;
use crate::ident::{ClientId, Name, ResourceId};
use crate::lock_table::LockTable;
use crate::model::{
    admission, after_acquire, after_expiry, after_release, after_try_acquire, enqueued, holds,
    lemma_enqueue_then_withdraw, lemma_enqueued, lemma_granted, lemma_released, lemma_withdrawn,
    state_valid, wait_edges, waits, Admission, LockView, State,
};
use crate::wait_graph::{linked, WaitForGraph};
use crate::wake::WakeChannel;
use core::time::Duration;
use vstd::prelude::*;

verus! {

/// Proof of ownership: names the resource and the client that holds it.
#[derive(Debug, PartialEq, Eq)]
pub struct LockHandle {
    resource: ResourceId,
    client: ClientId,
}

impl View for LockHandle {
    type V = (Name, Name);

    closed spec fn view(&self) -> (Name, Name) {
        (self.resource@, self.client@)
    }
}

impl LockHandle {
    fn new(resource: &ResourceId, client: &ClientId) -> (handle: Self)
        ensures
            handle@ == (resource@, client@),
    {
        LockHandle { resource: resource.clone(), client: client.clone() }
    }

    /// The resource that is held.
    pub fn resource(&self) -> (resource: &ResourceId)
        ensures
            resource@ == self@.0,
    {
        &self.resource
    }

    /// The client that holds it.
    pub fn client(&self) -> (client: &ClientId)
        ensures
            client@ == self@.1,
    {
        &self.client
    }
}

/// What a queued client needs in order to wait: the channel it will be woken
/// on, how long it may wait, and the handle that is its own once it is woken.
#[derive(Debug)]
pub struct WaitTicket {
    handle: LockHandle,
    wake: WakeChannel,
    timeout: Option<Duration>,
}

impl WaitTicket {
    /// The resource and client of the pending request.
    pub closed spec fn request(&self) -> (Name, Name) {
        self.handle@
    }

    /// How long the client may wait; `None` is for ever.
    pub closed spec fn limit(&self) -> Option<Duration> {
        self.timeout
    }

    /// The channel on which the client is woken when the resource is its own.
    pub fn wake(&self) -> (wake: &WakeChannel)
        ensures
            *wake == self.channel(),
    {
        &self.wake
    }

    /// The channel that the ticket carries.
    pub closed spec fn channel(&self) -> WakeChannel {
        self.wake
    }

    /// The resource that is waited for.
    pub fn resource(&self) -> (resource: &ResourceId)
        ensures
            resource@ == self.request().0,
    {
        self.handle.resource()
    }

    /// The client that waits.
    pub fn client(&self) -> (client: &ClientId)
        ensures
            client@ == self.request().1,
    {
        self.handle.client()
    }

    /// How long the client may wait; `None` is for ever.
    pub fn timeout(&self) -> (timeout: Option<Duration>)
        ensures
            timeout == self.limit(),
    {
        self.timeout
    }

    /// The handle that becomes valid when the client is woken.
    pub fn into_handle(self) -> (handle: LockHandle)
        ensures
            handle@ == self.request(),
    {
        self.handle
    }
}

impl Clone for LockHandle {
    fn clone(&self) -> (copy: Self)
        ensures
            copy@ == self@,
    {
        LockHandle { resource: self.resource.clone(), client: self.client.clone() }
    }
}

/// How a request that was ready to wait has been admitted.
#[derive(Debug)]
pub enum Acquired {
    /// The resource was free: the client holds it.
    Granted(LockHandle),
    /// The resource is in use: the client is queued and has to wait.
    Pending(WaitTicket),
}

/// The error that stands for an admission, if the admission is a refusal.
pub open spec fn refusal(verdict: Admission) -> Option<LockError> {
    match verdict {
        Admission::AlreadyHeld => Some(LockError::AlreadyHeld),
        Admission::Deadlock => Some(LockError::Deadlock),
        Admission::Granted => None,
        Admission::Queued => None,
    }
}

/// The table of locks together with the graph of waits it implies.
struct Registry {
    table: LockTable,
    graph: WaitForGraph,
}

impl Registry {
    /// The table is sound and the graph holds exactly the waits that the
    /// table implies.
    spec fn wf(&self) -> bool {
        &&& self.table.wf()
        &&& self.graph@ == wait_edges(self.table@)
    }

    fn new() -> (registry: Self)
        ensures
            registry.wf(),
            registry.table@ == Map::<Name, LockView>::empty(),
    {
        let registry = Registry { table: LockTable::new(), graph: WaitForGraph::new() };
        assert(wait_edges(registry.table@) =~= registry.graph@);
        registry
    }

    fn is_holder(&self, resource: &ResourceId, client: &ClientId) -> (held: bool)
        requires
            self.wf(),
        ensures
            held == holds(self.table@, resource@, client@),
    {
        match self.table.holder_of(resource) {
            Some(holder) => holder.same(client),
            None => false,
        }
    }

    fn try_acquire(&mut self, resource: &ResourceId, client: &ClientId) -> (outcome: Result<
        LockHandle,
        LockError,
    >)
        requires
            old(self).wf(),
        ensures
            final(self).wf(),
            final(self).table@ == after_try_acquire(old(self).table@, resource@, client@),
            match outcome {
                Ok(handle) => !old(self).table@.contains_key(resource@) && handle@ == (
                    resource@,
                    client@,
                ),
                Err(e) => old(self).table@.contains_key(resource@) && e == if holds(
                    old(self).table@,
                    resource@,
                    client@,
                ) {
                    LockError::AlreadyHeld
                } else {
                    LockError::WouldBlock
                },
            },
    {
        proof {
            self.table.lemma_wf_is_valid();
        }
        match self.table.holder_of(resource) {
            Some(holder) => {
                if holder.same(client) {
                    Err(LockError::AlreadyHeld)
                } else {
                    Err(LockError::WouldBlock)
                }
            },
            None => {
                proof {
                    lemma_granted(self.table@, resource@, client@);
                }
                let _ = self.table.grant(resource, client);
                Ok(LockHandle::new(resource, client))
            },
        }
    }

    fn acquire(
        &mut self,
        resource: &ResourceId,
        client: &ClientId,
        limit: Option<Duration>,
    ) -> (outcome: Result<Acquired, LockError>)
        requires
            old(self).wf(),
        ensures
            final(self).wf(),
            final(self).table@ == after_acquire(old(self).table@, resource@, client@),
            match outcome {
                Ok(Acquired::Granted(handle)) => admission(old(self).table@, resource@, client@)
                    == Admission::Granted && handle@ == (resource@, client@),
                Ok(Acquired::Pending(ticket)) => admission(old(self).table@, resource@, client@)
                    == Admission::Queued && ticket.request() == (resource@, client@)
                    && ticket.limit() == limit,
                Err(e) => refusal(admission(old(self).table@, resource@, client@)) == Some(e),
            },
    {
        let ghost before = self.table@;
        proof {
            self.table.lemma_wf_is_valid();
        }
        let holder = match self.table.holder_of(resource) {
            Some(holder) => holder.clone(),
            None => {
                proof {
                    lemma_granted(before, resource@, client@);
                }
                let _ = self.table.grant(resource, client);
                return Ok(Acquired::Granted(LockHandle::new(resource, client)));
            },
        };
        if holder.same(client) {
            return Err(LockError::AlreadyHeld);
        }
        let was_waiting = self.table.is_waiting(resource, client);
        proof {
            lemma_enqueued(before, resource@, client@);
        }
        let wake = self.table.enqueue(resource, client).unwrap();
        if !was_waiting {
            self.graph.add_edge(client, &holder, resource);
        }
        if self.graph.has_cycle_through(client) {
            if !was_waiting {
                proof {
                    lemma_withdrawn(enqueued(before, resource@, client@), resource@, client@);
                    lemma_enqueue_then_withdraw(before, resource@, client@);
                }
                let _ = self.table.withdraw(resource, client);
                self.graph.remove_edge(client, resource);
            }
            return Err(LockError::Deadlock);
        }
        Ok(
            Acquired::Pending(
                WaitTicket { handle: LockHandle::new(resource, client), wake, timeout: limit },
            ),
        )
    }

    fn release(&mut self, resource: &ResourceId, client: &ClientId) -> (outcome: Result<
        (),
        LockError,
    >)
        requires
            old(self).wf(),
        ensures
            final(self).wf(),
            final(self).table@ == after_release(old(self).table@, resource@, client@),
            outcome == if holds(old(self).table@, resource@, client@) {
                Ok::<(), LockError>(())
            } else {
                Err::<(), LockError>(LockError::NotHolder)
            },
    {
        if !self.is_holder(resource, client) {
            return Err(LockError::NotHolder);
        }
        proof {
            self.table.lemma_wf_is_valid();
            lemma_released(self.table@, resource@);
        }
        match self.table.release(resource) {
            Some(heir) => {
                self.graph.hand_over(resource, &heir);
            },
            None => {},
        }
        Ok(())
    }

    fn expire_wait(&mut self, resource: &ResourceId, client: &ClientId) -> (outcome: Result<
        LockHandle,
        LockError,
    >)
        requires
            old(self).wf(),
        ensures
            final(self).wf(),
            final(self).table@ == after_expiry(old(self).table@, resource@, client@),
            match outcome {
                Ok(handle) => holds(old(self).table@, resource@, client@) && handle@ == (
                    resource@,
                    client@,
                ),
                Err(e) => !holds(old(self).table@, resource@, client@) && e == LockError::Timeout,
            },
    {
        if self.is_holder(resource, client) {
            return Ok(LockHandle::new(resource, client));
        }
        proof {
            self.table.lemma_wf_is_valid();
            lemma_withdrawn(self.table@, resource@, client@);
        }
        if self.table.withdraw(resource, client) {
            self.graph.remove_edge(client, resource);
        }
        Err(LockError::Timeout)
    }
}

/// Grants exclusive ownership of named resources to competing clients.
pub struct LockManager {
    registry: Registry,
    max_wait_time: Option<Duration>,
}

impl View for LockManager {
    type V = State;

    closed spec fn view(&self) -> State {
        self.registry.table@
    }
}

impl LockManager {
    #[verifier::type_invariant]
    spec fn consistent(self) -> bool {
        self.registry.wf()
    }

    /// The wait that a request gets when it names none.
    pub closed spec fn default_wait(&self) -> Option<Duration> {
        self.max_wait_time
    }

    /// A manager that tracks nothing. A request that names no timeout of its
    /// own may wait for `max_wait_time`; `None` lets it wait for ever.
    pub fn new(max_wait_time: Option<Duration>) -> (manager: Self)
        ensures
            manager@ == Map::<Name, LockView>::empty(),
            manager.default_wait() == max_wait_time,
    {
        LockManager { registry: Registry::new(), max_wait_time }
    }

    /// The wait that a request gets when it names none.
    pub fn max_wait_time(&self) -> (limit: Option<Duration>)
        ensures
            limit == self.default_wait(),
    {
        self.max_wait_time
    }

    /// Whether `resource` is in use. A resource leaves the table when its
    /// holder releases it with nobody waiting.
    pub fn contains(&self, resource: &ResourceId) -> (present: bool)
        ensures
            state_valid(self@),
            present == self@.contains_key(resource@),
    {
        proof {
            use_type_invariant(self);
            self.registry.table.lemma_wf_is_valid();
        }
        self.registry.table.contains(resource)
    }

    /// How many resources are in use.
    pub fn resource_count(&self) -> (count: usize)
        ensures
            state_valid(self@),
            self@.dom().finite(),
            count == self@.dom().len(),
    {
        proof {
            use_type_invariant(self);
            self.registry.table.lemma_wf_is_valid();
        }
        self.registry.table.len()
    }

    /// The client that holds `resource`, if it is in use.
    pub fn holder_of(&self, resource: &ResourceId) -> (holder: Option<ClientId>)
        ensures
            state_valid(self@),
            match holder {
                Some(c) => holds(self@, resource@, c@),
                None => !self@.contains_key(resource@),
            },
    {
        proof {
            use_type_invariant(self);
            self.registry.table.lemma_wf_is_valid();
        }
        match self.registry.table.holder_of(resource) {
            Some(c) => Some(c.clone()),
            None => None,
        }
    }

    /// Whether `client` holds `resource`.
    pub fn is_holder(&self, resource: &ResourceId, client: &ClientId) -> (held: bool)
        ensures
            state_valid(self@),
            held == holds(self@, resource@, client@),
    {
        proof {
            use_type_invariant(self);
            self.registry.table.lemma_wf_is_valid();
        }
        self.registry.is_holder(resource, client)
    }

    /// Whether `client` is queued for `resource`.
    pub fn is_waiting(&self, resource: &ResourceId, client: &ClientId) -> (waiting: bool)
        ensures
            state_valid(self@),
            waiting == waits(self@, resource@, client@),
    {
        proof {
            use_type_invariant(self);
            self.registry.table.lemma_wf_is_valid();
        }
        self.registry.table.is_waiting(resource, client)
    }

    /// The clients queued for `resource`, the one to be served next first.
    pub fn waiters_of(&self, resource: &ResourceId) -> (queue: Vec<ClientId>)
        ensures
            state_valid(self@),
            queue.len() == if self@.contains_key(resource@) {
                self@[resource@].waiters.len()
            } else {
                0
            },
            forall|k: int|
                0 <= k < queue.len() ==> (#[trigger] queue@[k])@ == self@[resource@].waiters[k],
    {
        proof {
            use_type_invariant(self);
            self.registry.table.lemma_wf_is_valid();
        }
        self.registry.table.waiters_of(resource)
    }

    /// Whether `waiter` is queued for some resource that `holder` holds.
    pub fn waits_for(&self, waiter: &ClientId, holder: &ClientId) -> (blocked: bool)
        ensures
            state_valid(self@),
            blocked == linked(wait_edges(self@), waiter@, holder@),
    {
        proof {
            use_type_invariant(self);
            self.registry.table.lemma_wf_is_valid();
        }
        self.registry.graph.waits_for(waiter, holder)
    }

    /// Asks for `resource` without being ready to wait.
    ///
    /// A resource that is not in use is granted. One that is in use is left
    /// as it is: the holder asking again is told `AlreadyHeld`, anyone else
    /// `WouldBlock`.
    pub fn try_acquire(&mut self, resource: &ResourceId, client: &ClientId) -> (outcome: Result<
        LockHandle,
        LockError,
    >)
        ensures
            state_valid(old(self)@),
            state_valid(final(self)@),
            final(self).default_wait() == old(self).default_wait(),
            final(self)@ == after_try_acquire(old(self)@, resource@, client@),
            match outcome {
                Ok(handle) => !old(self)@.contains_key(resource@) && handle@ == (
                    resource@,
                    client@,
                ),
                Err(e) => old(self)@.contains_key(resource@) && e == if holds(
                    old(self)@,
                    resource@,
                    client@,
                ) {
                    LockError::AlreadyHeld
                } else {
                    LockError::WouldBlock
                },
            },
    {
        proof {
            use_type_invariant(&*self);
            self.registry.table.lemma_wf_is_valid();
        }
        let mut registry = Registry::new();
        core::mem::swap(&mut self.registry, &mut registry);
        let outcome = registry.try_acquire(resource, client);
        proof {
            registry.table.lemma_wf_is_valid();
        }
        self.registry = registry;
        outcome
    }

    /// Asks for `resource`, ready to wait for it.
    ///
    /// A resource that is not in use is granted. Its holder asking again is
    /// told `AlreadyHeld`. Anyone else joins the end of the queue, unless the
    /// wait would leave the client on a cycle of waits: then the request is
    /// refused with `Deadlock` and the manager is left as it was. A queued
    /// caller waits on the ticket for `timeout`, or for the manager's default
    /// when `timeout` is `None`.
    pub fn acquire(
        &mut self,
        resource: &ResourceId,
        client: &ClientId,
        timeout: Option<Duration>,
    ) -> (outcome: Result<Acquired, LockError>)
        ensures
            state_valid(old(self)@),
            state_valid(final(self)@),
            final(self).default_wait() == old(self).default_wait(),
            final(self)@ == after_acquire(old(self)@, resource@, client@),
            match outcome {
                Ok(Acquired::Granted(handle)) => admission(old(self)@, resource@, client@)
                    == Admission::Granted && handle@ == (resource@, client@),
                Ok(Acquired::Pending(ticket)) => admission(old(self)@, resource@, client@)
                    == Admission::Queued && ticket.request() == (resource@, client@)
                    && ticket.limit() == if timeout is Some {
                    timeout
                } else {
                    old(self).default_wait()
                },
                Err(e) => refusal(admission(old(self)@, resource@, client@)) == Some(e),
            },
    {
        proof {
            use_type_invariant(&*self);
            self.registry.table.lemma_wf_is_valid();
        }
        let limit = match timeout {
            Some(own) => Some(own),
            None => self.max_wait_time,
        };
        let mut registry = Registry::new();
        core::mem::swap(&mut self.registry, &mut registry);
        let outcome = registry.acquire(resource, client, limit);
        proof {
            registry.table.lemma_wf_is_valid();
        }
        self.registry = registry;
        outcome
    }

    /// Gives `resource` back.
    ///
    /// Only the holder can: anyone else is told `NotHolder` and nothing
    /// changes. The client that has waited longest becomes the holder in the
    /// same step and is woken; with nobody waiting the resource leaves the
    /// table.
    pub fn release(&mut self, resource: &ResourceId, client: &ClientId) -> (outcome: Result<
        (),
        LockError,
    >)
        ensures
            state_valid(old(self)@),
            state_valid(final(self)@),
            final(self).default_wait() == old(self).default_wait(),
            final(self)@ == after_release(old(self)@, resource@, client@),
            outcome == if holds(old(self)@, resource@, client@) {
                Ok::<(), LockError>(())
            } else {
                Err::<(), LockError>(LockError::NotHolder)
            },
    {
        proof {
            use_type_invariant(&*self);
            self.registry.table.lemma_wf_is_valid();
        }
        let mut registry = Registry::new();
        core::mem::swap(&mut self.registry, &mut registry);
        let outcome = registry.release(resource, client);
        proof {
            registry.table.lemma_wf_is_valid();
        }
        self.registry = registry;
        outcome
    }

    /// Ends the wait of `client` for `resource` because its time ran out.
    ///
    /// The client leaves the queue, the others keeping their order, and is
    /// told `Timeout`. A client that was handed the resource before its
    /// report arrived keeps it and gets its handle instead.
    pub fn expire_wait(&mut self, resource: &ResourceId, client: &ClientId) -> (outcome: Result<
        LockHandle,
        LockError,
    >)
        ensures
            state_valid(old(self)@),
            state_valid(final(self)@),
            final(self).default_wait() == old(self).default_wait(),
            final(self)@ == after_expiry(old(self)@, resource@, client@),
            match outcome {
                Ok(handle) => holds(old(self)@, resource@, client@) && handle@ == (
                    resource@,
                    client@,
                ),
                Err(e) => !holds(old(self)@, resource@, client@) && e == LockError::Timeout,
            },
    {
        proof {
            use_type_invariant(&*self);
            self.registry.table.lemma_wf_is_valid();
        }
        let mut registry = Registry::new();
        core::mem::swap(&mut self.registry, &mut registry);
        let outcome = registry.expire_wait(resource, client);
        proof {
            registry.table.lemma_wf_is_valid();
        }
        self.registry = registry;
        outcome
    }
}

} // verus!
