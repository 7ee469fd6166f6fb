//! The lock of one resource: its holder, its queue of waiters, and the
//! channel on which each waiter is told that its turn has come.

use crate::ident::{ClientId, Name};
use crate::model::{
    free_lock, fresh_lock, lemma_joined_members, lemma_left_members, lemma_served_members,
    lock_passed, lock_queued, lock_valid, lock_withdrawn, LockView,
};
use crate::wake::WakeChannel;
use vstd::prelude::*;

verus! {

struct Waiter {
    client: ClientId,
    wake: WakeChannel,
}

/// The clients of a queue, in queue order.
spec fn names(queue: Seq<Waiter>) -> Seq<Name> {
    Seq::new(queue.len(), |i: int| queue[i].client@)
}

proof fn lemma_names_push(queue: Seq<Waiter>, waiter: Waiter)
    ensures
        names(queue.push(waiter)) == names(queue).push(waiter.client@),
{
    assert(names(queue.push(waiter)) =~= names(queue).push(waiter.client@));
}

proof fn lemma_names_remove(queue: Seq<Waiter>, i: int)
    requires
        0 <= i < queue.len(),
    ensures
        names(queue.remove(i)) == names(queue).remove(i),
{
    assert(names(queue.remove(i)) =~= names(queue).remove(i));
}

/// The state of one resource: who owns it and who is waiting for it.
pub struct ResourceLock {
    holder: Option<ClientId>,
    waiters: Vec<Waiter>,
}

impl View for ResourceLock {
    type V = LockView;

    closed spec fn view(&self) -> LockView {
        LockView {
            holder: match self.holder {
                Some(c) => Some(c@),
                None => None,
            },
            waiters: names(self.waiters@),
        }
    }
}

impl ResourceLock {
    /// What every lock satisfies between calls.
    pub open spec fn wf(&self) -> bool {
        lock_valid(self@)
    }

    /// A lock that nobody holds.
    pub fn new() -> (lock: Self)
        ensures
            lock.wf(),
            lock@ == free_lock(),
    {
        let lock = ResourceLock { holder: None, waiters: Vec::new() };
        assert(lock@.waiters =~= Seq::<Name>::empty());
        lock
    }

    /// Whether nobody holds the lock.
    pub fn is_free(&self) -> (free: bool)
        ensures
            free == (self@.holder is None),
    {
        self.holder.is_none()
    }

    /// The client that holds the lock, if any.
    pub fn holder(&self) -> (holder: Option<&ClientId>)
        ensures
            match holder {
                Some(c) => self@.holder == Some(c@),
                None => self@.holder is None,
            },
    {
        match &self.holder {
            Some(c) => Some(c),
            None => None,
        }
    }

    /// Whether `client` holds the lock.
    pub fn is_held_by(&self, client: &ClientId) -> (held: bool)
        ensures
            held == (self@.holder == Some(client@)),
    {
        match &self.holder {
            Some(c) => c.same(client),
            None => false,
        }
    }

    /// How many clients are waiting.
    pub fn waiter_count(&self) -> (count: usize)
        ensures
            count == self@.waiters.len(),
    {
        self.waiters.len()
    }

    /// The client at place `i` of the queue, place 0 being served next.
    pub fn waiter_at(&self, i: usize) -> (waiter: Option<&ClientId>)
        ensures
            match waiter {
                Some(c) => i < self@.waiters.len() && c@ == self@.waiters[i as int],
                None => i >= self@.waiters.len(),
            },
    {
        if i < self.waiters.len() {
            Some(&self.waiters[i].client)
        } else {
            None
        }
    }

    /// The place of `client` in the queue, if it is waiting.
    pub fn position_of(&self, client: &ClientId) -> (place: Option<usize>)
        ensures
            match place {
                Some(i) => i < self@.waiters.len() && self@.waiters[i as int] == client@,
                None => !self@.waiters.contains(client@),
            },
    {
        let mut i: usize = 0;
        while i < self.waiters.len()
            invariant
                i <= self.waiters.len(),
                forall|k: int| 0 <= k < i ==> #[trigger] self@.waiters[k] != client@,
            decreases self.waiters.len() - i,
        {
            if self.waiters[i].client.same(client) {
                return Some(i);
            }
            i += 1;
        }
        None
    }

    /// Whether `client` is waiting for the lock.
    pub fn is_waiting(&self, client: &ClientId) -> (waiting: bool)
        ensures
            waiting == self@.waiters.contains(client@),
    {
        self.position_of(client).is_some()
    }

    /// Gives the lock to `client` if nobody holds it.
    pub fn claim(&mut self, client: &ClientId) -> (granted: bool)
        requires
            old(self).wf(),
        ensures
            final(self).wf(),
            granted == (old(self)@.holder is None),
            final(self)@ == if granted {
                fresh_lock(client@)
            } else {
                old(self)@
            },
    {
        if self.holder.is_some() {
            return false;
        }
        self.holder = Some(client.clone());
        assert(self@.waiters =~= Seq::<Name>::empty());
        true
    }

    /// Puts `client` at the end of the queue, unless it already waits, and
    /// hands out the channel on which it will be woken.
    ///
    /// Nothing happens, and nothing is handed out, when the lock is free or
    /// `client` is its holder: neither has anything to wait for.
    pub fn enqueue(&mut self, client: &ClientId) -> (ticket: Option<WakeChannel>)
        requires
            old(self).wf(),
        ensures
            final(self).wf(),
            ticket is Some <==> old(self)@.holder is Some && old(self)@.holder != Some(client@),
            final(self)@ == if ticket is Some {
                lock_queued(old(self)@, client@)
            } else {
                old(self)@
            },
    {
        if self.holder.is_none() || self.is_held_by(client) {
            return None;
        }
        match self.position_of(client) {
            Some(i) => Some(self.waiters[i].wake.share()),
            None => {
                let wake = WakeChannel::new();
                let ticket = wake.share();
                let waiter = Waiter { client: client.clone(), wake };
                proof {
                    lemma_names_push(self.waiters@, waiter);
                    lemma_joined_members(self@.waiters, client@);
                }
                self.waiters.push(waiter);
                Some(ticket)
            },
        }
    }

    /// Takes `client` out of the queue, the others keeping their order.
    pub fn withdraw(&mut self, client: &ClientId) -> (removed: bool)
        requires
            old(self).wf(),
        ensures
            final(self).wf(),
            removed == old(self)@.waiters.contains(client@),
            final(self)@ == lock_withdrawn(old(self)@, client@),
    {
        match self.position_of(client) {
            Some(i) => {
                proof {
                    lemma_names_remove(self.waiters@, i as int);
                    lemma_left_members(self@.waiters, client@);
                    assert(self@.waiters.index_of(client@) == i);
                }
                let _ = self.waiters.remove(i);
                true
            },
            None => false,
        }
    }

    /// The holder lets go: the head of the queue becomes the holder and is
    /// woken, or the lock falls free when nobody waits.
    pub fn hand_off(&mut self) -> (heir: Option<ClientId>)
        requires
            old(self).wf(),
        ensures
            final(self).wf(),
            final(self)@ == lock_passed(old(self)@),
            match heir {
                Some(c) => old(self)@.waiters.len() > 0 && c@ == old(self)@.waiters[0],
                None => old(self)@.waiters.len() == 0,
            },
    {
        if self.waiters.len() == 0 {
            self.holder = None;
            assert(self@.waiters =~= Seq::<Name>::empty());
            return None;
        }
        proof {
            lemma_names_remove(self.waiters@, 0);
            lemma_served_members(self@.waiters);
            assert(self@.waiters.remove(0) =~= self@.waiters.drop_first());
        }
        let next = self.waiters.remove(0);
        next.wake.signal();
        let heir = next.client.clone();
        self.holder = Some(next.client);
        Some(heir)
    }
}

} // verus!
