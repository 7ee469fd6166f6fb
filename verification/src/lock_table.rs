//! The table of locks: one entry for each resource that somebody holds.
//!
//! An entry is made when a resource is first granted and leaves the table the
//! moment its lock falls idle, so the table never grows beyond the resources
//! in use.

use crate::ident::{ClientId, Name, ResourceId};
use crate::model::{
    enqueued, granted, holds, released, state_valid, waits, withdrawn, LockView, State,
};
use crate::resource_lock::ResourceLock;
use crate::wake::WakeChannel;
use vstd::prelude::*;

verus! {

struct Slot {
    resource: ResourceId,
    lock: ResourceLock,
}

/// Some slot is for `r`.
spec fn present(slots: Seq<Slot>, r: Name) -> bool {
    exists|i: int| 0 <= i < slots.len() && (#[trigger] slots[i]).resource@ == r
}

/// A slot that is for `r`, if there is one.
spec fn slot_of(slots: Seq<Slot>, r: Name) -> int {
    choose|i: int| 0 <= i < slots.len() && (#[trigger] slots[i]).resource@ == r
}

/// The slots read as a map from resource to lock.
spec fn table_of(slots: Seq<Slot>) -> State {
    Map::new(|r: Name| present(slots, r), |r: Name| slots[slot_of(slots, r)].lock@)
}

/// No resource has two slots.
spec fn distinct(slots: Seq<Slot>) -> bool {
    forall|i: int, j: int|
        0 <= i < slots.len() && 0 <= j < slots.len() && i != j ==> (#[trigger] slots[i]).resource@
            != (#[trigger] slots[j]).resource@
}

/// Every slot's lock is sound and held.
spec fn all_held(slots: Seq<Slot>) -> bool {
    forall|i: int|
        0 <= i < slots.len() ==> (#[trigger] slots[i]).lock.wf() && slots[i].lock@.holder is Some
}

/// With one slot for each resource, the map gives each slot's own lock.
proof fn lemma_lookup(slots: Seq<Slot>, i: int)
    requires
        distinct(slots),
        0 <= i < slots.len(),
    ensures
        present(slots, slots[i].resource@),
        slot_of(slots, slots[i].resource@) == i,
        table_of(slots).contains_key(slots[i].resource@),
        table_of(slots)[slots[i].resource@] == slots[i].lock@,
{
}

/// Changing the lock in one slot changes one entry of the map.
proof fn lemma_table_update(before: Seq<Slot>, after: Seq<Slot>, i: int)
    requires
        distinct(before),
        0 <= i < before.len(),
        after.len() == before.len(),
        after[i].resource@ == before[i].resource@,
        forall|k: int| 0 <= k < before.len() && k != i ==> after[k] == before[k],
    ensures
        distinct(after),
        table_of(after) == table_of(before).insert(before[i].resource@, after[i].lock@),
{
    assert forall|a: int, b: int|
        0 <= a < after.len() && 0 <= b < after.len() && a != b implies (#[trigger] after[a]).resource@
        != (#[trigger] after[b]).resource@ by {
        assert(after[a].resource@ == before[a].resource@);
        assert(after[b].resource@ == before[b].resource@);
    }
    let target = table_of(before).insert(before[i].resource@, after[i].lock@);
    assert forall|r: Name| table_of(after).contains_key(r) <==> target.contains_key(r) by {
        if present(after, r) {
            let k = slot_of(after, r);
            assert(before[k].resource@ == r);
        }
        if present(before, r) {
            let k = slot_of(before, r);
            assert(after[k].resource@ == r);
        }
        assert(after[i].resource@ == before[i].resource@);
    }
    assert forall|r: Name| table_of(after).contains_key(r) implies table_of(after)[r]
        == target[r] by {
        let k = slot_of(after, r);
        lemma_lookup(after, k);
        if k != i {
            assert(before[k] == after[k]);
            lemma_lookup(before, k);
        }
    }
    assert(table_of(after) =~= target);
}

/// A new slot for an untracked resource adds one entry to the map.
proof fn lemma_table_push(before: Seq<Slot>, slot: Slot)
    requires
        distinct(before),
        !present(before, slot.resource@),
    ensures
        distinct(before.push(slot)),
        table_of(before.push(slot)) == table_of(before).insert(slot.resource@, slot.lock@),
{
    let after = before.push(slot);
    let target = table_of(before).insert(slot.resource@, slot.lock@);
    assert forall|a: int, b: int|
        0 <= a < after.len() && 0 <= b < after.len() && a != b implies (#[trigger] after[a]).resource@
        != (#[trigger] after[b]).resource@ by {
        if a < before.len() {
            assert(after[a] == before[a]);
        }
        if b < before.len() {
            assert(after[b] == before[b]);
        }
    }
    assert(after[before.len() as int] == slot);
    assert forall|r: Name| table_of(after).contains_key(r) <==> target.contains_key(r) by {
        if present(after, r) {
            let k = slot_of(after, r);
            if k < before.len() {
                assert(before[k].resource@ == r);
            }
        }
        if present(before, r) {
            let k = slot_of(before, r);
            assert(after[k].resource@ == r);
        }
    }
    assert forall|r: Name| table_of(after).contains_key(r) implies table_of(after)[r]
        == target[r] by {
        let k = slot_of(after, r);
        lemma_lookup(after, k);
        if k < before.len() {
            assert(before[k] == after[k]);
            lemma_lookup(before, k);
        }
    }
    assert(table_of(after) =~= target);
}

/// Taking a slot away takes one entry out of the map.
proof fn lemma_table_remove(before: Seq<Slot>, i: int)
    requires
        distinct(before),
        0 <= i < before.len(),
    ensures
        distinct(before.remove(i)),
        table_of(before.remove(i)) == table_of(before).remove(before[i].resource@),
{
    let after = before.remove(i);
    let target = table_of(before).remove(before[i].resource@);
    assert forall|a: int| 0 <= a < after.len() implies (#[trigger] after[a]) == before[if a < i {
        a
    } else {
        a + 1
    }] by {}
    assert forall|a: int, b: int|
        0 <= a < after.len() && 0 <= b < after.len() && a != b implies (#[trigger] after[a]).resource@
        != (#[trigger] after[b]).resource@ by {
        let a0 = if a < i {
            a
        } else {
            a + 1
        };
        let b0 = if b < i {
            b
        } else {
            b + 1
        };
        assert(after[a] == before[a0]);
        assert(after[b] == before[b0]);
    }
    assert forall|r: Name| table_of(after).contains_key(r) <==> target.contains_key(r) by {
        if present(after, r) {
            let k = slot_of(after, r);
            let k0 = if k < i {
                k
            } else {
                k + 1
            };
            assert(after[k] == before[k0]);
            assert(before[k0].resource@ == r);
        }
        if present(before, r) && r != before[i].resource@ {
            let k = slot_of(before, r);
            let k1 = if k < i {
                k
            } else {
                k - 1
            };
            assert(after[k1] == before[k]);
            assert(after[k1].resource@ == r);
        }
    }
    assert forall|r: Name| table_of(after).contains_key(r) implies table_of(after)[r]
        == target[r] by {
        let k = slot_of(after, r);
        lemma_lookup(after, k);
        let k0 = if k < i {
            k
        } else {
            k + 1
        };
        assert(after[k] == before[k0]);
        lemma_lookup(before, k0);
    }
    assert(table_of(after) =~= target);
}

/// Every resource in use, with its lock.
pub struct LockTable {
    slots: Vec<Slot>,
}

impl View for LockTable {
    type V = State;

    closed spec fn view(&self) -> State {
        table_of(self.slots@)
    }
}

impl LockTable {
    /// What every table satisfies between calls: one entry for each resource,
    /// each lock sound, and no lock idle.
    pub closed spec fn wf(&self) -> bool {
        distinct(self.slots@) && all_held(self.slots@)
    }

    /// A table that meets `wf` reads as a valid state.
    pub proof fn lemma_wf_is_valid(&self)
        requires
            self.wf(),
        ensures
            state_valid(self@),
    {
        assert forall|r: Name| #[trigger] self@.contains_key(r) implies crate::model::lock_valid(
            self@[r],
        ) && self@[r].holder is Some by {
            let k = slot_of(self.slots@, r);
            lemma_lookup(self.slots@, k);
        }
    }

    /// A table that tracks nothing.
    pub fn new() -> (table: Self)
        ensures
            table.wf(),
            table@ == Map::<Name, LockView>::empty(),
    {
        let table = LockTable { slots: Vec::new() };
        assert(table@ =~= Map::<Name, LockView>::empty());
        table
    }

    /// How many resources are in use.
    pub fn len(&self) -> (count: usize)
        requires
            self.wf(),
        ensures
            count == self@.dom().len(),
            self@.dom().finite(),
    {
        proof {
            lemma_domain_size(self.slots@);
        }
        self.slots.len()
    }

    fn find(&self, resource: &ResourceId) -> (place: Option<usize>)
        ensures
            match place {
                Some(i) => i < self.slots.len() && self.slots@[i as int].resource@ == resource@,
                None => !present(self.slots@, resource@),
            },
    {
        let mut i: usize = 0;
        while i < self.slots.len()
            invariant
                i <= self.slots.len(),
                forall|k: int| 0 <= k < i ==> (#[trigger] self.slots@[k]).resource@ != resource@,
            decreases self.slots.len() - i,
        {
            if self.slots[i].resource.same(resource) {
                return Some(i);
            }
            i += 1;
        }
        None
    }

    /// Whether the table has an entry for `resource`.
    pub fn contains(&self, resource: &ResourceId) -> (present: bool)
        ensures
            present == self@.contains_key(resource@),
    {
        self.find(resource).is_some()
    }

    /// The holder of `resource`, or nothing when the resource is not in use.
    pub fn holder_of(&self, resource: &ResourceId) -> (holder: Option<&ClientId>)
        requires
            self.wf(),
        ensures
            match holder {
                Some(c) => holds(self@, resource@, c@),
                None => !self@.contains_key(resource@),
            },
    {
        match self.find(resource) {
            Some(i) => {
                proof {
                    lemma_lookup(self.slots@, i as int);
                }
                self.slots[i].lock.holder()
            },
            None => None,
        }
    }

    /// Whether `client` is queued for `resource`.
    pub fn is_waiting(&self, resource: &ResourceId, client: &ClientId) -> (waiting: bool)
        requires
            self.wf(),
        ensures
            waiting == waits(self@, resource@, client@),
    {
        match self.find(resource) {
            Some(i) => {
                proof {
                    lemma_lookup(self.slots@, i as int);
                }
                self.slots[i].lock.is_waiting(client)
            },
            None => false,
        }
    }

    /// The clients queued for `resource`, the one to be served next first.
    pub fn waiters_of(&self, resource: &ResourceId) -> (queue: Vec<ClientId>)
        requires
            self.wf(),
        ensures
            queue.len() == if self@.contains_key(resource@) {
                self@[resource@].waiters.len()
            } else {
                0
            },
            forall|k: int|
                0 <= k < queue.len() ==> (#[trigger] queue@[k])@ == self@[resource@].waiters[k],
    {
        let mut queue: Vec<ClientId> = Vec::new();
        match self.find(resource) {
            Some(i) => {
                proof {
                    lemma_lookup(self.slots@, i as int);
                }
                let lock = &self.slots[i].lock;
                let n: usize = lock.waiter_count();
                let mut k: usize = 0;
                while k < n
                    invariant
                        k <= n,
                        n == lock@.waiters.len(),
                        queue.len() == k,
                        forall|m: int| 0 <= m < k ==> (#[trigger] queue@[m])@ == lock@.waiters[m],
                    decreases n - k,
                {
                    match lock.waiter_at(k) {
                        Some(c) => queue.push(c.clone()),
                        None => {},
                    }
                    k += 1;
                }
            },
            None => {},
        }
        queue
    }

    /// Gives the untracked `resource` to `client`. A resource that is already
    /// in the table is left alone.
    pub fn grant(&mut self, resource: &ResourceId, client: &ClientId) -> (done: bool)
        requires
            old(self).wf(),
        ensures
            final(self).wf(),
            done == !old(self)@.contains_key(resource@),
            final(self)@ == if done {
                granted(old(self)@, resource@, client@)
            } else {
                old(self)@
            },
    {
        if self.find(resource).is_some() {
            return false;
        }
        let mut lock = ResourceLock::new();
        let _ = lock.claim(client);
        let slot = Slot { resource: resource.clone(), lock };
        proof {
            lemma_table_push(self.slots@, slot);
        }
        self.slots.push(slot);
        true
    }

    /// Queues `client` for `resource` and hands out its wake channel.
    ///
    /// Nothing happens, and nothing is handed out, when the resource is not in
    /// use or `client` is its holder.
    pub fn enqueue(&mut self, resource: &ResourceId, client: &ClientId) -> (ticket: Option<
        WakeChannel,
    >)
        requires
            old(self).wf(),
        ensures
            final(self).wf(),
            ticket is Some <==> old(self)@.contains_key(resource@) && !holds(
                old(self)@,
                resource@,
                client@,
            ),
            final(self)@ == if ticket is Some {
                enqueued(old(self)@, resource@, client@)
            } else {
                old(self)@
            },
    {
        match self.find(resource) {
            Some(i) => {
                let ghost before = self.slots@;
                proof {
                    lemma_lookup(before, i as int);
                }
                let ticket = self.slots[i].lock.enqueue(client);
                proof {
                    lemma_table_update(before, self.slots@, i as int);
                    if ticket is None {
                        assert(self@ =~= old(self)@);
                    }
                }
                ticket
            },
            None => None,
        }
    }

    /// Takes `client` out of the queue for `resource`.
    pub fn withdraw(&mut self, resource: &ResourceId, client: &ClientId) -> (removed: bool)
        requires
            old(self).wf(),
        ensures
            final(self).wf(),
            removed == waits(old(self)@, resource@, client@),
            final(self)@ == withdrawn(old(self)@, resource@, client@),
    {
        match self.find(resource) {
            Some(i) => {
                let ghost before = self.slots@;
                proof {
                    lemma_lookup(before, i as int);
                }
                let removed = self.slots[i].lock.withdraw(client);
                proof {
                    lemma_table_update(before, self.slots@, i as int);
                }
                removed
            },
            None => false,
        }
    }

    /// The holder of `resource` lets go. The head of the queue becomes the
    /// holder and is woken; with nobody queued the entry leaves the table.
    pub fn release(&mut self, resource: &ResourceId) -> (heir: Option<ClientId>)
        requires
            old(self).wf(),
        ensures
            final(self).wf(),
            final(self)@ == if old(self)@.contains_key(resource@) {
                released(old(self)@, resource@)
            } else {
                old(self)@
            },
            match heir {
                Some(c) => old(self)@.contains_key(resource@) && old(self)@[resource@].waiters.len()
                    > 0 && c@ == old(self)@[resource@].waiters[0],
                None => !old(self)@.contains_key(resource@) || old(
                    self,
                )@[resource@].waiters.len() == 0,
            },
    {
        match self.find(resource) {
            Some(i) => {
                let ghost before = self.slots@;
                proof {
                    lemma_lookup(before, i as int);
                }
                let heir = self.slots[i].lock.hand_off();
                proof {
                    lemma_table_update(before, self.slots@, i as int);
                }
                if heir.is_none() {
                    let ghost updated = self.slots@;
                    proof {
                        lemma_table_remove(updated, i as int);
                        assert(table_of(updated).remove(resource@) =~= old(self)@.remove(
                            resource@,
                        ));
                    }
                    let _ = self.slots.remove(i);
                }
                heir
            },
            None => None,
        }
    }
}

/// With one slot for each resource, the map has as many entries as there are
/// slots.
proof fn lemma_domain_size(slots: Seq<Slot>)
    requires
        distinct(slots),
    ensures
        table_of(slots).dom().finite(),
        table_of(slots).dom().len() == slots.len(),
    decreases slots.len(),
{
    if slots.len() == 0 {
        assert(table_of(slots).dom() =~= Set::<Name>::empty());
    } else {
        let last = (slots.len() - 1) as int;
        let rest = slots.remove(last);
        lemma_table_remove(slots, last);
        lemma_domain_size(rest);
        lemma_lookup(slots, last);
        assert(table_of(slots).dom() =~= table_of(rest).dom().insert(slots[last].resource@));
        assert(!table_of(rest).dom().contains(slots[last].resource@));
    }
}

} // verus!
