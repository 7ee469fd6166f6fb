//! The manager as mathematics: what a lock and a table of locks are, and what
//! each operation makes of them.
//!
//! The executable types elsewhere in this crate are stated against these
//! functions. Nothing here runs.

use crate::ident::Name;
use crate::wait_graph::{cycle_through, handed_over, without_wait, EdgeView};
use vstd::prelude::*;

verus! {

/// One resource's lock: who holds it and who queues for it, first come first.
pub struct LockView {
    /// The client that owns the resource, if any.
    pub holder: Option<Name>,
    /// The clients waiting for it, in the order they asked.
    pub waiters: Seq<Name>,
}

/// Every tracked resource with its lock.
pub type State = Map<Name, LockView>;

/// A lock nobody holds and nobody waits for.
pub open spec fn free_lock() -> LockView {
    LockView { holder: None, waiters: Seq::empty() }
}

/// A lock that `c` holds and nobody waits for.
pub open spec fn fresh_lock(c: Name) -> LockView {
    LockView { holder: Some(c), waiters: Seq::empty() }
}

/// What a lock must always satisfy: nobody queues twice, the holder does not
/// queue, and a free lock has no queue.
pub open spec fn lock_valid(l: LockView) -> bool {
    &&& l.waiters.no_duplicates()
    &&& match l.holder {
        Some(h) => !l.waiters.contains(h),
        None => l.waiters.len() == 0,
    }
}

/// The queue `q` with `c` at its end, unless `c` is already in it.
pub open spec fn joined(q: Seq<Name>, c: Name) -> Seq<Name> {
    if q.contains(c) {
        q
    } else {
        q.push(c)
    }
}

/// The queue `q` without `c`, the others in their old order.
pub open spec fn left(q: Seq<Name>, c: Name) -> Seq<Name> {
    if q.contains(c) {
        q.remove(q.index_of(c))
    } else {
        q
    }
}

/// The lock after `c` has joined its queue.
pub open spec fn lock_queued(l: LockView, c: Name) -> LockView {
    LockView { holder: l.holder, waiters: joined(l.waiters, c) }
}

/// The lock after `c` has given up waiting.
pub open spec fn lock_withdrawn(l: LockView, c: Name) -> LockView {
    LockView { holder: l.holder, waiters: left(l.waiters, c) }
}

/// The lock after its holder has let go: the head of the queue owns it now,
/// or nobody does.
pub open spec fn lock_passed(l: LockView) -> LockView {
    if l.waiters.len() == 0 {
        free_lock()
    } else {
        LockView { holder: Some(l.waiters[0]), waiters: l.waiters.drop_first() }
    }
}

/// The lock after `n` holders in a row have let go.
pub open spec fn lock_passed_times(l: LockView, n: nat) -> LockView
    decreases n,
{
    if n == 0 {
        l
    } else {
        lock_passed(lock_passed_times(l, (n - 1) as nat))
    }
}

/// What a table of locks must always satisfy: each lock is valid and held.
/// A lock that falls idle leaves the table.
pub open spec fn state_valid(s: State) -> bool {
    forall|r: Name| #[trigger] s.contains_key(r) ==> lock_valid(s[r]) && s[r].holder is Some
}

/// `c` owns `r`.
pub open spec fn holds(s: State, r: Name, c: Name) -> bool {
    s.contains_key(r) && s[r].holder == Some(c)
}

/// `c` queues for `r`.
pub open spec fn waits(s: State, r: Name, c: Name) -> bool {
    s.contains_key(r) && s[r].waiters.contains(c)
}

/// The place of `c` in the queue for `r`, place 0 being served next.
pub open spec fn place(s: State, r: Name, c: Name) -> int {
    s[r].waiters.index_of(c)
}

/// The waits that a table implies: one for each queued client, pointing at the
/// holder of the resource it queues for.
pub open spec fn wait_edges(s: State) -> Set<EdgeView> {
    Set::new(|e: EdgeView| holds(s, e.resource, e.holder) && waits(s, e.resource, e.waiter))
}

/// The table after `c` has been given the untracked resource `r`.
pub open spec fn granted(s: State, r: Name, c: Name) -> State {
    s.insert(r, fresh_lock(c))
}

/// The table after `c` has joined the queue of `r`.
pub open spec fn enqueued(s: State, r: Name, c: Name) -> State {
    s.insert(r, lock_queued(s[r], c))
}

/// The table after `c` has given up waiting for `r`.
pub open spec fn withdrawn(s: State, r: Name, c: Name) -> State {
    if s.contains_key(r) {
        s.insert(r, lock_withdrawn(s[r], c))
    } else {
        s
    }
}

/// The table after the holder of `r` has let go: the resource passes to the
/// head of its queue, or leaves the table when nobody waits.
pub open spec fn released(s: State, r: Name) -> State {
    if s[r].waiters.len() == 0 {
        s.remove(r)
    } else {
        s.insert(r, lock_passed(s[r]))
    }
}

/// Letting `c` wait for `r` would leave `c` on a cycle of waits.
pub open spec fn would_deadlock(s: State, r: Name, c: Name) -> bool {
    cycle_through(wait_edges(enqueued(s, r, c)), c)
}

/// How a request to acquire a resource ends.
pub enum Admission {
    /// The resource was not in use: the client owns it now.
    Granted,
    /// The resource is in use: the client is queued and has to wait.
    Queued,
    /// The client already owns the resource.
    AlreadyHeld,
    /// Waiting would leave the client on a cycle of waits.
    Deadlock,
}

/// How a request of `c` for `r` ends in table `s`.
pub open spec fn admission(s: State, r: Name, c: Name) -> Admission {
    if !s.contains_key(r) {
        Admission::Granted
    } else if s[r].holder == Some(c) {
        Admission::AlreadyHeld
    } else if would_deadlock(s, r, c) {
        Admission::Deadlock
    } else {
        Admission::Queued
    }
}

/// The table after `c` has asked for `r` and is ready to wait for it.
pub open spec fn after_acquire(s: State, r: Name, c: Name) -> State {
    match admission(s, r, c) {
        Admission::Granted => granted(s, r, c),
        Admission::Queued => enqueued(s, r, c),
        Admission::AlreadyHeld => s,
        Admission::Deadlock => s,
    }
}

/// The table after `c` has asked for `r` without being ready to wait.
pub open spec fn after_try_acquire(s: State, r: Name, c: Name) -> State {
    if s.contains_key(r) {
        s
    } else {
        granted(s, r, c)
    }
}

/// The table after `c` has tried to release `r`.
pub open spec fn after_release(s: State, r: Name, c: Name) -> State {
    if holds(s, r, c) {
        released(s, r)
    } else {
        s
    }
}

/// The table after the wait of `c` for `r` has run out. A client that was
/// handed the resource in the meantime keeps it.
pub open spec fn after_expiry(s: State, r: Name, c: Name) -> State {
    if holds(s, r, c) {
        s
    } else {
        withdrawn(s, r, c)
    }
}

/// A client that joins a queue it was not in stands at its end, and leaving
/// again gives the old queue back.
pub proof fn lemma_join_then_leave(q: Seq<Name>, c: Name)
    requires
        !q.contains(c),
    ensures
        joined(q, c) == q.push(c),
        left(joined(q, c), c) == q,
{
    let longer = q.push(c);
    assert(longer[q.len() as int] == c);
    let i = longer.index_of(c);
    if i < q.len() {
        assert(q[i] == c);
    }
    assert(longer.remove(q.len() as int) =~= q);
}

/// Who is in a queue after `c` has joined it.
pub proof fn lemma_joined_members(q: Seq<Name>, c: Name)
    ensures
        forall|w: Name| joined(q, c).contains(w) <==> q.contains(w) || w == c,
        q.no_duplicates() ==> joined(q, c).no_duplicates(),
{
    let longer = q.push(c);
    assert forall|w: Name| joined(q, c).contains(w) <==> q.contains(w) || w == c by {
        if !q.contains(c) {
            assert(longer[q.len() as int] == c);
            if q.contains(w) {
                let i = q.index_of(w);
                assert(longer[i] == w);
            }
            if longer.contains(w) {
                let i = longer.index_of(w);
                if i < q.len() {
                    assert(q[i] == w);
                }
            }
        }
    }
}

/// Where the client at place `a` of a queue stood before place `i` was taken
/// out.
spec fn before_removal(a: int, i: int) -> int {
    if a < i {
        a
    } else {
        a + 1
    }
}

/// Where the client at place `b` of a queue stands after place `i`, another
/// place, has been taken out.
spec fn after_removal(b: int, i: int) -> int {
    if b < i {
        b
    } else {
        b - 1
    }
}

/// Who is in a queue after `c` has left it.
pub proof fn lemma_left_members(q: Seq<Name>, c: Name)
    requires
        q.no_duplicates(),
    ensures
        left(q, c).no_duplicates(),
        forall|w: Name| left(q, c).contains(w) <==> q.contains(w) && w != c,
{
    if q.contains(c) {
        let i = q.index_of(c);
        let rest = q.remove(i);
        assert forall|a: int, b: int|
            0 <= a < rest.len() && 0 <= b < rest.len() && a != b implies rest[a] != rest[b] by {
            assert(rest[a] == q[before_removal(a, i)]);
            assert(rest[b] == q[before_removal(b, i)]);
        }
        assert forall|w: Name| rest.contains(w) <==> q.contains(w) && w != c by {
            if rest.contains(w) {
                let a = rest.index_of(w);
                assert(rest[a] == q[before_removal(a, i)]);
            }
            if q.contains(w) && w != c {
                let b = q.index_of(w);
                assert(q[b] == rest[after_removal(b, i)]);
            }
        }
    }
}

/// Who is in a queue without repeats after its head has been served.
pub proof fn lemma_served_members(q: Seq<Name>)
    requires
        q.no_duplicates(),
        q.len() > 0,
    ensures
        q.drop_first().no_duplicates(),
        forall|w: Name| q.drop_first().contains(w) <==> q.contains(w) && w != q[0],
{
    let rest = q.drop_first();
    assert forall|a: int, b: int|
        0 <= a < rest.len() && 0 <= b < rest.len() && a != b implies rest[a] != rest[b] by {
        assert(rest[a] == q[a + 1] && rest[b] == q[b + 1]);
    }
    assert forall|w: Name| rest.contains(w) <==> q.contains(w) && w != q[0] by {
        if rest.contains(w) {
            let a = rest.index_of(w);
            assert(rest[a] == q[a + 1]);
        }
        if q.contains(w) && w != q[0] {
            let b = q.index_of(w);
            assert(rest[b - 1] == w);
        }
    }
}

/// Granting an untracked resource keeps the table valid and adds no wait.
pub proof fn lemma_granted(s: State, r: Name, c: Name)
    requires
        state_valid(s),
        !s.contains_key(r),
    ensures
        state_valid(granted(s, r, c)),
        wait_edges(granted(s, r, c)) == wait_edges(s),
{
    let t = granted(s, r, c);
    assert forall|k: Name| #[trigger] t.contains_key(k) implies lock_valid(t[k])
        && t[k].holder is Some by {
        if k != r {
            assert(s.contains_key(k));
        }
    }
    assert(wait_edges(t) =~= wait_edges(s));
}

/// Queueing a client behind the holder keeps the table valid and adds the one
/// wait of that client on that holder.
pub proof fn lemma_enqueued(s: State, r: Name, c: Name)
    requires
        state_valid(s),
        s.contains_key(r),
        s[r].holder != Some(c),
    ensures
        state_valid(enqueued(s, r, c)),
        wait_edges(enqueued(s, r, c)) == wait_edges(s).insert(
            EdgeView { waiter: c, holder: s[r].holder->0, resource: r },
        ),
        s[r].waiters.contains(c) ==> enqueued(s, r, c) == s,
{
    let t = enqueued(s, r, c);
    lemma_joined_members(s[r].waiters, c);
    assert forall|k: Name| #[trigger] t.contains_key(k) implies lock_valid(t[k])
        && t[k].holder is Some by {
        if k != r {
            assert(s.contains_key(k));
        }
    }
    assert(wait_edges(t) =~= wait_edges(s).insert(
        EdgeView { waiter: c, holder: s[r].holder->0, resource: r },
    ));
    if s[r].waiters.contains(c) {
        assert(t =~= s);
    }
}

/// Taking a client out of a queue keeps the table valid and removes the one
/// wait of that client for that resource.
pub proof fn lemma_withdrawn(s: State, r: Name, c: Name)
    requires
        state_valid(s),
    ensures
        state_valid(withdrawn(s, r, c)),
        wait_edges(withdrawn(s, r, c)) == without_wait(wait_edges(s), c, r),
        !waits(s, r, c) ==> withdrawn(s, r, c) == s,
{
    let t = withdrawn(s, r, c);
    if s.contains_key(r) {
        lemma_left_members(s[r].waiters, c);
        assert forall|k: Name| #[trigger] t.contains_key(k) implies lock_valid(t[k])
            && t[k].holder is Some by {
            if k != r {
                assert(s.contains_key(k));
            }
        }
        if !waits(s, r, c) {
            assert(t =~= s);
        }
    }
    assert(wait_edges(t) =~= without_wait(wait_edges(s), c, r));
}

/// Letting go of a resource keeps the table valid. With someone queued, the
/// waits are those after a hand-over to the head of the queue; with nobody
/// queued, they are unchanged.
pub proof fn lemma_released(s: State, r: Name)
    requires
        state_valid(s),
        s.contains_key(r),
    ensures
        state_valid(released(s, r)),
        wait_edges(released(s, r)) == if s[r].waiters.len() > 0 {
            handed_over(wait_edges(s), r, s[r].waiters[0])
        } else {
            wait_edges(s)
        },
{
    let t = released(s, r);
    let q = s[r].waiters;
    if q.len() > 0 {
        lemma_served_members(q);
        assert(q.contains(q[0]));
        assert forall|k: Name| #[trigger] t.contains_key(k) implies lock_valid(t[k])
            && t[k].holder is Some by {
            if k != r {
                assert(s.contains_key(k));
            }
        }
        let target = handed_over(wait_edges(s), r, q[0]);
        assert forall|e: EdgeView| wait_edges(t).contains(e) <==> target.contains(e) by {
            if e.resource == r {
                if wait_edges(t).contains(e) {
                    assert(wait_edges(s).contains(
                        EdgeView { waiter: e.waiter, holder: s[r].holder->0, resource: r },
                    ));
                }
            }
        }
        assert(wait_edges(t) =~= target);
    } else {
        assert forall|k: Name| #[trigger] t.contains_key(k) implies lock_valid(t[k])
            && t[k].holder is Some by {
            assert(s.contains_key(k));
        }
        assert forall|e: EdgeView| wait_edges(t).contains(e) <==> wait_edges(s).contains(e) by {
            assert(!q.contains(e.waiter));
        }
        assert(wait_edges(t) =~= wait_edges(s));
    }
}

/// A client that queues for a resource and then gives up leaves the table as
/// it found it.
pub proof fn lemma_enqueue_then_withdraw(s: State, r: Name, c: Name)
    requires
        s.contains_key(r),
        !s[r].waiters.contains(c),
    ensures
        withdrawn(enqueued(s, r, c), r, c) == s,
{
    lemma_join_then_leave(s[r].waiters, c);
    assert(withdrawn(enqueued(s, r, c), r, c) =~= s);
}

} // verus!
