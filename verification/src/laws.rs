//! What holds of the manager whatever its clients do.
//!
//! Each law is stated over the table of locks as the contracts of
//! [`crate::manager::LockManager`] describe it, so it holds of every manager
//! that those contracts describe.

use crate::history::{hand_offs, hands_off, lemma_run_keeps_valid, run, step, Request};
use crate::ident::Name;
use crate::model::{
    admission, after_acquire, after_expiry, after_release, after_try_acquire, enqueued, holds,
    joined, left, lemma_enqueue_then_withdraw, lemma_enqueued, lemma_joined_members,
    lemma_left_members, lemma_served_members, lock_passed_times, lock_valid, place, state_valid,
    wait_edges, waits, Admission, LockView, State,
};
use crate::wait_graph::{
    cycle_through, lemma_reaches_monotone, lemma_reaches_with_new_wait, lemma_step_reaches,
    lemma_step_then_reaches, linked, reaches, EdgeView,
};
use vstd::prelude::*;

verus! {

/// Mutual exclusion: a resource has at most one holder.
pub proof fn lemma_one_holder(s: State, r: Name, a: Name, b: Name)
    requires
        holds(s, r, a),
        holds(s, r, b),
    ensures
        a == b,
{
}

/// Mutual exclusion over time: no request, by anyone for anything, takes a
/// resource from its holder. Ownership ends only when the holder itself
/// releases the resource.
pub proof fn lemma_only_holder_ends_ownership(s: State, r: Name, h: Name, q: Name, c: Name)
    requires
        state_valid(s),
        holds(s, r, h),
    ensures
        holds(after_acquire(s, q, c), r, h),
        holds(after_try_acquire(s, q, c), r, h),
        holds(after_expiry(s, q, c), r, h),
        !(q == r && c == h) ==> holds(after_release(s, q, c), r, h),
{
}

/// No lost wake-up, one step: whatever is asked of the manager, a queued
/// client stays queued or becomes the holder. The one exception is the end of
/// its own wait by expiry.
pub proof fn lemma_waiter_is_never_dropped(s: State, r: Name, w: Name, q: Name, c: Name)
    requires
        state_valid(s),
        waits(s, r, w),
    ensures
        waits(after_acquire(s, q, c), r, w),
        waits(after_try_acquire(s, q, c), r, w),
        waits(after_release(s, q, c), r, w) || holds(after_release(s, q, c), r, w),
        !(q == r && c == w) ==> waits(after_expiry(s, q, c), r, w),
{
    if s.contains_key(q) {
        lemma_joined_members(s[q].waiters, c);
        lemma_left_members(s[q].waiters, c);
        if s[q].waiters.len() > 0 {
            lemma_served_members(s[q].waiters);
        }
    }
}

/// After `n` hand-offs, with `n` no more than the length of the queue, the
/// holder is the client that stood at place `n - 1` and the queue is what
/// stood behind it.
proof fn lemma_passed_times(l: LockView, n: nat)
    requires
        0 < n <= l.waiters.len(),
    ensures
        lock_passed_times(l, n) == (LockView {
            holder: Some(l.waiters[n - 1]),
            waiters: l.waiters.subrange(n as int, l.waiters.len() as int),
        }),
    decreases n,
{
    let len = l.waiters.len() as int;
    if n == 1 {
        assert(lock_passed_times(l, 0) == l);
        assert(l.waiters.drop_first() =~= l.waiters.subrange(1, len));
    } else {
        lemma_passed_times(l, (n - 1) as nat);
        let prev = lock_passed_times(l, (n - 1) as nat);
        assert(prev.waiters.len() == len - (n - 1));
        assert(prev.waiters[0] == l.waiters[n - 1]);
        assert(prev.waiters.drop_first() =~= l.waiters.subrange(n as int, len));
    }
}

/// No lost wake-up, to the end: the client at place `k` of a queue becomes
/// the holder at hand-off `k + 1`, not before, and has then left the queue, so
/// that no later hand-off serves it again.
pub proof fn lemma_served_exactly_once(l: LockView, k: int)
    requires
        lock_valid(l),
        0 <= k < l.waiters.len(),
    ensures
        lock_passed_times(l, (k + 1) as nat).holder == Some(l.waiters[k]),
        !lock_passed_times(l, (k + 1) as nat).waiters.contains(l.waiters[k]),
        forall|j: nat|
            j <= k ==> (#[trigger] lock_passed_times(l, j)).holder != Some(l.waiters[k])
                && lock_passed_times(l, j).waiters.contains(l.waiters[k]),
{
    let len = l.waiters.len() as int;
    let w = l.waiters[k];
    lemma_passed_times(l, (k + 1) as nat);
    assert forall|j: nat| j <= k implies (#[trigger] lock_passed_times(l, j)).holder != Some(w)
        && lock_passed_times(l, j).waiters.contains(w) by {
        if j == 0 {
            assert(lock_passed_times(l, 0) == l);
            assert(l.waiters.contains(w));
        } else {
            lemma_passed_times(l, j);
            assert(l.waiters.subrange(j as int, len)[k - j] == w);
        }
    }
}

/// First come, first served: of two queued clients, the one that stands in
/// front becomes the holder while the other is still waiting.
pub proof fn lemma_first_come_first_served(l: LockView, i: int, j: int)
    requires
        lock_valid(l),
        0 <= i < j < l.waiters.len(),
    ensures
        lock_passed_times(l, (i + 1) as nat).holder == Some(l.waiters[i]),
        lock_passed_times(l, (i + 1) as nat).waiters.contains(l.waiters[j]),
{
    lemma_passed_times(l, (i + 1) as nat);
    let rest = l.waiters.subrange(i + 1, l.waiters.len() as int);
    assert(rest[j - i - 1] == l.waiters[j]);
}

/// First come, first served: a newcomer joins behind everyone who waits.
pub proof fn lemma_newcomer_joins_last(q: Seq<Name>, c: Name)
    requires
        !q.contains(c),
    ensures
        joined(q, c).len() == q.len() + 1,
        joined(q, c).last() == c,
        forall|i: int| 0 <= i < q.len() ==> joined(q, c)[i] == q[i],
{
}

/// First come, first served: when a client gives up, the others keep their
/// order.
pub proof fn lemma_leaving_keeps_order(q: Seq<Name>, c: Name, i: int, j: int)
    requires
        q.no_duplicates(),
        0 <= i < j < q.len(),
        q[i] != c,
        q[j] != c,
    ensures
        left(q, c).contains(q[i]),
        left(q, c).contains(q[j]),
        left(q, c).index_of(q[i]) < left(q, c).index_of(q[j]),
{
    lemma_left_members(q, c);
    let rest = left(q, c);
    assert(q.contains(q[i]) && q.contains(q[j]));
    if q.contains(c) {
        let at = q.index_of(c);
        let i1 = if i < at {
            i
        } else {
            i - 1
        };
        let j1 = if j < at {
            j
        } else {
            j - 1
        };
        assert(rest[i1] == q[i]);
        assert(rest[j1] == q[j]);
        assert(rest.index_of(q[i]) == i1);
        assert(rest.index_of(q[j]) == j1);
    } else {
        assert(rest.index_of(q[i]) == i);
        assert(rest.index_of(q[j]) == j);
    }
}

/// Every cycle is refused, whatever its length: a client that asks for a
/// resource whose holder already waits, directly or through others, on that
/// client is told `Deadlock`.
pub proof fn lemma_closing_a_cycle_is_refused(s: State, r: Name, c: Name, h: Name)
    requires
        state_valid(s),
        holds(s, r, h),
        h != c,
        reaches(wait_edges(s), h, c),
    ensures
        admission(s, r, c) == Admission::Deadlock,
        after_acquire(s, r, c) == s,
{
    let after = wait_edges(enqueued(s, r, c));
    lemma_enqueued(s, r, c);
    lemma_reaches_monotone(wait_edges(s), after, h, c);
    assert(after.contains(EdgeView { waiter: c, holder: h, resource: r }));
    assert(linked(after, c, h));
    lemma_step_then_reaches(after, c, h, c);
}

/// A client that is on a cycle of waits already is refused whatever it asks
/// to wait for.
pub proof fn lemma_client_on_a_cycle_is_refused(s: State, r: Name, c: Name, h: Name)
    requires
        state_valid(s),
        holds(s, r, h),
        h != c,
        cycle_through(wait_edges(s), c),
    ensures
        admission(s, r, c) == Admission::Deadlock,
{
    lemma_enqueued(s, r, c);
    lemma_reaches_monotone(wait_edges(s), wait_edges(enqueued(s, r, c)), c, c);
}

/// No refusal without cause: a request is told `Deadlock` only where the
/// holder of the resource waits, directly or through others, on the client
/// that asks, or where that client is on a cycle of waits already.
pub proof fn lemma_refusal_has_a_cause(s: State, r: Name, c: Name, h: Name)
    requires
        state_valid(s),
        holds(s, r, h),
        admission(s, r, c) == Admission::Deadlock,
    ensures
        reaches(wait_edges(s), h, c) || cycle_through(wait_edges(s), c),
{
    lemma_enqueued(s, r, c);
    lemma_reaches_with_new_wait(
        wait_edges(s),
        EdgeView { waiter: c, holder: h, resource: r },
        c,
        c,
    );
}

/// Two clients that each hold what the other wants: the one that asks second
/// is told `Deadlock`, and the one that asked first keeps waiting.
pub proof fn lemma_two_party_deadlock(s: State, a: Name, b: Name, r1: Name, r2: Name)
    requires
        state_valid(s),
        holds(s, r1, a),
        holds(s, r2, b),
        waits(s, r2, a),
    ensures
        admission(s, r1, b) == Admission::Deadlock,
        after_acquire(s, r1, b) == s,
        waits(after_acquire(s, r1, b), r2, a),
{
    let g = wait_edges(s);
    assert(g.contains(EdgeView { waiter: a, holder: b, resource: r2 }));
    assert(linked(g, a, b));
    lemma_step_reaches(g, a, b);
    lemma_closing_a_cycle_is_refused(s, r1, b, a);
}

/// Three clients in a ring: `a` waits on `b`, `b` waits on `c`, and `c` asks
/// for what `a` holds. The request that would close the ring is told
/// `Deadlock`.
pub proof fn lemma_three_party_deadlock(
    s: State,
    a: Name,
    b: Name,
    c: Name,
    r1: Name,
    r2: Name,
    r3: Name,
)
    requires
        state_valid(s),
        holds(s, r1, a),
        holds(s, r2, b),
        holds(s, r3, c),
        waits(s, r2, a),
        waits(s, r3, b),
        a != c,
    ensures
        admission(s, r1, c) == Admission::Deadlock,
        after_acquire(s, r1, c) == s,
{
    let g = wait_edges(s);
    assert(g.contains(EdgeView { waiter: a, holder: b, resource: r2 }));
    assert(g.contains(EdgeView { waiter: b, holder: c, resource: r3 }));
    assert(linked(g, a, b));
    assert(linked(g, b, c));
    lemma_step_reaches(g, b, c);
    lemma_step_then_reaches(g, a, b, c);
    lemma_closing_a_cycle_is_refused(s, r1, c, a);
}

/// A request is queued only where that leaves the client on no cycle.
pub proof fn lemma_queued_is_on_no_cycle(s: State, r: Name, c: Name)
    requires
        admission(s, r, c) == Admission::Queued,
    ensures
        !cycle_through(wait_edges(after_acquire(s, r, c)), c),
{
}

/// Idle pruning: a release with nobody waiting takes the resource out of the
/// table, and the next request finds it free.
pub proof fn lemma_idle_release_prunes(s: State, r: Name, h: Name, c: Name)
    requires
        holds(s, r, h),
        s[r].waiters.len() == 0,
    ensures
        !after_release(s, r, h).contains_key(r),
        admission(after_release(s, r, h), r, c) == Admission::Granted,
        holds(after_try_acquire(after_release(s, r, h), r, c), r, c),
{
}

/// Timeout cleanup: once a wait has expired the client is in the queue no
/// more, and no wait of it for that resource is left in the graph.
pub proof fn lemma_expiry_leaves_no_wait(s: State, r: Name, c: Name)
    requires
        state_valid(s),
    ensures
        !waits(after_expiry(s, r, c), r, c),
        forall|h: Name|
            !(#[trigger] wait_edges(after_expiry(s, r, c)).contains(
                EdgeView { waiter: c, holder: h, resource: r },
            )),
{
    if s.contains_key(r) {
        lemma_left_members(s[r].waiters, c);
    }
}

/// Timeout cleanup: a request that is queued and then expires leaves the
/// table exactly as it was before the request.
pub proof fn lemma_expired_request_leaves_no_trace(s: State, r: Name, c: Name)
    requires
        state_valid(s),
        admission(s, r, c) == Admission::Queued,
        !waits(s, r, c),
    ensures
        after_expiry(after_acquire(s, r, c), r, c) == s,
{
    lemma_enqueue_then_withdraw(s, r, c);
}

/// A failed request changes nothing.
pub proof fn lemma_refusal_changes_nothing(s: State, r: Name, c: Name)
    ensures
        admission(s, r, c) == Admission::AlreadyHeld || admission(s, r, c) == Admission::Deadlock
            ==> after_acquire(s, r, c) == s,
        s.contains_key(r) ==> after_try_acquire(s, r, c) == s,
        !holds(s, r, c) ==> after_release(s, r, c) == s,
{
}

/// One call brings a queued client no further from its turn. A hand-off of
/// the resource brings it one place nearer, or makes it the holder if it
/// stood at the head. The call that ends its own wait by expiry is left out.
pub proof fn lemma_turn_comes_closer(s: State, r: Name, w: Name, request: Request)
    requires
        state_valid(s),
        waits(s, r, w),
        request != (Request::Expire { resource: r, client: w }),
    ensures
        hands_off(s, request, r) && place(s, r, w) == 0 ==> holds(step(s, request), r, w)
            && !waits(step(s, request), r, w),
        !(hands_off(s, request, r) && place(s, r, w) == 0) ==> waits(step(s, request), r, w)
            && !holds(step(s, request), r, w) && place(step(s, request), r, w) <= place(s, r, w),
        hands_off(s, request, r) && place(s, r, w) > 0 ==> place(step(s, request), r, w) == place(
            s,
            r,
            w,
        ) - 1,
{
    let q = s[r].waiters;
    let k = place(s, r, w);
    let t = step(s, request);
    assert(q[k] == w);
    match request {
        Request::Acquire { resource, client } => {
            if resource == r {
                lemma_joined_members(q, client);
                assert(joined(q, client)[k] == w);
            }
        },
        Request::TryAcquire { resource, client } => {},
        Request::Release { resource, client } => {
            if resource == r && holds(s, r, client) {
                lemma_served_members(q);
                if k > 0 {
                    assert(q.drop_first()[k - 1] == w);
                }
            }
        },
        Request::Expire { resource, client } => {
            if resource == r && !holds(s, r, client) {
                lemma_left_members(q, client);
                if q.contains(client) {
                    let at = q.index_of(client);
                    let k1 = if k < at {
                        k
                    } else {
                        k - 1
                    };
                    assert(left(q, client)[k1] == w);
                }
            }
        },
    }
}

/// In the first `n` calls, the client waited until call `n` made it the
/// holder: it was served then, and not before.
pub open spec fn served_at(s: State, requests: Seq<Request>, r: Name, w: Name, n: int) -> bool {
    &&& 0 < n <= requests.len()
    &&& holds(run(s, requests.take(n)), r, w)
    &&& forall|m: int| 0 <= m < n ==> waits(run(s, #[trigger] requests.take(m)), r, w)
}

/// No lost wake-up: through any sequence of calls in which its wait does not
/// expire, a queued client either was made the holder at one call, having
/// waited until then, or it is still waiting, and then every hand-off of the
/// resource has brought it a place nearer to the head of the queue.
pub proof fn lemma_no_lost_wake_up(s: State, requests: Seq<Request>, r: Name, w: Name)
    requires
        state_valid(s),
        waits(s, r, w),
        forall|i: int|
            0 <= i < requests.len() ==> #[trigger] requests[i] != (Request::Expire {
                resource: r,
                client: w,
            }),
    ensures
        (exists|n: int| served_at(s, requests, r, w, n)) || {
            &&& forall|m: int|
                0 <= m <= requests.len() ==> waits(run(s, #[trigger] requests.take(m)), r, w)
            &&& 0 <= place(run(s, requests), r, w)
            &&& place(run(s, requests), r, w) + hand_offs(s, requests, r) <= place(s, r, w)
        },
    decreases requests.len(),
{
    let len = requests.len() as int;
    if len == 0 {
        assert forall|m: int| 0 <= m <= len implies waits(
            run(s, #[trigger] requests.take(m)),
            r,
            w,
        ) by {
            assert(requests.take(m) =~= requests);
        }
    } else {
        let prev = requests.drop_last();
        let last = requests.last();
        lemma_no_lost_wake_up(s, prev, r, w);
        assert forall|m: int| 0 <= m < len implies #[trigger] requests.take(m) == prev.take(m) by {
            assert(requests.take(m) =~= prev.take(m));
        }
        assert(requests.take(len) =~= requests);
        assert(prev.take(len - 1) =~= prev);
        if exists|n: int| served_at(s, prev, r, w, n) {
            let n = choose|n: int| served_at(s, prev, r, w, n);
            assert(requests.take(n) == prev.take(n));
            assert forall|m: int| 0 <= m < n implies waits(
                run(s, #[trigger] requests.take(m)),
                r,
                w,
            ) by {
                assert(requests.take(m) == prev.take(m));
                assert(waits(run(s, prev.take(m)), r, w));
            }
            assert(served_at(s, requests, r, w, n));
        } else {
            let u = run(s, prev);
            lemma_run_keeps_valid(s, prev);
            assert(waits(run(s, prev.take(len - 1)), r, w));
            lemma_turn_comes_closer(u, r, w, last);
            assert forall|m: int| 0 <= m < len implies waits(
                run(s, #[trigger] requests.take(m)),
                r,
                w,
            ) by {
                assert(requests.take(m) == prev.take(m));
                assert(waits(run(s, prev.take(m)), r, w));
            }
            if hands_off(u, last, r) && place(u, r, w) == 0 {
                assert(served_at(s, requests, r, w, len));
            } else {
                assert forall|m: int| 0 <= m <= len implies waits(
                    run(s, #[trigger] requests.take(m)),
                    r,
                    w,
                ) by {
                    if m < len {
                        assert(requests.take(m) == prev.take(m));
                        assert(waits(run(s, prev.take(m)), r, w));
                    }
                }
            }
        }
    }
}

/// No lost wake-up, to the end: a client at place `k` of a queue has been
/// made the holder by the time the resource has been handed off `k + 1`
/// times, whatever else was asked of the manager in between.
pub proof fn lemma_served_after_enough_hand_offs(
    s: State,
    requests: Seq<Request>,
    r: Name,
    w: Name,
)
    requires
        state_valid(s),
        waits(s, r, w),
        forall|i: int|
            0 <= i < requests.len() ==> #[trigger] requests[i] != (Request::Expire {
                resource: r,
                client: w,
            }),
        hand_offs(s, requests, r) > place(s, r, w),
    ensures
        exists|n: int| served_at(s, requests, r, w, n),
{
    lemma_no_lost_wake_up(s, requests, r, w);
}

/// One call keeps two queued clients in their order: the one in front is
/// made the holder, or it still waits, the other one does not hold the
/// resource, and if the other one waits it stands behind.
proof fn lemma_order_is_kept(s: State, r: Name, first: Name, second: Name, request: Request)
    requires
        state_valid(s),
        waits(s, r, first),
        first != second,
        !holds(s, r, second),
        waits(s, r, second) ==> place(s, r, first) < place(s, r, second),
        request != (Request::Expire { resource: r, client: first }),
    ensures
        holds(step(s, request), r, first) || {
            &&& waits(step(s, request), r, first)
            &&& !holds(step(s, request), r, second)
            &&& waits(step(s, request), r, second) ==> place(step(s, request), r, first) < place(
                step(s, request),
                r,
                second,
            )
        },
{
    let q = s[r].waiters;
    let i = place(s, r, first);
    let t = step(s, request);
    assert(q[i] == first);
    lemma_turn_comes_closer(s, r, first, request);
    match request {
        Request::Acquire { resource, client } => {
            if resource == r {
                lemma_joined_members(q, client);
                let after = joined(q, client);
                assert(after[i] == first);
                if waits(t, r, second) {
                    if q.contains(second) {
                        let j = q.index_of(second);
                        assert(after[j] == second);
                    } else {
                        assert(after[q.len() as int] == second);
                    }
                }
            }
        },
        Request::TryAcquire { resource, client } => {},
        Request::Release { resource, client } => {
            if resource == r && holds(s, r, client) {
                lemma_served_members(q);
                if i > 0 {
                    let after = q.drop_first();
                    assert(after[i - 1] == first);
                    if q.contains(second) {
                        let j = q.index_of(second);
                        assert(after[j - 1] == second);
                    }
                }
            }
        },
        Request::Expire { resource, client } => {
            if resource == r && !holds(s, r, client) {
                lemma_left_members(q, client);
                if q.contains(second) && client != second {
                    let j = q.index_of(second);
                    lemma_leaving_keeps_order(q, client, i, j);
                }
            }
        },
    }
}

/// Through any sequence of calls, the one of two queued clients that stands
/// in front has been the holder, or it still waits and the other one has not
/// overtaken it.
proof fn lemma_never_overtaken(
    s: State,
    requests: Seq<Request>,
    r: Name,
    first: Name,
    second: Name,
)
    requires
        state_valid(s),
        waits(s, r, first),
        waits(s, r, second),
        place(s, r, first) < place(s, r, second),
        forall|i: int|
            0 <= i < requests.len() ==> #[trigger] requests[i] != (Request::Expire {
                resource: r,
                client: first,
            }),
    ensures
        (exists|n: int|
            0 <= n <= requests.len() && holds(run(s, #[trigger] requests.take(n)), r, first)) || {
            &&& waits(run(s, requests), r, first)
            &&& !holds(run(s, requests), r, second)
            &&& waits(run(s, requests), r, second) ==> place(run(s, requests), r, first) < place(
                run(s, requests),
                r,
                second,
            )
        },
    decreases requests.len(),
{
    let len = requests.len() as int;
    if len > 0 {
        let prev = requests.drop_last();
        lemma_never_overtaken(s, prev, r, first, second);
        assert(requests.take(len) =~= requests);
        if exists|n: int| 0 <= n <= prev.len() && holds(run(s, #[trigger] prev.take(n)), r, first) {
            let n = choose|n: int|
                0 <= n <= prev.len() && holds(run(s, #[trigger] prev.take(n)), r, first);
            assert(requests.take(n) =~= prev.take(n));
        } else {
            let u = run(s, prev);
            lemma_run_keeps_valid(s, prev);
            lemma_order_is_kept(u, r, first, second, requests.last());
        }
    }
}

/// First come, first served, whatever else happens: of two clients queued for
/// a resource, the one behind is never the holder before the one in front has
/// been, unless the wait of the one in front expires.
pub proof fn lemma_served_in_order_of_arrival(
    s: State,
    requests: Seq<Request>,
    r: Name,
    first: Name,
    second: Name,
)
    requires
        state_valid(s),
        waits(s, r, first),
        waits(s, r, second),
        place(s, r, first) < place(s, r, second),
        forall|i: int|
            0 <= i < requests.len() ==> #[trigger] requests[i] != (Request::Expire {
                resource: r,
                client: first,
            }),
        holds(run(s, requests), r, second),
    ensures
        exists|n: int|
            0 <= n < requests.len() && holds(run(s, #[trigger] requests.take(n)), r, first),
{
    lemma_never_overtaken(s, requests, r, first, second);
    let n = choose|n: int|
        0 <= n <= requests.len() && holds(run(s, #[trigger] requests.take(n)), r, first);
    assert(requests.take(requests.len() as int) =~= requests);
}

} // verus!
