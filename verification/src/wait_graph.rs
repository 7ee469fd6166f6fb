//! The wait-for graph: who is blocked on whom, and whether a client's wait
//! closes a cycle.
//!
//! An edge says that `waiter` is queued for `resource`, which `holder` owns.
//! There is one edge for each queued waiter, so the edge carries the resource
//! it stands for: two waits of one client on two resources of the same holder
//! are two edges, and ending one of them leaves the other in place.

use crate::ident::{ClientId, Name, ResourceId};
use vstd::prelude::*;

verus! {

/// One wait, as the contracts see it.
pub struct EdgeView {
    /// The client that is blocked.
    pub waiter: Name,
    /// The client it is blocked on.
    pub holder: Name,
    /// The resource the wait is for.
    pub resource: Name,
}

/// `a` waits for some resource that `b` holds.
pub open spec fn linked(g: Set<EdgeView>, a: Name, b: Name) -> bool {
    exists|r: Name| #[trigger] g.contains(EdgeView { waiter: a, holder: b, resource: r })
}

/// `p` is a chain of at least one wait: each client on it waits for the next.
pub open spec fn is_path(g: Set<EdgeView>, p: Seq<Name>) -> bool {
    &&& p.len() >= 2
    &&& forall|i: int| 0 <= i < p.len() - 1 ==> linked(g, #[trigger] p[i], p[i + 1])
}

/// Some chain of waits leads from `a` to `b`.
pub open spec fn reaches(g: Set<EdgeView>, a: Name, b: Name) -> bool {
    exists|p: Seq<Name>| #[trigger] is_path(g, p) && p[0] == a && p.last() == b
}

/// Following waits from `c` leads back to `c`: `c` is deadlocked.
pub open spec fn cycle_through(g: Set<EdgeView>, c: Name) -> bool {
    reaches(g, c, c)
}

/// The graph without the wait of `waiter` for `resource`.
pub open spec fn without_wait(g: Set<EdgeView>, waiter: Name, resource: Name) -> Set<EdgeView> {
    Set::new(|e: EdgeView| g.contains(e) && !(e.waiter == waiter && e.resource == resource))
}

/// The graph after `resource` has passed to `heir`: the heir no longer waits
/// for it, and everyone else who does now waits on the heir.
pub open spec fn handed_over(g: Set<EdgeView>, resource: Name, heir: Name) -> Set<EdgeView> {
    Set::new(
        |e: EdgeView|
            if e.resource == resource {
                &&& e.holder == heir
                &&& e.waiter != heir
                &&& exists|h: Name| #[trigger]
                    g.contains(EdgeView { waiter: e.waiter, holder: h, resource: resource })
            } else {
                g.contains(e)
            },
    )
}

/// A single wait is a chain.
pub proof fn lemma_step_reaches(g: Set<EdgeView>, a: Name, b: Name)
    requires
        linked(g, a, b),
    ensures
        reaches(g, a, b),
{
    let p = seq![a, b];
    assert(is_path(g, p));
    assert(p[0] == a && p.last() == b);
}

/// A chain can be continued by one more wait.
pub proof fn lemma_reaches_then_step(g: Set<EdgeView>, a: Name, b: Name, c: Name)
    requires
        reaches(g, a, b),
        linked(g, b, c),
    ensures
        reaches(g, a, c),
{
    let p = choose|p: Seq<Name>| #[trigger] is_path(g, p) && p[0] == a && p.last() == b;
    let q = p.push(c);
    assert forall|i: int| 0 <= i < q.len() - 1 implies linked(g, #[trigger] q[i], q[i + 1]) by {
        if i < p.len() - 1 {
            assert(linked(g, p[i], p[i + 1]));
        }
    }
    assert(is_path(g, q));
    assert(q[0] == a && q.last() == c);
}

/// A wait can be put in front of a chain.
pub proof fn lemma_step_then_reaches(g: Set<EdgeView>, a: Name, b: Name, c: Name)
    requires
        linked(g, a, b),
        reaches(g, b, c),
    ensures
        reaches(g, a, c),
{
    let p = choose|p: Seq<Name>| #[trigger] is_path(g, p) && p[0] == b && p.last() == c;
    let q = seq![a] + p;
    assert forall|i: int| 0 <= i < q.len() - 1 implies linked(g, #[trigger] q[i], q[i + 1]) by {
        if i >= 1 {
            assert(linked(g, p[i - 1], p[i - 1 + 1]));
        }
    }
    assert(is_path(g, q));
    assert(q[0] == a && q.last() == c);
}

/// Adding waits never breaks a chain.
pub proof fn lemma_reaches_monotone(g: Set<EdgeView>, h: Set<EdgeView>, a: Name, b: Name)
    requires
        g.subset_of(h),
        reaches(g, a, b),
    ensures
        reaches(h, a, b),
{
    let p = choose|p: Seq<Name>| #[trigger] is_path(g, p) && p[0] == a && p.last() == b;
    assert forall|i: int| 0 <= i < p.len() - 1 implies linked(h, #[trigger] p[i], p[i + 1]) by {
        assert(linked(g, p[i], p[i + 1]));
        let r = choose|r: Name| #[trigger]
            g.contains(EdgeView { waiter: p[i], holder: p[i + 1], resource: r });
        assert(h.contains(EdgeView { waiter: p[i], holder: p[i + 1], resource: r }));
    }
    assert(is_path(h, p));
}

/// A chain in a graph with one more wait either does without that wait, or
/// leads up to it and goes on from it by chains that do without.
proof fn lemma_chain_with_new_wait(g: Set<EdgeView>, e: EdgeView, p: Seq<Name>)
    requires
        is_path(g.insert(e), p),
    ensures
        reaches(g, p[0], p.last()) || {
            &&& p[0] == e.waiter || reaches(g, p[0], e.waiter)
            &&& e.holder == p.last() || reaches(g, e.holder, p.last())
        },
    decreases p.len(),
{
    let bigger = g.insert(e);
    let a = p[0];
    let b = p.last();
    let m = p[p.len() - 2];
    assert(linked(bigger, m, p[p.len() - 2 + 1]));
    let r = choose|r: Name| #[trigger]
        bigger.contains(EdgeView { waiter: m, holder: b, resource: r });
    let last = EdgeView { waiter: m, holder: b, resource: r };
    if last != e {
        assert(g.contains(last));
        assert(linked(g, m, b));
    }
    if p.len() == 2 {
        if last != e {
            lemma_step_reaches(g, a, b);
        }
    } else {
        let front = p.drop_last();
        assert forall|i: int| 0 <= i < front.len() - 1 implies linked(
            bigger,
            #[trigger] front[i],
            front[i + 1],
        ) by {
            assert(linked(bigger, p[i], p[i + 1]));
        }
        lemma_chain_with_new_wait(g, e, front);
        if last != e {
            if reaches(g, a, m) {
                lemma_reaches_then_step(g, a, m, b);
            } else if e.holder == m {
                lemma_step_reaches(g, m, b);
            } else {
                lemma_reaches_then_step(g, e.holder, m, b);
            }
        }
    }
}

/// Whatever is reached in a graph with one more wait is reached without that
/// wait, or by a chain that leads up to the wait and goes on from it.
pub proof fn lemma_reaches_with_new_wait(g: Set<EdgeView>, e: EdgeView, a: Name, b: Name)
    requires
        reaches(g.insert(e), a, b),
    ensures
        reaches(g, a, b) || {
            &&& a == e.waiter || reaches(g, a, e.waiter)
            &&& e.holder == b || reaches(g, e.holder, b)
        },
{
    let p = choose|p: Seq<Name>| #[trigger] is_path(g.insert(e), p) && p[0] == a && p.last() == b;
    lemma_chain_with_new_wait(g, e, p);
}

/// On a chain that starts at `origin`, every later client lies in any set
/// that holds what `origin` waits on and is closed under waiting.
proof fn lemma_chain_stays_inside(
    g: Set<EdgeView>,
    origin: Name,
    inside: Set<Name>,
    p: Seq<Name>,
    k: int,
)
    requires
        forall|b: Name| #[trigger] linked(g, origin, b) ==> inside.contains(b),
        forall|a: Name, b: Name|
            inside.contains(a) && #[trigger] linked(g, a, b) ==> inside.contains(b),
        is_path(g, p),
        p[0] == origin,
        1 <= k < p.len(),
    ensures
        inside.contains(p[k]),
    decreases k,
{
    if k == 1 {
        assert(linked(g, p[0], p[1]));
    } else {
        lemma_chain_stays_inside(g, origin, inside, p, k - 1);
        assert(linked(g, p[k - 1], p[k - 1 + 1]));
    }
}

/// A set that holds what `origin` waits on and is closed under waiting holds
/// everything that `origin` reaches.
pub proof fn lemma_closed_set_traps(g: Set<EdgeView>, origin: Name, inside: Set<Name>)
    requires
        forall|b: Name| #[trigger] linked(g, origin, b) ==> inside.contains(b),
        forall|a: Name, b: Name|
            inside.contains(a) && #[trigger] linked(g, a, b) ==> inside.contains(b),
    ensures
        forall|b: Name| #[trigger] reaches(g, origin, b) ==> inside.contains(b),
{
    assert forall|b: Name| #[trigger] reaches(g, origin, b) implies inside.contains(b) by {
        let p = choose|p: Seq<Name>| #[trigger] is_path(g, p) && p[0] == origin && p.last() == b;
        lemma_chain_stays_inside(g, origin, inside, p, p.len() - 1);
    }
}

/// How many entries of `marks` are still false.
spec fn unmarked(marks: Seq<bool>) -> nat
    decreases marks.len(),
{
    if marks.len() == 0 {
        0
    } else {
        unmarked(marks.drop_last()) + if marks.last() {
            0nat
        } else {
            1nat
        }
    }
}

proof fn lemma_marking_lowers_unmarked(marks: Seq<bool>, j: int)
    requires
        0 <= j < marks.len(),
        !marks[j],
    ensures
        unmarked(marks.update(j, true)) == unmarked(marks) - 1,
    decreases marks.len(),
{
    let after = marks.update(j, true);
    if j == marks.len() - 1 {
        assert(after.drop_last() == marks.drop_last());
    } else {
        assert(after.drop_last() == marks.drop_last().update(j, true));
        lemma_marking_lowers_unmarked(marks.drop_last(), j);
    }
}

struct WaitEdge {
    waiter: ClientId,
    holder: ClientId,
    resource: ResourceId,
}

impl View for WaitEdge {
    type V = EdgeView;

    closed spec fn view(&self) -> EdgeView {
        EdgeView { waiter: self.waiter@, holder: self.holder@, resource: self.resource@ }
    }
}

/// Whether `e` is among the views of `edges`.
spec fn among(edges: Seq<WaitEdge>, e: EdgeView) -> bool {
    exists|i: int| 0 <= i < edges.len() && (#[trigger] edges[i])@ == e
}

/// Pushing an edge adds its view and keeps every other.
proof fn lemma_among_push(edges: Seq<WaitEdge>, edge: WaitEdge, e: EdgeView)
    ensures
        among(edges.push(edge), e) <==> among(edges, e) || e == edge@,
{
    let longer = edges.push(edge);
    if among(edges, e) {
        let i = choose|i: int| 0 <= i < edges.len() && (#[trigger] edges[i])@ == e;
        assert(longer[i]@ == e);
    }
    if e == edge@ {
        assert(longer[edges.len() as int]@ == e);
    }
    if among(longer, e) {
        let i = choose|i: int| 0 <= i < longer.len() && (#[trigger] longer[i])@ == e;
        if i < edges.len() {
            assert(edges[i]@ == e);
        }
    }
}

/// The directed graph of waits between clients.
pub struct WaitForGraph {
    edges: Vec<WaitEdge>,
}

impl View for WaitForGraph {
    type V = Set<EdgeView>;

    closed spec fn view(&self) -> Set<EdgeView> {
        Set::new(|e: EdgeView| among(self.edges@, e))
    }
}

impl WaitForGraph {
    /// A graph in which nobody waits.
    pub fn new() -> (graph: Self)
        ensures
            graph@ == Set::<EdgeView>::empty(),
    {
        let graph = WaitForGraph { edges: Vec::new() };
        assert(graph@ =~= Set::<EdgeView>::empty());
        graph
    }

    /// Whether `waiter` waits on `holder` for `resource`.
    pub fn has_edge(&self, waiter: &ClientId, holder: &ClientId, resource: &ResourceId) -> (found:
        bool)
        ensures
            found == self@.contains(
                EdgeView { waiter: waiter@, holder: holder@, resource: resource@ },
            ),
    {
        let ghost wanted = EdgeView { waiter: waiter@, holder: holder@, resource: resource@ };
        let mut i: usize = 0;
        while i < self.edges.len()
            invariant
                i <= self.edges.len(),
                wanted == (EdgeView { waiter: waiter@, holder: holder@, resource: resource@ }),
                forall|k: int| 0 <= k < i ==> (#[trigger] self.edges@[k])@ != wanted,
            decreases self.edges.len() - i,
        {
            let edge = &self.edges[i];
            if edge.waiter.same(waiter) && edge.holder.same(holder) && edge.resource.same(
                resource,
            ) {
                assert(among(self.edges@, wanted));
                return true;
            }
            i += 1;
        }
        false
    }

    /// Whether `waiter` waits on `holder` for any resource.
    pub fn waits_for(&self, waiter: &ClientId, holder: &ClientId) -> (found: bool)
        ensures
            found == linked(self@, waiter@, holder@),
    {
        let mut i: usize = 0;
        while i < self.edges.len()
            invariant
                i <= self.edges.len(),
                forall|k: int|
                    0 <= k < i ==> !((#[trigger] self.edges@[k]).waiter@ == waiter@
                        && self.edges@[k].holder@ == holder@),
            decreases self.edges.len() - i,
        {
            let edge = &self.edges[i];
            if edge.waiter.same(waiter) && edge.holder.same(holder) {
                assert(among(self.edges@, edge@));
                assert(self@.contains(
                    EdgeView { waiter: waiter@, holder: holder@, resource: edge.resource@ },
                ));
                return true;
            }
            i += 1;
        }
        proof {
            if linked(self@, waiter@, holder@) {
                let r = choose|r: Name| #[trigger]
                    self@.contains(EdgeView { waiter: waiter@, holder: holder@, resource: r });
                let e = EdgeView { waiter: waiter@, holder: holder@, resource: r };
                assert(among(self.edges@, e));
            }
        }
        false
    }

    /// Records that `waiter` now waits on `holder` for `resource`.
    pub fn add_edge(&mut self, waiter: &ClientId, holder: &ClientId, resource: &ResourceId)
        ensures
            final(self)@ == old(self)@.insert(
                EdgeView { waiter: waiter@, holder: holder@, resource: resource@ },
            ),
    {
        let ghost added = EdgeView { waiter: waiter@, holder: holder@, resource: resource@ };
        if !self.has_edge(waiter, holder, resource) {
            let edge = WaitEdge {
                waiter: waiter.clone(),
                holder: holder.clone(),
                resource: resource.clone(),
            };
            let ghost before = self.edges@;
            self.edges.push(edge);
            proof {
                assert forall|e: EdgeView| self@.contains(e) <==> old(self)@.insert(
                    added,
                ).contains(e) by {
                    lemma_among_push(before, edge, e);
                }
            }
        }
        assert(self@ =~= old(self)@.insert(added));
    }

    /// Forgets the wait of `waiter` for `resource`, whoever holds it.
    pub fn remove_edge(&mut self, waiter: &ClientId, resource: &ResourceId)
        ensures
            final(self)@ == without_wait(old(self)@, waiter@, resource@),
    {
        let ghost orig = self.edges@;
        let mut kept: Vec<WaitEdge> = Vec::new();
        while self.edges.len() > 0
            invariant
                self.edges.len() <= orig.len(),
                self.edges@ == orig.take(self.edges.len() as int),
                forall|j: int|
                    0 <= j < kept.len() ==> among(orig, (#[trigger] kept@[j])@) && !(kept@[j].waiter@
                        == waiter@ && kept@[j].resource@ == resource@),
                forall|i: int|
                    self.edges.len() <= i < orig.len() && !((#[trigger] orig[i]).waiter@ == waiter@
                        && orig[i].resource@ == resource@) ==> among(kept@, orig[i]@),
            decreases self.edges.len(),
        {
            let ghost at = self.edges.len() - 1;
            let ghost kept_before = kept@;
            let edge = self.edges.pop().unwrap();
            assert(edge == orig[at]);
            assert(self.edges@ == orig.take(self.edges.len() as int));
            if !(edge.waiter.same(waiter) && edge.resource.same(resource)) {
                kept.push(edge);
                proof {
                    assert(among(orig, edge@));
                    assert forall|i: int|
                        self.edges.len() <= i < orig.len() && !((#[trigger] orig[i]).waiter@
                            == waiter@ && orig[i].resource@ == resource@) implies among(
                        kept@,
                        orig[i]@,
                    ) by {
                        lemma_among_push(kept_before, edge, orig[i]@);
                    }
                }
            }
        }
        self.edges = kept;
        proof {
            assert forall|e: EdgeView| self@.contains(e) <==> without_wait(
                old(self)@,
                waiter@,
                resource@,
            ).contains(e) by {
                if among(kept@, e) {
                    let j = choose|j: int| 0 <= j < kept@.len() && (#[trigger] kept@[j])@ == e;
                    assert(among(orig, e));
                }
                if among(orig, e) && !(e.waiter == waiter@ && e.resource == resource@) {
                    let i = choose|i: int| 0 <= i < orig.len() && (#[trigger] orig[i])@ == e;
                    assert(among(kept@, orig[i]@));
                }
            }
            assert(self@ =~= without_wait(old(self)@, waiter@, resource@));
        }
    }

    /// Records that `resource` has passed to `heir`: the heir's own wait for
    /// it ends, and every other wait for it now points at the heir.
    pub fn hand_over(&mut self, resource: &ResourceId, heir: &ClientId)
        ensures
            final(self)@ == handed_over(old(self)@, resource@, heir@),
    {
        let ghost orig = self.edges@;
        let ghost target = handed_over(old(self)@, resource@, heir@);
        let mut kept: Vec<WaitEdge> = Vec::new();
        while self.edges.len() > 0
            invariant
                self.edges.len() <= orig.len(),
                self.edges@ == orig.take(self.edges.len() as int),
                orig == old(self).edges@,
                target == handed_over(old(self)@, resource@, heir@),
                forall|j: int| 0 <= j < kept.len() ==> target.contains((#[trigger] kept@[j])@),
                forall|i: int|
                    self.edges.len() <= i < orig.len() && (#[trigger] orig[i]).resource@
                        != resource@ ==> among(kept@, orig[i]@),
                forall|i: int|
                    self.edges.len() <= i < orig.len() && (#[trigger] orig[i]).resource@
                        == resource@ && orig[i].waiter@ != heir@ ==> among(
                        kept@,
                        EdgeView { waiter: orig[i].waiter@, holder: heir@, resource: resource@ },
                    ),
            decreases self.edges.len(),
        {
            let ghost at = self.edges.len() - 1;
            let ghost kept_before = kept@;
            let edge = self.edges.pop().unwrap();
            assert(edge == orig[at]);
            assert(self.edges@ == orig.take(self.edges.len() as int));
            assert(among(orig, edge@));
            assert(old(self)@.contains(edge@));
            if !edge.resource.same(resource) {
                kept.push(edge);
                proof {
                    assert forall|i: int|
                        self.edges.len() <= i < orig.len() && (#[trigger] orig[i]).resource@
                            != resource@ implies among(kept@, orig[i]@) by {
                        lemma_among_push(kept_before, edge, orig[i]@);
                    }
                    assert forall|i: int|
                        self.edges.len() <= i < orig.len() && (#[trigger] orig[i]).resource@
                            == resource@ && orig[i].waiter@ != heir@ implies among(
                        kept@,
                        EdgeView { waiter: orig[i].waiter@, holder: heir@, resource: resource@ },
                    ) by {
                        lemma_among_push(
                            kept_before,
                            edge,
                            EdgeView {
                                waiter: orig[i].waiter@,
                                holder: heir@,
                                resource: resource@,
                            },
                        );
                    }
                }
            } else if !edge.waiter.same(heir) {
                let moved = WaitEdge {
                    waiter: edge.waiter,
                    holder: heir.clone(),
                    resource: edge.resource,
                };
                kept.push(moved);
                proof {
                    assert(old(self)@.contains(
                        EdgeView {
                            waiter: moved.waiter@,
                            holder: edge.holder@,
                            resource: resource@,
                        },
                    ));
                    assert(target.contains(moved@));
                    assert forall|i: int|
                        self.edges.len() <= i < orig.len() && (#[trigger] orig[i]).resource@
                            != resource@ implies among(kept@, orig[i]@) by {
                        lemma_among_push(kept_before, moved, orig[i]@);
                    }
                    assert forall|i: int|
                        self.edges.len() <= i < orig.len() && (#[trigger] orig[i]).resource@
                            == resource@ && orig[i].waiter@ != heir@ implies among(
                        kept@,
                        EdgeView { waiter: orig[i].waiter@, holder: heir@, resource: resource@ },
                    ) by {
                        lemma_among_push(
                            kept_before,
                            moved,
                            EdgeView {
                                waiter: orig[i].waiter@,
                                holder: heir@,
                                resource: resource@,
                            },
                        );
                    }
                }
            }
        }
        self.edges = kept;
        proof {
            assert forall|e: EdgeView| self@.contains(e) <==> target.contains(e) by {
                if among(kept@, e) {
                    let j = choose|j: int| 0 <= j < kept@.len() && (#[trigger] kept@[j])@ == e;
                    assert(target.contains(kept@[j]@));
                }
                if target.contains(e) {
                    if e.resource == resource@ {
                        let h = choose|h: Name| #[trigger]
                            old(self)@.contains(
                                EdgeView { waiter: e.waiter, holder: h, resource: resource@ },
                            );
                        let source = EdgeView { waiter: e.waiter, holder: h, resource: resource@ };
                        assert(among(orig, source));
                        let i = choose|i: int|
                            0 <= i < orig.len() && (#[trigger] orig[i])@ == source;
                        assert(among(
                            kept@,
                            EdgeView {
                                waiter: orig[i].waiter@,
                                holder: heir@,
                                resource: resource@,
                            },
                        ));
                    } else {
                        assert(among(orig, e));
                        let i = choose|i: int| 0 <= i < orig.len() && (#[trigger] orig[i])@ == e;
                        assert(among(kept@, orig[i]@));
                    }
                }
            }
            assert(self@ =~= target);
        }
    }

    /// Whether following waits from `origin` leads back to `origin`.
    ///
    /// A depth-first walk over the waits, started at `origin`. Each wait is
    /// followed at most once, so the walk ends even when the graph holds
    /// cycles that do not pass through `origin`.
    pub fn has_cycle_through(&self, origin: &ClientId) -> (found: bool)
        ensures
            found == cycle_through(self@, origin@),
    {
        let n: usize = self.edges.len();
        let mut taken: Vec<bool> = Vec::new();
        let mut stack: Vec<usize> = Vec::new();
        let mut i: usize = 0;
        while i < n
            invariant
                n == self.edges.len(),
                i <= n,
                taken.len() == i,
                forall|k: int|
                    0 <= k < i ==> (#[trigger] taken@[k]) == (self.edges@[k].waiter@ == origin@),
                forall|k: int|
                    0 <= k < stack.len() ==> (#[trigger] stack@[k]) < i && taken@[stack@[k] as int],
                forall|k: int| 0 <= k < i && #[trigger] taken@[k] ==> stack@.contains(k as usize),
            decreases n - i,
        {
            let seed = self.edges[i].waiter.same(origin);
            taken.push(seed);
            if seed {
                let ghost before = stack@;
                stack.push(i);
                proof {
                    assert(stack@[stack.len() - 1] == i);
                    assert forall|k: int| 0 <= k < i + 1 && #[trigger] taken@[k] implies stack@.contains(
                        k as usize,
                    ) by {
                        if k < i {
                            let m = before.index_of(k as usize);
                            assert(stack@[m] == k as usize);
                        }
                    }
                }
            }
            i += 1;
        }
        let ghost mut closed: Set<Name> = Set::empty();
        let ghost mut done: Set<int> = Set::empty();
        while stack.len() > 0
            invariant
                n == self.edges.len(),
                taken.len() == n,
                forall|k: int|
                    0 <= k < stack.len() ==> (#[trigger] stack@[k]) < n && taken@[stack@[k] as int],
                forall|k: int|
                    0 <= k < n && #[trigger] taken@[k] ==> done.contains(k) || stack@.contains(
                        k as usize,
                    ),
                forall|k: int|
                    0 <= k < n && (#[trigger] self.edges@[k]).waiter@ == origin@ ==> taken@[k],
                forall|k: int|
                    0 <= k < n && #[trigger] taken@[k] ==> self.edges@[k].waiter@ == origin@
                        || reaches(self@, origin@, self.edges@[k].waiter@),
                forall|k: int|
                    #[trigger] done.contains(k) ==> 0 <= k < n && closed.contains(
                        self.edges@[k].holder@,
                    ),
                forall|k: int|
                    0 <= k < n && closed.contains((#[trigger] self.edges@[k]).waiter@)
                        ==> taken@[k],
                !closed.contains(origin@),
            decreases unmarked(taken@), stack.len(),
        {
            let ghost stack_before = stack@;
            let e: usize = stack.pop().unwrap();
            let node = &self.edges[e].holder;
            proof {
                let edge = self.edges@[e as int];
                assert(among(self.edges@, edge@));
                assert(self@.contains(
                    EdgeView { waiter: edge.waiter@, holder: node@, resource: edge.resource@ },
                ));
                assert(linked(self@, edge.waiter@, node@));
                if edge.waiter@ == origin@ {
                    lemma_step_reaches(self@, origin@, node@);
                } else {
                    lemma_reaches_then_step(self@, origin@, edge.waiter@, node@);
                }
            }
            if node.same(origin) {
                return true;
            }
            let ghost marks_before = taken@;
            let ghost stack_popped = stack@;
            let mut j: usize = 0;
            while j < n
                invariant
                    n == self.edges.len(),
                    taken.len() == n,
                    j <= n,
                    e < n,
                    node@ == self.edges@[e as int].holder@,
                    reaches(self@, origin@, node@),
                    marks_before.len() == n,
                    forall|k: int| 0 <= k < n && marks_before[k] ==> #[trigger] taken@[k],
                    forall|k: int|
                        0 <= k < stack.len() ==> (#[trigger] stack@[k]) < n
                            && taken@[stack@[k] as int],
                    forall|k: int|
                        0 <= k < n && #[trigger] taken@[k] ==> marks_before[k] || stack@.contains(
                            k as usize,
                        ),
                    forall|k: int|
                        0 <= k < stack_popped.len() ==> stack@.contains(#[trigger] stack_popped[k]),
                    forall|k: int|
                        0 <= k < n && #[trigger] taken@[k] ==> self.edges@[k].waiter@ == origin@
                            || reaches(self@, origin@, self.edges@[k].waiter@),
                    forall|k: int|
                        0 <= k < j && (#[trigger] self.edges@[k]).waiter@ == node@ ==> taken@[k],
                    stack.len() >= stack_popped.len(),
                    unmarked(taken@) + (stack.len() - stack_popped.len()) == unmarked(marks_before),
                decreases n - j,
            {
                if !taken[j] && self.edges[j].waiter.same(node) {
                    let ghost marks = taken@;
                    let ghost entries = stack@;
                    taken.set(j, true);
                    stack.push(j);
                    proof {
                        lemma_marking_lowers_unmarked(marks, j as int);
                        assert(stack@[stack.len() - 1] == j);
                        assert forall|k: int|
                            0 <= k < n && #[trigger] taken@[k] implies marks_before[k]
                            || stack@.contains(k as usize) by {
                            if k != j && !marks_before[k] {
                                let m = entries.index_of(k as usize);
                                assert(stack@[m] == k as usize);
                            }
                        }
                        assert forall|k: int| 0 <= k < stack_popped.len() implies stack@.contains(
                            #[trigger] stack_popped[k],
                        ) by {
                            let m = entries.index_of(stack_popped[k]);
                            assert(stack@[m] == stack_popped[k]);
                        }
                    }
                }
                j += 1;
            }
            proof {
                let ghost old_done = done;
                done = done.insert(e as int);
                closed = closed.insert(node@);
                assert forall|k: int| 0 <= k < n && #[trigger] taken@[k] implies done.contains(k)
                    || stack@.contains(k as usize) by {
                    if marks_before[k] && !old_done.contains(k) && k != e {
                        let m = stack_before.index_of(k as usize);
                        assert(stack_before[m] == k as usize);
                        assert(m < stack_before.len() - 1);
                        assert(stack_popped[m] == k as usize);
                    }
                }
            }
        }
        proof {
            assert forall|b: Name| #[trigger] linked(self@, origin@, b) implies closed.contains(
                b,
            ) by {
                let r = choose|r: Name| #[trigger]
                    self@.contains(EdgeView { waiter: origin@, holder: b, resource: r });
                let edge = EdgeView { waiter: origin@, holder: b, resource: r };
                assert(among(self.edges@, edge));
                let k = choose|k: int| 0 <= k < self.edges@.len() && (#[trigger] self.edges@[k])@ == edge;
                assert(taken@[k]);
                assert(done.contains(k));
            }
            assert forall|a: Name, b: Name|
                closed.contains(a) && #[trigger] linked(self@, a, b) implies closed.contains(b) by {
                let r = choose|r: Name| #[trigger]
                    self@.contains(EdgeView { waiter: a, holder: b, resource: r });
                let edge = EdgeView { waiter: a, holder: b, resource: r };
                assert(among(self.edges@, edge));
                let k = choose|k: int| 0 <= k < self.edges@.len() && (#[trigger] self.edges@[k])@ == edge;
                assert(taken@[k]);
                assert(done.contains(k));
            }
            lemma_closed_set_traps(self@, origin@, closed);
        }
        false
    }
}

} // verus!
