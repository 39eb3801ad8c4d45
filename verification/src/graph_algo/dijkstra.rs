//! The cheapest way between two nodes of a graph whose edges weigh a
//! positive amount.
use crate::graph::{ascending, canonical, ids_of, Graph, GraphView};
use crate::graph_algo::search::{reversed, unknown_below};
use std::collections::BTreeSet;
use vstd::prelude::*;

verus! {

/// The order in which pending entries are taken up: by cost, and by node
/// among entries of one cost.
pub open spec fn entry_le(a: (u64, usize), b: (u64, usize)) -> bool {
    a.0 < b.0 || (a.0 == b.0 && a.1 <= b.1)
}

/// `x` is the entry of `heap` that is taken up first.
pub open spec fn is_least(heap: Set<(u64, usize)>, x: (u64, usize)) -> bool {
    heap.contains(x) && forall|y: (u64, usize)| heap.contains(y) ==> entry_le(x, y)
}

/// The entry of a heap that is taken up first.
pub open spec fn least(heap: Set<(u64, usize)>) -> (u64, usize) {
    choose|x: (u64, usize)| is_least(heap, x)
}

pub proof fn lemma_least(heap: Set<(u64, usize)>, x: (u64, usize))
    requires
        is_least(heap, x),
    ensures
        least(heap) == x,
{
    let y = least(heap);
    assert(is_least(heap, y));
    assert(entry_le(x, y) && entry_le(y, x));
}

/// `std::collections::BTreeSet::pop_first` on a set of pairs: takes out
/// and returns the smallest pair, where pairs are compared by their first
/// parts and then by their second; on an empty set it returns nothing and
/// leaves the set as it is.
#[verifier::external_body]
pub(crate) fn pop_first(heap: &mut BTreeSet<(u64, usize)>) -> (r: Option<(u64, usize)>)
    ensures
        match r {
            Some(x) => is_least(old(heap)@, x) && final(heap)@ == old(heap)@.remove(x),
            None => old(heap)@ == Set::<(u64, usize)>::empty() && final(heap)@ == old(heap)@,
        },
{
    heap.pop_first()
}

/// The order that std gives to entries is one that an ordered set can go
/// by.
pub open spec fn entries_ordered() -> bool {
    vstd::laws_cmp::obeys_cmp::<(u64, usize)>()
}

pub proof fn lemma_entries_ordered()
    ensures
        entries_ordered(),
{
    broadcast use vstd::laws_cmp::group_laws_cmp;

}

/// `num_traits::Zero::zero` for `u64`: the number 0.
#[verifier::external_body]
fn zero() -> (z: u64)
    ensures
        z == 0,
{
    num_traits::Zero::zero()
}

/// The state of a search for the cheapest way.
pub ghost struct Frontier {
    /// For each node reached so far, the lowest cost at which it was
    /// reached, and the node before it on that way.
    pub best: Map<usize, (u64, usize)>,
    /// The entries that wait to be taken up: a cost and the node reached at
    /// that cost.
    pub heap: Set<(u64, usize)>,
    /// The entries taken up so far.
    pub settled: Set<(u64, usize)>,
    /// For each entry, a way from the start that has the entry's cost.
    pub routes: Map<(u64, usize), Seq<usize>>,
}

impl Frontier {
    /// Whether `e` is pending.
    pub open spec fn has(self, e: (u64, usize)) -> bool {
        self.heap.contains(e) || self.settled.contains(e)
    }
}

impl<N> GraphView<N, u64> {
    /// The weight of the edge between `a` and `b`.
    pub open spec fn weight(self, a: usize, b: usize) -> u64 {
        self.edges[canonical(a, b)]
    }

    /// The weights of the edges along `p`, added up.
    pub open spec fn route_weight(self, p: Seq<usize>) -> nat
        decreases p.len(),
    {
        if p.len() <= 1 {
            0
        } else {
            self.route_weight(p.drop_last()) + self.weight(p[p.len() - 2], p[p.len() - 1]) as nat
        }
    }

    /// No edge weighs nothing.
    pub open spec fn weights_positive(self) -> bool {
        forall|k: (usize, usize)| #[trigger] self.edges.contains_key(k) ==> self.edges[k] > 0
    }

    /// The most that an edge may weigh for no sum of costs to overflow.
    pub open spec fn weight_cap(self) -> int {
        if self.next == 0 {
            0
        } else {
            u64::MAX as int / self.next as int
        }
    }

    /// No edge weighs more than `weight_cap`.
    pub open spec fn weights_fit(self) -> bool {
        forall|k: (usize, usize)| #[trigger]
            self.edges.contains_key(k) ==> self.edges[k] <= self.weight_cap()
    }

    /// No entry of `f` costs more than this.
    pub open spec fn cost_bound(self, f: Frontier) -> int {
        (self.next - 1 - unknown_below(f.best.dom(), self.next)) * self.weight_cap()
    }

    /// The search before its first step: `from` is pending at no cost, with
    /// itself before it.
    pub open spec fn frontier_start(self, from: usize) -> Frontier {
        Frontier {
            best: map![from => (0u64, from)],
            heap: set![(0u64, from)],
            settled: Set::empty(),
            routes: map![(0u64, from) => seq![from]],
        }
    }

    /// The neighbour `x` of `u` is considered at cost `c` plus the weight of
    /// the edge: unless `x` was reached for less before, this becomes its
    /// best cost, with `u` as the node before it, and an entry for it
    /// waits.
    pub open spec fn relax(self, f: Frontier, u: usize, c: u64, x: usize) -> Frontier {
        let total = c + self.weight(u, x);
        if f.best.contains_key(x) && f.best[x].0 < total {
            f
        } else {
            Frontier {
                best: f.best.insert(x, (total as u64, u)),
                heap: f.heap.insert((total as u64, x)),
                settled: f.settled,
                routes: f.routes.insert((total as u64, x), f.routes[(c, u)].push(x)),
            }
        }
    }

    /// `relax` for each of `nbrs` in turn.
    pub open spec fn relax_all(self, f: Frontier, u: usize, c: u64, nbrs: Seq<usize>) -> Frontier
        decreases nbrs.len(),
    {
        if nbrs.len() == 0 {
            f
        } else {
            self.relax(self.relax_all(f, u, c, nbrs.drop_last()), u, c, nbrs.last())
        }
    }

    /// The state after the least entry was taken out of the heap.
    pub open spec fn taken(self, f: Frontier) -> Frontier {
        let e = least(f.heap);
        Frontier {
            best: f.best,
            heap: f.heap.remove(e),
            settled: f.settled.insert(e),
            routes: f.routes,
        }
    }

    /// One step: the least entry is taken up and each neighbour of its node
    /// is considered, by ascending identifier.
    pub open spec fn settle(self, f: Frontier) -> Frontier {
        let e = least(f.heap);
        self.relax_all(self.taken(f), e.1, e.0, self.neighbor_ids(e.1))
    }

    /// The neighbour `x` of the node of the settled entry `s` was
    /// considered: it is known at no more than the cost through `s`.
    pub open spec fn closed_at(self, f: Frontier, s: (u64, usize), x: usize) -> bool {
        f.best.contains_key(x) && f.best[x].0 <= s.0 + self.weight(s.1, x)
    }

    /// What holds of every state, also in the middle of a step.
    pub open spec fn frontier_core(self, from: usize, to: usize, f: Frontier) -> bool {
        &&& f.best.contains_key(from)
        &&& f.best[from] == (0u64, from)
        &&& forall|x: usize| #[trigger]
            f.best.contains_key(x) ==> x < self.next && f.has((f.best[x].0, x))
        &&& forall|x: usize| #[trigger]
            f.best.contains_key(x) && x != from ==> f.best.contains_key(f.best[x].1)
                && self.adjacent(f.best[x].1, x) && f.best[f.best[x].1].0 + self.weight(
                f.best[x].1,
                x,
            ) <= f.best[x].0
        &&& forall|e: (u64, usize)| #[trigger]
            f.has(e) ==> {
                &&& e.1 < self.next
                &&& f.best.contains_key(e.1)
                &&& f.best[e.1].0 <= e.0
                &&& e.0 <= self.cost_bound(f)
                &&& f.routes.contains_key(e)
                &&& self.is_route(from, e.1, f.routes[e])
                &&& self.route_weight(f.routes[e]) == e.0
            }
        &&& forall|s: (u64, usize), h: (u64, usize)|
            #![trigger f.settled.contains(s), f.heap.contains(h)]
            f.settled.contains(s) && f.heap.contains(h) ==> entry_le(s, h) && s != h
        &&& forall|s: (u64, usize)| #[trigger] f.settled.contains(s) ==> s.1 != to
    }

    /// What holds between steps.
    pub open spec fn frontier_inv(self, from: usize, to: usize, f: Frontier) -> bool {
        &&& self.frontier_core(from, to, f)
        &&& forall|s: (u64, usize), x: usize|
            #![trigger f.settled.contains(s), self.adjacent(s.1, x)]
            f.settled.contains(s) && self.adjacent(s.1, x) ==> self.closed_at(f, s, x)
    }

    /// What holds in a step, after the neighbours in `handled` of the node
    /// of the entry `e` were considered.
    pub open spec fn frontier_mid(
        self,
        from: usize,
        to: usize,
        f: Frontier,
        e: (u64, usize),
        handled: Set<usize>,
    ) -> bool {
        &&& self.frontier_core(from, to, f)
        &&& f.settled.contains(e)
        &&& forall|s: (u64, usize)| #[trigger] f.settled.contains(s) ==> entry_le(s, e)
        &&& forall|s: (u64, usize), x: usize|
            #![trigger f.settled.contains(s), self.adjacent(s.1, x)]
            f.settled.contains(s) && self.adjacent(s.1, x) && (s != e || handled.contains(x))
                ==> self.closed_at(f, s, x)
    }
}


/// The place of an entry in the order of all entries over `bound` nodes.
pub open spec fn rank(e: (u64, usize), bound: nat) -> int {
    e.0 * bound + e.1
}

pub proof fn lemma_rank(a: (u64, usize), b: (u64, usize), bound: nat)
    requires
        entry_le(a, b),
        a != b,
        a.1 < bound,
        b.1 < bound,
    ensures
        rank(a, bound) < rank(b, bound) < (u64::MAX + 1) * bound,
{
    assert(a.0 < b.0 ==> (a.0 + 1) * bound <= b.0 * bound) by (nonlinear_arith);
    assert((b.0 + 1) * bound <= (u64::MAX + 1) * bound) by (nonlinear_arith)
        requires
            b.0 <= u64::MAX,
    ;
    assert((a.0 + 1) * bound == a.0 * bound + bound) by (nonlinear_arith);
    assert((b.0 + 1) * bound == b.0 * bound + bound) by (nonlinear_arith);
}

/// A heap that holds something has a least entry.
pub proof fn lemma_has_least(heap: Set<(u64, usize)>)
    requires
        heap.finite(),
        !heap.is_empty(),
    ensures
        is_least(heap, least(heap)),
    decreases heap.len(),
{
    let x = heap.choose();
    let rest = heap.remove(x);
    if rest.is_empty() {
        assert forall|y: (u64, usize)| heap.contains(y) implies entry_le(x, y) by {
            if y != x {
                assert(rest.contains(y));
            }
        }
        assert(is_least(heap, x));
    } else {
        lemma_has_least(rest);
        let m = least(rest);
        let low = if entry_le(x, m) {
            x
        } else {
            m
        };
        assert forall|y: (u64, usize)| heap.contains(y) implies entry_le(low, y) by {
            if y != x {
                assert(rest.contains(y));
                assert(entry_le(m, y));
            }
        }
        assert(is_least(heap, low));
    }
}

/// The way back from `x` along the nodes before it, told from the start.
pub open spec fn trail(best: Map<usize, (u64, usize)>, from: usize, x: usize, fuel: nat) -> Seq<
    usize,
>
    decreases fuel,
{
    if x == from || fuel == 0 || !best.contains_key(x) {
        seq![x]
    } else {
        trail(best, from, best[x].1, (fuel - 1) as nat).push(x)
    }
}

impl<N> GraphView<N, u64> {
    pub proof fn lemma_route_push(self, from: usize, u: usize, x: usize, p: Seq<usize>)
        requires
            self.is_route(from, u, p),
            self.adjacent(u, x),
        ensures
            self.is_route(from, x, p.push(x)),
            self.route_weight(p.push(x)) == self.route_weight(p) + self.weight(u, x),
    {
        let q = p.push(x);
        assert forall|i: int| 0 <= i < q.len() - 1 implies self.adjacent(#[trigger] q[i], q[i + 1]) by {
            if i < p.len() - 1 {
                assert(self.adjacent(p[i], p[i + 1]));
            }
        }
        assert(q.drop_last() =~= p);
    }

    pub proof fn lemma_route_prefix(self, q: Seq<usize>, upto: int)
        requires
            0 <= upto < q.len(),
        ensures
            self.route_weight(q.take(upto + 1)) <= self.route_weight(q),
        decreases q.len() - upto,
    {
        if upto + 1 == q.len() {
            assert(q.take(upto + 1) =~= q);
        } else {
            self.lemma_route_prefix(q, upto + 1);
            assert(q.take(upto + 2).drop_last() =~= q.take(upto + 1));
        }
    }

    pub proof fn lemma_frontier_start(self, from: usize, to: usize)
        requires
            from < self.next,
        ensures
            self.frontier_inv(from, to, self.frontier_start(from)),
            self.frontier_start(from).heap.finite(),
    {
        let f = self.frontier_start(from);
        crate::graph_algo::search::lemma_unknown_insert(Set::<usize>::empty(), from, self.next);
        lemma_unknown_none(self.next);
        assert(f.best.dom() =~= Set::<usize>::empty().insert(from));
        assert(self.cost_bound(f) == 0) by (nonlinear_arith)
            requires
                self.cost_bound(f) == (self.next - 1 - unknown_below(f.best.dom(), self.next))
                    * self.weight_cap(),
                unknown_below(f.best.dom(), self.next) == self.next - 1,
        ;
        assert(self.is_route(from, from, seq![from]));
    }

    pub proof fn lemma_taken(self, from: usize, to: usize, f: Frontier, e: (u64, usize))
        requires
            self.frontier_inv(from, to, f),
            is_least(f.heap, e),
            e.1 != to,
        ensures
            least(f.heap) == e,
            self.frontier_mid(from, to, self.taken(f), e, Set::empty()),
    {
        lemma_least(f.heap, e);
        let g = self.taken(f);
        assert forall|h: (u64, usize)| #[trigger] g.has(h) <==> f.has(h) by {}
        assert forall|s: (u64, usize)| #[trigger] g.settled.contains(s) implies entry_le(s, e) by {
            if s != e {
                assert(f.settled.contains(s) && f.heap.contains(e));
            }
        }
        assert forall|s: (u64, usize), h: (u64, usize)|
            #![trigger g.settled.contains(s), g.heap.contains(h)]
            g.settled.contains(s) && g.heap.contains(h) implies entry_le(s, h) && s != h by {
            if s != e {
                assert(f.settled.contains(s) && f.heap.contains(h));
            }
        }
        assert(self.cost_bound(g) == self.cost_bound(f));
    }
}

impl<N> GraphView<N, u64> {
    /// The sum that `relax` forms fits, whatever the neighbour.
    pub proof fn lemma_relax_fits(self, from: usize, to: usize, f: Frontier, e: (u64, usize), x: usize)
        requires
            self.edges_in_range(),
            self.weights_fit(),
            self.frontier_core(from, to, f),
            f.has(e),
            self.adjacent(e.1, x),
        ensures
            x < self.next,
            e.0 + self.weight(e.1, x) <= self.cost_bound(f) + self.weight_cap(),
            self.cost_bound(f) + self.weight_cap() <= u64::MAX,
            0 <= self.weight_cap(),
    {
        let k = canonical(e.1, x);
        assert(self.edges.contains_key(k));
        let cap = self.weight_cap();
        let n = self.next as int;
        let u = unknown_below(f.best.dom(), self.next) as int;
        assert(n > 0);
        assert(cap * n <= u64::MAX && cap >= 0) by (nonlinear_arith)
            requires
                cap == (u64::MAX as int) / n,
                n > 0,
        ;
        assert((n - 1 - u) * cap + cap <= u64::MAX) by (nonlinear_arith)
            requires
                cap * n <= u64::MAX,
                cap >= 0,
                u >= 0,
        ;
    }

    pub proof fn lemma_relax(
        self,
        from: usize,
        to: usize,
        f: Frontier,
        e: (u64, usize),
        handled: Set<usize>,
        x: usize,
    )
        requires
            self.edges_in_range(),
            self.weights_positive(),
            self.weights_fit(),
            self.frontier_mid(from, to, f, e, handled),
            self.adjacent(e.1, x),
        ensures
            self.frontier_mid(from, to, self.relax(f, e.1, e.0, x), e, handled.insert(x)),
            forall|h: (u64, usize)| #[trigger]
                self.relax(f, e.1, e.0, x).heap.contains(h) ==> f.heap.contains(h) || (entry_le(
                    e,
                    h,
                ) && h != e && h.1 < self.next),
            f.heap.finite() ==> self.relax(f, e.1, e.0, x).heap.finite(),
    {
        let g = self.relax(f, e.1, e.0, x);
        let w = self.weight(e.1, x);
        let total = e.0 + w;
        assert(f.has(e));
        self.lemma_relax_fits(from, to, f, e, x);
        assert(self.edges.contains_key(canonical(e.1, x)));
        assert(w > 0);
        if f.best.contains_key(x) && f.best[x].0 < total {
            assert(g == f);
        } else {
            let t = total as u64;
            let cap = self.weight_cap();
            assert(x != from);
            assert(e.1 != x);
            if f.best.contains_key(x) {
                assert(g.best.dom() =~= f.best.dom());
                assert(f.has((f.best[x].0, x)));
            } else {
                assert(g.best.dom() =~= f.best.dom().insert(x));
                crate::graph_algo::search::lemma_unknown_insert(f.best.dom(), x, self.next);
                assert(self.cost_bound(g) == self.cost_bound(f) + cap) by (nonlinear_arith)
                    requires
                        self.cost_bound(g) == (self.next - 1 - unknown_below(
                            g.best.dom(),
                            self.next,
                        )) * cap,
                        self.cost_bound(f) == (self.next - 1 - unknown_below(
                            f.best.dom(),
                            self.next,
                        )) * cap,
                        unknown_below(g.best.dom(), self.next) + 1 == unknown_below(
                            f.best.dom(),
                            self.next,
                        ),
                ;
            }
            assert(self.cost_bound(f) <= self.cost_bound(g));
            assert(t <= self.cost_bound(g));
            self.lemma_route_push(from, e.1, x, f.routes[e]);
            assert forall|y: usize| #[trigger] f.best.contains_key(y) implies g.best.contains_key(
                y,
            ) && g.best[y].0 <= f.best[y].0 by {}
            assert forall|y: usize| #[trigger] g.best.contains_key(y) implies y < self.next
                && g.has((g.best[y].0, y)) by {
                if y != x {
                    assert(f.has((f.best[y].0, y)));
                }
            }
            assert forall|y: usize| #[trigger] g.best.contains_key(y) && y != from implies
                g.best.contains_key(g.best[y].1) && self.adjacent(g.best[y].1, y)
                && g.best[g.best[y].1].0 + self.weight(g.best[y].1, y) <= g.best[y].0 by {
                if y != x {
                    assert(f.best.contains_key(y));
                    assert(f.best.contains_key(f.best[y].1));
                }
            }
            assert forall|h: (u64, usize)| #[trigger] g.has(h) implies {
                &&& h.1 < self.next
                &&& g.best.contains_key(h.1)
                &&& g.best[h.1].0 <= h.0
                &&& h.0 <= self.cost_bound(g)
                &&& g.routes.contains_key(h)
                &&& self.is_route(from, h.1, g.routes[h])
                &&& self.route_weight(g.routes[h]) == h.0
            } by {
                if h != (t, x) {
                    assert(f.has(h));
                    assert(f.best.contains_key(h.1));
                }
            }
            assert forall|s: (u64, usize), h: (u64, usize)|
                #![trigger g.settled.contains(s), g.heap.contains(h)]
                g.settled.contains(s) && g.heap.contains(h) implies entry_le(s, h) && s != h by {
                if h != (t, x) {
                    assert(f.settled.contains(s) && f.heap.contains(h));
                } else {
                    assert(entry_le(s, e));
                }
            }
            assert forall|s: (u64, usize), y: usize|
                #![trigger g.settled.contains(s), self.adjacent(s.1, y)]
                g.settled.contains(s) && self.adjacent(s.1, y) && (s != e || handled.insert(
                    x,
                ).contains(y)) implies self.closed_at(g, s, y) by {
                if !(s == e && y == x) {
                    assert(f.settled.contains(s));
                    assert(self.closed_at(f, s, y));
                }
            }
        }
    }

    pub proof fn lemma_relax_all(
        self,
        from: usize,
        to: usize,
        f: Frontier,
        e: (u64, usize),
        nbrs: Seq<usize>,
    )
        requires
            self.edges_in_range(),
            self.weights_positive(),
            self.weights_fit(),
            self.frontier_mid(from, to, f, e, Set::empty()),
            forall|i: int| 0 <= i < nbrs.len() ==> self.adjacent(e.1, #[trigger] nbrs[i]),
        ensures
            self.frontier_mid(
                from,
                to,
                self.relax_all(f, e.1, e.0, nbrs),
                e,
                Set::new(|x: usize| nbrs.contains(x)),
            ),
            forall|h: (u64, usize)| #[trigger]
                self.relax_all(f, e.1, e.0, nbrs).heap.contains(h) ==> f.heap.contains(h) || (
                entry_le(e, h) && h != e && h.1 < self.next),
            f.heap.finite() ==> self.relax_all(f, e.1, e.0, nbrs).heap.finite(),
        decreases nbrs.len(),
    {
        if nbrs.len() == 0 {
            assert(Set::new(|x: usize| nbrs.contains(x)) =~= Set::<usize>::empty());
        } else {
            let front = nbrs.drop_last();
            let last = nbrs.last();
            assert forall|i: int| 0 <= i < front.len() implies self.adjacent(
                e.1,
                #[trigger] front[i],
            ) by {
                assert(front[i] == nbrs[i]);
            }
            self.lemma_relax_all(from, to, f, e, front);
            let mid = self.relax_all(f, e.1, e.0, front);
            let handled = Set::new(|x: usize| front.contains(x));
            assert(self.adjacent(e.1, nbrs[nbrs.len() - 1]));
            self.lemma_relax(from, to, mid, e, handled, last);
            assert(handled.insert(last) =~= Set::new(|x: usize| nbrs.contains(x))) by {
                assert forall|x: usize| handled.insert(last).contains(x) <==> nbrs.contains(x) by {
                    if front.contains(x) {
                        let k = choose|k: int| 0 <= k < front.len() && front[k] == x;
                        assert(nbrs[k] == x);
                    }
                    if x == last {
                        assert(nbrs[nbrs.len() - 1] == x);
                    }
                    if nbrs.contains(x) {
                        let k = choose|k: int| 0 <= k < nbrs.len() && nbrs[k] == x;
                        if k < front.len() {
                            assert(front[k] == x);
                        }
                    }
                }
            }
        }
    }

    /// A step keeps what holds between steps, and whatever waits after it
    /// comes later in the order than the entry that was taken up.
    pub proof fn lemma_settle(self, from: usize, to: usize, f: Frontier, e: (u64, usize))
        requires
            self.edges_in_range(),
            self.weights_positive(),
            self.weights_fit(),
            self.frontier_inv(from, to, f),
            is_least(f.heap, e),
            e.1 != to,
        ensures
            least(f.heap) == e,
            self.frontier_inv(from, to, self.settle(f)),
            forall|h: (u64, usize)| #[trigger]
                self.settle(f).heap.contains(h) ==> entry_le(e, h) && h != e && h.1 < self.next,
            f.heap.finite() ==> self.settle(f).heap.finite(),
    {
        self.lemma_taken(from, to, f, e);
        let t = self.taken(f);
        let nbrs = self.neighbor_ids(e.1);
        self.lemma_neighbor_ids(e.1);
        assert forall|i: int| 0 <= i < nbrs.len() implies self.adjacent(e.1, #[trigger] nbrs[i]) by {
            assert(nbrs.contains(nbrs[i]));
        }
        self.lemma_relax_all(from, to, t, e, nbrs);
        let g = self.settle(f);
        assert forall|h: (u64, usize)| #[trigger] g.heap.contains(h) implies entry_le(e, h) && h
            != e && h.1 < self.next by {
            if t.heap.contains(h) {
                assert(f.heap.contains(h));
                assert(f.has(h));
            }
        }
    }
}

impl<N> GraphView<N, u64> {
    /// `p` is a way from `from` to `to` that weighs `cost`, and no way
    /// between them weighs less.
    pub open spec fn is_cheapest_route(self, from: usize, to: usize, cost: u64, p: Seq<usize>) -> bool {
        &&& self.is_route(from, to, p)
        &&& self.route_weight(p) == cost
        &&& forall|q: Seq<usize>| #[trigger] self.is_route(from, to, q) ==> cost <= self.route_weight(q)
    }

    /// The search continued from `f`: as soon as an entry for `to` is
    /// taken up, its cost and the way back from `to`; nothing if the heap
    /// runs empty before that. `fuel` bounds the steps.
    pub open spec fn dijkstra_from(self, from: usize, to: usize, f: Frontier, fuel: nat) -> Option<
        (u64, Seq<usize>),
    >
        decreases fuel,
    {
        if f.heap.is_empty() || fuel == 0 {
            None
        } else if least(f.heap).1 == to {
            Some((least(f.heap).0, trail(f.best, from, to, least(f.heap).0 as nat)))
        } else {
            self.dijkstra_from(from, to, self.settle(f), (fuel - 1) as nat)
        }
    }

    /// What `dijkstra` returns.
    pub open spec fn dijkstra_spec(self, from: usize, to: usize) -> Option<(u64, Seq<usize>)> {
        self.dijkstra_from(from, to, self.frontier_start(from), (u64::MAX + 1) as nat * self.next)
    }

    /// Enough fuel for the steps that `f` can still take.
    pub open spec fn fuel_for(self, f: Frontier, fuel: nat) -> bool {
        forall|h: (u64, usize)| #[trigger]
            f.heap.contains(h) ==> fuel + rank(h, self.next) >= (u64::MAX + 1) * self.next
    }

    /// Along any way from the start, up to any point: either that point
    /// has a settled entry that costs no more than the way up to it, or an
    /// earlier point has a waiting entry that costs no more than the way up
    /// to that one.
    pub proof fn lemma_cheapest_along(
        self,
        from: usize,
        to: usize,
        f: Frontier,
        q: Seq<usize>,
        upto: int,
    ) -> (r: (int, u64))
        requires
            self.frontier_inv(from, to, f),
            q.len() > 0,
            q[0] == from,
            forall|i: int| 0 <= i < q.len() - 1 ==> self.adjacent(#[trigger] q[i], q[i + 1]),
            0 <= upto < q.len(),
        ensures
            0 <= r.0 <= upto,
            r.1 <= self.route_weight(q.take(r.0 + 1)),
            f.heap.contains((r.1, q[r.0])) || (r.0 == upto && f.settled.contains((r.1, q[upto]))),
        decreases upto,
    {
        if upto == 0 {
            assert(f.has((f.best[from].0, from)));
            (0, 0u64)
        } else {
            let r = self.lemma_cheapest_along(from, to, f, q, upto - 1);
            if f.heap.contains((r.1, q[r.0])) {
                r
            } else {
                let s = (r.1, q[upto - 1]);
                let x = q[upto];
                assert(self.adjacent(q[upto - 1], q[upto]));
                assert(f.settled.contains(s) && self.adjacent(s.1, x));
                assert(self.closed_at(f, s, x));
                assert(f.has((f.best[x].0, x)));
                assert(q.take(upto + 1).drop_last() =~= q.take(upto));
                (upto, f.best[x].0)
            }
        }
    }

    /// The way back from a node that was reached is a way from the start,
    /// and weighs no more than the node's best cost.
    pub proof fn lemma_trail(self, from: usize, to: usize, f: Frontier, x: usize, fuel: nat)
        requires
            self.weights_positive(),
            self.frontier_core(from, to, f),
            f.best.contains_key(x),
            fuel >= f.best[x].0,
        ensures
            self.is_route(from, x, trail(f.best, from, x, fuel)),
            self.route_weight(trail(f.best, from, x, fuel)) <= f.best[x].0,
        decreases fuel,
    {
        if x == from {
            assert(self.is_route(from, from, seq![from]));
        } else {
            let p = f.best[x].1;
            assert(self.edges.contains_key(canonical(p, x)));
            assert(self.weight(p, x) > 0);
            self.lemma_trail(from, to, f, p, (fuel - 1) as nat);
            self.lemma_route_push(from, p, x, trail(f.best, from, p, (fuel - 1) as nat));
        }
    }

    pub proof fn lemma_dijkstra_from(self, from: usize, to: usize, f: Frontier, fuel: nat)
        requires
            self.edges_in_range(),
            self.weights_positive(),
            self.weights_fit(),
            self.frontier_inv(from, to, f),
            f.heap.finite(),
            self.fuel_for(f, fuel),
        ensures
            self.dijkstra_from(from, to, f, fuel) is Some <==> self.reachable(from, to),
            self.dijkstra_from(from, to, f, fuel) matches Some(r) ==> self.is_cheapest_route(
                from,
                to,
                r.0,
                r.1,
            ),
        decreases fuel,
    {
        if f.heap.is_empty() {
            if self.reachable(from, to) {
                let q = choose|q: Seq<usize>| self.is_route(from, to, q);
                let r = self.lemma_cheapest_along(from, to, f, q, q.len() - 1);
                assert(f.settled.contains((r.1, to)));
            }
        } else {
            lemma_has_least(f.heap);
            let e = least(f.heap);
            assert(f.has(e));
            assert(rank(e, self.next) < (u64::MAX + 1) * self.next) by (nonlinear_arith)
                requires
                    rank(e, self.next) == e.0 * self.next + e.1,
                    e.1 < self.next,
                    e.0 <= u64::MAX,
            ;
            assert(fuel > 0);
            if e.1 == to {
                let p = trail(f.best, from, to, e.0 as nat);
                self.lemma_trail(from, to, f, to, e.0 as nat);
                assert forall|q: Seq<usize>| #[trigger] self.is_route(from, to, q) implies e.0
                    <= self.route_weight(q) by {
                    let r = self.lemma_cheapest_along(from, to, f, q, q.len() - 1);
                    self.lemma_route_prefix(q, r.0);
                    assert(f.heap.contains((r.1, q[r.0])));
                    assert(entry_le(e, (r.1, q[r.0])));
                }
                assert(self.is_route(from, to, p));
            } else {
                self.lemma_settle(from, to, f, e);
                let g = self.settle(f);
                assert forall|h: (u64, usize)| #[trigger] g.heap.contains(h) implies (fuel - 1)
                    + rank(h, self.next) >= (u64::MAX + 1) * self.next by {
                    lemma_rank(e, h, self.next);
                }
                self.lemma_dijkstra_from(from, to, g, (fuel - 1) as nat);
            }
        }
    }

    /// What the search for the cheapest way returns: a way from `from` to
    /// `to` with its weight, exactly when there is a way; and no way
    /// between the two weighs less.
    pub proof fn law_dijkstra(self, from: usize, to: usize)
        requires
            self.edges_in_range(),
            self.weights_positive(),
            self.weights_fit(),
            from < self.next,
        ensures
            self.dijkstra_spec(from, to) is Some <==> self.reachable(from, to),
            self.dijkstra_spec(from, to) matches Some(r) ==> self.is_cheapest_route(
                from,
                to,
                r.0,
                r.1,
            ),
    {
        self.lemma_frontier_start(from, to);
        let f = self.frontier_start(from);
        let fuel = (u64::MAX + 1) as nat * self.next;
        assert forall|h: (u64, usize)| #[trigger] f.heap.contains(h) implies fuel + rank(
            h,
            self.next,
        ) >= (u64::MAX + 1) * self.next by {}
        self.lemma_dijkstra_from(from, to, f, fuel);
    }
}

impl<N> GraphView<N, u64> {
    /// What a running search goes by, in one.
    #[verifier::opaque]
    pub open spec fn running(self, from: usize, to: usize, f: Frontier, fuel: nat) -> bool {
        &&& self.frontier_inv(from, to, f)
        &&& f.heap.finite()
        &&& self.fuel_for(f, fuel)
        &&& self.dijkstra_spec(from, to) == self.dijkstra_from(from, to, f, fuel)
    }

    pub proof fn lemma_running_start(self, from: usize, to: usize)
        requires
            from < self.next,
        ensures
            self.running(
                from,
                to,
                self.frontier_start(from),
                (u64::MAX + 1) as nat * self.next,
            ),
    {
        reveal(GraphView::running);
        self.lemma_frontier_start(from, to);
    }

    pub proof fn lemma_running_end(self, from: usize, to: usize, f: Frontier, fuel: nat)
        requires
            self.running(from, to, f, fuel),
            f.heap.is_empty(),
        ensures
            self.dijkstra_spec(from, to) is None,
    {
        reveal(GraphView::running);
    }

    pub proof fn lemma_running_hit(self, from: usize, to: usize, f: Frontier, fuel: nat, e: (u64, usize))
        requires
            self.running(from, to, f, fuel),
            is_least(f.heap, e),
            e.1 == to,
        ensures
            self.dijkstra_spec(from, to) == Some((e.0, trail(f.best, from, to, e.0 as nat))),
            self.frontier_core(from, to, f),
            f.best.contains_key(to),
            e.0 >= f.best[to].0,
    {
        reveal(GraphView::running);
        lemma_least(f.heap, e);
        assert(f.has(e));
        assert(rank(e, self.next) < (u64::MAX + 1) * self.next) by (nonlinear_arith)
            requires
                rank(e, self.next) == e.0 * self.next + e.1,
                e.1 < self.next,
                e.0 <= u64::MAX,
        ;
    }

    pub proof fn lemma_running_step(self, from: usize, to: usize, f: Frontier, fuel: nat, e: (u64, usize))
        requires
            self.edges_in_range(),
            self.weights_positive(),
            self.weights_fit(),
            self.running(from, to, f, fuel),
            is_least(f.heap, e),
            e.1 != to,
        ensures
            fuel > 0,
            self.frontier_inv(from, to, f),
            self.running(from, to, self.settle(f), (fuel - 1) as nat),
    {
        reveal(GraphView::running);
        lemma_least(f.heap, e);
        assert(f.has(e));
        assert(rank(e, self.next) < (u64::MAX + 1) * self.next) by (nonlinear_arith)
            requires
                rank(e, self.next) == e.0 * self.next + e.1,
                e.1 < self.next,
                e.0 <= u64::MAX,
        ;
        let g = self.settle(f);
        self.lemma_settle(from, to, f, e);
        assert forall|h: (u64, usize)| #[trigger] g.heap.contains(h) implies (fuel - 1) + rank(
            h,
            self.next,
        ) >= (u64::MAX + 1) * self.next by {
            lemma_rank(e, h, self.next);
        }
    }
}

pub proof fn lemma_unknown_none(bound: nat)
    ensures
        unknown_below(Set::<usize>::empty(), bound) == bound,
    decreases bound,
{
    if bound > 0 {
        lemma_unknown_none((bound - 1) as nat);
    }
}


/// `weights` holds the best cost and the node before, for each node
/// reached.
pub open spec fn records(weights: Seq<Option<(u64, usize)>>, best: Map<usize, (u64, usize)>) -> bool {
    forall|n: usize|
        n < weights.len() ==> (#[trigger] weights[n as int] == if best.contains_key(n) {
            Some(best[n])
        } else {
            None
        })
}

/// A vector of `n` empty slots.
pub fn blank_costs(n: usize) -> (v: Vec<Option<(u64, usize)>>)
    ensures
        v@.len() == n,
        forall|i: int| 0 <= i < n ==> (#[trigger] v@[i]) is None,
{
    let mut v: Vec<Option<(u64, usize)>> = Vec::new();
    let mut i: usize = 0;
    while i < n
        invariant
            i <= n,
            v@.len() == i,
            forall|k: int| 0 <= k < i ==> (#[trigger] v@[k]) is None,
        decreases n - i,
    {
        v.push(None);
        i += 1;
    }
    v
}

pub proof fn lemma_trail_ends(best: Map<usize, (u64, usize)>, from: usize, x: usize, fuel: nat)
    ensures
        trail(best, from, x, fuel).len() > 0,
        trail(best, from, x, fuel).last() == x,
{
}

impl<N> Graph<N, u64> {
    /// The way back from `to` along the nodes before, told from the start.
    fn trace_back(
        &self,
        weights: &Vec<Option<(u64, usize)>>,
        from: usize,
        to: usize,
        Ghost(f): Ghost<Frontier>,
        Ghost(fuel): Ghost<nat>,
    ) -> (r: Vec<usize>)
        requires
            self@.weights_positive(),
            self@.frontier_core(from, to, f),
            weights@.len() == self@.next,
            records(weights@, f.best),
            f.best.contains_key(to),
            fuel >= f.best[to].0,
        ensures
            r@ == trail(f.best, from, to, fuel),
    {
        let mut path: Vec<usize> = Vec::new();
        path.push(to);
        let mut last = to;
        let ghost full = trail(f.best, from, to, fuel);
        let ghost mut left: nat = fuel;
        proof {
            lemma_trail_ends(f.best, from, to, left);
            assert(path@.reverse() =~= seq![to]);
            assert(full =~= full.drop_last() + path@.reverse());
        }
        while last != from
            invariant
                self@.weights_positive(),
                self@.frontier_core(from, to, f),
                weights@.len() == self@.next,
                records(weights@, f.best),
                f.best.contains_key(last),
                left >= f.best[last].0,
                path@.len() > 0,
                full == trail(f.best, from, last, left).drop_last() + path@.reverse(),
            decreases left,
        {
            let ghost old_path = path@;
            let ghost old_last = last;
            let step = match weights[last] {
                Some(known) => known.1,
                None => unreached(),
            };
            path.push(step);
            last = step;
            proof {
                assert(f.best[old_last].1 == step);
                assert(self@.edges.contains_key(canonical(step, old_last)));
                assert(self@.weight(step, old_last) > 0);
                let shorter = trail(f.best, from, step, (left - 1) as nat);
                lemma_trail_ends(f.best, from, step, (left - 1) as nat);
                assert(trail(f.best, from, old_last, left) == shorter.push(old_last));
                assert(shorter.push(old_last).drop_last() =~= shorter);
                assert(shorter =~= shorter.drop_last() + seq![step]);
                assert(path@.reverse() =~= seq![step] + old_path.reverse());
                assert(full =~= shorter.drop_last() + path@.reverse());
                left = (left - 1) as nat;
            }
        }
        proof {
            assert(trail(f.best, from, from, left) =~= seq![from]);
            assert(seq![from].drop_last() =~= Seq::<usize>::empty());
            assert(full =~= path@.reverse());
        }
        reversed(&path)
    }

    /// Considers each neighbour of `node`, which was taken up at
    /// `cost_here`.
    fn expand(
        &self,
        node: usize,
        cost_here: u64,
        weights: &mut Vec<Option<(u64, usize)>>,
        heap: &mut BTreeSet<(u64, usize)>,
        Ghost(from): Ghost<usize>,
        Ghost(to): Ghost<usize>,
        Ghost(f): Ghost<Frontier>,
    )
        requires
            self.wf(),
            self@.edges_in_range(),
            self@.weights_positive(),
            self@.weights_fit(),
            entries_ordered(),
            self@.frontier_inv(from, to, f),
            is_least(f.heap, (cost_here, node)),
            node != to,
            old(weights)@.len() == self@.next,
            records(old(weights)@, f.best),
            old(heap)@ == self@.taken(f).heap,
        ensures
            final(weights)@.len() == self@.next,
            records(final(weights)@, self@.settle(f).best),
            final(heap)@ == self@.settle(f).heap,
    {
        let nbrs = self.neighbors(node);
        let ghost e = (cost_here, node);
        let ghost ids = self@.neighbor_ids(node);
        let ghost taken = self@.taken(f);
        let ghost mut g = taken;
        proof {
            self@.lemma_neighbor_ids(node);
            self@.lemma_taken(from, to, f, e);
            assert(ids.take(0) =~= Seq::<usize>::empty());
        }
        let mut i: usize = 0;
        while i < nbrs.len()
            invariant
                0 <= i <= nbrs@.len(),
                self@.edges_in_range(),
                self@.weights_positive(),
                self@.weights_fit(),
                entries_ordered(),
                e == (cost_here, node),
                ids == self@.neighbor_ids(node),
                ids_of(nbrs@) == ids,
                forall|k: int|
                    0 <= k < nbrs@.len() ==> *(#[trigger] nbrs@[k]).1 == self@.edges[canonical(
                        node,
                        nbrs@[k].0,
                    )],
                forall|n: usize| #[trigger] ids.contains(n) <==> self@.adjacent(node, n),
                self@.frontier_mid(from, to, taken, e, Set::empty()),
                g == self@.relax_all(taken, node, cost_here, ids.take(i as int)),
                weights@.len() == self@.next,
                records(weights@, g.best),
                heap@ == g.heap,
            decreases nbrs@.len() - i,
        {
            let next_node = nbrs[i].0;
            let cost_of_edge = *nbrs[i].1;
            proof {
                assert(ids[i as int] == next_node);
                assert(ids.contains(next_node));
                assert forall|k: int| 0 <= k < ids.take(i as int).len() implies self@.adjacent(
                    node,
                    #[trigger] ids.take(i as int)[k],
                ) by {
                    assert(ids.contains(ids[k]));
                }
                self@.lemma_relax_all(from, to, taken, e, ids.take(i as int));
                self@.lemma_relax_fits(from, to, g, e, next_node);
                assert(ids.take(i + 1).drop_last() =~= ids.take(i as int));
                assert(ids.take(i + 1).last() == next_node);
                assert(self@.relax_all(taken, node, cost_here, ids.take(i + 1)) == self@.relax(
                    g,
                    node,
                    cost_here,
                    next_node,
                ));
            }
            let total = cost_here + cost_of_edge;
            let overtaken = match weights[next_node] {
                Some(known) => known.0 < total,
                None => false,
            };
            if !overtaken {
                weights[next_node] = Some((total, node));
                heap.insert((total, next_node));
            }
            proof {
                g = self@.relax(g, node, cost_here, next_node);
            }
            i += 1;
        }
        proof {
            assert(ids.take(nbrs@.len() as int) =~= ids);
            assert(ids.len() == nbrs@.len());
            lemma_least(f.heap, e);
            assert(g == self@.settle(f));
        }
    }

    /// The way from `from` to `to` whose edges weigh least together, with
    /// that weight; nothing where there is no way.
    ///
    /// Pending entries are ordered by cost and then by node, so that two
    /// nodes reached at one cost both stay pending. A neighbour is passed
    /// over only where it was reached for less before; an entry that was
    /// overtaken stays in the heap and is taken up in its turn.
    ///
    /// Every edge must join identifiers that were handed out, `from` must
    /// be one of them, every weight must be positive (with a weight of 0
    /// the search may never end), and no weight may exceed `weight_cap`
    /// (costs are added unchecked).
    pub fn dijkstra(&self, from: usize, to: usize) -> (r: Option<(u64, Vec<usize>)>)
        requires
            self.wf(),
            self@.edges_in_range(),
            self@.weights_positive(),
            self@.weights_fit(),
            from < self@.next,
        ensures
            match r {
                Some(found) => self@.dijkstra_spec(from, to) == Some((found.0, found.1@)),
                None => self@.dijkstra_spec(from, to) is None,
            },
            r is Some <==> self@.reachable(from, to),
            r matches Some(found) ==> self@.is_cheapest_route(from, to, found.0, found.1@),
    {
        proof {
            lemma_entries_ordered();
        }
        let bound = self.id_bound();
        let mut weights = blank_costs(bound);
        let mut heap: BTreeSet<(u64, usize)> = BTreeSet::new();
        heap.insert((zero(), from));
        weights[from] = Some((zero(), from));
        let ghost mut f = self@.frontier_start(from);
        let ghost mut fuel: nat = (u64::MAX + 1) as nat * self@.next;
        proof {
            self@.lemma_running_start(from, to);
            assert(heap@ =~= f.heap);
        }
        while !heap.is_empty()
            invariant
                self.wf(),
                self@.edges_in_range(),
                self@.weights_positive(),
                self@.weights_fit(),
                entries_ordered(),
                from < self@.next,
                weights@.len() == self@.next,
                records(weights@, f.best),
                heap@ == f.heap,
                self@.running(from, to, f, fuel),
            decreases fuel,
        {
            let e = match pop_first(&mut heap) {
                Some(e) => e,
                None => unreached(),
            };
            if e.1 == to {
                proof {
                    self@.lemma_running_hit(from, to, f, fuel, e);
                    self@.law_dijkstra(from, to);
                }
                let path = self.trace_back(&weights, from, to, Ghost(f), Ghost(e.0 as nat));
                return Some((e.0, path));
            }
            proof {
                self@.lemma_running_step(from, to, f, fuel, e);
                lemma_least(f.heap, e);
            }
            self.expand(e.1, e.0, &mut weights, &mut heap, Ghost(from), Ghost(to), Ghost(f));
            proof {
                f = self@.settle(f);
                fuel = (fuel - 1) as nat;
            }
        }
        proof {
            self@.lemma_running_end(from, to, f, fuel);
            self@.law_dijkstra(from, to);
        }
        None
    }
}

} // verus!
