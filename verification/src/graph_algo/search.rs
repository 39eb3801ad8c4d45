//! Walks over a graph without weights, breadth first or depth first:
//! the nodes that can be reached, and a way from one node to another.
use crate::graph::{ascending, ids_of, Graph, GraphView};
use std::collections::VecDeque;
use vstd::prelude::*;

verus! {

/// The order in which pending nodes are taken up.
#[derive(Clone, Copy, Debug, PartialEq, Eq)]
pub enum SearchMode {
    /// Oldest first: the pending nodes form a queue.
    BreadthFirst,
    /// Newest first: the pending nodes form a stack.
    DepthFirst,
}

impl SearchMode {
    /// The pending node that is taken up next.
    pub open spec fn pick(self, pending: Seq<usize>) -> usize {
        match self {
            SearchMode::BreadthFirst => pending.first(),
            SearchMode::DepthFirst => pending.last(),
        }
    }

    /// The pending nodes without the one taken up.
    pub open spec fn rest(self, pending: Seq<usize>) -> Seq<usize> {
        match self {
            SearchMode::BreadthFirst => pending.drop_first(),
            SearchMode::DepthFirst => pending.drop_last(),
        }
    }

    /// Takes the next node out of the pending ones: the oldest, breadth
    /// first, or the newest, depth first.
    pub fn next(&self, cands: &mut VecDeque<usize>) -> (r: usize)
        requires
            old(cands)@.len() > 0,
        ensures
            r == self.pick(old(cands)@),
            final(cands)@ == self.rest(old(cands)@),
    {
        let taken = match self {
            SearchMode::BreadthFirst => cands.pop_front(),
            SearchMode::DepthFirst => cands.pop_back(),
        };
        match taken {
            Some(node) => node,
            None => unreached(),
        }
    }

    pub proof fn lemma_rest(self, pending: Seq<usize>)
        requires
            pending.len() > 0,
            pending.no_duplicates(),
        ensures
            self.rest(pending).no_duplicates(),
            !self.rest(pending).contains(self.pick(pending)),
            pending.contains(self.pick(pending)),
            forall|n: usize|
                pending.contains(n) <==> (n == self.pick(pending) || #[trigger] self.rest(
                    pending,
                ).contains(n)),
    {
        let rest = self.rest(pending);
        let cur = self.pick(pending);
        let shift: int = if self is BreadthFirst {
            1
        } else {
            0
        };
        assert forall|i: int| 0 <= i < rest.len() implies #[trigger] rest[i] == pending[i
            + shift] by {}
        assert forall|n: usize|
            pending.contains(n) <==> (n == cur || #[trigger] rest.contains(n)) by {
            if pending.contains(n) && n != cur {
                let k = choose|k: int| 0 <= k < pending.len() && pending[k] == n;
                assert(rest[k - shift] == n);
            }
            if rest.contains(n) {
                let k = choose|k: int| 0 <= k < rest.len() && rest[k] == n;
                assert(pending[k + shift] == n);
            }
        }
        if rest.contains(cur) {
            let k = choose|k: int| 0 <= k < rest.len() && rest[k] == cur;
            assert(pending[k + shift] == cur);
        }
        assert(pending[if self is BreadthFirst {
            0
        } else {
            pending.len() - 1
        }] == cur);
    }
}

/// The state of a walk over a graph.
pub ghost struct Walk {
    /// For each node found so far, the way from the start on which it was
    /// found.
    pub routes: Map<usize, Seq<usize>>,
    /// The nodes found and not yet taken up, oldest first.
    pub pending: Seq<usize>,
    /// The nodes taken up, in that order.
    pub done: Seq<usize>,
}

/// The members of `s` that are not in `known`, in the order of `s`.
pub open spec fn unknown_of(s: Seq<usize>, known: Set<usize>) -> Seq<usize>
    decreases s.len(),
{
    if s.len() == 0 {
        Seq::empty()
    } else {
        let rest = unknown_of(s.drop_last(), known);
        if known.contains(s.last()) {
            rest
        } else {
            rest.push(s.last())
        }
    }
}

pub proof fn lemma_unknown_of(s: Seq<usize>, known: Set<usize>)
    requires
        ascending(s),
    ensures
        ascending(unknown_of(s, known)),
        forall|n: usize| #[trigger]
            unknown_of(s, known).contains(n) <==> (s.contains(n) && !known.contains(n)),
    decreases s.len(),
{
    if s.len() > 0 {
        let front = s.drop_last();
        let last = s.last();
        lemma_unknown_of(front, known);
        let rest = unknown_of(front, known);
        let all = unknown_of(s, known);
        assert forall|n: usize| s.contains(n) <==> (front.contains(n) || n == last) by {
            if s.contains(n) {
                let k = choose|k: int| 0 <= k < s.len() && s[k] == n;
                if k < front.len() {
                    assert(front[k] == n);
                }
            }
            if front.contains(n) {
                let k = choose|k: int| 0 <= k < front.len() && front[k] == n;
                assert(s[k] == n);
            }
            if n == last {
                assert(s[s.len() - 1] == n);
            }
        }
        if !known.contains(last) {
            assert forall|i: int, j: int| 0 <= i < j < all.len() implies all[i] < all[j] by {
                if j == rest.len() {
                    assert(rest.contains(rest[i]));
                    let k = choose|k: int| 0 <= k < front.len() && front[k] == rest[i];
                    assert(s[k] < s[s.len() - 1]);
                }
            }
            assert forall|n: usize| #[trigger]
                all.contains(n) <==> (s.contains(n) && !known.contains(n)) by {
                if all.contains(n) {
                    let k = choose|k: int| 0 <= k < all.len() && all[k] == n;
                    if k < rest.len() {
                        assert(rest.contains(rest[k]));
                    }
                }
                if s.contains(n) && !known.contains(n) {
                    if n == last {
                        assert(all[rest.len() as int] == n);
                    } else {
                        assert(rest.contains(n));
                        let k = choose|k: int| 0 <= k < rest.len() && rest[k] == n;
                        assert(all[k] == n);
                    }
                }
            }
        }
    }
}

/// How many identifiers below `bound` are not in `known`.
pub open spec fn unknown_below(known: Set<usize>, bound: nat) -> nat
    decreases bound,
{
    if bound == 0 {
        0
    } else {
        let n = (bound - 1) as nat;
        unknown_below(known, n) + if n <= usize::MAX && known.contains(n as usize) {
            0nat
        } else {
            1nat
        }
    }
}

pub proof fn lemma_unknown_insert(known: Set<usize>, n: usize, bound: nat)
    requires
        !known.contains(n),
    ensures
        unknown_below(known.insert(n), bound) + (if n < bound {
            1nat
        } else {
            0nat
        }) == unknown_below(known, bound),
    decreases bound,
{
    if bound > 0 {
        lemma_unknown_insert(known, n, (bound - 1) as nat);
    }
}

pub proof fn lemma_unknown_bound(known: Set<usize>, bound: nat)
    ensures
        unknown_below(known, bound) <= bound,
    decreases bound,
{
    if bound > 0 {
        lemma_unknown_bound(known, (bound - 1) as nat);
    }
}

impl Walk {
    /// The nodes found so far.
    pub open spec fn known(self) -> Set<usize> {
        self.routes.dom()
    }

    /// The number of nodes on the way to `n`.
    pub open spec fn depth(self, n: usize) -> nat {
        self.routes[n].len()
    }
}

impl<N, E> GraphView<N, E> {
    /// A walk that has found its start and nothing else.
    pub open spec fn walk_start(self, from: usize) -> Walk {
        Walk { routes: map![from => seq![from]], pending: seq![from], done: Seq::empty() }
    }

    /// The neighbours of `cur` that the walk has not found yet, ascending.
    pub open spec fn found_at(self, w: Walk, cur: usize) -> Seq<usize> {
        unknown_of(self.neighbor_ids(cur), w.known())
    }

    /// One step of a walk: the next pending node is taken up, and each
    /// neighbour that was not found before becomes pending, reached
    /// through that node.
    pub open spec fn walk_step(self, mode: SearchMode, w: Walk) -> Walk {
        let cur = mode.pick(w.pending);
        let found = self.found_at(w, cur);
        Walk {
            routes: Map::new(
                |n: usize| w.routes.contains_key(n) || found.contains(n),
                |n: usize|
                    if w.routes.contains_key(n) {
                        w.routes[n]
                    } else {
                        w.routes[cur].push(n)
                    },
            ),
            pending: mode.rest(w.pending) + found,
            done: w.done.push(cur),
        }
    }

    /// What holds of every walk from `from`, whatever the mode.
    pub open spec fn walk_inv(self, from: usize, w: Walk) -> bool {
        &&& w.routes.contains_key(from)
        &&& w.routes[from] == seq![from]
        &&& forall|n: usize| #[trigger]
            w.routes.contains_key(n) ==> self.is_route(from, n, w.routes[n])
        &&& w.done.no_duplicates()
        &&& w.pending.no_duplicates()
        &&& forall|i: int, j: int|
            0 <= i < w.done.len() && 0 <= j < w.pending.len() ==> #[trigger] w.done[i]
                != #[trigger] w.pending[j]
        &&& forall|n: usize| #[trigger]
            w.routes.contains_key(n) <==> (w.done.contains(n) || w.pending.contains(n))
        &&& forall|i: int, n: usize|
            0 <= i < w.done.len() && self.adjacent(#[trigger] w.done[i], n)
                ==> #[trigger] w.routes.contains_key(n)
    }

    /// What holds in addition of a breadth-first walk: nodes are taken up
    /// by depth, and no neighbour of a node taken up lies more than one
    /// deeper.
    pub open spec fn levels_inv(self, w: Walk) -> bool {
        &&& forall|i: int, j: int|
            0 <= i < j < w.pending.len() ==> w.depth(#[trigger] w.pending[i]) <= w.depth(
                #[trigger] w.pending[j],
            )
        &&& forall|i: int|
            0 <= i < w.pending.len() ==> w.depth(#[trigger] w.pending[i]) <= w.depth(
                w.pending[0],
            ) + 1
        &&& forall|i: int, j: int|
            0 <= i < w.done.len() && 0 <= j < w.pending.len() ==> w.depth(#[trigger] w.done[i])
                <= w.depth(#[trigger] w.pending[j])
        &&& forall|i: int, n: usize|
            0 <= i < w.done.len() && self.adjacent(#[trigger] w.done[i], n) ==> #[trigger] w.depth(n)
                <= w.depth(w.done[i]) + 1
    }

    /// The steps that a walk in state `w` can still take, at most.
    pub open spec fn steps_left(self, w: Walk) -> nat {
        unknown_below(w.known(), self.next) + w.pending.len()
    }

    pub proof fn lemma_walk_start(self, from: usize)
        ensures
            self.walk_inv(from, self.walk_start(from)),
            self.levels_inv(self.walk_start(from)),
            self.steps_left(self.walk_start(from)) <= self.next + 1,
    {
        let w = self.walk_start(from);
        assert(w.pending[0] == from);
        assert forall|n: usize| #[trigger]
            w.routes.contains_key(n) <==> (w.done.contains(n) || w.pending.contains(n)) by {
            if w.pending.contains(n) {
                let k = choose|k: int| 0 <= k < w.pending.len() && w.pending[k] == n;
            }
        }
        lemma_unknown_bound(w.known(), self.next);
    }

    /// What one step finds: neighbours of the node taken up, none of them
    /// known, none twice.
    pub proof fn lemma_found_at(self, w: Walk, cur: usize)
        ensures
            ascending(self.found_at(w, cur)),
            self.found_at(w, cur).no_duplicates(),
            forall|n: usize| #[trigger]
                self.found_at(w, cur).contains(n) <==> (self.adjacent(cur, n)
                    && !w.routes.contains_key(n)),
    {
        self.lemma_neighbor_ids(cur);
        lemma_unknown_of(self.neighbor_ids(cur), w.known());
    }

    pub proof fn lemma_walk_step(self, mode: SearchMode, from: usize, w: Walk)
        requires
            self.walk_inv(from, w),
            w.pending.len() > 0,
        ensures
            self.walk_inv(from, self.walk_step(mode, w)),
    {
        let cur = mode.pick(w.pending);
        let rest = mode.rest(w.pending);
        let found = self.found_at(w, cur);
        let v = self.walk_step(mode, w);
        mode.lemma_rest(w.pending);
        self.lemma_found_at(w, cur);
        assert(w.routes.contains_key(cur));
        assert forall|n: usize| #[trigger] v.pending.contains(n) <==> (rest.contains(n)
            || found.contains(n)) by {
            if v.pending.contains(n) {
                let k = choose|k: int| 0 <= k < v.pending.len() && v.pending[k] == n;
                if k < rest.len() {
                    assert(rest[k] == n);
                } else {
                    assert(found[k - rest.len()] == n);
                }
            }
            if rest.contains(n) {
                let k = choose|k: int| 0 <= k < rest.len() && rest[k] == n;
                assert(v.pending[k] == n);
            }
            if found.contains(n) {
                let k = choose|k: int| 0 <= k < found.len() && found[k] == n;
                assert(v.pending[rest.len() + k] == n);
            }
        }
        assert forall|n: usize| #[trigger] v.done.contains(n) <==> (w.done.contains(n) || n
            == cur) by {
            if v.done.contains(n) {
                let k = choose|k: int| 0 <= k < v.done.len() && v.done[k] == n;
                if k < w.done.len() {
                    assert(w.done[k] == n);
                }
            }
            if w.done.contains(n) {
                let k = choose|k: int| 0 <= k < w.done.len() && w.done[k] == n;
                assert(v.done[k] == n);
            }
            if n == cur {
                assert(v.done[w.done.len() as int] == n);
            }
        }
        assert forall|n: usize| #[trigger] v.routes.contains_key(n) implies self.is_route(
            from,
            n,
            v.routes[n],
        ) by {
            if !w.routes.contains_key(n) {
                let base = w.routes[cur];
                let p = base.push(n);
                assert(self.is_route(from, cur, base));
                assert forall|i: int| 0 <= i < p.len() - 1 implies self.adjacent(
                    #[trigger] p[i],
                    p[i + 1],
                ) by {
                    if i < base.len() - 1 {
                        assert(self.adjacent(base[i], base[i + 1]));
                    }
                }
            }
        }
        assert(v.done.no_duplicates()) by {
            assert forall|i: int, j: int|
                0 <= i < v.done.len() && 0 <= j < v.done.len() && i != j implies v.done[i]
                != v.done[j] by {
                if i == w.done.len() {
                    assert(w.done.contains(w.done[j]));
                }
                if j == w.done.len() {
                    assert(w.done.contains(w.done[i]));
                }
            }
        }
        assert(v.pending.no_duplicates()) by {
            assert forall|i: int, j: int|
                0 <= i < v.pending.len() && 0 <= j < v.pending.len() && i != j implies v.pending[i]
                != v.pending[j] by {
                if i < rest.len() && j >= rest.len() {
                    assert(rest.contains(rest[i]));
                    assert(found.contains(found[j - rest.len()]));
                }
                if j < rest.len() && i >= rest.len() {
                    assert(rest.contains(rest[j]));
                    assert(found.contains(found[i - rest.len()]));
                }
            }
        }
        assert forall|i: int, j: int|
            0 <= i < v.done.len() && 0 <= j < v.pending.len() implies #[trigger] v.done[i]
            != #[trigger] v.pending[j] by {
            assert(v.pending.contains(v.pending[j]));
            assert(v.done.contains(v.done[i]));
            if i < w.done.len() {
                assert(w.done.contains(w.done[i]));
            }
        }
        assert forall|i: int, n: usize|
            0 <= i < v.done.len() && self.adjacent(
                #[trigger] v.done[i],
                n,
            ) implies #[trigger] v.routes.contains_key(n) by {
            if i < w.done.len() {
                assert(w.done[i] == v.done[i]);
            }
        }
    }

    pub proof fn lemma_levels_step(self, from: usize, w: Walk)
        requires
            self.walk_inv(from, w),
            self.levels_inv(w),
            w.pending.len() > 0,
        ensures
            self.levels_inv(self.walk_step(SearchMode::BreadthFirst, w)),
    {
        let mode = SearchMode::BreadthFirst;
        let cur = w.pending[0];
        let rest = w.pending.drop_first();
        let found = self.found_at(w, cur);
        let v = self.walk_step(mode, w);
        mode.lemma_rest(w.pending);
        self.lemma_found_at(w, cur);
        self.lemma_walk_step(mode, from, w);
        assert(w.routes.contains_key(cur));
        assert forall|i: int| 0 <= i < rest.len() implies w.routes.contains_key(
            #[trigger] rest[i],
        ) && v.depth(rest[i]) == w.depth(rest[i]) && rest[i] == w.pending[i + 1] by {
            assert(rest.contains(rest[i]));
        }
        assert forall|i: int| 0 <= i < found.len() implies v.depth(#[trigger] found[i])
            == w.depth(cur) + 1 by {
            assert(found.contains(found[i]));
        }
        assert forall|i: int| 0 <= i < w.done.len() implies v.depth(#[trigger] w.done[i])
            == w.depth(w.done[i]) by {
            assert(w.done.contains(w.done[i]));
        }
        assert forall|i: int| 0 <= i < v.pending.len() implies w.depth(cur) <= v.depth(
            #[trigger] v.pending[i],
        ) <= w.depth(cur) + 1 by {
            if i < rest.len() {
                assert(v.pending[i] == rest[i]);
                assert(w.depth(w.pending[0]) <= w.depth(w.pending[i + 1]));
            } else {
                assert(v.pending[i] == found[i - rest.len()]);
            }
        }
        assert forall|i: int, j: int| 0 <= i < j < v.pending.len() implies v.depth(
            #[trigger] v.pending[i],
        ) <= v.depth(#[trigger] v.pending[j]) by {
            if j < rest.len() {
                assert(v.pending[i] == rest[i] && v.pending[j] == rest[j]);
                assert(w.depth(w.pending[i + 1]) <= w.depth(w.pending[j + 1]));
            } else {
                assert(v.pending[j] == found[j - rest.len()]);
            }
        }
        assert forall|i: int, j: int|
            0 <= i < v.done.len() && 0 <= j < v.pending.len() implies v.depth(#[trigger] v.done[i])
            <= v.depth(#[trigger] v.pending[j]) by {
            if i < w.done.len() {
                assert(v.done[i] == w.done[i]);
                assert(w.depth(w.done[i]) <= w.depth(w.pending[0]));
            }
        }
        assert forall|i: int, n: usize|
            0 <= i < v.done.len() && self.adjacent(#[trigger] v.done[i], n) implies #[trigger] v.depth(
            n,
        ) <= v.depth(v.done[i]) + 1 by {
            if i < w.done.len() {
                assert(v.done[i] == w.done[i]);
                assert(w.routes.contains_key(n));
                assert(w.depth(n) <= w.depth(w.done[i]) + 1);
            } else {
                assert(v.done[i] == cur);
                if w.routes.contains_key(n) {
                    if w.done.contains(n) {
                        let k = choose|k: int| 0 <= k < w.done.len() && w.done[k] == n;
                        assert(w.depth(w.done[k]) <= w.depth(w.pending[0]));
                    } else {
                        let k = choose|k: int| 0 <= k < w.pending.len() && w.pending[k] == n;
                        assert(w.depth(w.pending[k]) <= w.depth(w.pending[0]) + 1);
                    }
                } else {
                    assert(found.contains(n));
                }
            }
        }
    }

    /// Each step uses up one of the steps that are left.
    pub proof fn lemma_steps_left(self, mode: SearchMode, from: usize, w: Walk)
        requires
            self.edges_in_range(),
            self.walk_inv(from, w),
            w.pending.len() > 0,
        ensures
            self.steps_left(self.walk_step(mode, w)) + 1 == self.steps_left(w),
    {
        let cur = mode.pick(w.pending);
        let found = self.found_at(w, cur);
        let v = self.walk_step(mode, w);
        self.lemma_found_at(w, cur);
        assert forall|i: int| 0 <= i < found.len() implies #[trigger] found[i] < self.next
            && !w.known().contains(found[i]) by {
            assert(found.contains(found[i]));
            assert(self.edges.contains_key(crate::graph::canonical(cur, found[i])));
        }
        lemma_unknown_with(w.known(), found, self.next);
        assert(v.known() =~= with_all(w.known(), found));
    }

    /// Once nothing is pending, the walk has found whatever can be reached.
    pub proof fn lemma_walk_complete(self, from: usize, w: Walk, p: Seq<usize>, upto: int)
        requires
            self.walk_inv(from, w),
            w.pending.len() == 0,
            p.len() > 0,
            p[0] == from,
            forall|i: int| 0 <= i < p.len() - 1 ==> self.adjacent(#[trigger] p[i], p[i + 1]),
            0 <= upto < p.len(),
        ensures
            w.done.contains(p[upto]),
        decreases upto,
    {
        if upto > 0 {
            self.lemma_walk_complete(from, w, p, upto - 1);
            let k = choose|k: int| 0 <= k < w.done.len() && w.done[k] == p[upto - 1];
            assert(self.adjacent(p[upto - 1], p[upto]));
            assert(w.routes.contains_key(p[upto]));
        }
    }

    /// In a breadth-first walk, along any way from the start, up to any
    /// point: either that point was taken up at no more than its distance
    /// along the way, or an earlier point of the way is pending at no more
    /// than its own.
    pub proof fn lemma_levels_along(self, from: usize, w: Walk, p: Seq<usize>, upto: int) -> (j:
        int)
        requires
            self.walk_inv(from, w),
            self.levels_inv(w),
            p.len() > 0,
            p[0] == from,
            forall|i: int| 0 <= i < p.len() - 1 ==> self.adjacent(#[trigger] p[i], p[i + 1]),
            0 <= upto < p.len(),
        ensures
            0 <= j <= upto,
            w.routes.contains_key(p[j]),
            w.depth(p[j]) <= j + 1,
            w.pending.contains(p[j]) || (j == upto && w.done.contains(p[j])),
        decreases upto,
    {
        if upto == 0 {
            0
        } else {
            let j = self.lemma_levels_along(from, w, p, upto - 1);
            if w.pending.contains(p[j]) {
                j
            } else {
                let k = choose|k: int| 0 <= k < w.done.len() && w.done[k] == p[upto - 1];
                assert(self.adjacent(p[upto - 1], p[upto]));
                assert(w.routes.contains_key(p[upto]));
                assert(w.depth(p[upto]) <= w.depth(w.done[k]) + 1);
                upto
            }
        }
    }
}

/// `known` together with the members of `s`.
pub open spec fn with_all(known: Set<usize>, s: Seq<usize>) -> Set<usize> {
    Set::new(|n: usize| known.contains(n) || s.contains(n))
}

pub proof fn lemma_unknown_with(known: Set<usize>, s: Seq<usize>, bound: nat)
    requires
        s.no_duplicates(),
        forall|i: int| 0 <= i < s.len() ==> #[trigger] s[i] < bound && !known.contains(s[i]),
    ensures
        unknown_below(with_all(known, s), bound) + s.len() == unknown_below(known, bound),
    decreases s.len(),
{
    if s.len() == 0 {
        assert(with_all(known, s) =~= known);
    } else {
        let front = s.drop_last();
        let last = s.last();
        lemma_unknown_with(known, front, bound);
        let mid = with_all(known, front);
        if front.contains(last) {
            let k = choose|k: int| 0 <= k < front.len() && front[k] == last;
            assert(s[k] == s[s.len() - 1]);
        }
        assert(!mid.contains(last));
        assert(with_all(known, s) =~= mid.insert(last)) by {
            assert forall|n: usize| with_all(known, s).contains(n) <==> mid.insert(last).contains(
                n,
            ) by {
                if s.contains(n) {
                    let k = choose|k: int| 0 <= k < s.len() && s[k] == n;
                    if k < front.len() {
                        assert(front[k] == n);
                    }
                }
                if front.contains(n) {
                    let k = choose|k: int| 0 <= k < front.len() && front[k] == n;
                    assert(s[k] == n);
                }
                if n == last {
                    assert(s[s.len() - 1] == n);
                }
            }
        }
        lemma_unknown_insert(mid, last, bound);
    }
}


impl<N, E> GraphView<N, E> {
    /// The walk continued from `w` until nothing is pending. `fuel` bounds
    /// the steps; `steps_left` is always enough.
    pub open spec fn walk_run(self, mode: SearchMode, w: Walk, fuel: nat) -> Walk
        decreases fuel,
    {
        if w.pending.len() == 0 || fuel == 0 {
            w
        } else {
            self.walk_run(mode, self.walk_step(mode, w), (fuel - 1) as nat)
        }
    }

    /// The nodes in the order in which a whole walk from `from` takes them
    /// up.
    pub open spec fn visit_order(self, from: usize, mode: SearchMode) -> Seq<usize> {
        self.walk_run(mode, self.walk_start(from), self.next + 1).done
    }

    /// The longest prefix of `order` in which every identifier has a node.
    pub open spec fn present_prefix(self, order: Seq<usize>) -> Seq<usize>
        decreases order.len(),
    {
        if order.len() == 0 || !self.nodes.contains_key(order[0]) {
            Seq::empty()
        } else {
            seq![order[0]] + self.present_prefix(order.drop_first())
        }
    }

    /// What `visit` yields: the nodes in the order of the walk, up to the
    /// first identifier that has no node.
    pub open spec fn visit_spec(self, from: usize, mode: SearchMode) -> Seq<usize> {
        self.present_prefix(self.visit_order(from, mode))
    }

    /// The search continued from `w`: the way on which `to` was found, as
    /// soon as `to` is taken up; nothing if the walk ends before that.
    pub open spec fn search_from(self, mode: SearchMode, to: usize, w: Walk, fuel: nat) -> Option<
        Seq<usize>,
    >
        decreases fuel,
    {
        if w.pending.len() == 0 || fuel == 0 {
            None
        } else if mode.pick(w.pending) == to {
            Some(w.routes[to])
        } else {
            self.search_from(mode, to, self.walk_step(mode, w), (fuel - 1) as nat)
        }
    }

    /// What `search` returns.
    pub open spec fn search_spec(self, from: usize, to: usize, mode: SearchMode) -> Option<
        Seq<usize>,
    > {
        self.search_from(mode, to, self.walk_start(from), self.next + 1)
    }

    /// `p` is a way from `from` to `to` with the fewest edges.
    pub open spec fn is_shortest_route(self, from: usize, to: usize, p: Seq<usize>) -> bool {
        &&& self.is_route(from, to, p)
        &&& forall|q: Seq<usize>| #[trigger] self.is_route(from, to, q) ==> p.len() <= q.len()
    }

    pub proof fn lemma_search_from(
        self,
        mode: SearchMode,
        from: usize,
        to: usize,
        w: Walk,
        fuel: nat,
    )
        requires
            self.edges_in_range(),
            self.walk_inv(from, w),
            mode is BreadthFirst ==> self.levels_inv(w),
            !w.done.contains(to),
            fuel >= self.steps_left(w),
        ensures
            self.search_from(mode, to, w, fuel) is Some <==> self.reachable(from, to),
            self.search_from(mode, to, w, fuel) matches Some(p) ==> self.is_route(from, to, p)
                && (mode is BreadthFirst ==> self.is_shortest_route(from, to, p)),
        decreases fuel,
    {
        if w.pending.len() == 0 {
            if self.reachable(from, to) {
                let p = choose|p: Seq<usize>| self.is_route(from, to, p);
                self.lemma_walk_complete(from, w, p, p.len() - 1);
            }
        } else if mode.pick(w.pending) == to {
            mode.lemma_rest(w.pending);
            let p = w.routes[to];
            assert(w.routes.contains_key(to));
            assert(self.is_route(from, to, p));
            if mode is BreadthFirst {
                assert forall|q: Seq<usize>| #[trigger] self.is_route(from, to, q) implies p.len()
                    <= q.len() by {
                    let j = self.lemma_levels_along(from, w, q, q.len() - 1);
                    let k = choose|k: int| 0 <= k < w.pending.len() && w.pending[k] == q[j];
                    if k > 0 {
                        assert(w.depth(w.pending[0]) <= w.depth(w.pending[k]));
                    }
                }
            }
        } else {
            let v = self.walk_step(mode, w);
            self.lemma_walk_step(mode, from, w);
            if mode is BreadthFirst {
                self.lemma_levels_step(from, w);
            }
            self.lemma_steps_left(mode, from, w);
            if v.done.contains(to) {
                let k = choose|k: int| 0 <= k < v.done.len() && v.done[k] == to;
                if k < w.done.len() {
                    assert(w.done[k] == to);
                }
            }
            self.lemma_search_from(mode, from, to, v, (fuel - 1) as nat);
        }
    }

    pub proof fn lemma_walk_run(self, mode: SearchMode, from: usize, w: Walk, fuel: nat)
        requires
            self.edges_in_range(),
            self.walk_inv(from, w),
            fuel >= self.steps_left(w),
        ensures
            self.walk_inv(from, self.walk_run(mode, w, fuel)),
            self.walk_run(mode, w, fuel).pending.len() == 0,
        decreases fuel,
    {
        if w.pending.len() > 0 {
            self.lemma_walk_step(mode, from, w);
            self.lemma_steps_left(mode, from, w);
            self.lemma_walk_run(mode, from, self.walk_step(mode, w), (fuel - 1) as nat);
        }
    }

    pub proof fn lemma_present_prefix(self, order: Seq<usize>, upto: int)
        requires
            0 <= upto <= order.len(),
            forall|i: int| 0 <= i < upto ==> self.nodes.contains_key(#[trigger] order[i]),
            upto < order.len() ==> !self.nodes.contains_key(order[upto]),
        ensures
            self.present_prefix(order) == order.take(upto),
        decreases upto,
    {
        if upto == 0 {
            assert(order.take(0) =~= Seq::empty());
        } else {
            let tail = order.drop_first();
            assert forall|i: int| 0 <= i < upto - 1 implies self.nodes.contains_key(
                #[trigger] tail[i],
            ) by {
                assert(tail[i] == order[i + 1]);
            }
            self.lemma_present_prefix(tail, upto - 1);
            assert(order.take(upto) =~= seq![order[0]] + tail.take(upto - 1));
        }
    }

    /// What a search returns, whatever the mode: a way from `from` to
    /// `to`, exactly when there is one; breadth first, one with the fewest
    /// edges.
    pub proof fn law_search(self, from: usize, to: usize, mode: SearchMode)
        requires
            self.edges_in_range(),
        ensures
            self.search_spec(from, to, mode) is Some <==> self.reachable(from, to),
            self.search_spec(from, to, mode) matches Some(p) ==> self.is_route(from, to, p),
            mode is BreadthFirst ==> (self.search_spec(from, to, mode) matches Some(p)
                ==> self.is_shortest_route(from, to, p)),
    {
        self.lemma_walk_start(from);
        self.lemma_search_from(mode, from, to, self.walk_start(from), self.next + 1);
    }

    /// Between two nodes that are joined by some way, a breadth-first search
    /// returns a way that is no longer than the one a depth-first search
    /// returns.
    pub proof fn law_breadth_first_not_longer(self, a: usize, b: usize)
        requires
            self.edges_in_range(),
            self.reachable(a, b),
        ensures
            self.search_spec(a, b, SearchMode::BreadthFirst) is Some,
            self.search_spec(a, b, SearchMode::DepthFirst) is Some,
            self.search_spec(a, b, SearchMode::BreadthFirst)->0.len() <= self.search_spec(
                a,
                b,
                SearchMode::DepthFirst,
            )->0.len(),
    {
        self.law_search(a, b, SearchMode::BreadthFirst);
        self.law_search(a, b, SearchMode::DepthFirst);
    }

    /// A whole walk takes up each node that can be reached from its start
    /// once, and no other.
    pub proof fn law_visit_order(self, from: usize, mode: SearchMode)
        requires
            self.edges_in_range(),
        ensures
            self.visit_order(from, mode).no_duplicates(),
            forall|n: usize| #[trigger]
                self.visit_order(from, mode).contains(n) <==> self.reachable(from, n),
    {
        let start = self.walk_start(from);
        self.lemma_walk_start(from);
        self.lemma_walk_run(mode, from, start, self.next + 1);
        let end = self.walk_run(mode, start, self.next + 1);
        assert forall|n: usize| #[trigger] end.done.contains(n) <==> self.reachable(from, n) by {
            if end.done.contains(n) {
                assert(end.routes.contains_key(n));
                assert(self.is_route(from, n, end.routes[n]));
            }
            if self.reachable(from, n) {
                let p = choose|p: Seq<usize>| self.is_route(from, n, p);
                self.lemma_walk_complete(from, end, p, p.len() - 1);
            }
        }
    }

    /// Where every identifier that can be reached from `from` has a node,
    /// `visit` yields each of them once, and no other.
    pub proof fn law_visit(self, from: usize, mode: SearchMode)
        requires
            self.edges_in_range(),
            forall|n: usize| self.reachable(from, n) ==> self.nodes.contains_key(n),
        ensures
            self.visit_spec(from, mode) == self.visit_order(from, mode),
            self.visit_spec(from, mode).no_duplicates(),
            forall|n: usize| #[trigger]
                self.visit_spec(from, mode).contains(n) <==> self.reachable(from, n),
    {
        self.law_visit_order(from, mode);
        let order = self.visit_order(from, mode);
        assert forall|i: int| 0 <= i < order.len() implies self.nodes.contains_key(
            #[trigger] order[i],
        ) by {
            assert(order.contains(order[i]));
        }
        self.lemma_present_prefix(order, order.len() as int);
        assert(order.take(order.len() as int) =~= order);
    }
}


/// `prev` holds the walk's back-pointers: a slot is filled where the node
/// was found, with the node through which it was found, and the start
/// points at itself.
pub open spec fn tracks(prev: Seq<Option<usize>>, from: usize, w: Walk) -> bool {
    &&& from < prev.len()
    &&& prev[from as int] == Some(from)
    &&& forall|n: usize| #[trigger]
        w.routes.contains_key(n) <==> (n < prev.len() && prev[n as int] is Some)
    &&& forall|n: usize|
        n < prev.len() && n != from && (#[trigger] prev[n as int]) is Some ==> {
            let p = prev[n as int]->0;
            w.routes.contains_key(p) && w.routes[n] == w.routes[p].push(n)
        }
}

/// A vector of `n` empty slots.
pub fn blank(n: usize) -> (v: Vec<Option<usize>>)
    ensures
        v@.len() == n,
        forall|i: int| 0 <= i < n ==> (#[trigger] v@[i]) is None,
{
    let mut v: Vec<Option<usize>> = Vec::new();
    let mut i: usize = 0;
    while i < n
        invariant
            i <= n,
            v@.len() == i,
            forall|k: int| 0 <= k < i ==> (#[trigger] v@[k]) is None,
        decreases n - i,
    {
        v.push(None);
        i += 1;
    }
    v
}

/// The vector back to front.
pub fn reversed(v: &Vec<usize>) -> (r: Vec<usize>)
    ensures
        r@ == v@.reverse(),
{
    let mut r: Vec<usize> = Vec::new();
    let mut i: usize = v.len();
    while i > 0
        invariant
            i <= v@.len(),
            r@.len() == v@.len() - i,
            forall|k: int| 0 <= k < r@.len() ==> r@[k] == v@[v@.len() - 1 - k],
        decreases i,
    {
        i -= 1;
        r.push(v[i]);
    }
    assert(r@ =~= v@.reverse());
    r
}

impl<N, E> Graph<N, E> {
    /// Walks from `from` until `target` is about to be taken up or nothing
    /// is pending. Returns the back-pointers, the nodes taken up, whether
    /// the target was met, and the state of the walk with a bound on the
    /// steps it has left.
    fn explore(&self, from: usize, mode: SearchMode, target: Option<usize>) -> (r: (
        Vec<Option<usize>>,
        Vec<usize>,
        bool,
        Ghost<Walk>,
        Ghost<nat>,
    ))
        requires
            self.wf(),
            self@.edges_in_range(),
            from < self@.next,
        ensures
            self@.walk_inv(from, r.3@),
            mode is BreadthFirst ==> self@.levels_inv(r.3@),
            r.4@ >= self@.steps_left(r.3@),
            r.1@ == r.3@.done,
            r.0@.len() == self@.next,
            tracks(r.0@, from, r.3@),
            r.2 ==> r.3@.pending.len() > 0 && target == Some(mode.pick(r.3@.pending)),
            !r.2 ==> r.3@.pending.len() == 0,
            self@.walk_run(mode, self@.walk_start(from), self@.next + 1) == self@.walk_run(
                mode,
                r.3@,
                r.4@,
            ),
            target matches Some(to) ==> self@.search_spec(from, to, mode) == self@.search_from(
                mode,
                to,
                r.3@,
                r.4@,
            ),
    {
        let bound = self.id_bound();
        let mut prev = blank(bound);
        prev[from] = Some(from);
        let mut candidates: VecDeque<usize> = VecDeque::new();
        candidates.push_back(from);
        let mut order: Vec<usize> = Vec::new();
        let mut hit = false;
        let ghost mut w = self@.walk_start(from);
        let ghost mut fuel: nat = self@.next + 1;
        proof {
            self@.lemma_walk_start(from);
            assert(candidates@ =~= w.pending);
            assert(order@ =~= w.done);
        }
        while candidates.len() > 0
            invariant_except_break
                !hit,
                candidates@ == w.pending,
            invariant
                self.wf(),
                self@.edges_in_range(),
                from < self@.next,
                bound == self@.next,
                self@.walk_inv(from, w),
                mode is BreadthFirst ==> self@.levels_inv(w),
                fuel >= self@.steps_left(w),
                order@ == w.done,
                prev@.len() == bound,
                tracks(prev@, from, w),
                self@.walk_run(mode, self@.walk_start(from), self@.next + 1) == self@.walk_run(
                    mode,
                    w,
                    fuel,
                ),
                target matches Some(to) ==> self@.search_spec(from, to, mode)
                    == self@.search_from(mode, to, w, fuel),
            ensures
                self@.walk_inv(from, w),
                mode is BreadthFirst ==> self@.levels_inv(w),
                fuel >= self@.steps_left(w),
                order@ == w.done,
                prev@.len() == bound,
                tracks(prev@, from, w),
                hit ==> w.pending.len() > 0 && target == Some(mode.pick(w.pending)),
                !hit ==> w.pending.len() == 0,
                self@.walk_run(mode, self@.walk_start(from), self@.next + 1) == self@.walk_run(
                    mode,
                    w,
                    fuel,
                ),
                target matches Some(to) ==> self@.search_spec(from, to, mode)
                    == self@.search_from(mode, to, w, fuel),
            decreases fuel,
        {
            let cur = mode.next(&mut candidates);
            let met = match target {
                Some(to) => to == cur,
                None => false,
            };
            if met {
                hit = true;
                break ;
            }
            let nbrs = self.neighbors(cur);
            let ghost ids = self@.neighbor_ids(cur);
            let ghost rest = mode.rest(w.pending);
            let ghost before = prev@;
            proof {
                assert(ids_of(nbrs@) == ids);
                self@.lemma_neighbor_ids(cur);
                mode.lemma_rest(w.pending);
                assert(w.routes.contains_key(cur));
                assert(ids.take(0) =~= Seq::<usize>::empty());
                assert(candidates@ =~= rest + unknown_of(ids.take(0), w.known()));
            }
            let mut i: usize = 0;
            while i < nbrs.len()
                invariant
                    0 <= i <= nbrs@.len(),
                    self@.edges_in_range(),
                    bound == self@.next,
                    ids == self@.neighbor_ids(cur),
                    ids_of(nbrs@) == ids,
                    ascending(ids),
                    forall|n: usize| #[trigger] ids.contains(n) <==> self@.adjacent(cur, n),
                    prev@.len() == bound,
                    before.len() == bound,
                    tracks(before, from, w),
                    cur < bound,
                    candidates@ == rest + unknown_of(ids.take(i as int), w.known()),
                    forall|n: usize|
                        n < bound ==> ((#[trigger] prev@[n as int]) is Some <==> (
                        w.routes.contains_key(n) || unknown_of(
                            ids.take(i as int),
                            w.known(),
                        ).contains(n))),
                    forall|n: usize|
                        n < bound && w.routes.contains_key(n) ==> #[trigger] prev@[n as int]
                            == before[n as int],
                    forall|n: usize|
                        n < bound && !w.routes.contains_key(n) && (#[trigger] prev@[n as int])
                            is Some ==> prev@[n as int] == Some(cur),
                decreases nbrs@.len() - i,
            {
                let n = nbrs[i].0;
                let ghost sofar = unknown_of(ids.take(i as int), w.known());
                proof {
                    assert(ids[i as int] == n);
                    assert(ids.contains(n));
                    assert(self@.edges.contains_key(crate::graph::canonical(cur, n)));
                    assert(ids.take(i + 1).drop_last() =~= ids.take(i as int));
                    assert(ids.take(i + 1).last() == n);
                    lemma_unknown_of(ids.take(i as int), w.known());
                    if sofar.contains(n) {
                        let k = choose|k: int|
                            0 <= k < ids.take(i as int).len() && ids.take(i as int)[k] == n;
                        assert(ids[k] < ids[i as int]);
                    }
                }
                if prev[n].is_none() {
                    candidates.push_back(n);
                    prev[n] = Some(cur);
                    proof {
                        let more = unknown_of(ids.take(i + 1), w.known());
                        assert(more == sofar.push(n));
                        assert(candidates@ =~= rest + more);
                        assert forall|m: usize| more.contains(m) <==> (sofar.contains(m) || m
                            == n) by {
                            if sofar.contains(m) {
                                let k = choose|k: int| 0 <= k < sofar.len() && sofar[k] == m;
                                assert(more[k] == m);
                            }
                            if m == n {
                                assert(more[sofar.len() as int] == m);
                            }
                            if more.contains(m) {
                                let k = choose|k: int| 0 <= k < more.len() && more[k] == m;
                                if k < sofar.len() {
                                    assert(sofar[k] == m);
                                }
                            }
                        }
                    }
                } else {
                    proof {
                        assert(unknown_of(ids.take(i + 1), w.known()) == sofar);
                    }
                }
                i += 1;
            }
            order.push(cur);
            proof {
                let v = self@.walk_step(mode, w);
                let found = self@.found_at(w, cur);
                assert(ids.take(nbrs@.len() as int) =~= ids);
                assert(ids.len() == nbrs@.len());
                assert(candidates@ == v.pending);
                self@.lemma_found_at(w, cur);
                self@.lemma_walk_step(mode, from, w);
                if mode is BreadthFirst {
                    self@.lemma_levels_step(from, w);
                }
                self@.lemma_steps_left(mode, from, w);
                assert forall|n: usize| #[trigger]
                    v.routes.contains_key(n) <==> (n < prev@.len() && prev@[n as int] is Some) by {
                    if found.contains(n) {
                        assert(self@.edges.contains_key(crate::graph::canonical(cur, n)));
                    }
                }
                assert forall|n: usize|
                    n < prev@.len() && n != from && (#[trigger] prev@[n as int]) is Some implies {
                    let p = prev@[n as int]->0;
                    v.routes.contains_key(p) && v.routes[n] == v.routes[p].push(n)
                } by {
                    if w.routes.contains_key(n) {
                        assert(prev@[n as int] == before[n as int]);
                    }
                }
                assert(tracks(prev@, from, v));
                w = v;
                fuel = (fuel - 1) as nat;
            }
        }
        (prev, order, hit, Ghost(w), Ghost(fuel))
    }

    /// A way from `from` to `to`, the start first, or nothing where there
    /// is none. Breadth first the way has the fewest edges; depth first it
    /// is the way on which the walk came upon `to`.
    ///
    /// The walk keeps one slot per identifier, so every edge must join
    /// identifiers that were handed out.
    pub fn search(&self, from: usize, to: usize, mode: SearchMode) -> (r: Option<Vec<usize>>)
        requires
            self.wf(),
            self@.edges_in_range(),
        ensures
            match r {
                Some(path) => self@.search_spec(from, to, mode) == Some(path@),
                None => self@.search_spec(from, to, mode) is None,
            },
            r is Some <==> self@.reachable(from, to),
            r matches Some(path) ==> self@.is_route(from, to, path@),
            mode is BreadthFirst ==> (r matches Some(path) ==> self@.is_shortest_route(
                from,
                to,
                path@,
            )),
    {
        proof {
            self@.law_search(from, to, mode);
        }
        if from >= self.id_bound() {
            proof {
                let start = self@.walk_start(from);
                let fuel: nat = self@.next + 1;
                assert(start.pending[0] == from);
                if from != to {
                    let then = self@.walk_step(mode, start);
                    self@.lemma_found_at(start, from);
                    let found = self@.found_at(start, from);
                    if found.len() > 0 {
                        assert(found.contains(found[0]));
                        assert(self@.edges.contains_key(crate::graph::canonical(from, found[0])));
                    }
                    assert(then.pending =~= Seq::<usize>::empty());
                    assert(self@.search_from(mode, to, then, (fuel - 1) as nat) is None);
                }
            }
            if from == to {
                let mut path: Vec<usize> = Vec::new();
                path.push(from);
                assert(path@ =~= seq![from]);
                return Some(path);
            } else {
                return None;
            }
        }
        let (prev, order, hit, Ghost(w), Ghost(fuel)) = self.explore(from, mode, Some(to));
        if !hit {
            return None;
        }
        let mut path: Vec<usize> = Vec::new();
        path.push(to);
        let mut last = to;
        proof {
            mode.lemma_rest(w.pending);
            assert(w.routes.contains_key(to));
            assert(w.routes[to].drop_last().push(to) =~= w.routes[to]);
            assert(path@.reverse() =~= seq![to]);
            assert(w.routes[to] =~= w.routes[last].drop_last() + path@.reverse());
            assert forall|n: usize| #[trigger] w.routes.contains_key(n) implies w.routes[n].len()
                > 0 && w.routes[n].last() == n by {
                assert(self@.is_route(from, n, w.routes[n]));
            }
        }
        while last != from
            invariant
                tracks(prev@, from, w),
                forall|n: usize| #[trigger]
                    w.routes.contains_key(n) ==> w.routes[n].len() > 0 && w.routes[n].last()
                        == n,
                w.routes.contains_key(last),
                w.routes.contains_key(to),
                path@.len() > 0,
                path@.last() == last,
                w.routes[to] == w.routes[last].drop_last() + path@.reverse(),
            decreases w.routes[last].len(),
        {
            let ghost old_path = path@;
            let ghost old_last = last;
            let step = match prev[last] {
                Some(p) => p,
                None => unreached(),
            };
            path.push(step);
            last = step;
            proof {
                let r_old = w.routes[old_last];
                let r_new = w.routes[step];
                assert(r_old == r_new.push(old_last));
                assert(r_old.drop_last() =~= r_new);
                assert(w.routes.contains_key(step));
                assert(path@.reverse() =~= seq![step] + old_path.reverse());
                assert(r_new =~= r_new.drop_last() + seq![step]);
                assert(w.routes[to] =~= r_new.drop_last() + path@.reverse());
            }
        }
        assert(w.routes[from] == seq![from]);
        assert(w.routes[from].drop_last() =~= Seq::<usize>::empty());
        assert(w.routes[to] =~= path@.reverse());
        Some(reversed(&path))
    }

    /// The nodes that can be reached from `from`, with their values, in the
    /// order in which the walk takes them up. The list ends before the
    /// first identifier that has no node.
    ///
    /// The walk keeps one slot per identifier, so `from` and the ends of
    /// every edge must be identifiers that were handed out.
    pub fn visit(&self, from: usize, mode: SearchMode) -> (r: Vec<(usize, &N)>)
        requires
            self.wf(),
            self@.edges_in_range(),
            from < self@.next,
        ensures
            ids_of(r@) == self@.visit_spec(from, mode),
            forall|i: int|
                0 <= i < r@.len() ==> self@.node((#[trigger] r@[i]).0) == Some(*r@[i].1),
            ids_of(r@).no_duplicates(),
            forall|i: int| 0 <= i < r@.len() ==> self@.reachable(from, (#[trigger] r@[i]).0),
            (forall|n: usize| self@.reachable(from, n) ==> self@.nodes.contains_key(n)) ==> (
            forall|n: usize| self@.reachable(from, n) ==> #[trigger] ids_of(r@).contains(n)),
    {
        let (prev, order, hit, Ghost(w), Ghost(fuel)) = self.explore(from, mode, None);
        assert(order@ == self@.visit_order(from, mode));
        let mut out: Vec<(usize, &N)> = Vec::new();
        let mut i: usize = 0;
        while i < order.len()
            invariant
                0 <= i <= order@.len(),
                out@.len() == i,
                ids_of(out@) == order@.take(i as int),
                forall|k: int| 0 <= k < i ==> self@.nodes.contains_key(#[trigger] order@[k]),
                forall|k: int|
                    0 <= k < out@.len() ==> self@.node((#[trigger] out@[k]).0) == Some(
                        *out@[k].1,
                    ),
            ensures
                0 <= i <= order@.len(),
                out@.len() == i,
                ids_of(out@) == order@.take(i as int),
                forall|k: int| 0 <= k < i ==> self@.nodes.contains_key(#[trigger] order@[k]),
                forall|k: int|
                    0 <= k < out@.len() ==> self@.node((#[trigger] out@[k]).0) == Some(
                        *out@[k].1,
                    ),
                i < order@.len() ==> !self@.nodes.contains_key(order@[i as int]),
            decreases order@.len() - i,
        {
            match self.get_node(order[i]) {
                None => {
                    break ;
                },
                Some(value) => {
                    let ghost old_out = out@;
                    out.push((order[i], value));
                    proof {
                        assert forall|k: int| 0 <= k < i implies ids_of(out@)[k] == order@[k] by {
                            assert(ids_of(old_out)[k] == order@.take(i as int)[k]);
                        }
                        assert(ids_of(out@) =~= order@.take(i + 1));
                    }
                },
            }
            i += 1;
        }
        proof {
            self@.lemma_present_prefix(order@, i as int);
            self@.law_visit_order(from, mode);
            let ids = ids_of(out@);
            assert forall|k: int| 0 <= k < out@.len() implies self@.reachable(
                from,
                (#[trigger] out@[k]).0,
            ) by {
                assert(ids[k] == order@[k]);
                assert(order@.contains(order@[k]));
            }
            assert(ids.no_duplicates()) by {
                assert forall|a: int, b: int|
                    0 <= a < ids.len() && 0 <= b < ids.len() && a != b implies ids[a] != ids[b] by {
                    assert(ids[a] == order@[a] && ids[b] == order@[b]);
                }
            }
            if forall|n: usize| self@.reachable(from, n) ==> self@.nodes.contains_key(n) {
                self@.law_visit(from, mode);
            }
        }
        out
    }
}


impl<N, E> GraphView<N, E> {
    /// The nodes that can be reached from `from`.
    pub open spec fn reach_of(self, from: usize) -> Set<usize> {
        Set::new(|n: usize| self.reachable(from, n))
    }

    /// A way told backwards is a way back.
    pub proof fn lemma_route_back(self, a: usize, b: usize, p: Seq<usize>)
        requires
            self.is_route(a, b, p),
        ensures
            self.is_route(b, a, p.reverse()),
    {
        let q = p.reverse();
        assert forall|i: int| 0 <= i < q.len() - 1 implies self.adjacent(#[trigger] q[i], q[i + 1]) by {
            let k = p.len() - 2 - i;
            assert(self.adjacent(p[k], p[k + 1]));
            assert(crate::graph::canonical(p[k], p[k + 1]) == crate::graph::canonical(
                p[k + 1],
                p[k],
            ));
        }
    }

    /// A way to a node and a way on from it make one way.
    pub proof fn lemma_route_joined(self, a: usize, b: usize, c: usize, p: Seq<usize>, q: Seq<usize>)
        requires
            self.is_route(a, b, p),
            self.is_route(b, c, q),
        ensures
            self.is_route(a, c, p + q.drop_first()),
    {
        let r = p + q.drop_first();
        assert forall|i: int| 0 <= i < r.len() - 1 implies self.adjacent(#[trigger] r[i], r[i + 1]) by {
            if i < p.len() - 1 {
                assert(self.adjacent(p[i], p[i + 1]));
            } else {
                let k = i - (p.len() - 1);
                assert(self.adjacent(q[k], q[k + 1]));
            }
        }
    }

    /// Reach goes both ways and carries on: every node reaches itself,
    /// what a node reaches reaches the node, and what is reached from
    /// what a node reaches is reached from the node.
    pub proof fn law_reach(self, a: usize, b: usize, c: usize)
        ensures
            self.reachable(a, a),
            self.reachable(a, b) ==> self.reachable(b, a),
            self.reachable(a, b) && self.reachable(b, c) ==> self.reachable(a, c),
            self.reachable(a, b) ==> self.reach_of(a) == self.reach_of(b),
    {
        assert(self.is_route(a, a, seq![a]));
        if self.reachable(a, b) {
            let p = choose|p: Seq<usize>| self.is_route(a, b, p);
            self.lemma_route_back(a, b, p);
            if self.reachable(b, c) {
                let q = choose|q: Seq<usize>| self.is_route(b, c, q);
                self.lemma_route_joined(a, b, c, p, q);
            }
            assert forall|n: usize| self.reachable(a, n) <==> self.reachable(b, n) by {
                if self.reachable(a, n) {
                    let q = choose|q: Seq<usize>| self.is_route(a, n, q);
                    self.lemma_route_joined(b, a, n, p.reverse(), q);
                }
                if self.reachable(b, n) {
                    let q = choose|q: Seq<usize>| self.is_route(b, n, q);
                    self.lemma_route_joined(a, b, n, p, q);
                }
            }
            assert(self.reach_of(a) =~= self.reach_of(b));
        }
    }

    /// Where every node in reach of `from` has a value, a visit yields as
    /// many nodes as are in reach.
    pub proof fn law_visit_count(self, from: usize, mode: SearchMode)
        requires
            self.edges_in_range(),
            forall|n: usize| self.reachable(from, n) ==> self.nodes.contains_key(n),
        ensures
            self.reach_of(from).finite(),
            self.visit_spec(from, mode).len() == self.reach_of(from).len(),
    {
        self.law_visit(from, mode);
        let order = self.visit_spec(from, mode);
        order.unique_seq_to_set();
        assert(order.to_set() =~= self.reach_of(from)) by {
            assert forall|n: usize| order.to_set().contains(n) <==> self.reach_of(from).contains(
                n,
            ) by {
                assert(order.to_set().contains(n) <==> order.contains(n));
            }
        }
    }
}

} // verus!
