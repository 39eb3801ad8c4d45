//! A search that takes up next the node whose edge a heuristic judges
//! best. It does not add up what a way has cost so far, so the way that
//! it finds need not be the shortest.
use crate::graph::{canonical, ids_of, Graph, GraphView};
use crate::graph_algo::dijkstra::{entries_ordered, is_least, least, lemma_entries_ordered, lemma_has_least, lemma_least, pop_first};
use crate::graph_algo::search::{blank, lemma_unknown_bound, lemma_unknown_insert, reversed, unknown_below};
use std::collections::BTreeSet;
use vstd::prelude::*;

verus! {

/// The state of a search that goes by a heuristic.
pub ghost struct Quest {
    /// For the start and each node found, the way on which it was found.
    pub routes: Map<usize, Seq<usize>>,
    /// The nodes found. The start is among them only once it was found
    /// from another node.
    pub marked: Set<usize>,
    /// The entries that wait to be taken up: the value of the heuristic at
    /// which a node was found, and the node.
    pub heap: Set<(u64, usize)>,
    /// The nodes taken up so far.
    pub done: Set<usize>,
}

impl Quest {
    /// Whether an entry for `n` waits.
    pub open spec fn waits(self, n: usize) -> bool {
        exists|eval: u64| self.heap.contains((eval, n))
    }
}

/// The closure `heuristic` answers as the function `h` does.
pub open spec fn judges_as<N, E, F: Fn(&N, &E) -> u64>(heuristic: F, h: spec_fn(N, E) -> u64) -> bool {
    forall|n: N, e: E, r: u64| call_ensures(heuristic, (&n, &e), r) ==> r == h(n, e)
}

impl<N, E> GraphView<N, E> {
    /// Every end of an edge has a node.
    pub open spec fn ends_present(self) -> bool {
        forall|k: (usize, usize)| #[trigger]
            self.edges.contains_key(k) ==> self.nodes.contains_key(k.0) && self.nodes.contains_key(
                k.1,
            )
    }

    /// The search before its first step: only `from` is pending.
    pub open spec fn quest_start(self, from: usize) -> Quest {
        Quest {
            routes: map![from => seq![from]],
            marked: Set::empty(),
            heap: set![(0u64, from)],
            done: Set::empty(),
        }
    }

    /// The neighbour `x` of `node` is considered: unless it was found
    /// before, it is found now, through `node`, and an entry for it waits
    /// at `eval`.
    pub open spec fn consider(self, q: Quest, node: usize, x: usize, eval: u64) -> Quest {
        if q.marked.contains(x) {
            q
        } else {
            Quest {
                routes: if q.routes.contains_key(x) {
                    q.routes
                } else {
                    q.routes.insert(x, q.routes[node].push(x))
                },
                marked: q.marked.insert(x),
                heap: q.heap.insert((eval, x)),
                done: q.done,
            }
        }
    }

    /// `consider` for each of `nbrs` in turn, each at what the heuristic
    /// makes of the neighbour's value and the edge to it. Nothing where
    /// one of them has no node.
    pub open spec fn consider_all(
        self,
        h: spec_fn(N, E) -> u64,
        q: Quest,
        node: usize,
        nbrs: Seq<usize>,
    ) -> Option<Quest>
        decreases nbrs.len(),
    {
        if nbrs.len() == 0 {
            Some(q)
        } else {
            match self.consider_all(h, q, node, nbrs.drop_last()) {
                None => None,
                Some(mid) => {
                    let x = nbrs.last();
                    if !self.nodes.contains_key(x) {
                        None
                    } else {
                        Some(
                            self.consider(
                                mid,
                                node,
                                x,
                                h(self.nodes[x], self.edges[canonical(node, x)]),
                            ),
                        )
                    }
                },
            }
        }
    }

    /// The state after the least entry was taken out of the heap.
    pub open spec fn quest_taken(self, q: Quest) -> Quest {
        let e = least(q.heap);
        Quest {
            routes: q.routes,
            marked: q.marked,
            heap: q.heap.remove(e),
            done: q.done.insert(e.1),
        }
    }

    /// One step: the least entry is taken up and each neighbour of its node
    /// is considered, by ascending identifier.
    pub open spec fn quest_step(self, h: spec_fn(N, E) -> u64, q: Quest) -> Option<Quest> {
        self.consider_all(h, self.quest_taken(q), least(q.heap).1, self.neighbor_ids(least(q.heap).1))
    }

    /// The search continued from `q`: the way on which `to` was found, as
    /// soon as an entry for `to` is taken up; nothing if the heap runs
    /// empty before that, or a neighbour that is considered has no node.
    pub open spec fn astar_from(
        self,
        h: spec_fn(N, E) -> u64,
        to: usize,
        q: Quest,
        fuel: nat,
    ) -> Option<Seq<usize>>
        decreases fuel,
    {
        if q.heap.is_empty() || fuel == 0 {
            None
        } else if least(q.heap).1 == to {
            Some(q.routes[to])
        } else {
            match self.quest_step(h, q) {
                None => None,
                Some(next) => self.astar_from(h, to, next, (fuel - 1) as nat),
            }
        }
    }

    /// What `astar` returns where the heuristic answers as `h` does.
    pub open spec fn astar_spec(self, from: usize, to: usize, h: spec_fn(N, E) -> u64) -> Option<
        Seq<usize>,
    > {
        self.astar_from(h, to, self.quest_start(from), self.next + 1)
    }

    /// The steps that a search in state `q` can still take, at most.
    pub open spec fn quest_left(self, q: Quest) -> nat {
        unknown_below(q.marked, self.next) + q.heap.len()
    }

    /// What holds of every state, also in the middle of a step.
    pub open spec fn quest_core(self, from: usize, to: usize, q: Quest) -> bool {
        &&& from < self.next
        &&& q.routes.contains_key(from)
        &&& q.routes[from] == seq![from]
        &&& q.heap.finite()
        &&& !q.done.contains(to)
        &&& forall|n: usize| #[trigger]
            q.routes.contains_key(n) ==> self.is_route(from, n, q.routes[n])
        &&& forall|n: usize| #[trigger]
            q.routes.contains_key(n) <==> (n == from || q.marked.contains(n))
        &&& forall|n: usize| #[trigger] q.marked.contains(n) ==> n < self.next
        &&& forall|e: (u64, usize)| #[trigger]
            q.heap.contains(e) ==> q.routes.contains_key(e.1)
        &&& forall|n: usize| #[trigger]
            q.routes.contains_key(n) ==> q.done.contains(n) || q.waits(n)
    }

    /// What holds between steps.
    pub open spec fn quest_inv(self, from: usize, to: usize, q: Quest) -> bool {
        &&& self.quest_core(from, to, q)
        &&& forall|u: usize, x: usize|
            #![trigger q.done.contains(u), self.adjacent(u, x)]
            q.done.contains(u) && self.adjacent(u, x) ==> q.marked.contains(x)
    }

    /// What holds in a step, after the neighbours in `handled` of `node`
    /// were considered.
    pub open spec fn quest_mid(
        self,
        from: usize,
        to: usize,
        q: Quest,
        node: usize,
        handled: Set<usize>,
    ) -> bool {
        &&& self.quest_core(from, to, q)
        &&& q.routes.contains_key(node)
        &&& forall|u: usize, x: usize|
            #![trigger q.done.contains(u), self.adjacent(u, x)]
            q.done.contains(u) && self.adjacent(u, x) && (u != node || handled.contains(x))
                ==> q.marked.contains(x)
    }

    pub proof fn lemma_quest_start(self, from: usize, to: usize)
        requires
            from < self.next,
        ensures
            self.quest_inv(from, to, self.quest_start(from)),
            self.quest_left(self.quest_start(from)) <= self.next + 1,
    {
        let q = self.quest_start(from);
        assert(self.is_route(from, from, seq![from]));
        assert(q.heap.contains((0u64, from)));
        assert(q.waits(from));
        lemma_unknown_bound(q.marked, self.next);
        assert(q.heap =~= Set::<(u64, usize)>::empty().insert((0u64, from)));
    }

    pub proof fn lemma_quest_taken(self, from: usize, to: usize, q: Quest, e: (u64, usize))
        requires
            self.quest_inv(from, to, q),
            is_least(q.heap, e),
            e.1 != to,
        ensures
            least(q.heap) == e,
            self.quest_mid(from, to, self.quest_taken(q), e.1, Set::empty()),
            self.quest_left(self.quest_taken(q)) + 1 == self.quest_left(q),
    {
        lemma_least(q.heap, e);
        let t = self.quest_taken(q);
        assert forall|n: usize| #[trigger] t.routes.contains_key(n) implies t.done.contains(n)
            || t.waits(n) by {
            if !q.done.contains(n) && n != e.1 {
                let eval = choose|eval: u64| q.heap.contains((eval, n));
                assert(t.heap.contains((eval, n)));
            }
        }
    }

    pub proof fn lemma_consider(
        self,
        from: usize,
        to: usize,
        q: Quest,
        node: usize,
        handled: Set<usize>,
        x: usize,
        eval: u64,
    )
        requires
            self.edges_in_range(),
            self.quest_mid(from, to, q, node, handled),
            self.adjacent(node, x),
        ensures
            self.quest_mid(from, to, self.consider(q, node, x, eval), node, handled.insert(x)),
            self.quest_left(self.consider(q, node, x, eval)) <= self.quest_left(q),
    {
        let g = self.consider(q, node, x, eval);
        assert(self.edges.contains_key(canonical(node, x)));
        if !q.marked.contains(x) {
            lemma_unknown_insert(q.marked, x, self.next);
            if !q.routes.contains_key(x) {
                let base = q.routes[node];
                let p = base.push(x);
                assert(self.is_route(from, node, base));
                assert forall|i: int| 0 <= i < p.len() - 1 implies self.adjacent(
                    #[trigger] p[i],
                    p[i + 1],
                ) by {
                    if i < base.len() - 1 {
                        assert(self.adjacent(base[i], base[i + 1]));
                    }
                }
            }
            assert(g.heap.contains((eval, x)));
            assert(g.waits(x));
            assert forall|n: usize| #[trigger] g.routes.contains_key(n) implies g.done.contains(
                n,
            ) || g.waits(n) by {
                if n != x && !q.done.contains(n) {
                    let old_eval = choose|old_eval: u64| q.heap.contains((old_eval, n));
                    assert(g.heap.contains((old_eval, n)));
                }
            }
        }
    }

    pub proof fn lemma_consider_all(
        self,
        h: spec_fn(N, E) -> u64,
        from: usize,
        to: usize,
        q: Quest,
        node: usize,
        nbrs: Seq<usize>,
    )
        requires
            self.edges_in_range(),
            self.quest_mid(from, to, q, node, Set::empty()),
            forall|i: int| 0 <= i < nbrs.len() ==> self.adjacent(node, #[trigger] nbrs[i]),
        ensures
            self.ends_present() ==> self.consider_all(h, q, node, nbrs) is Some,
            self.consider_all(h, q, node, nbrs) matches Some(g) ==> self.quest_mid(
                from,
                to,
                g,
                node,
                Set::new(|x: usize| nbrs.contains(x)),
            ) && self.quest_left(g) <= self.quest_left(q),
        decreases nbrs.len(),
    {
        if nbrs.len() == 0 {
            assert(Set::new(|x: usize| nbrs.contains(x)) =~= Set::<usize>::empty());
        } else {
            let front = nbrs.drop_last();
            let last = nbrs.last();
            assert forall|i: int| 0 <= i < front.len() implies self.adjacent(
                node,
                #[trigger] front[i],
            ) by {
                assert(front[i] == nbrs[i]);
            }
            self.lemma_consider_all(h, from, to, q, node, front);
            assert(self.adjacent(node, nbrs[nbrs.len() - 1]));
            assert(self.edges.contains_key(canonical(node, last)));
            match self.consider_all(h, q, node, front) {
                None => {},
                Some(mid) => {
                    if self.nodes.contains_key(last) {
                        let handled = Set::new(|x: usize| front.contains(x));
                        let eval = h(self.nodes[last], self.edges[canonical(node, last)]);
                        self.lemma_consider(from, to, mid, node, handled, last, eval);
                        assert(handled.insert(last) =~= Set::new(|x: usize| nbrs.contains(x))) by {
                            assert forall|x: usize| handled.insert(last).contains(x)
                                <==> nbrs.contains(x) by {
                                if front.contains(x) {
                                    let k = choose|k: int| 0 <= k < front.len() && front[k] == x;
                                    assert(nbrs[k] == x);
                                }
                                if x == last {
                                    assert(nbrs[nbrs.len() - 1] == x);
                                }
                                if nbrs.contains(x) {
                                    let k = choose|k: int| 0 <= k < nbrs.len() && nbrs[k] == x;
                                    if k < front.len() {
                                        assert(front[k] == x);
                                    }
                                }
                            }
                        }
                    }
                },
            }
        }
    }

    /// Where a step fails for some of the neighbours it fails for all.
    pub proof fn lemma_consider_fails(
        self,
        h: spec_fn(N, E) -> u64,
        q: Quest,
        node: usize,
        nbrs: Seq<usize>,
        upto: int,
    )
        requires
            0 <= upto <= nbrs.len(),
            self.consider_all(h, q, node, nbrs.take(upto)) is None,
        ensures
            self.consider_all(h, q, node, nbrs) is None,
        decreases nbrs.len() - upto,
    {
        if upto < nbrs.len() {
            assert(nbrs.take(upto + 1).drop_last() =~= nbrs.take(upto));
            self.lemma_consider_fails(h, q, node, nbrs, upto + 1);
        } else {
            assert(nbrs.take(upto) =~= nbrs);
        }
    }

    pub proof fn lemma_quest_step(
        self,
        h: spec_fn(N, E) -> u64,
        from: usize,
        to: usize,
        q: Quest,
        e: (u64, usize),
    )
        requires
            self.edges_in_range(),
            self.quest_inv(from, to, q),
            is_least(q.heap, e),
            e.1 != to,
        ensures
            least(q.heap) == e,
            self.ends_present() ==> self.quest_step(h, q) is Some,
            self.quest_step(h, q) matches Some(g) ==> self.quest_inv(from, to, g)
                && self.quest_left(g) + 1 <= self.quest_left(q),
    {
        self.lemma_quest_taken(from, to, q, e);
        let nbrs = self.neighbor_ids(e.1);
        self.lemma_neighbor_ids(e.1);
        assert forall|i: int| 0 <= i < nbrs.len() implies self.adjacent(e.1, #[trigger] nbrs[i]) by {
            assert(nbrs.contains(nbrs[i]));
        }
        self.lemma_consider_all(h, from, to, self.quest_taken(q), e.1, nbrs);
    }

    /// Once nothing waits, whatever can be reached was taken up.
    pub proof fn lemma_quest_complete(self, from: usize, to: usize, q: Quest, p: Seq<usize>, upto: int)
        requires
            self.quest_inv(from, to, q),
            q.heap.is_empty(),
            p.len() > 0,
            p[0] == from,
            forall|i: int| 0 <= i < p.len() - 1 ==> self.adjacent(#[trigger] p[i], p[i + 1]),
            0 <= upto < p.len(),
        ensures
            q.done.contains(p[upto]),
        decreases upto,
    {
        if upto == 0 {
            assert(q.routes.contains_key(from));
            if q.waits(from) {
                let eval = choose|eval: u64| q.heap.contains((eval, from));
            }
        } else {
            self.lemma_quest_complete(from, to, q, p, upto - 1);
            assert(self.adjacent(p[upto - 1], p[upto]));
            assert(q.marked.contains(p[upto]));
            assert(q.routes.contains_key(p[upto]));
            if q.waits(p[upto]) {
                let eval = choose|eval: u64| q.heap.contains((eval, p[upto]));
            }
        }
    }

    pub proof fn lemma_astar_from(
        self,
        h: spec_fn(N, E) -> u64,
        from: usize,
        to: usize,
        q: Quest,
        fuel: nat,
    )
        requires
            self.edges_in_range(),
            self.quest_inv(from, to, q),
            fuel >= self.quest_left(q),
        ensures
            self.astar_from(h, to, q, fuel) matches Some(p) ==> self.is_route(from, to, p),
            self.ends_present() ==> (self.astar_from(h, to, q, fuel) is Some <==> self.reachable(
                from,
                to,
            )),
        decreases fuel,
    {
        if q.heap.is_empty() {
            if self.reachable(from, to) {
                let p = choose|p: Seq<usize>| self.is_route(from, to, p);
                self.lemma_quest_complete(from, to, q, p, p.len() - 1);
            }
        } else {
            lemma_has_least(q.heap);
            let e = least(q.heap);
            assert(q.heap.len() > 0) by {
                if q.heap.len() == 0 {
                    assert(q.heap =~= Set::empty());
                }
            }
            if e.1 == to {
                assert(q.routes.contains_key(to));
                assert(self.is_route(from, to, q.routes[to]));
            } else {
                self.lemma_quest_step(h, from, to, q, e);
                match self.quest_step(h, q) {
                    None => {},
                    Some(g) => {
                        self.lemma_astar_from(h, from, to, g, (fuel - 1) as nat);
                    },
                }
            }
        }
    }

    /// What the search by a heuristic returns is a way from `from` to
    /// `to`; and where every end of an edge has a node, it returns one
    /// exactly when there is a way.
    pub proof fn law_astar(self, from: usize, to: usize, h: spec_fn(N, E) -> u64)
        requires
            self.edges_in_range(),
            from < self.next,
        ensures
            self.astar_spec(from, to, h) matches Some(p) ==> self.is_route(from, to, p),
            self.ends_present() ==> (self.astar_spec(from, to, h) is Some <==> self.reachable(
                from,
                to,
            )),
    {
        self.lemma_quest_start(from, to);
        self.lemma_astar_from(h, from, to, self.quest_start(from), self.next + 1);
    }
}


/// `visited` holds the back-pointers of `q`: a slot is filled where the
/// node was found, with the node through which it was found.
pub open spec fn marks(visited: Seq<Option<usize>>, from: usize, q: Quest) -> bool {
    &&& forall|n: usize|
        n < visited.len() ==> ((#[trigger] visited[n as int]) is Some <==> q.marked.contains(n))
    &&& forall|n: usize|
        n < visited.len() && n != from && (#[trigger] visited[n as int]) is Some ==> {
            let p = visited[n as int]->0;
            q.routes.contains_key(p) && q.routes[n] == q.routes[p].push(n)
        }
}

impl<N, E> Graph<N, E> {
    /// The way back from `to` along the back-pointers, told from the start.
    fn retrace(
        &self,
        visited: &Vec<Option<usize>>,
        from: usize,
        to: usize,
        Ghost(q): Ghost<Quest>,
    ) -> (r: Vec<usize>)
        requires
            self@.quest_core(from, to, q),
            visited@.len() == self@.next,
            marks(visited@, from, q),
            q.routes.contains_key(to),
        ensures
            r@ == q.routes[to],
    {
        let mut path: Vec<usize> = Vec::new();
        path.push(to);
        let mut last = to;
        proof {
            assert(self@.is_route(from, to, q.routes[to]));
            assert(q.routes[to].drop_last().push(to) =~= q.routes[to]);
            assert(path@.reverse() =~= seq![to]);
            assert(q.routes[to] =~= q.routes[last].drop_last() + path@.reverse());
            assert forall|n: usize| #[trigger] q.routes.contains_key(n) implies q.routes[n].len()
                > 0 && q.routes[n].last() == n by {
                assert(self@.is_route(from, n, q.routes[n]));
            }
        }
        while last != from
            invariant
                marks(visited@, from, q),
                visited@.len() == self@.next,
                forall|n: usize| #[trigger]
                    q.routes.contains_key(n) ==> q.routes[n].len() > 0 && q.routes[n].last() == n,
                forall|n: usize| #[trigger]
                    q.routes.contains_key(n) <==> (n == from || q.marked.contains(n)),
                forall|n: usize| #[trigger] q.marked.contains(n) ==> n < self@.next,
                q.routes.contains_key(last),
                q.routes.contains_key(to),
                path@.len() > 0,
                q.routes[to] == q.routes[last].drop_last() + path@.reverse(),
            decreases q.routes[last].len(),
        {
            let ghost old_path = path@;
            let ghost old_last = last;
            assert(q.marked.contains(last));
            let step = match visited[last] {
                Some(p) => p,
                None => unreached(),
            };
            path.push(step);
            last = step;
            proof {
                let r_old = q.routes[old_last];
                let r_new = q.routes[step];
                assert(r_old == r_new.push(old_last));
                assert(r_old.drop_last() =~= r_new);
                assert(q.routes.contains_key(step));
                assert(path@.reverse() =~= seq![step] + old_path.reverse());
                assert(r_new =~= r_new.drop_last() + seq![step]);
                assert(q.routes[to] =~= r_new.drop_last() + path@.reverse());
            }
        }
        assert(q.routes[from] == seq![from]);
        assert(q.routes[from].drop_last() =~= Seq::<usize>::empty());
        assert(q.routes[to] =~= path@.reverse());
        reversed(&path)
    }

    /// Considers each neighbour of the node of `e`, which was taken up.
    /// Returns whether each of them has a node.
    fn unfold<F: Fn(&N, &E) -> u64>(
        &self,
        e: (u64, usize),
        visited: &mut Vec<Option<usize>>,
        heap: &mut BTreeSet<(u64, usize)>,
        heuristic: &F,
        Ghost(from): Ghost<usize>,
        Ghost(to): Ghost<usize>,
        Ghost(q): Ghost<Quest>,
    ) -> (r: (bool, Ghost<Quest>))
        requires
            self.wf(),
            self@.edges_in_range(),
            entries_ordered(),
            forall|n: &N, w: &E| call_requires(*heuristic, (n, w)),
            self@.quest_inv(from, to, q),
            is_least(q.heap, e),
            e.1 != to,
            old(visited)@.len() == self@.next,
            marks(old(visited)@, from, q),
            old(heap)@ == self@.quest_taken(q).heap,
        ensures
            final(visited)@.len() == self@.next,
            r.0 ==> marks(final(visited)@, from, r.1@) && final(heap)@ == r.1@.heap
                && self@.quest_inv(from, to, r.1@) && self@.quest_left(r.1@) + 1
                <= self@.quest_left(q),
            forall|h: spec_fn(N, E) -> u64|
                judges_as(*heuristic, h) ==> #[trigger] self@.quest_step(h, q) == if r.0 {
                    Some(r.1@)
                } else {
                    None::<Quest>
                },
    {
        let node = e.1;
        let nbrs = self.neighbors(node);
        let ghost ids = self@.neighbor_ids(node);
        let ghost taken = self@.quest_taken(q);
        let ghost mut g = taken;
        let ghost mut handled: Set<usize> = Set::empty();
        proof {
            self@.lemma_neighbor_ids(node);
            self@.lemma_quest_taken(from, to, q, e);
            assert(ids.take(0) =~= Seq::<usize>::empty());
        }
        proof {
            assert forall|k: int| 0 <= k < nbrs@.len() implies self@.edge(
                node,
                (#[trigger] nbrs@[k]).0,
            ) == Some(*nbrs@[k].1) by {
                assert(ids[k] == nbrs@[k].0);
                assert(ids.contains(ids[k]));
            }
        }
        let mut i: usize = 0;
        while i < nbrs.len()
            invariant
                0 <= i <= nbrs@.len(),
                self.wf(),
                self@.edges_in_range(),
                entries_ordered(),
                forall|n: &N, w: &E| call_requires(*heuristic, (n, w)),
                node == e.1,
                least(q.heap) == e,
                taken == self@.quest_taken(q),
                ids == self@.neighbor_ids(node),
                ids_of(nbrs@) == ids,
                forall|k: int|
                    0 <= k < nbrs@.len() ==> self@.edge(node, (#[trigger] nbrs@[k]).0) == Some(
                        *nbrs@[k].1,
                    ),
                forall|n: usize| #[trigger] ids.contains(n) <==> self@.adjacent(node, n),
                self@.quest_mid(from, to, g, node, handled),
                forall|k: int| 0 <= k < i ==> handled.contains(#[trigger] ids[k]),
                self@.quest_left(g) + 1 <= self@.quest_left(q),
                forall|h: spec_fn(N, E) -> u64|
                    judges_as(*heuristic, h) ==> #[trigger] self@.consider_all(
                        h,
                        taken,
                        node,
                        ids.take(i as int),
                    ) == Some(g),
                visited@.len() == self@.next,
                marks(visited@, from, g),
                heap@ == g.heap,
            decreases nbrs@.len() - i,
        {
            let next_node = nbrs[i].0;
            let edge = nbrs[i].1;
            proof {
                assert(ids[i as int] == next_node);
                assert(ids.contains(next_node));
                assert(self@.edges.contains_key(canonical(node, next_node)));
                assert(ids.take(i + 1).drop_last() =~= ids.take(i as int));
                assert(ids.take(i + 1).last() == next_node);
            }
            let node_data = match self.get_node(next_node) {
                Some(d) => d,
                None => {
                    proof {
                        assert forall|h: spec_fn(N, E) -> u64|
                            judges_as(*heuristic, h) implies #[trigger] self@.quest_step(h, q)
                            == None::<Quest> by {
                            assert(self@.consider_all(h, taken, node, ids.take(i as int)) == Some(
                                g,
                            ));
                            assert(self@.consider_all(h, taken, node, ids.take(i + 1)) is None);
                            self@.lemma_consider_fails(h, taken, node, ids, i + 1);
                        }
                    }
                    return (false, Ghost(g));
                },
            };
            let eval = heuristic(node_data, edge);
            let ghost before = g;
            proof {
                assert forall|k: int| 0 <= k < ids.take(i as int).len() implies self@.adjacent(
                    node,
                    #[trigger] ids.take(i as int)[k],
                ) by {
                    assert(ids.contains(ids[k]));
                }
                assert forall|h: spec_fn(N, E) -> u64|
                    judges_as(*heuristic, h) implies #[trigger] self@.consider_all(
                    h,
                    taken,
                    node,
                    ids.take(i + 1),
                ) == Some(self@.consider(before, node, next_node, eval)) by {
                    assert(self@.consider_all(h, taken, node, ids.take(i as int)) == Some(before));
                    assert(call_ensures(*heuristic, (node_data, edge), eval));
                    assert(eval == h(*node_data, *edge));
                }
                g = self@.consider(before, node, next_node, eval);
                self@.lemma_consider(from, to, before, node, handled, next_node, eval);
                handled = handled.insert(next_node);
            }
            if visited[next_node].is_none() {
                visited[next_node] = Some(node);
                heap.insert((eval, next_node));
            }
            i += 1;
        }
        proof {
            assert(ids.take(nbrs@.len() as int) =~= ids);
            assert(ids.len() == nbrs@.len());
            assert forall|u: usize, x: usize|
                #![trigger g.done.contains(u), self@.adjacent(u, x)]
                g.done.contains(u) && self@.adjacent(u, x) implies g.marked.contains(x) by {
                if u == node {
                    assert(ids.contains(x));
                    let k = choose|k: int| 0 <= k < ids.len() && ids[k] == x;
                    assert(handled.contains(ids[k]));
                }
            }
            assert forall|h: spec_fn(N, E) -> u64|
                judges_as(*heuristic, h) implies #[trigger] self@.quest_step(h, q) == Some(g) by {
                assert(self@.consider_all(h, taken, node, ids.take(nbrs@.len() as int)) == Some(
                    g,
                ));
            }
        }
        (true, Ghost(g))
    }

    /// A way from `from` to `to`, found by taking up next whichever found
    /// node the heuristic values lowest. The heuristic is asked once for
    /// each neighbour that is considered, with the neighbour's value and
    /// the value of the edge to it; what it says is not added to the cost
    /// of the way so far, so the way need not be the cheapest.
    ///
    /// Entries that wait are ordered by the heuristic's value and then by
    /// node, so that two nodes of one value both stay waiting. The search
    /// gives up and returns nothing where a neighbour that it considers
    /// has no node.
    ///
    /// Every edge must join identifiers that were handed out, and `from`
    /// must be one of them.
    pub fn astar<F: Fn(&N, &E) -> u64>(&self, from: usize, to: usize, heuristic: F) -> (r: Option<
        Vec<usize>,
    >)
        requires
            self.wf(),
            self@.edges_in_range(),
            from < self@.next,
            forall|n: &N, w: &E| call_requires(heuristic, (n, w)),
        ensures
            forall|h: spec_fn(N, E) -> u64|
                judges_as(heuristic, h) ==> match r {
                    Some(path) => #[trigger] self@.astar_spec(from, to, h) == Some(path@),
                    None => self@.astar_spec(from, to, h) is None,
                },
            r matches Some(path) ==> self@.is_route(from, to, path@),
    {
        proof {
            lemma_entries_ordered();
        }
        let mut visited = blank(self.id_bound());
        let mut heap: BTreeSet<(u64, usize)> = BTreeSet::new();
        heap.insert((0, from));
        let ghost mut q = self@.quest_start(from);
        let ghost mut fuel: nat = self@.next + 1;
        proof {
            self@.lemma_quest_start(from, to);
            assert(heap@ =~= q.heap);
        }
        while !heap.is_empty()
            invariant
                self.wf(),
                self@.edges_in_range(),
                entries_ordered(),
                forall|n: &N, w: &E| call_requires(heuristic, (n, w)),
                visited@.len() == self@.next,
                marks(visited@, from, q),
                heap@ == q.heap,
                self@.quest_inv(from, to, q),
                fuel >= self@.quest_left(q),
                forall|h: spec_fn(N, E) -> u64|
                    judges_as(heuristic, h) ==> #[trigger] self@.astar_spec(from, to, h)
                        == self@.astar_from(h, to, q, fuel),
            decreases fuel,
        {
            let e = match pop_first(&mut heap) {
                Some(e) => e,
                None => unreached(),
            };
            proof {
                lemma_least(q.heap, e);
                assert(q.heap.len() > 0) by {
                    if q.heap.len() == 0 {
                        assert(q.heap =~= Set::empty());
                    }
                }
            }
            if e.1 == to {
                return Some(self.retrace(&visited, from, to, Ghost(q)));
            }
            let (whole, Ghost(g)) = self.unfold(
                e,
                &mut visited,
                &mut heap,
                &heuristic,
                Ghost(from),
                Ghost(to),
                Ghost(q),
            );
            proof {
                assert forall|h: spec_fn(N, E) -> u64|
                    judges_as(heuristic, h) implies #[trigger] self@.astar_from(h, to, q, fuel)
                    == if whole {
                    self@.astar_from(h, to, g, (fuel - 1) as nat)
                } else {
                    None::<Seq<usize>>
                } by {
                    assert(self@.quest_step(h, q) == if whole {
                        Some(g)
                    } else {
                        None::<Quest>
                    });
                }
            }
            if !whole {
                return None;
            }
            proof {
                q = g;
                fuel = (fuel - 1) as nat;
            }
        }
        None
    }
}

} // verus!
