//! An undirected graph: nodes under identifiers that are handed out in
//! order and never again, and edges under the pair of their ends, the
//! smaller first.
use std::collections::BTreeMap;
use vstd::prelude::*;
use vstd::laws_cmp::group_laws_cmp;
use vstd::std_specs::btree::{increasing_seq, spec_btree_map_iter};
use vstd::std_specs::cmp::OrdSpec;
use vstd::std_specs::iter::IteratorSpec;

verus! {

broadcast use group_laws_cmp;

/// The unordered pair of endpoints under which an edge is stored: smaller
/// identifier first.
pub open spec fn canonical(a: usize, b: usize) -> (usize, usize) {
    if a <= b {
        (a, b)
    } else {
        (b, a)
    }
}

/// Endpoints of an undirected edge, smaller identifier first.
#[derive(Clone, Copy, Debug, PartialEq, Eq, PartialOrd, Ord)]
pub struct Edge(pub usize, pub usize);

impl Edge {
    /// The key of the edge between `from` and `to`: the two identifiers, the
    /// smaller first.
    pub fn new(from: usize, to: usize) -> (e: Edge)
        ensures
            (e.0, e.1) == canonical(from, to),
            e.0 <= e.1,
    {
        if from <= to {
            Edge(from, to)
        } else {
            Edge(to, from)
        }
    }

    /// Whether `node` is at an end of this edge.
    pub fn touches(&self, node: usize) -> (r: bool)
        ensures
            r == (self.0 == node || self.1 == node),
    {
        self.0 == node || self.1 == node
    }
}

/// Whether `node` is an endpoint of the edge stored under `key`.
pub open spec fn touches(key: (usize, usize), node: usize) -> bool {
    key.0 == node || key.1 == node
}

/// The endpoint of `key` across from `node`.
pub open spec fn other_end(key: (usize, usize), node: usize) -> usize {
    if key.0 == node {
        key.1
    } else {
        key.0
    }
}

/// The identifiers of a list of neighbours.
pub open spec fn ids_of<T>(s: Seq<(usize, T)>) -> Seq<usize> {
    Seq::new(s.len(), |i: int| s[i].0)
}

/// The keys of a walk over the edge map come in lexicographic order.
pub open spec fn keys_ascending<E>(all: Seq<(&(usize, usize), &E)>) -> bool {
    forall|i: int, j: int|
        0 <= i < j < all.len() ==> (#[trigger] all[i]).0.0 < (#[trigger] all[j]).0.0 || (
        all[i].0.0 == all[j].0.0 && all[i].0.1 < all[j].0.1)
}

proof fn lemma_key_order<E>(all: Seq<(&(usize, usize), &E)>)
    requires
        increasing_seq(all.map_values(|kv: (&(usize, usize), &E)| *kv.0)),
    ensures
        keys_ascending(all),
{
    let keys = all.map_values(|kv: (&(usize, usize), &E)| *kv.0);
    assert(vstd::laws_cmp::obeys_cmp::<(usize, usize)>());
    assert(forall|i: int, j: int| 0 <= i < j < keys.len() ==> keys[i].cmp_spec(&keys[j]) is Less);
    assert forall|i: int, j: int| 0 <= i < j < all.len() implies (#[trigger] all[i]).0.0 < (
    #[trigger] all[j]).0.0 || (all[i].0.0 == all[j].0.0 && all[i].0.1 < all[j].0.1) by {
        let a = *all[i].0;
        let b = *all[j].0;
        assert(keys[i] == a);
        assert(keys[j] == b);
        assert(a.cmp_spec(&b) is Less);
    }
}

/// The keys of a list of edges.
pub open spec fn keys_of<T>(s: Seq<((usize, usize), T)>) -> Seq<(usize, usize)> {
    Seq::new(s.len(), |i: int| s[i].0)
}

/// Strictly increasing in lexicographic order.
pub open spec fn pairs_ascending(s: Seq<(usize, usize)>) -> bool {
    forall|i: int, j: int|
        0 <= i < j < s.len() ==> (#[trigger] s[i]).0 < (#[trigger] s[j]).0 || (s[i].0 == s[j].0
            && s[i].1 < s[j].1)
}

proof fn lemma_id_order<N>(all: Seq<(&usize, &N)>)
    requires
        increasing_seq(all.map_values(|kv: (&usize, &N)| *kv.0)),
    ensures
        forall|i: int, j: int|
            0 <= i < j < all.len() ==> *(#[trigger] all[i]).0 < *(#[trigger] all[j]).0,
{
    let keys = all.map_values(|kv: (&usize, &N)| *kv.0);
    assert(vstd::laws_cmp::obeys_cmp::<usize>());
    assert(forall|i: int, j: int| 0 <= i < j < keys.len() ==> keys[i].cmp_spec(&keys[j]) is Less);
    assert forall|i: int, j: int| 0 <= i < j < all.len() implies *(#[trigger] all[i]).0 < *(
    #[trigger] all[j]).0 by {
        let a = *all[i].0;
        let b = *all[j].0;
        assert(keys[i] == a);
        assert(keys[j] == b);
        assert(a.cmp_spec(&b) is Less);
    }
}

/// What a graph holds, as mathematical maps.
pub ghost struct GraphView<N, E> {
    pub nodes: Map<usize, N>,
    pub edges: Map<(usize, usize), E>,
    pub next: nat,
}

impl<N, E> GraphView<N, E> {
    /// There are finitely many nodes and edges, every node has an
    /// identifier below the next one to hand out, and every edge is kept
    /// under the smaller of its ends first.
    pub open spec fn wf(self) -> bool {
        &&& self.nodes.dom().finite()
        &&& self.edges.dom().finite()
        &&& forall|id: usize| #[trigger] self.nodes.contains_key(id) ==> id < self.next
        &&& forall|k: (usize, usize)| #[trigger] self.edges.contains_key(k) ==> k.0 <= k.1
    }

    /// Every edge joins identifiers that were handed out. The walks over
    /// the graph keep one slot per identifier and ask for this.
    pub open spec fn edges_in_range(self) -> bool {
        forall|k: (usize, usize)| #[trigger]
            self.edges.contains_key(k) ==> k.0 < self.next && k.1 < self.next
    }

    /// Whether an edge runs between `a` and `b`.
    pub open spec fn adjacent(self, a: usize, b: usize) -> bool {
        self.edges.contains_key(canonical(a, b))
    }

    /// `p` leads from `from` to `to` along edges.
    pub open spec fn is_route(self, from: usize, to: usize, p: Seq<usize>) -> bool {
        &&& p.len() > 0
        &&& p.first() == from
        &&& p.last() == to
        &&& forall|i: int| 0 <= i < p.len() - 1 ==> self.adjacent(#[trigger] p[i], p[i + 1])
    }

    /// `to` can be reached from `from` by following edges; every node
    /// reaches itself.
    pub open spec fn reachable(self, from: usize, to: usize) -> bool {
        exists|p: Seq<usize>| self.is_route(from, to, p)
    }

    /// The value on the edge between `a` and `b`, in either direction.
    pub open spec fn edge(self, a: usize, b: usize) -> Option<E> {
        if self.adjacent(a, b) {
            Some(self.edges[canonical(a, b)])
        } else {
            None
        }
    }

    /// The value of node `id`.
    pub open spec fn node(self, id: usize) -> Option<N> {
        if self.nodes.contains_key(id) {
            Some(self.nodes[id])
        } else {
            None
        }
    }

    /// The graph after a node with `data` was added under the next free
    /// identifier.
    pub open spec fn with_node(self, data: N) -> Self {
        GraphView {
            nodes: self.nodes.insert(self.next as usize, data),
            edges: self.edges,
            next: self.next + 1,
        }
    }

    /// The graph after node `id` and every edge that touches it were removed.
    /// The identifier is not handed out again.
    pub open spec fn without_node(self, id: usize) -> Self {
        GraphView {
            nodes: self.nodes.remove(id),
            edges: Map::new(
                |k: (usize, usize)| self.edges.contains_key(k) && !touches(k, id),
                |k: (usize, usize)| self.edges[k],
            ),
            next: self.next,
        }
    }

    /// The graph after the edge between `a` and `b` was set to `data`.
    pub open spec fn with_edge(self, a: usize, b: usize, data: E) -> Self {
        GraphView {
            nodes: self.nodes,
            edges: self.edges.insert(canonical(a, b), data),
            next: self.next,
        }
    }

    /// The graph after the edge between `a` and `b` was removed.
    pub open spec fn without_edge(self, a: usize, b: usize) -> Self {
        GraphView {
            nodes: self.nodes,
            edges: self.edges.remove(canonical(a, b)),
            next: self.next,
        }
    }

    /// The identifiers below `limit` that share an edge with `id`, ascending.
    pub open spec fn neighbors_below(self, id: usize, limit: nat) -> Seq<usize>
        decreases limit,
    {
        if limit == 0 {
            Seq::empty()
        } else {
            let n = (limit - 1) as nat;
            let rest = self.neighbors_below(id, n);
            if n <= usize::MAX && self.adjacent(id, n as usize) {
                rest.push(n as usize)
            } else {
                rest
            }
        }
    }

    /// Every identifier that shares an edge with `id`, ascending.
    pub open spec fn neighbor_ids(self, id: usize) -> Seq<usize> {
        self.neighbors_below(id, (usize::MAX + 1) as nat)
    }

    pub proof fn lemma_neighbors_below(self, id: usize, limit: nat)
        ensures
            ascending(self.neighbors_below(id, limit)),
            forall|n: usize| #[trigger]
                self.neighbors_below(id, limit).contains(n) <==> (n < limit && self.adjacent(
                    id,
                    n,
                )),
        decreases limit,
    {
        if limit > 0 {
            let n = (limit - 1) as nat;
            let rest = self.neighbors_below(id, n);
            self.lemma_neighbors_below(id, n);
            if n <= usize::MAX && self.adjacent(id, n as usize) {
                let full = rest.push(n as usize);
                assert forall|i: int, j: int| 0 <= i < j < full.len() implies full[i] < full[j] by {
                    if j == rest.len() {
                        assert(rest.contains(rest[i]));
                        assert(self.neighbors_below(id, n).contains(rest[i]));
                    } else {
                        assert(rest[i] < rest[j]);
                    }
                }
                assert forall|m: usize| #[trigger] full.contains(m) <==> (m < limit && self.adjacent(
                    id,
                    m,
                )) by {
                    if full.contains(m) {
                        let k = choose|k: int| 0 <= k < full.len() && full[k] == m;
                        if k < rest.len() {
                            assert(rest.contains(rest[k]));
                        }
                    }
                    if m < limit && self.adjacent(id, m) {
                        if m == n {
                            assert(full[rest.len() as int] == m);
                        } else {
                            assert(rest.contains(m));
                            let k = choose|k: int| 0 <= k < rest.len() && rest[k] == m;
                            assert(full[k] == m);
                        }
                    }
                }
            }
        }
    }

    /// `neighbor_ids` is the one ascending sequence of the identifiers
    /// adjacent to `id`.
    pub proof fn lemma_neighbor_ids(self, id: usize)
        ensures
            ascending(self.neighbor_ids(id)),
            forall|n: usize| #[trigger] self.neighbor_ids(id).contains(n) <==> self.adjacent(id, n),
    {
        self.lemma_neighbors_below(id, (usize::MAX + 1) as nat);
    }
}

/// The identifiers below `n`.
pub open spec fn ids_below(n: nat) -> Set<usize> {
    Set::new(|id: usize| id < n)
}

pub proof fn lemma_ids_below(n: nat)
    requires
        n <= usize::MAX + 1,
    ensures
        ids_below(n).finite(),
        ids_below(n).len() == n,
    decreases n,
{
    if n == 0 {
        assert(ids_below(0) =~= Set::<usize>::empty());
    } else {
        lemma_ids_below((n - 1) as nat);
        assert(ids_below(n) =~= ids_below((n - 1) as nat).insert((n - 1) as usize));
    }
}

/// A list that holds no identifier twice, and none that is not below `n`,
/// holds `n` identifiers at most.
pub proof fn lemma_ids_fit(s: Seq<usize>, n: nat)
    requires
        s.no_duplicates(),
        forall|i: int| 0 <= i < s.len() ==> #[trigger] s[i] < n,
        n <= usize::MAX + 1,
    ensures
        s.len() <= n,
{
    lemma_ids_below(n);
    s.unique_seq_to_set();
    assert(s.to_set().subset_of(ids_below(n))) by {
        assert forall|x: usize| s.to_set().contains(x) implies ids_below(n).contains(x) by {
            let k = choose|k: int| 0 <= k < s.len() && s[k] == x;
        }
    }
    vstd::set_lib::lemma_len_subset(s.to_set(), ids_below(n));
}

impl<N, E> GraphView<N, E> {
    /// Setting an edge again changes nothing but its value: with the same
    /// value the graph stays as it was; with another value the edge holds
    /// the new one, the value that was there is what the first call left,
    /// and the number of edges stays the same either way.
    pub proof fn law_edge_set_again(self, a: usize, b: usize, first: E, second: E)
        requires
            self.wf(),
        ensures
            self.with_edge(a, b, first).wf(),
            self.with_edge(a, b, first).edge(a, b) == Some(first),
            self.with_edge(a, b, first).edge(b, a) == Some(first),
            self.with_edge(a, b, first).with_edge(a, b, first) == self.with_edge(a, b, first),
            self.with_edge(a, b, first).with_edge(a, b, second).edge(a, b) == Some(second),
            self.with_edge(a, b, first).with_edge(a, b, second).edges.len() == self.with_edge(
                a,
                b,
                first,
            ).edges.len(),
            self.with_edge(a, b, first).with_edge(b, a, second) == self.with_edge(a, b, second),
    {
        let once = self.with_edge(a, b, first);
        let k = canonical(a, b);
        assert(canonical(b, a) == k);
        assert(once.edges.insert(k, first) =~= once.edges);
        assert(once.edges.insert(k, second) =~= self.edges.insert(k, second));
        assert(once.edges.dom() =~= once.edges.insert(k, second).dom());
    }

    /// A graph whose edges join identifiers that were handed out stays
    /// such a graph when a node is added, and when an edge between two
    /// such identifiers is set.
    pub proof fn law_stays_in_range(self, a: usize, b: usize, data: E, value: N)
        requires
            self.wf(),
            self.edges_in_range(),
        ensures
            self.with_node(value).edges_in_range(),
            a < self.next && b < self.next ==> self.with_edge(a, b, data).edges_in_range(),
            self.without_edge(a, b).edges_in_range(),
    {
    }

    /// Removing a node takes out the edges that touch it and no others,
    /// and leaves every other node, and the identifiers, as they were.
    pub proof fn law_node_removed(self, id: usize)
        requires
            self.wf(),
        ensures
            self.without_node(id).wf(),
            self.without_node(id).node(id) is None,
            forall|n: usize| n != id ==> self.without_node(id).node(n) == self.node(n),
            forall|k: (usize, usize)| #[trigger]
                self.without_node(id).edges.contains_key(k) <==> (self.edges.contains_key(k)
                    && !touches(k, id)),
            forall|k: (usize, usize)| #[trigger]
                self.without_node(id).edges.contains_key(k) ==> self.without_node(id).edges[k]
                    == self.edges[k],
            forall|n: usize| !self.without_node(id).adjacent(id, n),
            self.without_node(id).next == self.next,
            self.edges_in_range() ==> self.without_node(id).edges_in_range(),
    {
        let after = self.without_node(id);
        assert(after.edges.dom().subset_of(self.edges.dom()));
        vstd::set_lib::lemma_len_subset(after.edges.dom(), self.edges.dom());
    }

    /// An identifier is handed out once: the node added after a removal
    /// gets an identifier that no node had before.
    pub proof fn law_ids_not_reused(self, id: usize, data: N)
        requires
            self.wf(),
            0 < self.next <= usize::MAX,
        ensures
            self.without_node(id).with_node(data).wf(),
            forall|n: usize| self.nodes.contains_key(n) ==> n < self.next,
            self.without_node(id).with_node(data).nodes.contains_key(self.next as usize),
            self.without_node(id).with_node(data).node(id) == if id == self.next {
                Some(data)
            } else {
                None
            },
    {
        self.law_node_removed(id);
    }

    /// As long as no node was removed, the identifier that the next node
    /// gets is the number of nodes.
    pub proof fn law_dense_ids(self)
        requires
            self.wf(),
            self.next <= usize::MAX + 1,
            forall|id: usize| id < self.next ==> self.nodes.contains_key(id),
        ensures
            self.nodes.len() == self.next,
    {
        lemma_ids_below(self.next);
        assert(self.nodes.dom() =~= ids_below(self.next));
    }
}

/// Strictly increasing.
pub open spec fn ascending(s: Seq<usize>) -> bool {
    forall|i: int, j: int| 0 <= i < j < s.len() ==> s[i] < s[j]
}

/// Two ascending sequences with the same elements are the same sequence.
pub proof fn lemma_ascending_unique(s: Seq<usize>, t: Seq<usize>)
    requires
        ascending(s),
        ascending(t),
        forall|n: usize| s.contains(n) <==> t.contains(n),
    ensures
        s == t,
    decreases s.len(),
{
    if s.len() == 0 {
        if t.len() > 0 {
            assert(t.contains(t[0]));
        }
        assert(s =~= t);
    } else if t.len() == 0 {
        assert(s.contains(s[0]));
    } else {
        let a = s.last();
        let b = t.last();
        assert(s.contains(a));
        assert(t.contains(b));
        assert(t.contains(a));
        assert(s.contains(b));
        let ia = choose|k: int| 0 <= k < t.len() && t[k] == a;
        let ib = choose|k: int| 0 <= k < s.len() && s[k] == b;
        assert(a == b);
        let s1 = s.drop_last();
        let t1 = t.drop_last();
        assert forall|n: usize| s1.contains(n) <==> t1.contains(n) by {
            if s1.contains(n) {
                let k = choose|k: int| 0 <= k < s1.len() && s1[k] == n;
                assert(s[k] == n);
                assert(s.contains(n));
                let k2 = choose|k2: int| 0 <= k2 < t.len() && t[k2] == n;
                assert(n < a);
                assert(t1[k2] == n);
            }
            if t1.contains(n) {
                let k = choose|k: int| 0 <= k < t1.len() && t1[k] == n;
                assert(t[k] == n);
                assert(t.contains(n));
                let k2 = choose|k2: int| 0 <= k2 < s.len() && s[k2] == n;
                assert(n < b);
                assert(s1[k2] == n);
            }
        }
        lemma_ascending_unique(s1, t1);
        assert(s =~= s1.push(a));
        assert(t =~= t1.push(b));
    }
}

/// Undirected graph whose nodes carry values of `N` and whose edges carry
/// values of `E`.
pub struct Graph<N, E> {
    nodes: BTreeMap<usize, N>,
    edges: BTreeMap<(usize, usize), E>,
    next: usize,
}

impl<N, E> View for Graph<N, E> {
    type V = GraphView<N, E>;

    closed spec fn view(&self) -> GraphView<N, E> {
        GraphView { nodes: self.nodes@, edges: self.edges@, next: self.next as nat }
    }
}

impl<N, E> Graph<N, E> {
    /// The invariant of the store, as its view states it.
    pub open spec fn wf(&self) -> bool {
        self@.wf()
    }

    /// The graph without nodes and edges.
    pub fn new() -> (g: Self)
        ensures
            g.wf(),
            g@.nodes == Map::<usize, N>::empty(),
            g@.edges == Map::<(usize, usize), E>::empty(),
            g@.next == 0,
    {
        Graph { nodes: BTreeMap::new(), edges: BTreeMap::new(), next: 0 }
    }

    /// Adds a node with the value `data` and returns its identifier: the
    /// next one in line, which no node had before.
    pub fn add_node(&mut self, data: N) -> (id: usize)
        requires
            old(self).wf(),
            old(self)@.next < usize::MAX,
        ensures
            final(self).wf(),
            id == old(self)@.next,
            final(self)@ == old(self)@.with_node(data),
    {
        let index = self.next;
        self.nodes.insert(index, data);
        self.next = index + 1;
        index
    }

    /// The value of the node `index`, where there is such a node.
    pub fn get_node(&self, index: usize) -> (r: Option<&N>)
        ensures
            match r {
                Some(v) => self@.node(index) == Some(*v),
                None => self@.node(index) is None,
            },
    {
        self.nodes.get(&index)
    }

    /// The value of the edge between `from` and `to`, in either direction,
    /// where there is such an edge.
    pub fn get_edge(&self, from: usize, to: usize) -> (r: Option<&E>)
        ensures
            match r {
                Some(v) => self@.edge(from, to) == Some(*v),
                None => self@.edge(from, to) is None,
            },
    {
        let edge = Edge::new(from, to);
        self.edges.get(&(edge.0, edge.1))
    }

    /// Lays an edge with the value `data` between `from` and `to`, whether
    /// or not they are nodes, and returns the value that the edge had before.
    pub fn add_edge(&mut self, from: usize, to: usize, data: E) -> (r: Option<E>)
        requires
            old(self).wf(),
        ensures
            final(self).wf(),
            final(self)@ == old(self)@.with_edge(from, to, data),
            r == old(self)@.edge(from, to),
    {
        let edge = Edge::new(from, to);
        self.edges.insert((edge.0, edge.1), data)
    }

    /// The neighbours of `index` with the value of the edge to each, by
    /// ascending neighbour identifier.
    pub fn neighbors(&self, index: usize) -> (r: Vec<(usize, &E)>)
        requires
            self.wf(),
        ensures
            ids_of(r@) == self@.neighbor_ids(index),
            forall|i: int|
                0 <= i < r@.len() ==> *(#[trigger] r@[i]).1 == self@.edges[canonical(
                    index,
                    r@[i].0,
                )],
    {
        let mut out: Vec<(usize, &E)> = Vec::new();
        let iter = self.edges.iter();
        let ghost all = iter.remaining();
        proof {
            lemma_key_order(all);
        }
        for kv in it: iter
            invariant
                self.wf(),
                all == spec_btree_map_iter(&self.edges).remaining(),
                it.seq() == all,
                keys_ascending(all),
                ascending(ids_of(out@)),
                forall|i: int|
                    0 <= i < out@.len() ==> self@.adjacent(index, (#[trigger] out@[i]).0)
                        && *out@[i].1 == self@.edges[canonical(index, out@[i].0)],
                forall|i: int, p: int|
                    0 <= i < out@.len() && it.index() <= p < all.len() ==> (#[trigger] out@[i]).0
                        < other_end(*(#[trigger] all[p]).0, index) || !touches(*all[p].0, index),
                forall|p: int|
                    0 <= p < it.index() && touches(*(#[trigger] all[p]).0, index) ==> ids_of(
                        out@,
                    ).contains(other_end(*all[p].0, index)),
        {
            let key = *kv.0;
            let value = kv.1;
            let ghost done = it.index();
            assert(kv == all[done]);
            assert(self.edges@.contains_key(key) && self.edges@[key] == *value);
            assert forall|p: int| done < p < all.len() implies self.edges@.contains_key(
                *(#[trigger] all[p]).0,
            ) by {}
            let ghost before = out@;
            if key.0 == index {
                out.push((key.1, value));
            } else if key.1 == index {
                out.push((key.0, value));
            }
            proof {
                if touches(key, index) {
                    let n = other_end(key, index);
                    assert(ids_of(out@) =~= ids_of(before).push(n));
                    assert(canonical(index, n) == key);
                    assert forall|p: int|
                        0 <= p < done + 1 && touches(
                            *(#[trigger] all[p]).0,
                            index,
                        ) implies ids_of(out@).contains(other_end(*all[p].0, index)) by {
                        if p < done {
                            let k = choose|k: int|
                                0 <= k < ids_of(before).len() && ids_of(before)[k]
                                    == other_end(*all[p].0, index);
                            assert(ids_of(out@)[k] == other_end(*all[p].0, index));
                        } else {
                            assert(ids_of(out@)[before.len() as int] == n);
                        }
                    }
                }
            }
        }
        proof {
            let ids = ids_of(out@);
            self@.lemma_neighbor_ids(index);
            assert forall|n: usize| ids.contains(n) <==> self@.neighbor_ids(index).contains(
                n,
            ) by {
                if ids.contains(n) {
                    let k = choose|k: int| 0 <= k < ids.len() && ids[k] == n;
                    assert(out@[k].0 == n);
                }
                if self@.adjacent(index, n) {
                    let key = canonical(index, n);
                    assert(self.edges@.contains_key(key));
                    assert(all.contains((&key, &self.edges@[key])));
                    let p = choose|p: int|
                        0 <= p < all.len() && all[p] == (&key, &self.edges@[key]);
                    assert(touches(*all[p].0, index));
                }
            }
            lemma_ascending_unique(ids, self@.neighbor_ids(index));
        }
        out
    }

    /// Takes the edge between `from` and `to` away and returns its value,
    /// where there was one.
    pub fn remove_edge(&mut self, from: usize, to: usize) -> (r: Option<E>)
        requires
            old(self).wf(),
        ensures
            final(self).wf(),
            final(self)@ == old(self)@.without_edge(from, to),
            r == old(self)@.edge(from, to),
    {
        let edge = Edge::new(from, to);
        self.edges.remove(&(edge.0, edge.1))
    }

    /// Removes node `index` with every edge that touches it, and returns
    /// its value. Other identifiers stay as they are.
    pub fn remove_node(&mut self, index: usize) -> (r: Option<N>)
        requires
            old(self).wf(),
        ensures
            final(self).wf(),
            final(self)@ == old(self)@.without_node(index),
            r == old(self)@.node(index),
    {
        let data = self.nodes.remove(&index);
        let mut doomed: Vec<usize> = Vec::new();
        let nbrs = self.neighbors(index);
        let mut i: usize = 0;
        while i < nbrs.len()
            invariant
                0 <= i <= nbrs@.len(),
                doomed@ == ids_of(nbrs@).take(i as int),
            decreases nbrs@.len() - i,
        {
            doomed.push(nbrs[i].0);
            assert(ids_of(nbrs@).take(i + 1) =~= ids_of(nbrs@).take(i as int).push(nbrs@[i as int].0));
            i += 1;
        }
        assert(doomed@ =~= self@.neighbor_ids(index));
        let ghost before = self@;
        proof {
            before.lemma_neighbor_ids(index);
        }
        let mut j: usize = 0;
        while j < doomed.len()
            invariant
                0 <= j <= doomed@.len(),
                self.wf(),
                before.wf(),
                self@.nodes == before.nodes,
                self@.next == before.next,
                doomed@ == before.neighbor_ids(index),
                forall|n: usize| #[trigger]
                    before.neighbor_ids(index).contains(n) <==> before.adjacent(index, n),
                self@.edges =~= Map::new(
                    |k: (usize, usize)|
                        before.edges.contains_key(k) && !(touches(k, index) && doomed@.take(
                            j as int,
                        ).contains(other_end(k, index))),
                    |k: (usize, usize)| before.edges[k],
                ),
            decreases doomed@.len() - j,
        {
            let n = doomed[j];
            let edge = Edge::new(index, n);
            let ghost prev = self@.edges;
            let _ = self.edges.remove(&(edge.0, edge.1));
            proof {
                let taken = doomed@.take(j as int);
                let more = doomed@.take(j + 1);
                assert(more =~= taken.push(n));
                assert forall|m: usize| more.contains(m) <==> (taken.contains(m) || m == n) by {
                    if taken.contains(m) {
                        let k = choose|k: int| 0 <= k < taken.len() && taken[k] == m;
                        assert(more[k] == m);
                    }
                    if m == n {
                        assert(more[j as int] == m);
                    }
                    if more.contains(m) {
                        let k = choose|k: int| 0 <= k < more.len() && more[k] == m;
                        if k < j {
                            assert(taken[k] == m);
                        }
                    }
                }
                assert forall|k: (usize, usize)|
                    touches(k, index) && before.edges.contains_key(k) implies canonical(
                    index,
                    other_end(k, index),
                ) == k by {}
                assert(self@.edges =~= Map::new(
                    |k: (usize, usize)|
                        before.edges.contains_key(k) && !(touches(k, index) && more.contains(
                            other_end(k, index),
                        )),
                    |k: (usize, usize)| before.edges[k],
                ));
            }
            j += 1;
        }
        proof {
            assert(doomed@.take(doomed@.len() as int) =~= doomed@);
            assert forall|k: (usize, usize)|
                touches(k, index) && before.edges.contains_key(k) implies doomed@.contains(
                other_end(k, index),
            ) by {
                assert(canonical(index, other_end(k, index)) == k);
                assert(before.adjacent(index, other_end(k, index)));
            }
            assert(self@.edges =~= before.without_node(index).edges);
            assert(before.without_node(index).nodes == before.nodes);
        }
        data
    }

    /// Whether an edge runs between `from` and `to`.
    pub fn are_neighbors(&self, from: usize, to: usize) -> (r: bool)
        ensures
            r == self@.adjacent(from, to),
    {
        self.get_edge(from, to).is_some()
    }

    /// Every node with its value, by ascending identifier.
    pub fn nodes(&self) -> (r: Vec<(usize, &N)>)
        ensures
            ascending(ids_of(r@)),
            forall|id: usize| #[trigger] ids_of(r@).contains(id) <==> self@.nodes.contains_key(id),
            forall|i: int| 0 <= i < r@.len() ==> *(#[trigger] r@[i]).1 == self@.nodes[r@[i].0],
    {
        let mut out: Vec<(usize, &N)> = Vec::new();
        let iter = self.nodes.iter();
        let ghost all = iter.remaining();
        proof {
            lemma_id_order(all);
        }
        for kv in it: iter
            invariant
                all == spec_btree_map_iter(&self.nodes).remaining(),
                it.seq() == all,
                out@.len() == it.index(),
                forall|i: int|
                    0 <= i < out@.len() ==> (#[trigger] out@[i]).0 == *all[i].0 && out@[i].1
                        == all[i].1,
        {
            out.push((*kv.0, kv.1));
        }
        proof {
            let ids = ids_of(out@);
            assert forall|id: usize| #[trigger] ids.contains(id) <==> self@.nodes.contains_key(
                id,
            ) by {
                if ids.contains(id) {
                    let k = choose|k: int| 0 <= k < ids.len() && ids[k] == id;
                    assert(out@[k].0 == id);
                    assert(self.nodes@.contains_key(*all[k].0));
                }
                if self@.nodes.contains_key(id) {
                    assert(all.contains((&id, &self.nodes@[id])));
                    let p = choose|p: int| 0 <= p < all.len() && all[p] == (&id, &self.nodes@[id]);
                    assert(ids[p] == id);
                }
            }
            assert forall|i: int| 0 <= i < out@.len() implies *(#[trigger] out@[i]).1
                == self@.nodes[out@[i].0] by {
                assert(self.nodes@.contains_key(*all[i].0));
            }
        }
        out
    }

    /// Every edge with its value, by ascending pair of endpoints.
    pub fn edges(&self) -> (r: Vec<((usize, usize), &E)>)
        ensures
            pairs_ascending(keys_of(r@)),
            forall|k: (usize, usize)| #[trigger]
                keys_of(r@).contains(k) <==> self@.edges.contains_key(k),
            forall|i: int| 0 <= i < r@.len() ==> *(#[trigger] r@[i]).1 == self@.edges[r@[i].0],
    {
        let mut out: Vec<((usize, usize), &E)> = Vec::new();
        let iter = self.edges.iter();
        let ghost all = iter.remaining();
        proof {
            lemma_key_order(all);
        }
        for kv in it: iter
            invariant
                all == spec_btree_map_iter(&self.edges).remaining(),
                it.seq() == all,
                out@.len() == it.index(),
                forall|i: int|
                    0 <= i < out@.len() ==> (#[trigger] out@[i]).0 == *all[i].0 && out@[i].1
                        == all[i].1,
        {
            out.push((*kv.0, kv.1));
        }
        proof {
            let keys = keys_of(out@);
            assert forall|k: (usize, usize)| #[trigger]
                keys.contains(k) <==> self@.edges.contains_key(k) by {
                if keys.contains(k) {
                    let p = choose|p: int| 0 <= p < keys.len() && keys[p] == k;
                    assert(out@[p].0 == k);
                    assert(self.edges@.contains_key(*all[p].0));
                }
                if self@.edges.contains_key(k) {
                    assert(all.contains((&k, &self.edges@[k])));
                    let p = choose|p: int| 0 <= p < all.len() && all[p] == (&k, &self.edges@[k]);
                    assert(keys[p] == k);
                }
            }
            assert forall|i: int| 0 <= i < out@.len() implies *(#[trigger] out@[i]).1
                == self@.edges[out@[i].0] by {
                assert(self.edges@.contains_key(*all[i].0));
            }
            assert forall|i: int, j: int| 0 <= i < j < keys.len() implies (#[trigger] keys[i]).0
                < (#[trigger] keys[j]).0 || (keys[i].0 == keys[j].0 && keys[i].1 < keys[j].1) by {
                assert(keys[i] == *all[i].0);
                assert(keys[j] == *all[j].0);
            }
        }
        out
    }

    /// The edge values along `path`, one for each pair of consecutive
    /// identifiers, `None` where the two are not joined.
    pub fn get_edges(&self, path: &[usize]) -> (r: Vec<Option<&E>>)
        ensures
            r@.len() == if path@.len() == 0 {
                0
            } else {
                path@.len() - 1
            },
            forall|i: int|
                0 <= i < r@.len() ==> match #[trigger] r@[i] {
                    Some(v) => self@.edge(path@[i], path@[i + 1]) == Some(*v),
                    None => self@.edge(path@[i], path@[i + 1]) is None,
                },
    {
        let mut out: Vec<Option<&E>> = Vec::new();
        let mut i: usize = 1;
        while i < path.len()
            invariant
                1 <= i,
                out@.len() == i - 1,
                i <= path@.len() || i == 1,
                forall|k: int|
                    0 <= k < out@.len() ==> match #[trigger] out@[k] {
                        Some(v) => self@.edge(path@[k], path@[k + 1]) == Some(*v),
                        None => self@.edge(path@[k], path@[k + 1]) is None,
                    },
            decreases path@.len() - i,
        {
            out.push(self.get_edge(path[i - 1], path[i]));
            i += 1;
        }
        out
    }

    /// Sets the edge between two existing nodes to what `edge_value` makes
    /// of their values, and returns the value that was there. Where either
    /// node is missing nothing changes.
    pub fn add_edge_map<F: Fn(&N, &N) -> E>(&mut self, from: usize, to: usize, edge_value: F) -> (r:
        Option<E>)
        requires
            old(self).wf(),
            old(self)@.nodes.contains_key(from) && old(self)@.nodes.contains_key(to)
                ==> call_requires(edge_value, (&old(self)@.nodes[from], &old(self)@.nodes[to])),
        ensures
            final(self).wf(),
            old(self)@.nodes.contains_key(from) && old(self)@.nodes.contains_key(to) ==> r == old(
                self,
            )@.edge(from, to) && exists|v: E|
                call_ensures(edge_value, (&old(self)@.nodes[from], &old(self)@.nodes[to]), v)
                    && final(self)@ == old(self)@.with_edge(from, to, v),
            !(old(self)@.nodes.contains_key(from) && old(self)@.nodes.contains_key(to)) ==> r is None
                && final(self)@ == old(self)@,
    {
        let value = match self.get_node(from) {
            None => {
                return None;
            },
            Some(src) => match self.get_node(to) {
                None => {
                    return None;
                },
                Some(dst) => edge_value(src, dst),
            },
        };
        let edge = Edge::new(from, to);
        let r = self.edges.insert((edge.0, edge.1), value);
        assert(self@ == old(self)@.with_edge(from, to, value));
        r
    }

    /// One more than the largest identifier handed out so far.
    pub fn id_bound(&self) -> (n: usize)
        ensures
            n == self@.next,
    {
        self.next
    }

    /// The number of nodes.
    pub fn num_nodes(&self) -> (n: usize)
        ensures
            n == self@.nodes.len(),
    {
        self.nodes.len()
    }

    /// The number of edges.
    pub fn num_edges(&self) -> (n: usize)
        ensures
            n == self@.edges.len(),
    {
        self.edges.len()
    }
}

} // verus!
