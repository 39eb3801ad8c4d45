use crate::graph::{
    ascending, canonical, ids_of, keys_of, lemma_ascending_unique, lemma_ids_fit, pairs_ascending,
    Graph, GraphView,
};
use crate::graph_algo::search::blank;
use crate::graph_algo::search::SearchMode;
use crate::grid::lines_of;
use crate::outside::{by_ends, by_weight, sort_by_weight};
use crate::text::{chars_of, parse_i64, place_of, signed_of, slice_of, split_lines};
use crate::vex::Vex;
use vstd::prelude::*;

verus! {

/// A junction box, by its place in space.
pub type Point = Vex<i64, 3>;

/// Why the boxes could not be read.
#[derive(Clone, Copy, Debug, PartialEq, Eq)]
pub enum BoxError {
    /// This line, counted from 0, does not hold three numbers.
    BadLine(usize),
}

/// The numbers that `s` writes from `from` on, with commas between them;
/// what stands between two commas and writes no number is passed over.
pub open spec fn numbers_of(s: Seq<char>, from: int) -> Seq<i64>
    decreases s.len() - from,
{
    if from < 0 || from > s.len() {
        Seq::empty()
    } else {
        let comma = place_of(s, ',', from);
        let head = match signed_of(s.subrange(from, comma)) {
            Some(n) => seq![n],
            None => Seq::empty(),
        };
        if from <= comma < s.len() {
            head + numbers_of(s, comma + 1)
        } else {
            head
        }
    }
}

/// The first line from `from` on that does not hold three numbers.
pub open spec fn bad_line(lines: Seq<Seq<char>>, from: int) -> Option<int>
    decreases lines.len() - from,
{
    if from < 0 || from >= lines.len() {
        None
    } else if numbers_of(lines[from], 0).len() != 3 {
        Some(from)
    } else {
        bad_line(lines, from + 1)
    }
}

fn read_numbers(s: &Vec<char>) -> (r: Vec<i64>)
    ensures
        r@ == numbers_of(s@, 0),
{
    let mut out: Vec<i64> = Vec::new();
    let mut from: usize = 0;
    loop
        invariant_except_break
            numbers_of(s@, 0) == out@ + numbers_of(s@, from as int),
        invariant
            from <= s@.len(),
        ensures
            out@ == numbers_of(s@, 0),
        decreases s@.len() - from,
    {
        let mut comma = from;
        proof {
            crate::text::lemma_place_of(s@, ',', from as int);
        }
        while comma < s.len() && s[comma] != ','
            invariant
                from <= comma <= s@.len(),
                place_of(s@, ',', from as int) == place_of(s@, ',', comma as int),
            decreases s@.len() - comma,
        {
            comma += 1;
        }
        let ghost old_out = out@;
        match parse_i64(&slice_of(s, from, comma)) {
            Some(n) => {
                out.push(n);
            },
            None => {},
        }
        proof {
            assert(out@.skip(old_out.len() as int) =~= match signed_of(
                s@.subrange(from as int, comma as int),
            ) {
                Some(n) => seq![n],
                None => Seq::<i64>::empty(),
            });
        }
        if comma < s.len() {
            proof {
                assert(old_out + (out@.skip(old_out.len() as int) + numbers_of(s@, comma + 1))
                    =~= out@ + numbers_of(s@, comma + 1));
            }
            from = comma + 1;
        } else {
            proof {
                assert(old_out + out@.skip(old_out.len() as int) =~= out@);
            }
            break ;
        }
    }
    out
}

/// Reads the places of the boxes, one to a line, three numbers each.
pub fn parse_points(input: &str) -> (r: Result<Vec<Point>, BoxError>)
    ensures
        match r {
            Ok(points) => bad_line(lines_of(input@), 0) is None && points@.len() == lines_of(
                input@,
            ).len() && forall|i: int|
                0 <= i < points@.len() ==> (#[trigger] points@[i])@ == numbers_of(
                    lines_of(input@)[i],
                    0,
                ),
            Err(e) => bad_line(lines_of(input@), 0) matches Some(at) && e == BoxError::BadLine(
                at as usize,
            ),
        },
{
    let lines = split_lines(&chars_of(input));
    let ghost all = lines_of(input@);
    let mut nodes: Vec<Point> = Vec::new();
    let mut i: usize = 0;
    while i < lines.len()
        invariant
            i <= lines@.len(),
            all == lines_of(input@),
            lines@.len() == all.len(),
            forall|k: int| 0 <= k < all.len() ==> (#[trigger] lines@[k])@ == all[k],
            bad_line(all, 0) == bad_line(all, i as int),
            nodes@.len() == i,
            forall|k: int| 0 <= k < i ==> (#[trigger] nodes@[k])@ == numbers_of(all[k], 0),
        decreases lines@.len() - i,
    {
        let nums = read_numbers(&lines[i]);
        proof {
            assert(lines@[i as int]@ == all[i as int]);
        }
        if nums.len() != 3 {
            return Err(BoxError::BadLine(i));
        }
        let point = Vex::new([nums[0], nums[1], nums[2]]);
        proof {
            assert(point@ =~= nums@);
        }
        nodes.push(point);
        i += 1;
    }
    Ok(nodes)
}

/// The most that a coordinate may be, either way, for distances to fit.
pub const REACH: i64 = 800_000_000;

/// Whether the coordinates of every point fit.
pub open spec fn in_reach(points: Seq<Point>) -> bool {
    forall|i: int, k: int|
        0 <= i < points.len() && 0 <= k < 3 ==> -REACH <= #[trigger] points[i]@[k] <= REACH
}

/// The square of the distance between two points.
pub open spec fn dist2(a: Point, b: Point) -> int {
    (b@[0] - a@[0]) * (b@[0] - a@[0]) + (b@[1] - a@[1]) * (b@[1] - a@[1]) + (b@[2] - a@[2]) * (
    b@[2] - a@[2])
}

fn length_squared(a: &Point, b: &Point) -> (r: u64)
    requires
        forall|k: int| 0 <= k < 3 ==> -REACH <= #[trigger] a@[k] <= REACH,
        forall|k: int| 0 <= k < 3 ==> -REACH <= #[trigger] b@[k] <= REACH,
    ensures
        r == dist2(*a, *b),
{
    let dx = b.x() - a.x();
    let dy = b.y() - a.y();
    let dz = b.z() - a.z();
    proof {
        assert(forall|d: int|
            -1_600_000_000 <= d <= 1_600_000_000 ==> 0 <= #[trigger] (d * d)
                <= 2_560_000_000_000_000_000) by (nonlinear_arith);
        assert(0 <= dx * dx <= 2_560_000_000_000_000_000);
        assert(0 <= dy * dy <= 2_560_000_000_000_000_000);
        assert(0 <= dz * dz <= 2_560_000_000_000_000_000);
    }
    (dx * dx + dy * dy + dz * dz) as u64
}

/// The state of the wiring while box `n1` looks at the boxes before
/// `upto`: the graph so far, and the shortest distance from `n1` seen so
/// far. A box is wired to `n1` unless it lies seven times as far away as
/// the nearest seen before it, or farther.
pub open spec fn wired(points: Seq<Point>, n1: int, upto: int) -> (GraphView<Point, u64>, u64)
    decreases n1 + 1, upto,
{
    if n1 < 0 || n1 >= points.len() || upto > points.len() {
        (bare(points, points.len() as int), 10000000000u64)
    } else if upto <= 0 {
        (wired(points, n1 - 1, points.len() as int).0, 10000000000u64)
    } else {
        let (g, shortest) = wired(points, n1, upto - 1);
        let n2 = upto - 1;
        let dist = dist2(points[n1], points[n2]);
        if n1 == n2 || dist >= 7 * shortest {
            (g, shortest)
        } else {
            (g.with_edge(n1 as usize, n2 as usize, dist as u64), if dist < shortest {
                dist as u64
            } else {
                shortest
            })
        }
    }
}

/// The graph of the first `upto` boxes, without wires.
pub open spec fn bare<E>(points: Seq<Point>, upto: int) -> GraphView<Point, E>
    decreases upto,
{
    if upto <= 0 {
        GraphView { nodes: Map::empty(), edges: Map::empty(), next: 0 }
    } else {
        bare::<E>(points, upto - 1).with_node(points[upto - 1])
    }
}

pub proof fn lemma_dist2(a: Point, b: Point)
    ensures
        dist2(a, b) >= 0,
{
    assert(forall|d: int| 0 <= #[trigger] (d * d)) by (nonlinear_arith);
}

pub proof fn lemma_bare<E>(points: Seq<Point>, upto: int)
    requires
        0 <= upto <= points.len(),
        upto <= usize::MAX,
    ensures
        bare::<E>(points, upto).wf(),
        bare::<E>(points, upto).edges_in_range(),
        bare::<E>(points, upto).next == upto,
        bare::<E>(points, upto).edges == Map::<(usize, usize), E>::empty(),
        forall|id: usize| bare::<E>(points, upto).nodes.contains_key(id) <==> id < upto,
        forall|id: usize| id < upto ==> bare::<E>(points, upto).nodes[id] == points[id as int],
    decreases upto,
{
    if upto > 0 {
        lemma_bare::<E>(points, upto - 1);
    }
}

pub proof fn lemma_wired(points: Seq<Point>, n1: int, upto: int)
    requires
        -1 <= n1 < points.len(),
        0 <= upto <= points.len(),
        points.len() <= usize::MAX,
        in_reach(points),
    ensures
        wired(points, n1, upto).0.wf(),
        wired(points, n1, upto).0.edges_in_range(),
        wired(points, n1, upto).0.next == points.len(),
        wired(points, n1, upto).0.nodes == bare::<u64>(points, points.len() as int).nodes,
        wired(points, n1, upto).1 <= 10000000000u64,
    decreases n1 + 1, upto,
{
    lemma_bare::<u64>(points, points.len() as int);
    if n1 >= 0 {
        if upto <= 0 {
            lemma_wired(points, n1 - 1, points.len() as int);
        } else {
            lemma_wired(points, n1, upto - 1);
            lemma_dist2(points[n1], points[upto - 1]);
        }
    }
}

/// The graph of the boxes: each box is a node, and an edge between two
/// boxes weighs the square of the distance between them.
pub fn build_graph(points: &Vec<Point>) -> (g: Graph<Point, u64>)
    requires
        in_reach(points@),
    ensures
        g.wf(),
        g@.edges_in_range(),
        g@ == wired(points@, points@.len() - 1, points@.len() as int).0,
{
    let mut graph: Graph<Point, u64> = Graph::new();
    let n = points.len();
    let mut i: usize = 0;
    while i < n
        invariant
            i <= n,
            n == points@.len(),
            graph.wf(),
            graph@ == bare::<u64>(points@, i as int),
        decreases n - i,
    {
        proof {
            lemma_bare::<u64>(points@, i as int);
        }
        graph.add_node(points[i]);
        i += 1;
    }
    let mut n1: usize = 0;
    proof {
        lemma_wired(points@, -1, n as int);
    }
    while n1 < n
        invariant
            n1 <= n,
            n == points@.len(),
            in_reach(points@),
            graph.wf(),
            graph@ == wired(points@, n1 - 1, n as int).0,
        decreases n - n1,
    {
        let mut shortest: u64 = 10000000000;
        let mut n2: usize = 0;
        while n2 < n
            invariant
                n1 < n,
                n2 <= n,
                n == points@.len(),
                in_reach(points@),
                graph.wf(),
                (graph@, shortest) == wired(points@, n1 as int, n2 as int),
            decreases n - n2,
        {
            proof {
                lemma_wired(points@, n1 as int, n2 as int);
                assert forall|k: int| 0 <= k < 3 implies -REACH <= #[trigger] points@[n1 as int]@[k]
                    <= REACH by {}
                assert forall|k: int| 0 <= k < 3 implies -REACH <= #[trigger] points@[n2 as int]@[k]
                    <= REACH by {}
            }
            if n1 != n2 {
                let dist = length_squared(&points[n1], &points[n2]);
                if dist < 7 * shortest {
                    if dist < shortest {
                        shortest = dist;
                    }
                    graph.add_edge(n1, n2, dist);
                }
            }
            n2 += 1;
        }
        n1 += 1;
    }
    proof {
        lemma_wired(points@, n - 1, n as int);
    }
    graph
}

/// Reads the boxes and wires them. The coordinates must fit.
pub fn parse_graph(input: &str) -> (r: Result<Graph<Point, u64>, BoxError>)
    requires
        forall|i: int, k: int|
            0 <= i < lines_of(input@).len() && 0 <= k < numbers_of(lines_of(input@)[i], 0).len()
                ==> -REACH <= #[trigger] numbers_of(lines_of(input@)[i], 0)[k] <= REACH,
    ensures
        match r {
            Ok(g) => g.wf() && g@.edges_in_range() && bad_line(lines_of(input@), 0) is None,
            Err(e) => bad_line(lines_of(input@), 0) matches Some(at) && e == BoxError::BadLine(
                at as usize,
            ),
        },
{
    match parse_points(input) {
        Ok(points) => {
            proof {
                assert forall|i: int, k: int|
                    0 <= i < points@.len() && 0 <= k < 3 implies -REACH
                    <= #[trigger] points@[i]@[k] <= REACH by {
                    assert(points@[i]@ == numbers_of(lines_of(input@)[i], 0));
                    crate::vex::lemma_vex_of(points@[i]);
                }
            }
            Ok(build_graph(&points))
        },
        Err(e) => Err(e),
    }
}


/// `s` with `v` in its place, where `s` ascends and does not hold `v`;
/// else `s`.
pub open spec fn with_size(s: Seq<usize>, v: usize) -> Seq<usize>
    decreases s.len(),
{
    if s.len() == 0 {
        seq![v]
    } else if s.last() < v {
        s.push(v)
    } else if s.last() == v {
        s
    } else {
        with_size(s.drop_last(), v).push(s.last())
    }
}

pub proof fn lemma_with_size(s: Seq<usize>, v: usize)
    requires
        ascending(s),
    ensures
        ascending(with_size(s, v)),
        forall|x: usize| #[trigger] with_size(s, v).contains(x) <==> (s.contains(x) || x == v),
        s.contains(v) ==> with_size(s, v) == s,
    decreases s.len(),
{
    let r = with_size(s, v);
    if s.len() == 0 {
        assert(r[0] == v);
    } else if s.last() < v {
        assert(r[s.len() as int] == v);
        assert forall|x: usize| #[trigger] r.contains(x) <==> (s.contains(x) || x == v) by {
            if s.contains(x) {
                let k = choose|k: int| 0 <= k < s.len() && s[k] == x;
                assert(r[k] == x);
            }
            if r.contains(x) {
                let k = choose|k: int| 0 <= k < r.len() && r[k] == x;
                if k < s.len() {
                    assert(s[k] == x);
                }
            }
        }
    } else if s.last() == v {
        assert(s[s.len() - 1] == v);
    } else {
        let front = s.drop_last();
        lemma_with_size(front, v);
        let mid = with_size(front, v);
        assert forall|x: usize| #[trigger] r.contains(x) <==> (s.contains(x) || x == v) by {
            if r.contains(x) {
                let k = choose|k: int| 0 <= k < r.len() && r[k] == x;
                if k < mid.len() {
                    assert(mid.contains(mid[k]));
                    if front.contains(x) {
                        let j = choose|j: int| 0 <= j < front.len() && front[j] == x;
                        assert(s[j] == x);
                    }
                } else {
                    assert(s[s.len() - 1] == x);
                }
            }
            if s.contains(x) {
                let k = choose|k: int| 0 <= k < s.len() && s[k] == x;
                if k < front.len() {
                    assert(front[k] == x);
                    assert(mid.contains(x));
                    let j = choose|j: int| 0 <= j < mid.len() && mid[j] == x;
                    assert(r[j] == x);
                } else {
                    assert(r[mid.len() as int] == x);
                }
            }
            if x == v {
                assert(mid.contains(v));
                let j = choose|j: int| 0 <= j < mid.len() && mid[j] == v;
                assert(r[j] == v);
            }
        }
        assert forall|i: int, j: int| 0 <= i < j < r.len() implies r[i] < r[j] by {
            if j == mid.len() {
                assert(mid.contains(mid[i]));
                if front.contains(mid[i]) {
                    let k = choose|k: int| 0 <= k < front.len() && front[k] == mid[i];
                    assert(s[k] < s[s.len() - 1]);
                }
            }
        }
    }
    if s.contains(v) {
        lemma_ascending_unique(r, s);
    }
}

pub proof fn lemma_size_grows(s: Seq<usize>, v: usize)
    ensures
        with_size(s, v).len() <= s.len() + 1,
    decreases s.len(),
{
    if s.len() > 0 && s.last() > v {
        lemma_size_grows(s.drop_last(), v);
    }
}

/// The sizes of the circuits of the first `upto` of `ids`, each size
/// once, ascending.
pub open spec fn sizes_of<N, E>(g: GraphView<N, E>, ids: Seq<usize>, upto: int) -> Seq<usize>
    decreases upto,
{
    if upto <= 0 {
        Seq::empty()
    } else {
        with_size(sizes_of(g, ids, upto - 1), g.reach_of(ids[upto - 1]).len() as usize)
    }
}

pub proof fn lemma_sizes_of<N, E>(g: GraphView<N, E>, ids: Seq<usize>, upto: int)
    requires
        0 <= upto <= ids.len(),
    ensures
        ascending(sizes_of(g, ids, upto)),
        forall|k: int|
            0 <= k < upto ==> sizes_of(g, ids, upto).contains(
                g.reach_of(#[trigger] ids[k]).len() as usize,
            ),
    decreases upto,
{
    if upto > 0 {
        lemma_sizes_of(g, ids, upto - 1);
        lemma_with_size(sizes_of(g, ids, upto - 1), g.reach_of(ids[upto - 1]).len() as usize);
    }
}

/// The three greatest of `s` multiplied, or as many as there are.
pub open spec fn top_product(s: Seq<usize>) -> nat {
    let n = s.len() as int;
    ((if n >= 1 {
        s[n - 1] as nat
    } else {
        1nat
    }) * (if n >= 2 {
        s[n - 2] as nat
    } else {
        1nat
    })) * (if n >= 3 {
        s[n - 3] as nat
    } else {
        1nat
    })
}

/// Every node that a node of the graph reaches is a node of the graph.
pub proof fn lemma_reach_present<N, E>(g: GraphView<N, E>, from: usize, p: Seq<usize>, upto: int)
    requires
        g.ends_present(),
        g.nodes.contains_key(from),
        p.len() > 0,
        p[0] == from,
        forall|i: int| 0 <= i < p.len() - 1 ==> g.adjacent(#[trigger] p[i], p[i + 1]),
        0 <= upto < p.len(),
    ensures
        g.nodes.contains_key(p[upto]),
    decreases upto,
{
    if upto > 0 {
        assert(g.adjacent(p[upto - 1], p[upto]));
        assert(g.edges.contains_key(canonical(p[upto - 1], p[upto])));
    }
}

/// Puts `v` into `sizes`, which ascend, unless it is there.
fn put_size(sizes: &mut Vec<usize>, v: usize)
    requires
        ascending(old(sizes)@),
    ensures
        final(sizes)@ == with_size(old(sizes)@, v),
{
    let mut i: usize = 0;
    while i < sizes.len() && sizes[i] < v
        invariant
            i <= sizes@.len(),
            ascending(sizes@),
            forall|k: int| 0 <= k < i ==> sizes@[k] < v,
        decreases sizes@.len() - i,
    {
        i += 1;
    }
    let ghost before = sizes@;
    proof {
        lemma_with_size(before, v);
    }
    if i < sizes.len() && sizes[i] == v {
        proof {
            assert(before.contains(v));
        }
        return ;
    }
    sizes.insert(i, v);
    proof {
        let after = sizes@;
        assert forall|a: int, b: int| 0 <= a < b < after.len() implies after[a] < after[b] by {
            if a < i && b > i {
                assert(after[a] == before[a] && after[b] == before[b - 1]);
            }
        }
        assert forall|x: usize| after.contains(x) <==> with_size(before, v).contains(x) by {
            if after.contains(x) {
                let k = choose|k: int| 0 <= k < after.len() && after[k] == x;
                if k < i {
                    assert(before[k] == x);
                } else if k > i {
                    assert(before[k - 1] == x);
                }
            }
            if before.contains(x) {
                let k = choose|k: int| 0 <= k < before.len() && before[k] == x;
                if k < i {
                    assert(after[k] == x);
                } else {
                    assert(after[k + 1] == x);
                }
            }
            if x == v {
                assert(after[i as int] == v);
            }
        }
        lemma_ascending_unique(after, with_size(before, v));
    }
}

/// The sizes of the three largest circuits whose sizes differ,
/// multiplied. Every end of an edge must be a node, and the cube of the
/// number of identifiers must fit. `ids` names the nodes, ascending.
pub fn count_circuits<N>(graph: &Graph<N, ()>) -> (r: usize)
    requires
        graph.wf(),
        graph@.edges_in_range(),
        graph@.ends_present(),
        graph@.next * graph@.next * graph@.next <= usize::MAX,
    ensures
        exists|ids: Seq<usize>|
            ascending(ids) && (forall|id: usize| ids.contains(id) <==> graph@.nodes.contains_key(id))
                && r == top_product(sizes_of(graph@, ids, ids.len() as int)),
{
    let nodes = graph.nodes();
    let ghost ids = ids_of(nodes@);
    let g = Ghost(graph@);
    let mut visited: Vec<bool> = Vec::new();
    let bound = graph.id_bound();
    let mut b: usize = 0;
    while b < bound
        invariant
            b <= bound,
            visited@.len() == b,
            forall|k: int| 0 <= k < b ==> !visited@[k],
        decreases bound - b,
    {
        visited.push(false);
        b += 1;
    }
    let mut sizes: Vec<usize> = Vec::new();
    let mut i: usize = 0;
    while i < nodes.len()
        invariant
            i <= nodes@.len(),
            graph.wf(),
            graph@.edges_in_range(),
            graph@.ends_present(),
            g@ == graph@,
            ids == ids_of(nodes@),
            ascending(ids),
            forall|id: usize| #[trigger] ids.contains(id) <==> graph@.nodes.contains_key(id),
            visited@.len() == graph@.next,
            bound == graph@.next,
            nodes@.len() == ids.len(),
            forall|m: int|
                0 <= m < visited@.len() && #[trigger] visited@[m] ==> exists|j: int|
                    0 <= j < i && graph@.reachable(ids[j], m as usize),
            sizes@ == sizes_of(graph@, ids, i as int),
            sizes@.len() <= i,
            forall|k: int| 0 <= k < sizes@.len() ==> #[trigger] sizes@[k] <= graph@.next,
        decreases nodes@.len() - i,
    {
        let node = nodes[i].0;
        proof {
            assert(ids[i as int] == node);
            assert(ids.contains(node));
            lemma_sizes_of(graph@, ids, i as int);
            graph@.law_reach(node, node, node);
        }
        if visited[node] {
            proof {
                let j = choose|j: int| 0 <= j < i && graph@.reachable(ids[j], node);
                graph@.law_reach(ids[j], node, node);
                lemma_with_size(
                    sizes_of(graph@, ids, i as int),
                    graph@.reach_of(node).len() as usize,
                );
            }
        } else {
            proof {
                assert forall|n: usize| graph@.reachable(node, n) implies graph@.nodes.contains_key(
                    n,
                ) by {
                    let p = choose|p: Seq<usize>| graph@.is_route(node, n, p);
                    lemma_reach_present(graph@, node, p, p.len() - 1);
                }
                graph@.law_visit_count(node, SearchMode::BreadthFirst);
            }
            let seen = graph.visit(node, SearchMode::BreadthFirst);
            let count = seen.len();
            proof {
                assert(ids_of(seen@).len() == seen@.len());
                assert forall|x: int| 0 <= x < ids_of(seen@).len() implies #[trigger] ids_of(
                    seen@,
                )[x] < graph@.next by {
                    assert(graph@.reachable(node, seen@[x].0));
                }
                assert(ids_of(seen@).no_duplicates());
                lemma_ids_fit(ids_of(seen@), graph@.next);
                lemma_with_size(sizes@, count);
            }
            let ghost old_sizes = sizes@;
            let mut k: usize = 0;
            while k < seen.len()
                invariant
                    k <= seen@.len(),
                    visited@.len() == graph@.next,
                    forall|x: int|
                        0 <= x < seen@.len() ==> graph@.reachable(node, (#[trigger] seen@[x]).0)
                            && seen@[x].0 < graph@.next,
                    i < ids.len(),
                    ids[i as int] == node,
                    forall|m: int|
                        0 <= m < visited@.len() && #[trigger] visited@[m] ==> exists|j: int|
                            0 <= j < i + 1 && graph@.reachable(ids[j], m as usize),
                decreases seen@.len() - k,
            {
                let at = seen[k].0;
                visited[at] = true;
                k += 1;
            }
            put_size(&mut sizes, count);
            proof {
                lemma_size_grows(old_sizes, count);
                assert forall|k: int| 0 <= k < sizes@.len() implies #[trigger] sizes@[k]
                    <= graph@.next by {
                    assert(sizes@.contains(sizes@[k]));
                    if old_sizes.contains(sizes@[k]) {
                        let j = choose|j: int| 0 <= j < old_sizes.len() && old_sizes[j] == sizes@[k];
                    }
                }
            }
        }
        proof {
            assert forall|m: int| 0 <= m < visited@.len() && #[trigger] visited@[m] implies exists|
                j: int,
            |
                0 <= j < i + 1 && graph@.reachable(ids[j], m as usize) by {
                let j = choose|j: int| 0 <= j < i + 1 && graph@.reachable(ids[j], m as usize);
                assert(0 <= j < i + 1 && graph@.reachable(ids[j], m as usize));
            }
        }
        i += 1;
    }
    let n = sizes.len();
    proof {
        assert(ids.len() == nodes@.len());
        let m = graph@.next as int;
        let a = if n >= 1 {
            sizes@[n - 1] as int
        } else {
            1int
        };
        let bb = if n >= 2 {
            sizes@[n - 2] as int
        } else {
            1int
        };
        let c = if n >= 3 {
            sizes@[n - 3] as int
        } else {
            1int
        };
        if m == 0 {
            assert(n == 0) by {
                if nodes@.len() > 0 {
                    assert(ids.contains(ids[0]));
                }
            }
        } else {
            assert((a * bb) * c <= m * m * m) by (nonlinear_arith)
                requires
                    0 <= a <= m || a == 1,
                    0 <= bb <= m || bb == 1,
                    0 <= c <= m || c == 1,
                    m >= 1,
            ;
        }
        assert(top_product(sizes@) <= usize::MAX);
    }
    if n >= 3 && sizes[n - 3] == 0 {
        proof {
            let a = sizes@[n - 1] as nat;
            let bb = sizes@[n - 2] as nat;
            assert((a * bb) * 0 == 0) by (nonlinear_arith);
        }
        return 0;
    }
    proof {
        let a = if n >= 1 {
            sizes@[n - 1] as nat
        } else {
            1nat
        };
        let bb = if n >= 2 {
            sizes@[n - 2] as nat
        } else {
            1nat
        };
        let c = if n >= 3 {
            sizes@[n - 3] as nat
        } else {
            1nat
        };
        assert(a * bb <= usize::MAX) by (nonlinear_arith)
            requires
                (a * bb) * c <= usize::MAX,
                c >= 1,
                a >= 0,
                bb >= 0,
        ;
    }
    let mut product: usize = 1;
    if n >= 1 {
        product = product * sizes[n - 1];
    }
    if n >= 2 {
        product = product * sizes[n - 2];
    }
    if n >= 3 {
        product = product * sizes[n - 3];
    }
    product
}


/// Every identifier that was handed out has a node.
pub open spec fn dense<N, E>(g: GraphView<N, E>) -> bool {
    forall|id: usize| id < g.next ==> #[trigger] g.nodes.contains_key(id)
}

/// `list` holds the edges of `g` with their weights, by ascending ends.
pub open spec fn lists_edges<N>(g: GraphView<N, u64>, list: Seq<((usize, usize), u64)>) -> bool {
    &&& by_ends(list)
    &&& forall|i: int|
        0 <= i < list.len() ==> g.edges.contains_key((#[trigger] list[i]).0) && g.edges[list[i].0]
            == list[i].1
    &&& forall|k: (usize, usize)|
        g.edges.contains_key(k) ==> exists|i: int| 0 <= i < list.len() && (#[trigger] list[i]).0 == k
}

/// `sorted` holds the edges of `g` by ascending weight, and by ascending
/// ends among equal weights.
pub open spec fn sorts_edges<N>(g: GraphView<N, u64>, sorted: Seq<((usize, usize), u64)>) -> bool {
    &&& by_weight(sorted)
    &&& exists|list: Seq<((usize, usize), u64)>|
        lists_edges(g, list) && sorted.to_multiset() == list.to_multiset()
}

/// The graph `conn` with the edges of `s` from place `from` on set, one
/// after the other, up to the one with which the graph has `count`
/// edges.
pub open spec fn linked<N>(
    conn: GraphView<N, ()>,
    s: Seq<((usize, usize), u64)>,
    from: int,
    count: usize,
) -> GraphView<N, ()>
    decreases s.len() - from,
{
    if from < 0 || from >= s.len() {
        conn
    } else {
        let next = conn.with_edge(s[from].0.0, s[from].0.1, ());
        if next.edges.len() == count {
            next
        } else {
            linked(next, s, from + 1, count)
        }
    }
}

/// The graph of `g` without its edges.
pub open spec fn unwired<N>(g: GraphView<N, u64>) -> GraphView<N, ()> {
    GraphView { nodes: g.nodes, edges: Map::empty(), next: g.next }
}

/// The identifiers below `n`, ascending.
pub open spec fn iota(n: nat) -> Seq<usize> {
    Seq::new(n, |i: int| i as usize)
}

/// The edges of the graph with their weights, by ascending weight.
fn sorted_edges<N>(graph: &Graph<N, u64>) -> (r: Vec<((usize, usize), u64)>)
    requires
        graph.wf(),
    ensures
        sorts_edges(graph@, r@),
        forall|i: int| 0 <= i < r@.len() ==> graph@.edges.contains_key((#[trigger] r@[i]).0),
        forall|k: (usize, usize)|
            graph@.edges.contains_key(k) ==> exists|i: int|
                0 <= i < r@.len() && (#[trigger] r@[i]).0 == k,
{
    let found = graph.edges();
    let mut edges: Vec<((usize, usize), u64)> = Vec::new();
    let mut i: usize = 0;
    while i < found.len()
        invariant
            i <= found@.len(),
            edges@.len() == i,
            forall|k: int| 0 <= k < i ==> (#[trigger] edges@[k]).0 == found@[k].0 && edges@[k].1
                == *found@[k].1,
        decreases found@.len() - i,
    {
        edges.push((found[i].0, *found[i].1));
        i += 1;
    }
    let ghost list = edges@;
    proof {
        assert forall|a: int, b: int| 0 <= a < b < list.len() implies (#[trigger] list[a]).0.0 < (
        #[trigger] list[b]).0.0 || (list[a].0.0 == list[b].0.0 && list[a].0.1 < list[b].0.1) by {
            assert(keys_of(found@)[a] == list[a].0 && keys_of(found@)[b] == list[b].0);
        }
        assert forall|k: int| 0 <= k < list.len() implies graph@.edges.contains_key(
            (#[trigger] list[k]).0,
        ) && graph@.edges[list[k].0] == list[k].1 by {
            assert(keys_of(found@)[k] == list[k].0);
            assert(keys_of(found@).contains(list[k].0));
        }
        assert forall|k: (usize, usize)| graph@.edges.contains_key(k) implies exists|i: int|
            0 <= i < list.len() && (#[trigger] list[i]).0 == k by {
            assert(keys_of(found@).contains(k));
            let i = choose|i: int| 0 <= i < keys_of(found@).len() && keys_of(found@)[i] == k;
            assert(list[i].0 == k);
        }
        assert(lists_edges(graph@, list));
    }
    sort_by_weight(&mut edges);
    proof {
        broadcast use vstd::seq_lib::to_multiset_contains;

        assert forall|i: int| 0 <= i < edges@.len() implies graph@.edges.contains_key(
            (#[trigger] edges@[i]).0,
        ) by {
            assert(edges@.contains(edges@[i]));
            assert(edges@.to_multiset().count(edges@[i]) > 0);
            assert(list.contains(edges@[i]));
            let j = choose|j: int| 0 <= j < list.len() && list[j] == edges@[i];
        }
        assert forall|k: (usize, usize)| graph@.edges.contains_key(k) implies exists|i: int|
            0 <= i < edges@.len() && (#[trigger] edges@[i]).0 == k by {
            let j = choose|j: int| 0 <= j < list.len() && (#[trigger] list[j]).0 == k;
            assert(list.contains(list[j]));
            assert(list.to_multiset().count(list[j]) > 0);
            assert(edges@.contains(list[j]));
            let i = choose|i: int| 0 <= i < edges@.len() && edges@[i] == list[j];
            assert(edges@[i].0 == k);
        }
    }
    edges
}

/// The product of the sizes of the three largest circuits whose sizes
/// differ, after the shortest wires were laid, one after the other, up
/// to the one with which `count` pairs of boxes are wired. Every
/// identifier must have a node, and the cube of their number must fit.
pub fn part_one(graph: &Graph<Point, u64>, count: usize) -> (r: usize)
    requires
        graph.wf(),
        graph@.edges_in_range(),
        dense(graph@),
        graph@.next * graph@.next * graph@.next <= usize::MAX,
    ensures
        exists|sorted: Seq<((usize, usize), u64)>|
            sorts_edges(graph@, sorted) && r == top_product(
                sizes_of(
                    linked(unwired(graph@), sorted, 0, count),
                    iota(graph@.next),
                    graph@.next as int,
                ),
            ),
{
    let mut connections: Graph<Point, ()> = Graph::new();
    let nodes = graph.nodes();
    let bound = graph.id_bound();
    let ghost ids = ids_of(nodes@);
    proof {
        // The nodes come by ascending identifier, and every identifier
        // has one: the identifiers are the numbers below `next`.
        assert forall|id: usize| ids.contains(id) <==> iota(graph@.next).contains(id) by {
            if id < graph@.next {
                assert(iota(graph@.next)[id as int] == id);
            }
            if iota(graph@.next).contains(id) {
                let k = choose|k: int| 0 <= k < graph@.next && iota(graph@.next)[k] == id;
            }
        }
        lemma_ascending_unique(ids, iota(graph@.next));
        assert(ids.len() == nodes@.len());
        assert(iota(graph@.next).len() == graph@.next);
    }
    let mut i: usize = 0;
    while i < nodes.len()
        invariant
            i <= nodes@.len(),
            bound == graph@.next,
            nodes@.len() == graph@.next,
            ids_of(nodes@) == iota(graph@.next),
            forall|k: int| 0 <= k < nodes@.len() ==> *(#[trigger] nodes@[k]).1
                == graph@.nodes[nodes@[k].0],
            connections.wf(),
            connections@.next == i,
            connections@.edges == Map::<(usize, usize), ()>::empty(),
            forall|id: usize| connections@.nodes.contains_key(id) <==> id < i,
            forall|id: usize| id < i ==> connections@.nodes[id] == graph@.nodes[id],
        decreases nodes@.len() - i,
    {
        proof {
            assert(ids_of(nodes@)[i as int] == i);
        }
        connections.add_node(*nodes[i].1);
        i += 1;
    }
    proof {
        assert(connections@.nodes =~= graph@.nodes);
        assert(connections@ == unwired(graph@));
    }
    let edges = sorted_edges(graph);
    let mut e: usize = 0;
    while e < edges.len()
        invariant_except_break
            linked(unwired(graph@), edges@, 0, count) == linked(
                connections@,
                edges@,
                e as int,
                count,
            ),
        invariant
            e <= edges@.len(),
            graph.wf(),
            graph@.edges_in_range(),
            dense(graph@),
            forall|k: int| 0 <= k < edges@.len() ==> graph@.edges.contains_key((#[trigger] edges@[k]).0),
            connections.wf(),
            connections@.edges_in_range(),
            connections@.ends_present(),
            connections@.nodes == graph@.nodes,
            connections@.next == graph@.next,
        ensures
            connections.wf(),
            connections@.edges_in_range(),
            connections@.ends_present(),
            connections@.next == graph@.next,
            connections@ == linked(unwired(graph@), edges@, 0, count),
        decreases edges@.len() - e,
    {
        let (from, to) = edges[e].0;
        proof {
            assert(graph@.edges.contains_key(edges@[e as int].0));
        }
        connections.add_edge(from, to, ());
        let num_edges = connections.num_edges();
        if num_edges == count {
            break ;
        }
        e += 1;
    }
    let r = count_circuits(&connections);
    proof {
        let g = connections@;
        let found = choose|found: Seq<usize>|
            ascending(found) && (forall|id: usize| found.contains(id) <==> g.nodes.contains_key(id))
                && r == top_product(sizes_of(g, found, found.len() as int));
        assert forall|id: usize| found.contains(id) <==> iota(graph@.next).contains(id) by {
            if id < graph@.next {
                assert(iota(graph@.next)[id as int] == id);
            }
            if iota(graph@.next).contains(id) {
                let k = choose|k: int| 0 <= k < graph@.next && iota(graph@.next)[k] == id;
            }
        }
        lemma_ascending_unique(found, iota(graph@.next));
    }
    r
}

/// How many of `s` are set.
pub open spec fn count_true(s: Seq<bool>) -> nat
    decreases s.len(),
{
    if s.len() == 0 {
        0
    } else {
        count_true(s.drop_last()) + if s.last() {
            1nat
        } else {
            0nat
        }
    }
}

pub proof fn lemma_count_true(s: Seq<bool>)
    ensures
        count_true(s) <= s.len(),
        count_true(s) == s.len() <==> forall|i: int| 0 <= i < s.len() ==> s[i],
    decreases s.len(),
{
    if s.len() > 0 {
        lemma_count_true(s.drop_last());
        let front = s.drop_last();
        if count_true(s) == s.len() {
            assert forall|i: int| 0 <= i < s.len() implies s[i] by {
                if i < front.len() {
                    assert(front[i] == s[i]);
                }
            }
        }
        if forall|i: int| 0 <= i < s.len() ==> s[i] {
            assert forall|i: int| 0 <= i < front.len() implies front[i] by {
                assert(front[i] == s[i]);
            }
        }
    }
}

pub proof fn lemma_count_set(s: Seq<bool>, at: int)
    requires
        0 <= at < s.len(),
        !s[at],
    ensures
        count_true(s.update(at, true)) == count_true(s) + 1,
    decreases s.len(),
{
    let t = s.update(at, true);
    if at == s.len() - 1 {
        assert(t.drop_last() =~= s.drop_last());
    } else {
        assert(t.drop_last() =~= s.drop_last().update(at, true));
        lemma_count_set(s.drop_last(), at);
    }
}

/// Whether some edge of `g` ends at `id`.
pub open spec fn has_wire<N>(g: GraphView<N, u64>, id: usize) -> bool {
    exists|k: (usize, usize)| #[trigger] g.edges.contains_key(k) && (k.0 == id || k.1 == id)
}

/// Whether one of the first `upto` edges of `s` ends at `id`.
pub open spec fn touched(s: Seq<((usize, usize), u64)>, upto: int, id: int) -> bool {
    exists|j: int| 0 <= j < upto && j < s.len() && ((#[trigger] s[j]).0.0 == id || s[j].0.1 == id)
}

/// Whether with the first `upto` edges of `s` every one of `n` boxes is
/// wired.
pub open spec fn all_wired(s: Seq<((usize, usize), u64)>, upto: int, n: nat) -> bool {
    forall|id: int| 0 <= id < n ==> #[trigger] touched(s, upto, id)
}

/// The first coordinates of the two boxes, multiplied, between which the
/// wire runs with which every box is wired, when the shortest wires are
/// laid one after the other. There must be a box, every identifier must
/// have a node, every box must be at an end of some edge, and the first
/// coordinates must fit.
pub fn part_two(graph: &Graph<Point, u64>) -> (r: u64)
    requires
        graph.wf(),
        graph@.edges_in_range(),
        dense(graph@),
        graph@.next > 0,
        forall|id: usize| id < graph@.next ==> #[trigger] has_wire(graph@, id),
        forall|id: usize|
            id < graph@.next ==> -REACH <= (#[trigger] graph@.nodes[id])@[0] <= REACH,
    ensures
        exists|sorted: Seq<((usize, usize), u64)>, last: int|
            {
                &&& sorts_edges(graph@, sorted)
                &&& 0 <= last < sorted.len()
                &&& all_wired(sorted, last + 1, graph@.next)
                &&& !all_wired(sorted, last, graph@.next)
                &&& r == (graph@.nodes[sorted[last].0.0]@[0] * graph@.nodes[sorted[last].0.1]@[0]) as u64
            },
{
    let edges = sorted_edges(graph);
    let bound = graph.id_bound();
    proof {
        graph@.law_dense_ids();
    }
    let target_count = graph.num_nodes();
    let mut visited: Vec<bool> = Vec::new();
    let mut b: usize = 0;
    while b < bound
        invariant
            b <= bound,
            visited@.len() == b,
            forall|k: int| 0 <= k < b ==> !visited@[k],
        decreases bound - b,
    {
        visited.push(false);
        b += 1;
    }
    let mut connected: usize = 0;
    let mut e: usize = 0;
    proof {
        assert(!touched(edges@, 0, 0));
        lemma_count_true(visited@);
        assert(count_true(visited@) == 0) by {
            lemma_none_true(visited@);
        }
    }
    while e < edges.len()
        invariant
            e <= edges@.len(),
            graph.wf(),
            graph@.edges_in_range(),
            dense(graph@),
            bound == graph@.next,
            target_count == graph@.next,
            bound > 0,
            sorts_edges(graph@, edges@),
            forall|k: int| 0 <= k < edges@.len() ==> graph@.edges.contains_key((#[trigger] edges@[k]).0),
            forall|k: (usize, usize)|
                graph@.edges.contains_key(k) ==> exists|i: int|
                    0 <= i < edges@.len() && (#[trigger] edges@[i]).0 == k,
            forall|id: usize| id < graph@.next ==> #[trigger] has_wire(graph@, id),
            forall|id: usize|
                id < graph@.next ==> -REACH <= (#[trigger] graph@.nodes[id])@[0] <= REACH,
            visited@.len() == bound,
            connected == count_true(visited@),
            forall|m: int| 0 <= m < bound ==> (#[trigger] visited@[m] <==> touched(edges@, e as int, m)),
            !all_wired(edges@, e as int, graph@.next),
        decreases edges@.len() - e,
    {
        let (from, to) = edges[e].0;
        proof {
            assert(graph@.edges.contains_key(edges@[e as int].0));
            lemma_count_true(visited@);
        }
        if !visited[from] {
            proof {
                lemma_count_set(visited@, from as int);
            }
            connected += 1;
            visited[from] = true;
        }
        proof {
            lemma_count_true(visited@);
        }
        if !visited[to] {
            proof {
                lemma_count_set(visited@, to as int);
            }
            connected += 1;
            visited[to] = true;
        }
        proof {
            lemma_count_true(visited@);
            assert forall|m: int| 0 <= m < bound implies (#[trigger] visited@[m] <==> touched(
                edges@,
                e + 1,
                m,
            )) by {
                if touched(edges@, e as int, m) {
                    let j = choose|j: int|
                        0 <= j < e && j < edges@.len() && ((#[trigger] edges@[j]).0.0 == m
                            || edges@[j].0.1 == m);
                    assert(0 <= j < e + 1 && (edges@[j].0.0 == m || edges@[j].0.1 == m));
                }
                if m == from || m == to {
                    assert(edges@[e as int].0.0 == m || edges@[e as int].0.1 == m);
                }
                if touched(edges@, e + 1, m) {
                    let j = choose|j: int|
                        0 <= j < e + 1 && j < edges@.len() && ((#[trigger] edges@[j]).0.0 == m
                            || edges@[j].0.1 == m);
                    if j < e {
                        assert(touched(edges@, e as int, m));
                    }
                }
            }
        }
        if connected >= target_count {
            let a = match graph.get_node(from) {
                Some(node) => node.x(),
                None => 0,
            };
            let c = match graph.get_node(to) {
                Some(node) => node.x(),
                None => 0,
            };
            proof {
                assert(graph@.nodes.contains_key(from) && graph@.nodes.contains_key(to));
                assert(-REACH <= graph@.nodes[from]@[0] <= REACH);
                assert(-REACH <= graph@.nodes[to]@[0] <= REACH);
                assert(-640_000_000_000_000_000 <= a * c <= 640_000_000_000_000_000)
                    by (nonlinear_arith)
                    requires
                        -800_000_000 <= a <= 800_000_000,
                        -800_000_000 <= c <= 800_000_000,
                ;
                assert(all_wired(edges@, e + 1, graph@.next)) by {
                    assert forall|id: int| 0 <= id < graph@.next implies #[trigger] touched(
                        edges@,
                        e + 1,
                        id,
                    ) by {
                        assert(visited@[id]);
                    }
                }
            }
            #[verifier::truncate]
            let r = (a * c) as u64;
            return r;
        }
        proof {
            // Not every box is wired yet: one is not set.
            let m = choose|m: int| 0 <= m < visited@.len() && !visited@[m];
            assert(!touched(edges@, e + 1, m));
        }
        e += 1;
    }
    proof {
        // Every box is at an end of some edge, and all edges were laid.
        let m = choose|m: int| 0 <= m < graph@.next && !touched(edges@, edges@.len() as int, m);
        assert(has_wire(graph@, m as usize));
        let k = choose|k: (usize, usize)|
            #[trigger] graph@.edges.contains_key(k) && (k.0 == m || k.1 == m);
        let i = choose|i: int| 0 <= i < edges@.len() && (#[trigger] edges@[i]).0 == k;
        assert(edges@[i].0.0 == m || edges@[i].0.1 == m);
        assert(false);
    }
    0
}

pub proof fn lemma_none_true(s: Seq<bool>)
    requires
        forall|i: int| 0 <= i < s.len() ==> !s[i],
    ensures
        count_true(s) == 0,
    decreases s.len(),
{
    if s.len() > 0 {
        let front = s.drop_last();
        assert forall|i: int| 0 <= i < front.len() implies !front[i] by {
            assert(front[i] == s[i]);
        }
        lemma_none_true(front);
    }
}

} // verus!
