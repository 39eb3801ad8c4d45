use crate::grid::{lines_of, Grid, GridView};
use crate::text::{chars_of, find_char, parse_i64, place_of, signed_of, slice_of, split_lines};
use crate::vex::Vex;
use vstd::prelude::*;

verus! {

/// The point that a line writes: a number, a comma, a number.
pub open spec fn point_of(line: Seq<char>) -> Option<(i64, i64)> {
    let comma = place_of(line, ',', 0);
    if comma >= line.len() {
        None
    } else {
        match (signed_of(line.subrange(0, comma)), signed_of(line.subrange(comma + 1, line.len() as int))) {
            (Some(x), Some(y)) => Some((x, y)),
            _ => None,
        }
    }
}

/// The points that `lines` write; a line that writes none is passed over.
pub open spec fn points_of(lines: Seq<Seq<char>>) -> Seq<(i64, i64)>
    decreases lines.len(),
{
    if lines.len() == 0 {
        Seq::empty()
    } else {
        match point_of(lines.last()) {
            Some(p) => points_of(lines.drop_last()).push(p),
            None => points_of(lines.drop_last()),
        }
    }
}

/// The two numbers of each of `points`.
pub open spec fn pairs_of(points: Seq<Vex<i64, 2>>) -> Seq<(i64, i64)> {
    Seq::new(points.len(), |i: int| (points[i]@[0], points[i]@[1]))
}

/// Reads the points, one to a line.
pub fn parse(input: &str) -> (r: Vec<Vex<i64, 2>>)
    ensures
        pairs_of(r@) == points_of(lines_of(input@)),
{
    let lines = split_lines(&chars_of(input));
    let ghost all = lines_of(input@);
    let mut out: Vec<Vex<i64, 2>> = Vec::new();
    let mut i: usize = 0;
    proof {
        assert(all.take(0) =~= Seq::<Seq<char>>::empty());
        assert(pairs_of(out@) =~= Seq::<(i64, i64)>::empty());
    }
    while i < lines.len()
        invariant
            i <= lines@.len(),
            lines@.len() == all.len(),
            forall|k: int| 0 <= k < all.len() ==> (#[trigger] lines@[k])@ == all[k],
            pairs_of(out@) == points_of(all.take(i as int)),
        decreases lines@.len() - i,
    {
        let line = &lines[i];
        proof {
            assert(all.take(i + 1).drop_last() =~= all.take(i as int));
            assert(all.take(i + 1).last() == line@);
        }
        let comma = find_char(line, ',');
        if comma < line.len() {
            let x = parse_i64(&slice_of(line, 0, comma));
            let y = parse_i64(&slice_of(line, comma + 1, line.len()));
            match (x, y) {
                (Some(x), Some(y)) => {
                    let ghost before = out@;
                    out.push(Vex::new([x, y]));
                    proof {
                        assert(pairs_of(out@) =~= pairs_of(before).push((x, y)));
                    }
                },
                _ => {},
            }
        }
        i += 1;
    }
    proof {
        assert(all.take(all.len() as int) =~= all);
    }
    out
}

/// How far two numbers lie apart.
pub open spec fn apart(a: i64, b: i64) -> nat {
    if a >= b {
        (a - b) as nat
    } else {
        (b - a) as nat
    }
}

/// The tiles of the rectangle with `a` and `b` at opposite corners.
pub open spec fn rect_of(a: (i64, i64), b: (i64, i64)) -> nat {
    (apart(a.0, b.0) + 1) * (apart(a.1, b.1) + 1)
}

fn gap(a: i64, b: i64) -> (r: u64)
    ensures
        r == apart(a, b),
{
    if a >= b {
        (a as i128 - b as i128) as u64
    } else {
        (b as i128 - a as i128) as u64
    }
}

/// The tiles of the rectangle with `a` and `b` at opposite corners. Their
/// number must fit.
pub fn compute_rect(a: &Vex<i64, 2>, b: &Vex<i64, 2>) -> (r: u64)
    requires
        rect_of((a@[0], a@[1]), (b@[0], b@[1])) <= u64::MAX,
    ensures
        r == rect_of((a@[0], a@[1]), (b@[0], b@[1])),
{
    let xdiff = gap(a.0[0], b.0[0]);
    let ydiff = gap(a.0[1], b.0[1]);
    proof {
        let w = apart(a@[0], b@[0]) + 1;
        let h = apart(a@[1], b@[1]) + 1;
        assert(w <= w * h && h <= w * h) by (nonlinear_arith)
            requires
                w >= 1,
                h >= 1,
        ;
    }
    (xdiff + 1) * (ydiff + 1)
}

/// The largest rectangle among the first `upto` pairs of points, where
/// the pairs are counted row by row, and a pair of equal points is no
/// rectangle.
pub open spec fn largest(points: Seq<(i64, i64)>, upto: int) -> nat
    decreases upto,
{
    if upto <= 0 || points.len() == 0 {
        0
    } else {
        let before = largest(points, upto - 1);
        let a = points[(upto - 1) / (points.len() as int)];
        let b = points[(upto - 1) % (points.len() as int)];
        if a != b && rect_of(a, b) > before {
            rect_of(a, b)
        } else {
            before
        }
    }
}

/// The largest rectangle with two of the points at opposite corners.
pub fn part_one(points: &Vec<Vex<i64, 2>>) -> (r: u64)
    requires
        forall|i: int, j: int|
            0 <= i < points@.len() && 0 <= j < points@.len() ==> rect_of(
                #[trigger] pairs_of(points@)[i],
                #[trigger] pairs_of(points@)[j],
            ) <= u64::MAX,
    ensures
        r == largest(pairs_of(points@), (points@.len() * points@.len()) as int),
{
    let n = points.len();
    let ghost pairs = pairs_of(points@);
    let mut best: u64 = 0;
    let mut i: usize = 0;
    proof {
        assert(0 * n == 0) by (nonlinear_arith);
    }
    while i < n
        invariant
            i <= n,
            n == points@.len(),
            pairs == pairs_of(points@),
            forall|a: int, b: int|
                0 <= a < n && 0 <= b < n ==> rect_of(#[trigger] pairs[a], #[trigger] pairs[b])
                    <= u64::MAX,
            best == largest(pairs, i * n),
        decreases n - i,
    {
        let mut j: usize = 0;
        while j < n
            invariant
                i < n,
                j <= n,
                n == points@.len(),
                pairs == pairs_of(points@),
                forall|a: int, b: int|
                    0 <= a < n && 0 <= b < n ==> rect_of(#[trigger] pairs[a], #[trigger] pairs[b])
                        <= u64::MAX,
                best == largest(pairs, i * n + j),
            decreases n - j,
        {
            let v1 = &points[i];
            let v2 = &points[j];
            proof {
                vstd::arithmetic::div_mod::lemma_fundamental_div_mod_converse(
                    i * n + j,
                    n as int,
                    i as int,
                    j as int,
                );
                assert(pairs[i as int] == (v1@[0], v1@[1]));
                assert(pairs[j as int] == (v2@[0], v2@[1]));
                assert(rect_of(pairs[i as int], pairs[j as int]) <= u64::MAX);
            }
            if !(v1.0[0] == v2.0[0] && v1.0[1] == v2.0[1]) {
                let area = compute_rect(v1, v2);
                if area > best {
                    best = area;
                }
            }
            j += 1;
        }
        proof {
            assert((i + 1) * n == i * n + n) by (nonlinear_arith);
        }
        i += 1;
    }
    best
}

/// How a tile of the floor lies to the outline that the points draw.
#[derive(Clone, Copy, PartialEq, Eq, Debug)]
pub enum Tile {
    Outside,
    Inside,
    Edge,
}

/// How many of the first `upto` of `values` lie below `v`.
pub open spec fn lower(values: Seq<i64>, v: i64, upto: int) -> nat
    decreases upto,
{
    if upto <= 0 {
        0
    } else {
        lower(values, v, upto - 1) + if values[upto - 1] < v {
            1nat
        } else {
            0nat
        }
    }
}

proof fn lemma_lower(values: Seq<i64>, v: i64, upto: int)
    requires
        0 <= upto,
    ensures
        lower(values, v, upto) <= upto,
    decreases upto,
{
    if upto > 0 {
        lemma_lower(values, v, upto - 1);
    }
}

/// The first numbers of `points`.
pub open spec fn firsts(points: Seq<(i64, i64)>) -> Seq<i64> {
    Seq::new(points.len(), |i: int| points[i].0)
}

/// The second numbers of `points`.
pub open spec fn seconds(points: Seq<(i64, i64)>) -> Seq<i64> {
    Seq::new(points.len(), |i: int| points[i].1)
}

/// Where each point lies on a floor that keeps the order of the points
/// along both axes and leaves the distances out: along each axis, one
/// more than the number of points that lie below it.
pub open spec fn corners_of(points: Seq<(i64, i64)>) -> Seq<(int, int)> {
    Seq::new(
        points.len(),
        |i: int|
            (
                (lower(firsts(points), points[i].0, points.len() as int) + 1) as int,
                (lower(seconds(points), points[i].1, points.len() as int) + 1) as int,
            ),
    )
}

/// The places of `corners` as numbers.
pub open spec fn places_of(corners: Seq<(usize, usize)>) -> Seq<(int, int)> {
    Seq::new(corners.len(), |i: int| (corners[i].0 as int, corners[i].1 as int))
}

/// The corners of the points, as `corners_of` tells them.
fn compress(points: &Vec<Vex<i64, 2>>) -> (r: Vec<(usize, usize)>)
    requires
        points@.len() < usize::MAX,
    ensures
        r@.len() == points@.len(),
        places_of(r@) == corners_of(pairs_of(points@)),
        forall|i: int|
            0 <= i < r@.len() ==> 1 <= (#[trigger] r@[i]).0 <= points@.len() + 1 && 1
                <= r@[i].1 <= points@.len() + 1,
{
    let n = points.len();
    let ghost pairs = pairs_of(points@);
    let mut out: Vec<(usize, usize)> = Vec::new();
    let mut i: usize = 0;
    while i < n
        invariant
            i <= n,
            n == points@.len(),
            n < usize::MAX,
            pairs == pairs_of(points@),
            out@.len() == i,
            forall|k: int| 0 <= k < i ==> places_of(out@)[k] == corners_of(pairs)[k],
            forall|k: int|
                0 <= k < i ==> 1 <= (#[trigger] out@[k]).0 <= n + 1 && 1 <= out@[k].1 <= n + 1,
        decreases n - i,
    {
        let x = points[i].0[0];
        let y = points[i].0[1];
        let mut below_x: usize = 0;
        let mut below_y: usize = 0;
        let mut k: usize = 0;
        while k < n
            invariant
                k <= n,
                i < n,
                n == points@.len(),
                pairs == pairs_of(points@),
                x == pairs[i as int].0,
                y == pairs[i as int].1,
                below_x == lower(firsts(pairs), x, k as int),
                below_y == lower(seconds(pairs), y, k as int),
                below_x <= k,
                below_y <= k,
            decreases n - k,
        {
            if points[k].0[0] < x {
                below_x += 1;
            }
            if points[k].0[1] < y {
                below_y += 1;
            }
            k += 1;
        }
        out.push((below_x + 1, below_y + 1));
        i += 1;
    }
    proof {
        assert(places_of(out@) =~= corners_of(pairs));
    }
    out
}

/// Whether `x` lies between `a` and `b`, the two counted in.
pub open spec fn between(a: int, b: int, x: int) -> bool {
    (a <= x <= b) || (b <= x <= a)
}

/// Whether the tile `t` lies on the line from `a` to `b`. A line that
/// runs along neither axis has no tiles.
pub open spec fn on_line(a: (int, int), b: (int, int), t: (int, int)) -> bool {
    if a.0 == b.0 {
        t.0 == a.0 && between(a.1, b.1, t.1)
    } else if a.1 == b.1 {
        t.1 == a.1 && between(a.0, b.0, t.0)
    } else {
        false
    }
}

/// Whether the tile `t` lies on one of the first `upto` lines that run
/// from a corner to the next.
pub open spec fn on_lines(corners: Seq<(int, int)>, upto: int, t: (int, int)) -> bool {
    exists|k: int|
        0 <= k < upto && k + 1 < corners.len() && on_line(#[trigger] corners[k], corners[k + 1], t)
}

/// Whether the tile `t` lies on the outline: on a line from a corner to
/// the next, or on the line between the first corner and the last.
pub open spec fn on_outline(corners: Seq<(int, int)>, t: (int, int)) -> bool {
    corners.len() > 0 && (on_lines(corners, corners.len() - 1, t) || on_line(
        corners.first(),
        corners.last(),
        t,
    ))
}

/// The floor of `size` by `size` tiles with the outline drawn on it.
pub open spec fn plan_of(corners: Seq<(int, int)>, size: nat) -> GridView<Tile> {
    GridView {
        data: Seq::new(
            size * size,
            |k: int|
                if on_outline(corners, (k / (size as int), k % (size as int))) {
                    Tile::Edge
                } else {
                    Tile::Inside
                },
        ),
        rows: size,
        cols: size,
    }
}

/// Puts `tile` at `row` and `col`.
fn put(grid: &mut Grid<Tile>, row: usize, col: usize, tile: Tile)
    requires
        old(grid).wf(),
        old(grid)@.has(row as int, col as int),
    ensures
        final(grid).wf(),
        final(grid)@.rows == old(grid)@.rows,
        final(grid)@.cols == old(grid)@.cols,
        final(grid)@.data == old(grid)@.data.update(row * old(grid)@.cols + col, tile),
        forall|r: int, c: int|
            final(grid)@.has(r, c) ==> #[trigger] final(grid)@.cell(r, c) == if r == row && c
                == col {
                tile
            } else {
                old(grid)@.cell(r, c)
            },
{
    let ghost before = grid@;
    grid.set(row, col, tile);
    proof {
        assert forall|r: int, c: int| grid@.has(r, c) implies #[trigger] grid@.cell(r, c) == if r
            == row && c == col {
            tile
        } else {
            before.cell(r, c)
        } by {
            before.lemma_index(r, c);
            before.lemma_index(row as int, col as int);
        }
    }
}

/// Draws the line from `a` to `b`.
fn draw(grid: &mut Grid<Tile>, a: (usize, usize), b: (usize, usize))
    requires
        old(grid).wf(),
        old(grid)@.has(a.0 as int, a.1 as int),
        old(grid)@.has(b.0 as int, b.1 as int),
    ensures
        final(grid).wf(),
        final(grid)@.rows == old(grid)@.rows,
        final(grid)@.cols == old(grid)@.cols,
        forall|r: int, c: int|
            final(grid)@.has(r, c) ==> #[trigger] final(grid)@.cell(r, c) == if on_line(
                (a.0 as int, a.1 as int),
                (b.0 as int, b.1 as int),
                (r, c),
            ) {
                Tile::Edge
            } else {
                old(grid)@.cell(r, c)
            },
{
    let ghost before = grid@;
    let rows = grid.rows();
    let cols = grid.cols();
    if a.0 == b.0 {
        let lo = if a.1 <= b.1 {
            a.1
        } else {
            b.1
        };
        let hi = if a.1 <= b.1 {
            b.1
        } else {
            a.1
        };
        let mut y = lo;
        while y <= hi
            invariant
                lo <= y <= hi + 1,
                hi < cols == before.cols,
                a.0 < before.rows,
                grid.wf(),
                grid@.rows == before.rows,
                grid@.cols == before.cols,
                forall|r: int, c: int|
                    grid@.has(r, c) ==> #[trigger] grid@.cell(r, c) == if r == a.0 && lo <= c < y {
                        Tile::Edge
                    } else {
                        before.cell(r, c)
                    },
            decreases hi + 1 - y,
        {
            put(grid, a.0, y, Tile::Edge);
            y += 1;
        }
    } else if a.1 == b.1 {
        let lo = if a.0 <= b.0 {
            a.0
        } else {
            b.0
        };
        let hi = if a.0 <= b.0 {
            b.0
        } else {
            a.0
        };
        let mut x = lo;
        while x <= hi
            invariant
                lo <= x <= hi + 1,
                hi < rows == before.rows,
                a.1 < before.cols,
                grid.wf(),
                grid@.rows == before.rows,
                grid@.cols == before.cols,
                forall|r: int, c: int|
                    grid@.has(r, c) ==> #[trigger] grid@.cell(r, c) == if c == a.1 && lo <= r < x {
                        Tile::Edge
                    } else {
                        before.cell(r, c)
                    },
            decreases hi + 1 - x,
        {
            put(grid, x, a.1, Tile::Edge);
            x += 1;
        }
    }
}

proof fn lemma_on_lines(corners: Seq<(int, int)>, upto: int, t: (int, int))
    requires
        0 <= upto,
        upto + 1 < corners.len(),
    ensures
        on_lines(corners, upto + 1, t) == (on_lines(corners, upto, t) || on_line(
            corners[upto],
            corners[upto + 1],
            t,
        )),
{
    if on_lines(corners, upto + 1, t) {
        let k = choose|k: int|
            0 <= k < upto + 1 && k + 1 < corners.len() && on_line(
                #[trigger] corners[k],
                corners[k + 1],
                t,
            );
        if k < upto {
            assert(on_lines(corners, upto, t));
        }
    }
    if on_lines(corners, upto, t) {
        let k = choose|k: int|
            0 <= k < upto && k + 1 < corners.len() && on_line(
                #[trigger] corners[k],
                corners[k + 1],
                t,
            );
        assert(0 <= k < upto + 1 && k + 1 < corners.len() && on_line(
            corners[k],
            corners[k + 1],
            t,
        ));
    }
    if on_line(corners[upto], corners[upto + 1], t) {
        assert(0 <= upto < upto + 1 && upto + 1 < corners.len() && on_line(
            corners[upto],
            corners[upto + 1],
            t,
        ));
    }
}

/// The floor of `size` by `size` tiles with the outline of `corners`
/// drawn on it.
fn plan(corners: &Vec<(usize, usize)>, size: usize) -> (g: Grid<Tile>)
    requires
        size * size <= usize::MAX,
        corners@.len() > 0,
        forall|i: int|
            0 <= i < corners@.len() ==> (#[trigger] corners@[i]).0 < size && corners@[i].1 < size,
    ensures
        g.wf(),
        g@ == plan_of(places_of(corners@), size as nat),
{
    let mut grid = Grid::new(size, size, Tile::Inside);
    let ghost cs = places_of(corners@);
    let n = corners.len();
    let mut k: usize = 0;
    proof {
        assert forall|r: int, c: int| grid@.has(r, c) implies #[trigger] grid@.cell(r, c)
            == Tile::Inside by {
            grid@.lemma_index(r, c);
        }
    }
    while k + 1 < n
        invariant
            k < n,
            n == corners@.len(),
            cs == places_of(corners@),
            forall|i: int|
                0 <= i < corners@.len() ==> (#[trigger] corners@[i]).0 < size && corners@[i].1
                    < size,
            grid.wf(),
            grid@.rows == size,
            grid@.cols == size,
            forall|r: int, c: int|
                grid@.has(r, c) ==> #[trigger] grid@.cell(r, c) == if on_lines(cs, k as int, (r, c)) {
                    Tile::Edge
                } else {
                    Tile::Inside
                },
        decreases n - k,
    {
        let a = corners[k];
        let b = corners[k + 1];
        draw(&mut grid, a, b);
        proof {
            assert forall|r: int, c: int| grid@.has(r, c) implies #[trigger] grid@.cell(r, c)
                == if on_lines(cs, k + 1, (r, c)) {
                Tile::Edge
            } else {
                Tile::Inside
            } by {
                lemma_on_lines(cs, k as int, (r, c));
            }
        }
        k += 1;
    }
    let a = corners[0];
    let b = corners[n - 1];
    draw(&mut grid, a, b);
    proof {
        let want = plan_of(cs, size as nat);
        assert(grid@.data.len() == want.data.len());
        assert forall|i: int| 0 <= i < grid@.data.len() implies grid@.data[i] == want.data[i] by {
            grid@.lemma_place(i);
            let r = i / (size as int);
            let c = i % (size as int);
            assert(grid@.cell(r, c) == grid@.data[i]);
            assert(cs.first() == (a.0 as int, a.1 as int));
            assert(cs.last() == (b.0 as int, b.1 as int));
        }
        assert(grid@.data =~= want.data);
    }
    grid
}

/// Whether two tiles lie side by side.
pub open spec fn next_to(a: (int, int), b: (int, int)) -> bool {
    (a.0 == b.0 && (a.1 == b.1 + 1 || b.1 == a.1 + 1)) || (a.1 == b.1 && (a.0 == b.0 + 1 || b.0
        == a.0 + 1))
}

/// Whether `t` is a tile of the floor that is marked as inside.
pub open spec fn free(g: GridView<Tile>, t: (int, int)) -> bool {
    g.has(t.0, t.1) && g.cell(t.0, t.1) == Tile::Inside
}

/// Whether `path` leads from the first tile of the floor over tiles
/// marked as inside, from each to one beside it.
pub open spec fn free_way(g: GridView<Tile>, path: Seq<(int, int)>) -> bool {
    &&& path.len() > 0
    &&& path[0] == (0int, 0int)
    &&& forall|k: int| 0 <= k < path.len() ==> free(g, #[trigger] path[k])
    &&& forall|k: int| 0 <= k < path.len() - 1 ==> next_to(#[trigger] path[k], path[k + 1])
}

/// Whether such a way leads to `t`.
pub open spec fn open_to(g: GridView<Tile>, t: (int, int)) -> bool {
    exists|path: Seq<(int, int)>| free_way(g, path) && path.last() == t
}

/// The floor after the flood: every tile that a way over tiles marked as
/// inside leads to from the first tile is outside; the others are as
/// they were.
pub open spec fn flood_of(g: GridView<Tile>) -> GridView<Tile> {
    GridView {
        data: Seq::new(
            g.data.len(),
            |k: int|
                if open_to(g, (k / (g.cols as int), k % (g.cols as int))) {
                    Tile::Outside
                } else {
                    g.data[k]
                },
        ),
        rows: g.rows,
        cols: g.cols,
    }
}

/// How many of the tiles are marked as inside.
pub open spec fn inside_count(data: Seq<Tile>) -> nat
    decreases data.len(),
{
    if data.len() == 0 {
        0
    } else {
        inside_count(data.drop_last()) + if data.last() == Tile::Inside {
            1nat
        } else {
            0nat
        }
    }
}

proof fn lemma_inside_count(data: Seq<Tile>, i: int)
    requires
        0 <= i < data.len(),
        data[i] == Tile::Inside,
    ensures
        inside_count(data.update(i, Tile::Outside)) + 1 == inside_count(data),
    decreases data.len(),
{
    let after = data.update(i, Tile::Outside);
    if i == data.len() - 1 {
        assert(after.drop_last() =~= data.drop_last());
    } else {
        lemma_inside_count(data.drop_last(), i);
        assert(after.drop_last() =~= data.drop_last().update(i, Tile::Outside));
    }
}

/// Whether `t` waits among `stack`.
pub open spec fn pending(stack: Seq<(usize, usize)>, t: (int, int)) -> bool {
    exists|i: int| 0 <= i < stack.len() && (#[trigger] stack[i]).0 == t.0 && stack[i].1 == t.1
}

/// While the flood runs: `now` differs from `before` only where the
/// water came, it came only where a way leads, and where it came its
/// neighbours are flooded or wait.
#[verifier::opaque]
pub open spec fn flooding(
    before: GridView<Tile>,
    now: GridView<Tile>,
    stack: Seq<(usize, usize)>,
) -> bool {
    &&& before.wf()
    &&& now.wf()
    &&& now.rows == before.rows
    &&& now.cols == before.cols
    &&& forall|r: int, c: int|
        now.has(r, c) ==> #[trigger] now.cell(r, c) == before.cell(r, c) || (now.cell(r, c)
            == Tile::Outside && free(before, (r, c)) && open_to(before, (r, c)))
    &&& forall|i: int|
        0 <= i < stack.len() && free(before, ((#[trigger] stack[i]).0 as int, stack[i].1 as int))
            ==> open_to(before, (stack[i].0 as int, stack[i].1 as int))
    &&& free(before, (0, 0)) ==> now.cell(0, 0) == Tile::Outside || pending(stack, (0, 0))
    &&& forall|a: (int, int), b: (int, int)|
        free(before, a) && now.cell(a.0, a.1) == Tile::Outside && free(before, b)
            && #[trigger] next_to(a, b) ==> now.cell(b.0, b.1) == Tile::Outside || pending(
            stack,
            b,
        )
}

proof fn lemma_way_flooded(
    before: GridView<Tile>,
    now: GridView<Tile>,
    path: Seq<(int, int)>,
    k: int,
)
    requires
        flooding(before, now, Seq::empty()),
        free_way(before, path),
        0 <= k < path.len(),
    ensures
        now.cell(path[k].0, path[k].1) == Tile::Outside,
    decreases k,
{
    reveal(flooding);
    let none = Seq::<(usize, usize)>::empty();
    if k == 0 {
        assert(free(before, path[0]));
        assert(!pending(none, (0, 0)));
    } else {
        lemma_way_flooded(before, now, path, k - 1);
        assert(free(before, path[k - 1]));
        assert(free(before, path[k]));
        assert(next_to(path[k - 1], path[k]));
        assert(!pending(none, path[k]));
    }
}

proof fn lemma_flooded(before: GridView<Tile>, now: GridView<Tile>)
    requires
        flooding(before, now, Seq::empty()),
    ensures
        now == flood_of(before),
{
    reveal(flooding);
    let want = flood_of(before);
    assert(now.data.len() == want.data.len());
    assert forall|i: int| 0 <= i < now.data.len() implies now.data[i] == want.data[i] by {
        now.lemma_place(i);
        let r = i / (now.cols as int);
        let c = i % (now.cols as int);
        assert(now.cell(r, c) == now.data[i]);
        assert(before.cell(r, c) == before.data[i]);
        if open_to(before, (r, c)) {
            let path = choose|path: Seq<(int, int)>| free_way(before, path) && path.last() == (r, c);
            lemma_way_flooded(before, now, path, path.len() - 1);
        }
    }
    assert(now.data =~= want.data);
}

proof fn lemma_way_on(before: GridView<Tile>, a: (int, int), b: (int, int))
    requires
        open_to(before, a),
        free(before, b),
        next_to(a, b),
    ensures
        open_to(before, b),
{
    let path = choose|path: Seq<(int, int)>| free_way(before, path) && path.last() == a;
    let longer = path.push(b);
    assert forall|k: int| 0 <= k < longer.len() implies free(before, #[trigger] longer[k]) by {
        if k < path.len() {
            assert(longer[k] == path[k]);
        }
    }
    assert forall|k: int| 0 <= k < longer.len() - 1 implies next_to(
        #[trigger] longer[k],
        longer[k + 1],
    ) by {
        assert(longer[k] == path[k]);
        if k < path.len() - 1 {
            assert(longer[k + 1] == path[k + 1]);
        }
    }
    assert(free_way(before, longer) && longer.last() == b);
}

proof fn lemma_pending_rest(stack: Seq<(usize, usize)>, t: (int, int))
    requires
        stack.len() > 0,
        pending(stack, t),
    ensures
        pending(stack.drop_last(), t) || (stack.last().0 == t.0 && stack.last().1 == t.1),
{
    let i = choose|i: int| 0 <= i < stack.len() && (#[trigger] stack[i]).0 == t.0 && stack[i].1 == t.1;
    if i < stack.len() - 1 {
        assert(stack.drop_last()[i] == stack[i]);
    }
}

proof fn lemma_pending_more(stack: Seq<(usize, usize)>, more: Seq<(usize, usize)>, t: (int, int))
    requires
        pending(stack, t) || pending(more, t),
    ensures
        pending(stack + more, t),
{
    let all = stack + more;
    if pending(stack, t) {
        let i = choose|i: int|
            0 <= i < stack.len() && (#[trigger] stack[i]).0 == t.0 && stack[i].1 == t.1;
        assert(all[i] == stack[i]);
    } else {
        let i = choose|i: int|
            0 <= i < more.len() && (#[trigger] more[i]).0 == t.0 && more[i].1 == t.1;
        assert(all[stack.len() + i] == more[i]);
    }
}

/// The tiles that wait after the water came to `x` and `y`: those that
/// waited, and the four beside that tile, where a tile beyond the first
/// row or column stands for the tile itself.
pub open spec fn spread(rest: Seq<(usize, usize)>, x: usize, y: usize) -> Seq<(usize, usize)> {
    rest + seq![
        (
            if x > 0 {
                (x - 1) as usize
            } else {
                0usize
            },
            y,
        ),
        ((x + 1) as usize, y),
        (x, (y + 1) as usize),
        (
            x,
            if y > 0 {
                (y - 1) as usize
            } else {
                0usize
            },
        ),
    ]
}

proof fn lemma_flood_wet(
    before: GridView<Tile>,
    now: GridView<Tile>,
    new: GridView<Tile>,
    old_stack: Seq<(usize, usize)>,
)
    requires
        flooding(before, now, old_stack),
        old_stack.len() > 0,
        free(now, (old_stack.last().0 as int, old_stack.last().1 as int)),
        old_stack.last().0 < usize::MAX,
        old_stack.last().1 < usize::MAX,
        new.wf(),
        new.rows == now.rows,
        new.cols == now.cols,
        forall|r: int, c: int|
            new.has(r, c) ==> #[trigger] new.cell(r, c) == if r == old_stack.last().0 && c
                == old_stack.last().1 {
                Tile::Outside
            } else {
                now.cell(r, c)
            },
    ensures
        flooding(
            before,
            new,
            spread(old_stack.drop_last(), old_stack.last().0, old_stack.last().1),
        ),
{
    reveal(flooding);
    let (x, y) = old_stack.last();
    let spot = (x as int, y as int);
    let rest = old_stack.drop_last();
    let stack = spread(rest, x, y);
    let more = stack.skip(rest.len() as int);
    assert(stack =~= rest + more);
    assert(more.len() == 4);
    assert(free(before, spot));
    assert(open_to(before, spot));
    assert forall|t: (int, int)| pending(old_stack, t) implies pending(stack, t) || t == spot by {
        lemma_pending_rest(old_stack, t);
        if pending(rest, t) {
            lemma_pending_more(rest, more, t);
        }
    }
    assert forall|t: (int, int)| free(before, t) && next_to(spot, t) implies pending(stack, t) by {
        assert(more[0].1 == y && more[1] == ((x + 1) as usize, y));
        assert(more[2] == (x, (y + 1) as usize) && more[3].0 == x);
        assert(pending(more, t));
        lemma_pending_more(rest, more, t);
    }
    assert forall|i: int|
        0 <= i < stack.len() && free(
            before,
            ((#[trigger] stack[i]).0 as int, stack[i].1 as int),
        ) implies open_to(before, (stack[i].0 as int, stack[i].1 as int)) by {
        let t = (stack[i].0 as int, stack[i].1 as int);
        if i < rest.len() {
            assert(stack[i] == old_stack[i]);
        } else {
            assert(stack[i] == more[i - rest.len()]);
            if t != spot {
                lemma_way_on(before, spot, t);
            }
        }
    }
    assert forall|a: (int, int), b: (int, int)|
        free(before, a) && new.cell(a.0, a.1) == Tile::Outside && free(before, b)
            && #[trigger] next_to(a, b) implies new.cell(b.0, b.1) == Tile::Outside || pending(
        stack,
        b,
    ) by {
        if a != spot {
            assert(now.cell(a.0, a.1) == Tile::Outside);
            assert(now.cell(b.0, b.1) == Tile::Outside || pending(old_stack, b));
        }
    }
}

proof fn lemma_flood_dry(
    before: GridView<Tile>,
    now: GridView<Tile>,
    old_stack: Seq<(usize, usize)>,
)
    requires
        flooding(before, now, old_stack),
        old_stack.len() > 0,
        !free(now, (old_stack.last().0 as int, old_stack.last().1 as int)),
    ensures
        flooding(before, now, old_stack.drop_last()),
{
    reveal(flooding);
    let (x, y) = old_stack.last();
    let spot = (x as int, y as int);
    let stack = old_stack.drop_last();
    assert forall|t: (int, int)| pending(old_stack, t) implies pending(stack, t) || t == spot by {
        lemma_pending_rest(old_stack, t);
    }
    assert forall|i: int|
        0 <= i < stack.len() && free(
            before,
            ((#[trigger] stack[i]).0 as int, stack[i].1 as int),
        ) implies open_to(before, (stack[i].0 as int, stack[i].1 as int)) by {
        assert(stack[i] == old_stack[i]);
    }
    assert forall|a: (int, int), b: (int, int)|
        free(before, a) && now.cell(a.0, a.1) == Tile::Outside && free(before, b)
            && #[trigger] next_to(a, b) implies now.cell(b.0, b.1) == Tile::Outside || pending(
        stack,
        b,
    ) by {
        assert(now.cell(b.0, b.1) == Tile::Outside || pending(old_stack, b));
        if b == spot {
            assert(now.has(b.0, b.1));
        }
    }
    if free(before, (0, 0)) && !(now.cell(0, 0) == Tile::Outside) {
        assert(pending(old_stack, (0, 0)));
        assert(now.has(0, 0));
    }
}

/// Floods the floor from its first tile: every tile marked as inside
/// that the water reaches from there, from tile to tile beside it,
/// becomes a tile outside.
fn flood(grid: &mut Grid<Tile>)
    requires
        old(grid).wf(),
    ensures
        final(grid).wf(),
        final(grid)@ == flood_of(old(grid)@),
{
    let ghost before = grid@;
    let rows = grid.rows();
    let cols = grid.cols();
    let mut stack: Vec<(usize, usize)> = Vec::new();
    stack.push((0, 0));
    proof {
        assert(stack@[0] == (0usize, 0usize));
        if free(before, (0, 0)) {
            let path = seq![(0int, 0int)];
            assert(free_way(before, path) && path.last() == (0int, 0int));
        }
        assert(flooding(before, grid@, stack@)) by {
            reveal(flooding);
        }
    }
    while stack.len() > 0
        invariant
            grid.wf(),
            flooding(before, grid@, stack@),
            rows == grid@.rows,
            cols == grid@.cols,
        decreases inside_count(grid@.data), stack@.len(),
    {
        let ghost now = grid@;
        let ghost old_stack = stack@;
        let (x, y) = stack.pop().unwrap();
        let ghost rest = stack@;
        let wet = match grid.get(x, y) {
            Some(t) => match *t {
                Tile::Inside => true,
                _ => false,
            },
            None => false,
        };
        proof {
            assert(rest =~= old_stack.drop_last());
            assert(old_stack.last() == (x, y));
        }
        if wet {
            put(grid, x, y, Tile::Outside);
            let up = if x > 0 {
                x - 1
            } else {
                0
            };
            let left = if y > 0 {
                y - 1
            } else {
                0
            };
            stack.push((up, y));
            stack.push((x + 1, y));
            stack.push((x, y + 1));
            stack.push((x, left));
            proof {
                assert(stack@ =~= spread(rest, x, y));
                now.lemma_index(x as int, y as int);
                lemma_inside_count(now.data, x * cols + y);
                lemma_flood_wet(before, now, grid@, old_stack);
            }
        } else {
            proof {
                lemma_flood_dry(before, now, old_stack);
            }
        }
    }
    proof {
        assert(stack@ =~= Seq::<(usize, usize)>::empty());
        lemma_flooded(before, grid@);
    }
}

/// The smaller of two numbers.
pub open spec fn low(a: int, b: int) -> int {
    if a <= b {
        a
    } else {
        b
    }
}

/// The larger of two numbers.
pub open spec fn high(a: int, b: int) -> int {
    if a <= b {
        b
    } else {
        a
    }
}

/// Whether no tile outside lies at `r` and `c`.
pub open spec fn dry(g: GridView<Tile>, r: int, c: int) -> bool {
    g.at(r, c) != Some(Tile::Outside)
}

/// Whether no tile outside lies on the line from `a` towards `b`, the
/// farther end left out. The line runs along the row of both where they
/// share one, and else along the column of `a`.
pub open spec fn clear_line(g: GridView<Tile>, a: (int, int), b: (int, int)) -> bool {
    if a.0 == b.0 {
        forall|c: int| low(a.1, b.1) <= c < high(a.1, b.1) ==> #[trigger] dry(g, a.0, c)
    } else {
        forall|r: int| low(a.0, b.0) <= r < high(a.0, b.0) ==> #[trigger] dry(g, r, a.1)
    }
}

/// Whether no tile outside lies on the four sides of the rectangle with
/// `a` and `b` at opposite corners.
pub open spec fn clear_rect(g: GridView<Tile>, a: (int, int), b: (int, int)) -> bool {
    &&& clear_line(g, a, (a.0, b.1))
    &&& clear_line(g, (a.0, b.1), b)
    &&& clear_line(g, b, (b.0, a.1))
    &&& clear_line(g, (b.0, a.1), a)
}

/// Whether no tile outside lies on the line from `a` towards `b`.
fn line_clear(grid: &Grid<Tile>, a: (usize, usize), b: (usize, usize)) -> (r: bool)
    requires
        grid.wf(),
    ensures
        r == clear_line(grid@, (a.0 as int, a.1 as int), (b.0 as int, b.1 as int)),
{
    if a.0 == b.0 {
        let lo = if a.1 <= b.1 {
            a.1
        } else {
            b.1
        };
        let hi = if a.1 <= b.1 {
            b.1
        } else {
            a.1
        };
        let mut c = lo;
        while c < hi
            invariant
                lo <= c <= hi,
                a.0 == b.0,
                lo == low(a.1 as int, b.1 as int),
                hi == high(a.1 as int, b.1 as int),
                grid.wf(),
                forall|k: int| lo <= k < c ==> #[trigger] dry(grid@, a.0 as int, k),
            decreases hi - c,
        {
            let wet = match grid.get(a.0, c) {
                Some(t) => match *t {
                    Tile::Outside => true,
                    _ => false,
                },
                None => false,
            };
            if wet {
                proof {
                    assert(!dry(grid@, a.0 as int, c as int));
                }
                return false;
            }
            c += 1;
        }
        true
    } else {
        let lo = if a.0 <= b.0 {
            a.0
        } else {
            b.0
        };
        let hi = if a.0 <= b.0 {
            b.0
        } else {
            a.0
        };
        let mut r = lo;
        while r < hi
            invariant
                lo <= r <= hi,
                a.0 != b.0,
                lo == low(a.0 as int, b.0 as int),
                hi == high(a.0 as int, b.0 as int),
                grid.wf(),
                forall|k: int| lo <= k < r ==> #[trigger] dry(grid@, k, a.1 as int),
            decreases hi - r,
        {
            let wet = match grid.get(r, a.1) {
                Some(t) => match *t {
                    Tile::Outside => true,
                    _ => false,
                },
                None => false,
            };
            if wet {
                proof {
                    assert(!dry(grid@, r as int, a.1 as int));
                }
                return false;
            }
            r += 1;
        }
        true
    }
}

/// Whether no tile outside lies on the sides of the rectangle with `a`
/// and `b` at opposite corners.
fn rect_clear(grid: &Grid<Tile>, a: (usize, usize), b: (usize, usize)) -> (r: bool)
    requires
        grid.wf(),
    ensures
        r == clear_rect(grid@, (a.0 as int, a.1 as int), (b.0 as int, b.1 as int)),
{
    line_clear(grid, a, (a.0, b.1)) && line_clear(grid, (a.0, b.1), b) && line_clear(
        grid,
        b,
        (b.0, a.1),
    ) && line_clear(grid, (b.0, a.1), a)
}

/// The floor that the points draw: as many tiles each way as there are
/// points, and two more; the outline between the corners of the points;
/// and what the flood from the first tile reaches marked as outside.
pub open spec fn floor_of(points: Seq<(i64, i64)>) -> GridView<Tile> {
    flood_of(plan_of(corners_of(points), points.len() + 2))
}

/// The largest rectangle among the first `upto` pairs of points, counted
/// row by row, that has its corners at different places and no tile
/// outside on the sides that it has on the floor.
pub open spec fn largest_inside(points: Seq<(i64, i64)>, upto: int) -> nat
    decreases upto,
{
    if upto <= 0 || points.len() == 0 {
        0
    } else {
        let before = largest_inside(points, upto - 1);
        let i = (upto - 1) / (points.len() as int);
        let j = (upto - 1) % (points.len() as int);
        let a = corners_of(points)[i];
        let b = corners_of(points)[j];
        if a != b && rect_of(points[i], points[j]) > before && clear_rect(floor_of(points), a, b) {
            rect_of(points[i], points[j])
        } else {
            before
        }
    }
}

/// The largest rectangle with two of the points at opposite corners that
/// lies within the outline which the points draw, one after the other
/// and the last back to the first. There must be a point, the floor
/// must fit, and so must the rectangles.
pub fn part_two(points: &Vec<Vex<i64, 2>>) -> (r: u64)
    requires
        points@.len() > 0,
        (points@.len() + 2) * (points@.len() + 2) <= usize::MAX,
        forall|i: int, j: int|
            0 <= i < points@.len() && 0 <= j < points@.len() ==> rect_of(
                #[trigger] pairs_of(points@)[i],
                #[trigger] pairs_of(points@)[j],
            ) <= u64::MAX,
    ensures
        r == largest_inside(pairs_of(points@), (points@.len() * points@.len()) as int),
{
    let n = points.len();
    let ghost pairs = pairs_of(points@);
    proof {
        assert(n + 2 <= (n + 2) * (n + 2)) by (nonlinear_arith);
        assert(0 * n == 0) by (nonlinear_arith);
    }
    let corners = compress(points);
    let mut grid = plan(&corners, n + 2);
    flood(&mut grid);
    let ghost cs = corners_of(pairs);
    proof {
        assert(places_of(corners@) == cs);
        assert(grid@ == floor_of(pairs));
    }
    let mut best: u64 = 0;
    let mut i: usize = 0;
    while i < n
        invariant
            i <= n,
            0 < n == points@.len(),
            pairs == pairs_of(points@),
            cs == corners_of(pairs),
            places_of(corners@) == cs,
            corners@.len() == n,
            grid.wf(),
            grid@ == floor_of(pairs),
            forall|a: int, b: int|
                0 <= a < n && 0 <= b < n ==> rect_of(#[trigger] pairs[a], #[trigger] pairs[b])
                    <= u64::MAX,
            best == largest_inside(pairs, i * n),
        decreases n - i,
    {
        let mut j: usize = 0;
        while j < n
            invariant
                i < n,
                j <= n,
                0 < n == points@.len(),
                pairs == pairs_of(points@),
                cs == corners_of(pairs),
                places_of(corners@) == cs,
                corners@.len() == n,
                grid.wf(),
                grid@ == floor_of(pairs),
                forall|a: int, b: int|
                    0 <= a < n && 0 <= b < n ==> rect_of(#[trigger] pairs[a], #[trigger] pairs[b])
                        <= u64::MAX,
                best == largest_inside(pairs, i * n + j),
            decreases n - j,
        {
            let v1 = &points[i];
            let v2 = &points[j];
            let a = corners[i];
            let b = corners[j];
            proof {
                vstd::arithmetic::div_mod::lemma_fundamental_div_mod_converse(
                    i * n + j,
                    n as int,
                    i as int,
                    j as int,
                );
                assert(pairs[i as int] == (v1@[0], v1@[1]));
                assert(pairs[j as int] == (v2@[0], v2@[1]));
                assert(rect_of(pairs[i as int], pairs[j as int]) <= u64::MAX);
                assert(places_of(corners@)[i as int] == (a.0 as int, a.1 as int));
                assert(places_of(corners@)[j as int] == (b.0 as int, b.1 as int));
                assert(cs.len() == n);
            }
            if !(a.0 == b.0 && a.1 == b.1) {
                let area = compute_rect(v1, v2);
                if area > best && rect_clear(&grid, a, b) {
                    best = area;
                }
            }
            j += 1;
        }
        proof {
            assert((i + 1) * n == i * n + n) by (nonlinear_arith);
        }
        i += 1;
    }
    best
}

} // verus!
