use crate::grid::{Grid, GridView};
use vstd::prelude::*;

verus! {

/// A place on the floor: empty, or with a roll of paper on it.
#[derive(Clone, Copy, Debug, PartialEq, Eq, Structural)]
pub enum MapCell {
    Empty,
    Roll,
}

/// A character that stands for no cell.
#[derive(Clone, Copy, Debug, PartialEq, Eq)]
pub struct UnknownChar;

impl MapCell {
    /// Whether a roll lies in the cell.
    pub fn is_roll(&self) -> (r: bool)
        ensures
            r == (*self == MapCell::Roll),
    {
        matches!(self, MapCell::Roll)
    }
}

impl vstd::std_specs::convert::TryFromSpecImpl<char> for MapCell {
    open spec fn obeys_try_from_spec() -> bool {
        true
    }

    open spec fn try_from_spec(value: char) -> Result<Self, UnknownChar> {
        if value == '@' {
            Ok(MapCell::Roll)
        } else if value == '.' {
            Ok(MapCell::Empty)
        } else {
            Err(UnknownChar)
        }
    }
}

impl TryFrom<char> for MapCell {
    type Error = UnknownChar;

    fn try_from(value: char) -> (r: Result<Self, UnknownChar>) {
        if value == '@' {
            Ok(MapCell::Roll)
        } else if value == '.' {
            Ok(MapCell::Empty)
        } else {
            Err(UnknownChar)
        }
    }
}

/// The most rolls that may lie around a roll for a fork-lift to reach it.
pub const MAX_NEIGHBORS: usize = 3;

/// Whether a cell is a roll.
pub open spec fn roll() -> spec_fn(MapCell) -> bool {
    |c: MapCell| c == MapCell::Roll
}

/// Whether the cell at place `i` of the data is a roll with at most
/// `MAX_NEIGHBORS` rolls around it.
pub open spec fn accessible(g: GridView<MapCell>, i: int) -> bool {
    &&& g.data[i] == MapCell::Roll
    &&& g.present(GridView::<MapCell>::around(i / g.cols as int, i % g.cols as int)).filter(
        roll(),
    ).len() <= MAX_NEIGHBORS
}

/// How many of the first `upto` cells are accessible.
pub open spec fn count_accessible(g: GridView<MapCell>, upto: int) -> nat
    decreases upto,
{
    if upto <= 0 {
        0
    } else {
        count_accessible(g, upto - 1) + if accessible(g, upto - 1) {
            1nat
        } else {
            0nat
        }
    }
}

/// The places in the data of the accessible rolls among the first `upto`
/// cells, ascending.
pub open spec fn places_accessible(g: GridView<MapCell>, upto: int) -> Seq<int>
    decreases upto,
{
    if upto <= 0 {
        Seq::empty()
    } else {
        let rest = places_accessible(g, upto - 1);
        if accessible(g, upto - 1) {
            rest.push(upto - 1)
        } else {
            rest
        }
    }
}

/// What `places_accessible` lists: the accessible rolls, each once.
pub proof fn lemma_places_accessible(g: GridView<MapCell>, upto: int)
    ensures
        places_accessible(g, upto).len() == count_accessible(g, upto),
        count_accessible(g, upto) <= if upto < 0 {
            0
        } else {
            upto
        },
        forall|k: int|
            0 <= k < places_accessible(g, upto).len() ==> 0 <= (#[trigger] places_accessible(
                g,
                upto,
            )[k]) < upto && accessible(g, places_accessible(g, upto)[k]),
        forall|i: int|
            0 <= i < upto && accessible(g, i) ==> #[trigger] places_accessible(g, upto).contains(i),
    decreases upto,
{
    if upto > 0 {
        lemma_places_accessible(g, upto - 1);
        let rest = places_accessible(g, upto - 1);
        let all = places_accessible(g, upto);
        assert forall|i: int| 0 <= i < upto && accessible(g, i) implies #[trigger] all.contains(
            i,
        ) by {
            if i == upto - 1 {
                assert(all[all.len() - 1] == i);
            } else {
                assert(rest.contains(i));
                let j = choose|j: int| 0 <= j < rest.len() && rest[j] == i;
                assert(all[j] == i);
            }
        }
    }
}

/// The grid without its accessible rolls.
pub open spec fn peeled(g: GridView<MapCell>) -> GridView<MapCell> {
    GridView {
        data: Seq::new(
            g.data.len(),
            |i: int|
                if accessible(g, i) {
                    MapCell::Empty
                } else {
                    g.data[i]
                },
        ),
        rows: g.rows,
        cols: g.cols,
    }
}

/// How many rolls are taken off in all when the accessible rolls are
/// taken off again and again, until none is accessible; `fuel` bounds the
/// rounds.
pub open spec fn peel_all(g: GridView<MapCell>, fuel: nat) -> nat
    decreases fuel,
{
    let taken = count_accessible(g, g.data.len() as int);
    if fuel == 0 || taken == 0 {
        0
    } else {
        taken + peel_all(peeled(g), (fuel - 1) as nat)
    }
}

/// How many of `data` are rolls.
pub open spec fn count_rolls(data: Seq<MapCell>) -> nat
    decreases data.len(),
{
    if data.len() == 0 {
        0
    } else {
        count_rolls(data.drop_last()) + if data.last() == MapCell::Roll {
            1nat
        } else {
            0nat
        }
    }
}

pub proof fn lemma_count_rolls(data: Seq<MapCell>)
    ensures
        count_rolls(data) <= data.len(),
    decreases data.len(),
{
    if data.len() > 0 {
        lemma_count_rolls(data.drop_last());
    }
}

/// Taking the accessible rolls off leaves that many rolls fewer.
pub proof fn lemma_peeled_upto(g: GridView<MapCell>, upto: int)
    requires
        0 <= upto <= g.data.len(),
    ensures
        count_rolls(peeled(g).data.take(upto)) + count_accessible(g, upto) == count_rolls(
            g.data.take(upto),
        ),
    decreases upto,
{
    if upto > 0 {
        lemma_peeled_upto(g, upto - 1);
        assert(peeled(g).data.take(upto).drop_last() =~= peeled(g).data.take(upto - 1));
        assert(g.data.take(upto).drop_last() =~= g.data.take(upto - 1));
    } else {
        assert(peeled(g).data.take(0) =~= Seq::<MapCell>::empty());
        assert(g.data.take(0) =~= Seq::<MapCell>::empty());
    }
}

pub proof fn lemma_peeled(g: GridView<MapCell>)
    ensures
        count_rolls(peeled(g).data) + count_accessible(g, g.data.len() as int) == count_rolls(
            g.data,
        ),
{
    lemma_peeled_upto(g, g.data.len() as int);
    assert(g.data.take(g.data.len() as int) =~= g.data);
    assert(peeled(g).data.take(g.data.len() as int) =~= peeled(g).data);
}

/// With fuel for as many rounds as there are rolls, more fuel changes
/// nothing.
pub proof fn lemma_peel_fuel(g: GridView<MapCell>, f1: nat, f2: nat)
    requires
        f1 >= count_rolls(g.data),
        f2 >= count_rolls(g.data),
    ensures
        peel_all(g, f1) == peel_all(g, f2),
    decreases f1,
{
    let taken = count_accessible(g, g.data.len() as int);
    lemma_peeled(g);
    if taken > 0 {
        lemma_peel_fuel(peeled(g), (f1 - 1) as nat, (f2 - 1) as nat);
    }
}

/// The places in the data of the rolls that a fork-lift can reach,
/// ascending.
fn accessible_places(grid: &Grid<MapCell>) -> (r: Vec<usize>)
    requires
        grid.wf(),
    ensures
        r@.len() == places_accessible(grid@, grid@.data.len() as int).len(),
        forall|k: int|
            0 <= k < r@.len() ==> (#[trigger] r@[k]) as int == places_accessible(
                grid@,
                grid@.data.len() as int,
            )[k],
{
    let cells = grid.cells();
    let mut out: Vec<usize> = Vec::new();
    let mut i: usize = 0;
    while i < cells.len()
        invariant
            grid.wf(),
            i <= cells@.len(),
            cells@.len() == grid@.data.len(),
            forall|k: int|
                0 <= k < cells@.len() ==> {
                    &&& (#[trigger] cells@[k]).0 == k / (grid@.cols as int)
                    &&& cells@[k].1 == k % (grid@.cols as int)
                    &&& *cells@[k].2 == grid@.data[k]
                    &&& grid@.at(cells@[k].0 as int, cells@[k].1 as int) == Some(*cells@[k].2)
                },
            out@.len() == places_accessible(grid@, i as int).len(),
            forall|k: int|
                0 <= k < out@.len() ==> (#[trigger] out@[k]) as int == places_accessible(
                    grid@,
                    i as int,
                )[k],
        decreases cells@.len() - i,
    {
        let (row, col, cell) = cells[i];
        if cell.is_roll() {
            let pred = |c: &MapCell| -> (b: bool)
                ensures
                    b == (*c == MapCell::Roll),
                { c.is_roll() };
            proof {
                grid@.lemma_place(i as int);
            }
            let around = grid.count_neighbors(row, col, pred);
            proof {
                assert(crate::grid::answers_as(pred, roll()));
            }
            if around <= MAX_NEIGHBORS {
                out.push(i);
            }
        }
        i += 1;
    }
    out
}

/// The rows and columns of the rolls that a fork-lift can reach, row after
/// row.
pub fn find_accessible(grid: &Grid<MapCell>) -> (r: Vec<(usize, usize)>)
    requires
        grid.wf(),
    ensures
        r@.len() == places_accessible(grid@, grid@.data.len() as int).len(),
        forall|k: int|
            0 <= k < r@.len() ==> (#[trigger] r@[k]).0 * grid@.cols + r@[k].1
                == places_accessible(grid@, grid@.data.len() as int)[k] && r@[k].1 < grid@.cols,
{
    let places = accessible_places(grid);
    let mut out: Vec<(usize, usize)> = Vec::new();
    let mut k: usize = 0;
    proof {
        lemma_places_accessible(grid@, grid@.data.len() as int);
    }
    while k < places.len()
        invariant
            grid.wf(),
            k <= places@.len(),
            out@.len() == k,
            places@.len() == places_accessible(grid@, grid@.data.len() as int).len(),
            forall|j: int|
                0 <= j < places@.len() ==> (#[trigger] places@[j]) as int == places_accessible(
                    grid@,
                    grid@.data.len() as int,
                )[j] && places@[j] < grid@.data.len(),
            forall|j: int|
                0 <= j < out@.len() ==> (#[trigger] out@[j]).0 * grid@.cols + out@[j].1
                    == places@[j] && out@[j].1 < grid@.cols,
        decreases places@.len() - k,
    {
        proof {
            grid@.lemma_place(places@[k as int] as int);
        }
        let (row, col) = crate::outside::div_rem(places[k], grid.cols());
        out.push((row, col));
        k += 1;
    }
    out
}

/// How many rolls a fork-lift can reach.
pub fn part_one(grid: &Grid<MapCell>) -> (n: usize)
    requires
        grid.wf(),
    ensures
        n == count_accessible(grid@, grid@.data.len() as int),
{
    proof {
        lemma_places_accessible(grid@, grid@.data.len() as int);
    }
    find_accessible(grid).len()
}

/// Takes the rolls at `found` off the grid.
fn remove_accessible(grid: &mut Grid<MapCell>, found: &Vec<(usize, usize)>)
    requires
        old(grid).wf(),
        found@.len() == places_accessible(old(grid)@, old(grid)@.data.len() as int).len(),
        forall|k: int|
            0 <= k < found@.len() ==> (#[trigger] found@[k]).0 * old(grid)@.cols + found@[k].1
                == places_accessible(old(grid)@, old(grid)@.data.len() as int)[k] && found@[k].1
                < old(grid)@.cols,
    ensures
        final(grid).wf(),
        final(grid)@ == peeled(old(grid)@),
{
    let ghost before = grid@;
    let ghost all = places_accessible(before, before.data.len() as int);
    proof {
        lemma_places_accessible(before, before.data.len() as int);
    }
    let mut k: usize = 0;
    while k < found.len()
        invariant
            grid.wf(),
            before.wf(),
            k <= found@.len(),
            all == places_accessible(before, before.data.len() as int),
            found@.len() == all.len(),
            forall|j: int|
                0 <= j < found@.len() ==> (#[trigger] found@[j]).0 * before.cols + found@[j].1
                    == all[j] && found@[j].1 < before.cols,
            forall|j: int| 0 <= j < all.len() ==> 0 <= #[trigger] all[j] < before.data.len(),
            grid@.rows == before.rows,
            grid@.cols == before.cols,
            grid@.data.len() == before.data.len(),
            forall|i: int|
                0 <= i < before.data.len() ==> #[trigger] grid@.data[i] == if all.take(
                    k as int,
                ).contains(i) {
                    MapCell::Empty
                } else {
                    before.data[i]
                },
        decreases found@.len() - k,
    {
        let (row, col) = found[k];
        let ghost spot = all[k as int];
        let ghost fewer = all.take(k as int);
        let ghost more = all.take(k + 1);
        proof {
            assert(0 <= spot < before.data.len());
            assert(row < before.rows) by (nonlinear_arith)
                requires
                    row * before.cols + col == spot,
                    spot < before.rows * before.cols,
                    col < before.cols,
            ;
            assert(more =~= fewer.push(spot));
        }
        grid.set(row, col, MapCell::Empty);
        proof {
            assert forall|i: int| 0 <= i < before.data.len() implies #[trigger] grid@.data[i]
                == if more.contains(i) {
                MapCell::Empty
            } else {
                before.data[i]
            } by {
                if more.contains(i) {
                    let j = choose|j: int| 0 <= j < more.len() && more[j] == i;
                    if j < k {
                        assert(fewer[j] == i);
                    }
                }
                if fewer.contains(i) {
                    let j = choose|j: int| 0 <= j < fewer.len() && fewer[j] == i;
                    assert(more[j] == i);
                }
                if i == spot {
                    assert(more[k as int] == i);
                }
            }
        }
        k += 1;
    }
    proof {
        assert(all.take(found@.len() as int) =~= all);
        assert forall|i: int| 0 <= i < before.data.len() implies grid@.data[i] == peeled(
            before,
        ).data[i] by {
            if all.contains(i) {
                let j = choose|j: int| 0 <= j < all.len() && all[j] == i;
                assert(accessible(before, all[j]));
            }
        }
        assert(grid@.data =~= peeled(before).data);
    }
}

/// How many rolls can be taken off in all, when the rolls that a
/// fork-lift can reach are taken off again and again.
pub fn part_two(grid: Grid<MapCell>) -> (n: usize)
    requires
        grid.wf(),
    ensures
        n == peel_all(grid@, count_rolls(grid@.data)),
{
    let mut total_removed: usize = 0;
    let mut grid = grid;
    let ghost start = grid@;
    proof {
        lemma_count_rolls(start.data);
        grid.lemma_size();
    }
    loop
        invariant
            grid.wf(),
            total_removed + count_rolls(grid@.data) <= count_rolls(start.data),
            count_rolls(start.data) <= usize::MAX,
            peel_all(start, count_rolls(start.data)) == total_removed + peel_all(
                grid@,
                count_rolls(grid@.data),
            ),
        ensures
            total_removed == peel_all(start, count_rolls(start.data)),
        decreases count_rolls(grid@.data),
    {
        let found = find_accessible(&grid);
        let removed = found.len();
        let ghost before = grid@;
        proof {
            lemma_places_accessible(before, before.data.len() as int);
            lemma_peeled(before);
        }
        if removed == 0 {
            break ;
        }
        remove_accessible(&mut grid, &found);
        proof {
            lemma_peel_fuel(
                peeled(before),
                (count_rolls(before.data) - 1) as nat,
                count_rolls(peeled(before).data),
            );
        }
        total_removed += removed;
    }
    total_removed
}

} // verus!
