use crate::grid::{Grid, GridView};
use vstd::prelude::*;

verus! {

/// A place in the manifold.
#[derive(PartialEq, Eq, Debug, Clone, Copy, Structural)]
pub enum TachyonManifold {
    Empty,
    Splitter,
    Start,
}

/// A character that stands for no place.
#[derive(Clone, Copy, Debug, PartialEq, Eq)]
pub struct UnknownChar(pub char);

impl vstd::std_specs::convert::TryFromSpecImpl<char> for TachyonManifold {
    open spec fn obeys_try_from_spec() -> bool {
        true
    }

    open spec fn try_from_spec(value: char) -> Result<Self, UnknownChar> {
        if value == '.' {
            Ok(TachyonManifold::Empty)
        } else if value == '^' {
            Ok(TachyonManifold::Splitter)
        } else if value == 'S' {
            Ok(TachyonManifold::Start)
        } else {
            Err(UnknownChar(value))
        }
    }
}

impl TryFrom<char> for TachyonManifold {
    type Error = UnknownChar;

    fn try_from(value: char) -> (r: Result<Self, UnknownChar>) {
        if value == '.' {
            Ok(TachyonManifold::Empty)
        } else if value == '^' {
            Ok(TachyonManifold::Splitter)
        } else if value == 'S' {
            Ok(TachyonManifold::Start)
        } else {
            Err(UnknownChar(value))
        }
    }
}

/// No splitter stands in the first or in the last column.
pub open spec fn splitters_inside(g: GridView<TachyonManifold>) -> bool {
    forall|i: int|
        g.cols <= i < g.data.len() && #[trigger] g.data[i] == TachyonManifold::Splitter ==> 0 < i
            % (g.cols as int) < g.cols - 1
}

/// The numbers of `s`, added up.
pub open spec fn sum_of(s: Seq<nat>) -> nat
    decreases s.len(),
{
    if s.len() == 0 {
        0
    } else {
        sum_of(s.drop_last()) + s.last()
    }
}

pub proof fn lemma_sum_update(s: Seq<nat>, i: int, v: nat)
    requires
        0 <= i < s.len(),
    ensures
        sum_of(s.update(i, v)) + s[i] == sum_of(s) + v,
        s[i] <= sum_of(s),
    decreases s.len(),
{
    let t = s.update(i, v);
    if i == s.len() - 1 {
        assert(t.drop_last() =~= s.drop_last());
    } else {
        assert(t.drop_last() =~= s.drop_last().update(i, v));
        lemma_sum_update(s.drop_last(), i, v);
    }
}

/// The ways in which a particle can come to each column, after the cells
/// before place `upto` of the data were passed: at the start one way
/// leads to the column of each start; a splitter that can be come to
/// sends each way to it on to the columns left and right of it.
pub open spec fn ways_at(g: GridView<TachyonManifold>, upto: int) -> Seq<nat>
    decreases upto,
{
    if upto <= g.cols {
        Seq::new(
            g.cols,
            |c: int|
                if g.data[c] == TachyonManifold::Start {
                    1nat
                } else {
                    0nat
                },
        )
    } else {
        let before = ways_at(g, upto - 1);
        let c = (upto - 1) % (g.cols as int);
        if g.data[upto - 1] == TachyonManifold::Splitter && before[c] > 0 {
            let cleared = before.update(c, 0);
            let left = cleared.update(c - 1, cleared[c - 1] + before[c]);
            left.update(c + 1, left[c + 1] + before[c])
        } else {
            before
        }
    }
}

/// The columns that a beam comes to, and how often a beam was split,
/// after the cells before place `upto` of the data were passed: a beam
/// starts in the column of each start; a splitter that a beam comes to
/// ends it and starts one to its left and one to its right.
pub open spec fn beams_at(g: GridView<TachyonManifold>, upto: int) -> (Seq<bool>, nat)
    decreases upto,
{
    if upto <= g.cols {
        (Seq::new(g.cols, |c: int| g.data[c] == TachyonManifold::Start), 0)
    } else {
        let before = beams_at(g, upto - 1);
        let c = (upto - 1) % (g.cols as int);
        if g.data[upto - 1] == TachyonManifold::Splitter && before.0[c] {
            (before.0.update(c, false).update(c - 1, true).update(c + 1, true), before.1 + 1)
        } else {
            before
        }
    }
}

pub proof fn lemma_beams_at(g: GridView<TachyonManifold>, upto: int)
    requires
        g.wf(),
        splitters_inside(g),
        upto <= g.data.len(),
    ensures
        beams_at(g, upto).0.len() == g.cols,
        beams_at(g, upto).1 <= if upto <= g.cols {
            0
        } else {
            upto - g.cols
        },
    decreases upto,
{
    if upto > g.cols {
        lemma_beams_at(g, upto - 1);
        g.lemma_place(upto - 1);
    }
}

pub proof fn lemma_ways_at(g: GridView<TachyonManifold>, upto: int, end: int)
    requires
        g.wf(),
        splitters_inside(g),
        upto <= end <= g.data.len(),
    ensures
        ways_at(g, upto).len() == g.cols,
        sum_of(ways_at(g, upto)) <= sum_of(ways_at(g, end)),
    decreases end - upto,
{
    lemma_ways_len(g, upto);
    if upto < end {
        lemma_ways_at(g, upto + 1, end);
        if upto + 1 > g.cols {
            let before = ways_at(g, upto);
            let c = upto % (g.cols as int);
            g.lemma_place(upto);
            if g.data[upto] == TachyonManifold::Splitter && before[c] > 0 {
                let cleared = before.update(c, 0);
                let left = cleared.update(c - 1, cleared[c - 1] + before[c]);
                lemma_sum_update(before, c, 0);
                lemma_sum_update(cleared, c - 1, cleared[c - 1] + before[c]);
                lemma_sum_update(left, c + 1, left[c + 1] + before[c]);
            }
        }
    }
}

pub proof fn lemma_ways_len(g: GridView<TachyonManifold>, upto: int)
    requires
        g.wf(),
        splitters_inside(g),
        upto <= g.data.len(),
    ensures
        ways_at(g, upto).len() == g.cols,
    decreases upto,
{
    if upto > g.cols {
        lemma_ways_len(g, upto - 1);
        g.lemma_place(upto - 1);
    }
}

/// How often a beam is split on its way down.
pub fn part_one(manifold: &Grid<TachyonManifold>) -> (r: u64)
    requires
        manifold.wf(),
        manifold@.rows >= 1,
        splitters_inside(manifold@),
    ensures
        r == beams_at(manifold@, manifold@.data.len() as int).1,
{
    let cells = manifold.iter();
    let cols = manifold.cols();
    let ghost g = manifold@;
    proof {
        assert(g.data.len() >= g.cols) by (nonlinear_arith)
            requires
                g.data.len() == g.rows * g.cols,
                g.rows >= 1,
        ;
    }
    let mut beams: Vec<bool> = Vec::new();
    let mut c: usize = 0;
    while c < cols
        invariant
            c <= cols,
            cols == g.cols,
            cols <= cells@.len(),
            cells@.len() == g.data.len(),
            forall|i: int| 0 <= i < cells@.len() ==> *(#[trigger] cells@[i]) == g.data[i],
            beams@ == Seq::new(c as nat, |k: int| g.data[k] == TachyonManifold::Start),
        decreases cols - c,
    {
        beams.push(matches!(cells[c], TachyonManifold::Start));
        proof {
            assert(beams@ =~= Seq::new((c + 1) as nat, |k: int| g.data[k] == TachyonManifold::Start));
        }
        c += 1;
    }
    let mut splits: u64 = 0;
    let mut i: usize = cols;
    while i < cells.len()
        invariant
            g.wf(),
            splitters_inside(g),
            g == manifold@,
            cols == g.cols,
            cols <= i <= cells@.len(),
            cells@.len() == g.data.len(),
            forall|k: int| 0 <= k < cells@.len() ==> *(#[trigger] cells@[k]) == g.data[k],
            (beams@, splits as nat) == beams_at(g, i as int),
            beams@.len() == cols,
            splits <= i - cols,
        decreases cells@.len() - i,
    {
        proof {
            g.lemma_place(i as int);
            lemma_beams_at(g, i + 1);
        }
        let splitter = i % cols;
        if matches!(cells[i], TachyonManifold::Splitter) && beams[splitter] {
            splits += 1;
            beams[splitter] = false;
            beams[splitter - 1] = true;
            beams[splitter + 1] = true;
        }
        i += 1;
    }
    splits
}

/// In how many ways a particle can come down, where their number fits.
pub fn try_part_two(manifold: &Grid<TachyonManifold>) -> (r: Option<u64>)
    requires
        manifold.wf(),
        manifold@.rows >= 1,
        splitters_inside(manifold@),
    ensures
        match r {
            Some(ways) => ways == sum_of(ways_at(manifold@, manifold@.data.len() as int)),
            None => sum_of(ways_at(manifold@, manifold@.data.len() as int)) > u64::MAX,
        },
{
    let cells = manifold.iter();
    let cols = manifold.cols();
    let ghost g = manifold@;
    let ghost end = g.data.len() as int;
    proof {
        assert(g.data.len() >= g.cols) by (nonlinear_arith)
            requires
                g.data.len() == g.rows * g.cols,
                g.rows >= 1,
        ;
    }
    let mut timelines: Vec<u64> = Vec::new();
    let mut c: usize = 0;
    while c < cols
        invariant
            c <= cols,
            cols == g.cols,
            cols <= cells@.len(),
            cells@.len() == g.data.len(),
            forall|i: int| 0 <= i < cells@.len() ==> *(#[trigger] cells@[i]) == g.data[i],
            timelines@.len() == c,
            forall|k: int|
                0 <= k < c ==> #[trigger] timelines@[k] == if g.data[k] == TachyonManifold::Start {
                    1u64
                } else {
                    0u64
                },
        decreases cols - c,
    {
        timelines.push(
            match cells[c] {
                TachyonManifold::Start => 1,
                _ => 0,
            },
        );
        c += 1;
    }
    let mut i: usize = cols;
    proof {
        lemma_ways_len(g, cols as int);
    }
    while i < cells.len()
        invariant
            g.wf(),
            splitters_inside(g),
            g == manifold@,
            end == g.data.len(),
            cols == g.cols,
            cols <= i <= cells@.len(),
            cells@.len() == g.data.len(),
            forall|k: int| 0 <= k < cells@.len() ==> *(#[trigger] cells@[k]) == g.data[k],
            timelines@.len() == cols,
            ways_at(g, i as int).len() == cols,
            forall|k: int| 0 <= k < cols ==> #[trigger] timelines@[k] == ways_at(g, i as int)[k],
        decreases cells@.len() - i,
    {
        let ghost before = ways_at(g, i as int);
        proof {
            g.lemma_place(i as int);
            lemma_ways_at(g, i + 1, end);
            lemma_ways_len(g, i + 1);
        }
        let splitter = i % cols;
        if matches!(cells[i], TachyonManifold::Splitter) && timelines[splitter] > 0 {
            proof {
                let after = ways_at(g, i + 1);
                lemma_sum_update(after, splitter - 1, 0);
                lemma_sum_update(after, splitter + 1, 0);
            }
            let ways_here = timelines[splitter];
            timelines[splitter] = 0;
            let left = timelines[splitter - 1];
            let more_left = match left.checked_add(ways_here) {
                Some(sum) => sum,
                None => {
                    proof {
                        let after = ways_at(g, i + 1);
                        assert(after[splitter - 1] == left + ways_here);
                    }
                    return None;
                },
            };
            timelines[splitter - 1] = more_left;
            let right = timelines[splitter + 1];
            let more_right = match right.checked_add(ways_here) {
                Some(sum) => sum,
                None => {
                    proof {
                        let after = ways_at(g, i + 1);
                        assert(after[splitter + 1] == right + ways_here);
                    }
                    return None;
                },
            };
            timelines[splitter + 1] = more_right;
        }
        i += 1;
    }
    let mut total: u64 = 0;
    let mut k: usize = 0;
    let ghost last = ways_at(g, end);
    proof {
        assert(last.take(0) =~= Seq::<nat>::empty());
    }
    while k < cols
        invariant
            k <= cols,
            timelines@.len() == cols,
            last.len() == cols,
            last == ways_at(manifold@, manifold@.data.len() as int),
            forall|j: int| 0 <= j < cols ==> #[trigger] timelines@[j] == last[j],
            total == sum_of(last.take(k as int)),
        decreases cols - k,
    {
        proof {
            assert(last.take(k + 1).drop_last() =~= last.take(k as int));
            lemma_sum_prefix(last, k + 1);
        }
        total = match total.checked_add(timelines[k]) {
            Some(sum) => sum,
            None => {
                proof {
                    assert(sum_of(last.take(k + 1)) == total + timelines@[k as int]);
                }
                return None;
            },
        };
        k += 1;
    }
    proof {
        assert(last.take(cols as int) =~= last);
    }
    Some(total)
}

/// In how many ways a particle can come down. Their number must fit.
pub fn part_two(manifold: &Grid<TachyonManifold>) -> (r: u64)
    requires
        manifold.wf(),
        manifold@.rows >= 1,
        splitters_inside(manifold@),
        sum_of(ways_at(manifold@, manifold@.data.len() as int)) <= u64::MAX,
    ensures
        r == sum_of(ways_at(manifold@, manifold@.data.len() as int)),
{
    match try_part_two(manifold) {
        Some(ways) => ways,
        None => unreached(),
    }
}



pub proof fn lemma_sum_prefix(s: Seq<nat>, upto: int)
    requires
        0 <= upto <= s.len(),
    ensures
        sum_of(s.take(upto)) <= sum_of(s),
    decreases s.len() - upto,
{
    if upto < s.len() {
        lemma_sum_prefix(s, upto + 1);
        assert(s.take(upto + 1).drop_last() =~= s.take(upto));
    } else {
        assert(s.take(upto) =~= s);
    }
}

} // verus!
