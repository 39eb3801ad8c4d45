use crate::grid::{cells_of, lines_of, made_of, rows_fault, seqs_of, Grid};
use crate::outside::{words, words_of};
use crate::text::{chars_of, find_char, number_of, parse_u64, place_of, slice_of, split_lines};
use vstd::prelude::*;

verus! {

/// A place of a present: part of its shape, or not.
#[derive(Debug, Eq, PartialEq, Clone, Copy, Structural)]
pub enum Shape {
    No,
    Yes,
}

impl Shape {
    /// The shape that a character stands for: a hash is part of the
    /// shape, whatever else is not.
    pub open spec fn of(c: char) -> Shape {
        if c == '#' {
            Shape::Yes
        } else {
            Shape::No
        }
    }

    /// What a character of a shape stands for.
    pub fn from_char(value: char) -> (r: Shape)
        ensures
            r == Shape::of(value),
    {
        if value == '#' {
            Shape::Yes
        } else {
            Shape::No
        }
    }
}

/// The shapes of the presents, and the areas under the trees: each area
/// with its two sides and with how many presents of each shape shall lie
/// in it.
#[derive(Debug, PartialEq, Eq)]
pub struct Presents {
    pub presents: Vec<Grid<Shape>>,
    pub areas: Vec<(usize, usize, Vec<usize>)>,
}

/// The first place at or behind `from` where an empty line begins in `s`,
/// or the length of `s`.
pub open spec fn gap_from(s: Seq<char>, from: int) -> int
    decreases s.len() - from,
{
    if from < 0 || from + 1 >= s.len() {
        s.len() as int
    } else if s[from] == '\n' && s[from + 1] == '\n' {
        from
    } else {
        gap_from(s, from + 1)
    }
}

pub proof fn lemma_gap_from(s: Seq<char>, from: int)
    requires
        0 <= from <= s.len(),
    ensures
        from <= gap_from(s, from) <= s.len(),
        gap_from(s, from) < s.len() ==> gap_from(s, from) + 1 < s.len(),
    decreases s.len() - from,
{
    if from + 1 < s.len() && !(s[from] == '\n' && s[from + 1] == '\n') {
        lemma_gap_from(s, from + 1);
    }
}

/// The parts of `s` from `from` on that empty lines part.
pub open spec fn regions_of(s: Seq<char>, from: int) -> Seq<Seq<char>>
    decreases s.len() - from,
{
    if from < 0 || from > s.len() {
        Seq::empty()
    } else {
        let gap = gap_from(s, from);
        if from <= gap && gap + 1 < s.len() {
            seq![s.subrange(from, gap)] + regions_of(s, gap + 2)
        } else {
            seq![s.subrange(from, s.len() as int)]
        }
    }
}

/// The number that `s` writes, where it fits.
pub open spec fn size_of(s: Seq<char>) -> Option<usize> {
    match number_of(s) {
        Some(n) if n <= usize::MAX => Some(n as usize),
        _ => None,
    }
}

/// The numbers that the words of `ws` write; a word that writes none is
/// passed over.
pub open spec fn sizes_in(ws: Seq<Seq<char>>) -> Seq<usize>
    decreases ws.len(),
{
    if ws.len() == 0 {
        Seq::empty()
    } else {
        match size_of(ws.last()) {
            Some(n) => sizes_in(ws.drop_last()).push(n),
            None => sizes_in(ws.drop_last()),
        }
    }
}

/// The first place where a colon with a blank behind it stands in `s`, or
/// the length of `s`.
pub open spec fn colon_of(s: Seq<char>, from: int) -> int
    decreases s.len() - from,
{
    if from < 0 || from + 1 >= s.len() {
        s.len() as int
    } else if s[from] == ':' && s[from + 1] == ' ' {
        from
    } else {
        colon_of(s, from + 1)
    }
}

/// The area that a line writes: its two sides with an `x` between them,
/// a colon, and the numbers of presents.
pub open spec fn area_of(line: Seq<char>) -> Option<(usize, usize, Seq<usize>)> {
    let colon = colon_of(line, 0);
    if colon >= line.len() {
        None
    } else {
        let area = line.subrange(0, colon);
        let cross = place_of(area, 'x', 0);
        if cross >= area.len() {
            None
        } else {
            match (size_of(area.subrange(0, cross)), size_of(
                area.subrange(cross + 1, area.len() as int),
            )) {
                (Some(x), Some(y)) => Some(
                    (x, y, sizes_in(words_of(line.subrange(colon + 2, line.len() as int)))),
                ),
                _ => None,
            }
        }
    }
}

/// The parts of `s` from `from` on that line feeds part.
pub open spec fn rows_of(s: Seq<char>, from: int) -> Seq<Seq<char>>
    decreases s.len() - from,
{
    if from < 0 || from > s.len() {
        Seq::empty()
    } else {
        let end = place_of(s, '\n', from);
        if from <= end < s.len() {
            seq![s.subrange(from, end)] + rows_of(s, end + 1)
        } else {
            seq![s.subrange(from, s.len() as int)]
        }
    }
}

/// The areas that `lines` write; a line that writes none is passed over.
pub open spec fn areas_of(lines: Seq<Seq<char>>) -> Seq<(usize, usize, Seq<usize>)>
    decreases lines.len(),
{
    if lines.len() == 0 {
        Seq::empty()
    } else {
        match area_of(lines.last()) {
            Some(a) => areas_of(lines.drop_last()).push(a),
            None => areas_of(lines.drop_last()),
        }
    }
}

/// The areas as plain values.
pub open spec fn plain(areas: Seq<(usize, usize, Vec<usize>)>) -> Seq<(usize, usize, Seq<usize>)> {
    Seq::new(areas.len(), |i: int| (areas[i].0, areas[i].1, areas[i].2@))
}

/// The rows of the shape that a region writes: its lines but the first,
/// character by character.
pub open spec fn shape_rows(region: Seq<char>) -> Seq<Seq<Shape>> {
    Seq::new(
        (lines_of(region).len() - 1) as nat,
        |r: int| Seq::new(lines_of(region)[r + 1].len(), |c: int| Shape::of(lines_of(region)[r + 1][c])),
    )
}

fn read_sizes(s: &Vec<char>) -> (r: Vec<usize>)
    ensures
        r@ == sizes_in(words_of(s@)),
{
    let ws = words(s);
    let ghost all = words_of(s@);
    let mut out: Vec<usize> = Vec::new();
    let mut i: usize = 0;
    proof {
        assert(all.take(0) =~= Seq::<Seq<char>>::empty());
    }
    while i < ws.len()
        invariant
            i <= ws@.len(),
            ws@.len() == all.len(),
            forall|k: int| 0 <= k < all.len() ==> (#[trigger] ws@[k])@ == all[k],
            out@ == sizes_in(all.take(i as int)),
        decreases ws@.len() - i,
    {
        proof {
            assert(all.take(i + 1).drop_last() =~= all.take(i as int));
            assert(all.take(i + 1).last() == ws@[i as int]@);
        }
        match read_size(&ws[i]) {
            Some(n) => out.push(n),
            None => {},
        }
        i += 1;
    }
    proof {
        assert(all.take(all.len() as int) =~= all);
    }
    out
}

fn read_size(s: &Vec<char>) -> (r: Option<usize>)
    ensures
        r == size_of(s@),
{
    match parse_u64(s) {
        Some(n) => {
            if n <= usize::MAX as u64 {
                Some(n as usize)
            } else {
                None
            }
        },
        None => None,
    }
}

fn read_area(line: &Vec<char>) -> (r: Option<(usize, usize, Vec<usize>)>)
    ensures
        match r {
            Some(a) => area_of(line@) == Some((a.0, a.1, a.2@)),
            None => area_of(line@) is None,
        },
{
    if line.len() < 2 {
        return None;
    }
    let mut colon: usize = 0;
    while colon < line.len() - 1 && !(line[colon] == ':' && line[colon + 1] == ' ')
        invariant
            colon < line@.len(),
            line@.len() >= 2,
            colon_of(line@, 0) == colon_of(line@, colon as int),
        decreases line@.len() - colon,
    {
        colon += 1;
    }
    if colon >= line.len() - 1 {
        return None;
    }
    let area = slice_of(line, 0, colon);
    let cross = find_char(&area, 'x');
    if cross >= area.len() {
        return None;
    }
    let x = read_size(&slice_of(&area, 0, cross));
    let y = read_size(&slice_of(&area, cross + 1, area.len()));
    match (x, y) {
        (Some(x), Some(y)) => Some((x, y, read_sizes(&slice_of(line, colon + 2, line.len())))),
        _ => None,
    }
}

/// How many of the first `upto` areas are large enough for their
/// presents, each present counted as seven places.
pub open spec fn roomy(areas: Seq<(usize, usize, Seq<usize>)>, upto: int) -> nat
    decreases upto,
{
    if upto <= 0 {
        0
    } else {
        roomy(areas, upto - 1) + if needed(areas[upto - 1].2, areas[upto - 1].2.len() as int)
            < areas[upto - 1].1 * areas[upto - 1].0 {
            1nat
        } else {
            0nat
        }
    }
}

/// The places that the first `upto` kinds of presents need.
pub open spec fn needed(counts: Seq<usize>, upto: int) -> nat
    decreases upto,
{
    if upto <= 0 {
        0
    } else {
        needed(counts, upto - 1) + (counts[upto - 1] * 7) as nat
    }
}

pub proof fn lemma_needed(counts: Seq<usize>, upto: int, end: int)
    requires
        0 <= upto <= end,
    ensures
        needed(counts, upto) <= needed(counts, end),
    decreases end - upto,
{
    if upto < end {
        lemma_needed(counts, upto, end - 1);
    }
}

/// How many areas are large enough for their presents. The sizes of the
/// areas and the places that the presents need must fit.
pub fn part_one(presents: &Presents) -> (r: u64)
    requires
        forall|i: int|
            0 <= i < presents.areas@.len() ==> (#[trigger] presents.areas@[i]).1
                * presents.areas@[i].0 <= usize::MAX && needed(
                presents.areas@[i].2@,
                presents.areas@[i].2@.len() as int,
            ) <= usize::MAX,
    ensures
        r == roomy(plain(presents.areas@), presents.areas@.len() as int),
{
    let mut works: u64 = 0;
    let mut i: usize = 0;
    while i < presents.areas.len()
        invariant
            i <= presents.areas@.len(),
            works <= i,
            forall|k: int|
                0 <= k < presents.areas@.len() ==> (#[trigger] presents.areas@[k]).1
                    * presents.areas@[k].0 <= usize::MAX && needed(
                    presents.areas@[k].2@,
                    presents.areas@[k].2@.len() as int,
                ) <= usize::MAX,
            works == roomy(plain(presents.areas@), i as int),
        decreases presents.areas@.len() - i,
    {
        let area = &presents.areas[i];
        proof {
            assert(plain(presents.areas@)[i as int] == (area.0, area.1, area.2@));
            assert(presents.areas@[i as int].1 * presents.areas@[i as int].0 <= usize::MAX);
        }
        let max = area.1 * area.0;
        let mut best: usize = 0;
        let mut k: usize = 0;
        while k < area.2.len()
            invariant
                k <= area.2@.len(),
                needed(area.2@, area.2@.len() as int) <= usize::MAX,
                best == needed(area.2@, k as int),
            decreases area.2@.len() - k,
        {
            proof {
                lemma_needed(area.2@, k + 1, area.2@.len() as int);
            }
            best = best + area.2[k] * 7;
            k += 1;
        }
        if best < max {
            works += 1;
        }
        i += 1;
    }
    works
}

impl Presents {
    /// Reads the presents and the areas: the shape of each present in a
    /// part of its own, under a line that numbers it, and the areas in
    /// the last part. Each shape must be a rectangle.
    pub fn parse(s: &str) -> (r: Presents)
        requires
            forall|i: int|
                0 <= i < regions_of(s@, 0).len() - 1 ==> rows_fault(
                    shape_rows(#[trigger] regions_of(s@, 0)[i]),
                ) is None && lines_of(regions_of(s@, 0)[i]).len() > 0,
        ensures
            plain(r.areas@) == areas_of(rows_of(regions_of(s@, 0).last(), 0)),
            r.presents@.len() == regions_of(s@, 0).len() - 1,
            forall|i: int|
                0 <= i < r.presents@.len() ==> (#[trigger] r.presents@[i]).wf()
                    && r.presents@[i]@.data == cells_of(shape_rows(regions_of(s@, 0)[i])),
    {
        let text = chars_of(s);
        let ghost all = regions_of(s@, 0);
        let mut regions: Vec<Vec<char>> = Vec::new();
        let mut from: usize = 0;
        loop
            invariant_except_break
                all == seqs_of(regions@) + regions_of(text@, from as int),
            invariant
                text@ == s@,
                from <= text@.len(),
                all == regions_of(s@, 0),
            ensures
                all == seqs_of(regions@),
            decreases text@.len() - from,
        {
            let mut gap = from;
            proof {
                lemma_gap_from(text@, from as int);
            }
            while gap < text.len() && !(gap + 1 < text.len() && text[gap] == '\n' && text[gap + 1]
                == '\n')
                invariant
                    from <= gap <= text@.len(),
                    gap_from(text@, from as int) == if gap + 1 >= text@.len() {
                        text@.len() as int
                    } else {
                        gap_from(text@, gap as int)
                    },
                decreases text@.len() - gap,
            {
                gap += 1;
            }
            let ghost before = seqs_of(regions@);
            if gap < text.len() {
                regions.push(slice_of(&text, from, gap));
                proof {
                    assert(seqs_of(regions@) =~= before.push(text@.subrange(from as int, gap as int)));
                    assert(before + (seq![text@.subrange(from as int, gap as int)] + regions_of(
                        text@,
                        gap + 2,
                    )) =~= seqs_of(regions@) + regions_of(text@, gap + 2));
                }
                from = gap + 2;
            } else {
                regions.push(slice_of(&text, from, text.len()));
                proof {
                    assert(seqs_of(regions@) =~= before.push(
                        text@.subrange(from as int, text@.len() as int),
                    ));
                    assert(before + seq![text@.subrange(from as int, text@.len() as int)]
                        =~= seqs_of(regions@));
                }
                break ;
            }
        }
        let last = &regions[regions.len() - 1];
        proof {
            assert(seqs_of(regions@)[regions@.len() - 1] == last@);
        }
        // The areas stand in the last part, one to a line.
        let mut areas: Vec<(usize, usize, Vec<usize>)> = Vec::new();
        let mut at: usize = 0;
        let ghost rows = rows_of(last@, 0);
        let ghost mut seen: Seq<Seq<char>> = Seq::empty();
        proof {
            assert(plain(areas@) =~= Seq::<(usize, usize, Seq<usize>)>::empty());
        }
        loop
            invariant_except_break
                rows == seen + rows_of(last@, at as int),
            invariant
                at <= last@.len(),
                plain(areas@) == areas_of(seen),
            ensures
                rows == seen,
                plain(areas@) == areas_of(seen),
            decreases last@.len() - at,
        {
            let mut end = at;
            proof {
                crate::text::lemma_place_of(last@, '\n', at as int);
            }
            while end < last.len() && last[end] != '\n'
                invariant
                    at <= end <= last@.len(),
                    place_of(last@, '\n', at as int) == place_of(last@, '\n', end as int),
                decreases last@.len() - end,
            {
                end += 1;
            }
            let line = slice_of(last, at, end);
            let ghost old_seen = seen;
            let ghost old_areas = plain(areas@);
            proof {
                seen = seen.push(line@);
                assert(seen.drop_last() =~= old_seen);
            }
            match read_area(&line) {
                Some(a) => {
                    let ghost value = (a.0, a.1, a.2@);
                    areas.push(a);
                    proof {
                        assert(plain(areas@) =~= old_areas.push(value));
                    }
                },
                None => {},
            }
            if end < last.len() {
                proof {
                    assert(old_seen + (seq![line@] + rows_of(last@, end + 1)) =~= seen + rows_of(
                        last@,
                        end + 1,
                    ));
                }
                at = end + 1;
            } else {
                proof {
                    assert(old_seen + seq![line@] =~= seen);
                }
                break ;
            }
        }
        let mut presents: Vec<Grid<Shape>> = Vec::new();
        let mut p: usize = 0;
        while p < regions.len() - 1
            invariant
                p <= regions@.len() - 1,
                regions@.len() >= 1,
                all == seqs_of(regions@),
                forall|i: int|
                    0 <= i < all.len() - 1 ==> rows_fault(shape_rows(#[trigger] all[i])) is None
                        && lines_of(all[i]).len() > 0,
                presents@.len() == p,
                forall|i: int|
                    0 <= i < p ==> (#[trigger] presents@[i]).wf() && presents@[i]@.data == cells_of(
                        shape_rows(all[i]),
                    ),
            decreases regions@.len() - p,
        {
            let lines = split_lines(&regions[p]);
            let ghost region = all[p as int];
            proof {
                assert(regions@[p as int]@ == region);
                assert(rows_fault(shape_rows(all[p as int])) is None);
            }
            let mut data: Vec<Vec<Shape>> = Vec::new();
            let mut l: usize = 1;
            while l < lines.len()
                invariant
                    1 <= l <= lines@.len(),
                    lines@.len() == lines_of(region).len(),
                    forall|k: int| 0 <= k < lines@.len() ==> (#[trigger] lines@[k])@ == lines_of(
                        region,
                    )[k],
                    data@.len() == l - 1,
                    forall|k: int| 0 <= k < data@.len() ==> (#[trigger] data@[k])@ == shape_rows(
                        region,
                    )[k],
                decreases lines@.len() - l,
            {
                let line = &lines[l];
                let mut row: Vec<Shape> = Vec::new();
                let mut c: usize = 0;
                while c < line.len()
                    invariant
                        c <= line@.len(),
                        row@ == Seq::new(c as nat, |k: int| Shape::of(line@[k])),
                    decreases line@.len() - c,
                {
                    row.push(Shape::from_char(line[c]));
                    proof {
                        assert(row@ =~= Seq::new((c + 1) as nat, |k: int| Shape::of(line@[k])));
                    }
                    c += 1;
                }
                proof {
                    assert(row@ =~= shape_rows(region)[l - 1]);
                }
                data.push(row);
                l += 1;
            }
            proof {
                assert(seqs_of(data@) =~= shape_rows(region));
            }
            match Grid::from_rows(data) {
                Ok(g) => presents.push(g),
                Err(_) => {},
            }
            p += 1;
        }
        Presents { presents, areas }
    }
}

} // verus!
