//! A rectangular grid of cells, kept row after row.
use crate::outside::{all_equal, div_rem};
use vstd::pervasive::VecAdditionalExecFns;
use vstd::prelude::*;
use vstd::string::{to_string_from_display_ensures, StringExecFns};
use vstd::std_specs::convert::TryFromSpec;

verus! {

/// Why a grid could not be made.
#[derive(Clone, Copy, Debug, PartialEq, Eq)]
pub enum GridError {
    /// The number of cells, which is no multiple of the number of columns.
    BadDataSize(usize),
    /// There are no rows.
    OuterEmpty,
    /// The first row has no cells.
    InnerEmpty,
    /// Two rows differ in length.
    UnequalRows,
}

/// What a grid holds: its cells row after row, and its shape.
pub ghost struct GridView<T> {
    pub data: Seq<T>,
    pub rows: nat,
    pub cols: nat,
}

impl<T> GridView<T> {
    /// The cells are as many as rows times columns.
    pub open spec fn wf(self) -> bool {
        self.data.len() == self.rows * self.cols
    }

    /// Whether the grid has a cell at `row` and `col`.
    pub open spec fn has(self, row: int, col: int) -> bool {
        0 <= row < self.rows && 0 <= col < self.cols
    }

    /// The cell at `row` and `col`.
    pub open spec fn cell(self, row: int, col: int) -> T {
        self.data[row * self.cols + col]
    }

    /// The cell at `row` and `col`, where there is one.
    pub open spec fn at(self, row: int, col: int) -> Option<T> {
        if self.has(row, col) {
            Some(self.cell(row, col))
        } else {
            None
        }
    }

    /// The eight places around a cell, row after row.
    pub open spec fn around(row: int, col: int) -> Seq<(int, int)> {
        seq![
            (row - 1, col - 1),
            (row - 1, col),
            (row - 1, col + 1),
            (row, col - 1),
            (row, col + 1),
            (row + 1, col - 1),
            (row + 1, col),
            (row + 1, col + 1),
        ]
    }

    /// The four places beside a cell: above, left, right, below.
    pub open spec fn beside(row: int, col: int) -> Seq<(int, int)> {
        seq![(row - 1, col), (row, col - 1), (row, col + 1), (row + 1, col)]
    }

    /// The cells at those of `places` that lie in the grid, in order.
    pub open spec fn present(self, places: Seq<(int, int)>) -> Seq<T>
        decreases places.len(),
    {
        if places.len() == 0 {
            Seq::empty()
        } else {
            let rest = self.present(places.drop_last());
            match self.at(places.last().0, places.last().1) {
                Some(v) => rest.push(v),
                None => rest,
            }
        }
    }

    /// The places that a walk over the grid comes by: it starts at `r` and
    /// `c` and moves by `dr` and `dc`, as long as it stands on a cell and
    /// its next place can be written down; `fuel` bounds the steps.
    pub open spec fn line_from(self, r: int, c: int, dr: int, dc: int, fuel: nat) -> Seq<
        (int, int),
    >
        decreases fuel,
    {
        if fuel == 0 || !self.has(r, c) || r + dr < 0 || r + dr > usize::MAX || c + dc < 0 || c
            + dc > usize::MAX {
            Seq::empty()
        } else {
            seq![(r, c)] + self.line_from(r + dr, c + dc, dr, dc, (fuel - 1) as nat)
        }
    }

    /// How far a walk can still go before it leaves the grid.
    pub open spec fn room(self, r: int, c: int, dr: int, dc: int) -> int {
        (if dr > 0 {
            self.rows - r
        } else if dr < 0 {
            r + 1
        } else {
            0
        }) + (if dc > 0 {
            self.cols - c
        } else if dc < 0 {
            c + 1
        } else {
            0
        })
    }

    /// A cell of the grid lies in its data.
    pub proof fn lemma_index(self, row: int, col: int)
        requires
            self.wf(),
            self.has(row, col),
        ensures
            0 <= row * self.cols + col < self.data.len(),
            (row * self.cols + col) / (self.cols as int) == row,
            (row * self.cols + col) % (self.cols as int) == col,
    {
        let c = self.cols as int;
        let r = self.rows as int;
        assert(0 <= row * c && row * c + c <= r * c) by (nonlinear_arith)
            requires
                0 <= row < r,
                0 < c,
        ;
        vstd::arithmetic::div_mod::lemma_fundamental_div_mod_converse(row * c + col, c, row, col);
    }

    /// A place in the data is a cell of the grid.
    pub proof fn lemma_place(self, i: int)
        requires
            self.wf(),
            0 <= i < self.data.len(),
        ensures
            self.cols > 0,
            self.has(i / (self.cols as int), i % (self.cols as int)),
            i == (i / (self.cols as int)) * self.cols + i % (self.cols as int),
    {
        let c = self.cols as int;
        let r = self.rows as int;
        assert(c > 0) by (nonlinear_arith)
            requires
                0 <= i < r * c,
                c >= 0,
        ;
        vstd::arithmetic::div_mod::lemma_fundamental_div_mod(i, c);
        assert(i / c < r) by (nonlinear_arith)
            requires
                i == c * (i / c) + i % c,
                0 <= i % c < c,
                i < r * c,
                c > 0,
        ;
        assert(i / c >= 0) by (nonlinear_arith)
            requires
                i >= 0,
                c > 0,
        ;
        assert(c * (i / c) == (i / c) * c) by (nonlinear_arith);
    }
}

/// The cells of `rows`, one row after the other.
pub open spec fn cells_of<T>(rows: Seq<Seq<T>>) -> Seq<T>
    decreases rows.len(),
{
    if rows.len() == 0 {
        Seq::empty()
    } else {
        cells_of(rows.drop_last()) + rows.last()
    }
}

/// The rows held by a vector of vectors.
pub open spec fn seqs_of<T>(rows: Seq<Vec<T>>) -> Seq<Seq<T>> {
    Seq::new(rows.len(), |i: int| rows[i]@)
}

/// What is wrong with `rows` as the rows of a grid, if anything.
pub open spec fn rows_fault<T>(rows: Seq<Seq<T>>) -> Option<GridError> {
    if rows.len() == 0 {
        Some(GridError::OuterEmpty)
    } else if rows[0].len() == 0 {
        Some(GridError::InnerEmpty)
    } else if exists|i: int| 0 <= i < rows.len() && (#[trigger] rows[i]).len() != rows[0].len() {
        Some(GridError::UnequalRows)
    } else {
        None
    }
}

pub proof fn lemma_cells_of<T>(rows: Seq<Seq<T>>, width: nat)
    requires
        forall|i: int| 0 <= i < rows.len() ==> (#[trigger] rows[i]).len() == width,
    ensures
        cells_of(rows).len() == rows.len() * width,
    decreases rows.len(),
{
    if rows.len() > 0 {
        let front = rows.drop_last();
        assert forall|i: int| 0 <= i < front.len() implies (#[trigger] front[i]).len()
            == width by {
            assert(front[i] == rows[i]);
        }
        lemma_cells_of(front, width);
        assert(front.len() * width + width == rows.len() * width) by (nonlinear_arith)
            requires
                front.len() + 1 == rows.len(),
        ;
    } else {
        assert(rows.len() * width == 0) by (nonlinear_arith)
            requires
                rows.len() == 0,
        ;
    }
}

/// The place of the first line feed in `s`, or the length of `s` where it
/// holds none.
pub open spec fn line_end(s: Seq<char>) -> int
    decreases s.len(),
{
    if s.len() == 0 || s[0] == '\n' {
        0
    } else {
        1 + line_end(s.drop_first())
    }
}

pub proof fn lemma_line_end(s: Seq<char>)
    ensures
        0 <= line_end(s) <= s.len(),
        line_end(s) < s.len() ==> s[line_end(s)] == '\n',
        forall|i: int| 0 <= i < line_end(s) ==> s[i] != '\n',
    decreases s.len(),
{
    if s.len() > 0 && s[0] != '\n' {
        let t = s.drop_first();
        lemma_line_end(t);
        assert forall|i: int| 0 <= i < line_end(s) implies s[i] != '\n' by {
            if i > 0 {
                assert(t[i - 1] == s[i]);
            }
        }
    }
}

/// A line without the carriage return at its end, if it has one.
pub open spec fn strip_cr(line: Seq<char>) -> Seq<char> {
    if line.len() > 0 && line.last() == '\r' {
        line.drop_last()
    } else {
        line
    }
}

/// The lines of a text. A line ends at a line feed, or at a carriage
/// return with a line feed behind it; the text's end closes the last line,
/// and no empty line follows a line feed at the end.
pub open spec fn lines_of(s: Seq<char>) -> Seq<Seq<char>>
    decreases s.len(),
{
    if s.len() == 0 {
        Seq::empty()
    } else {
        let end = line_end(s);
        if end >= s.len() {
            seq![s]
        } else if 0 <= end {
            seq![strip_cr(s.take(end))] + lines_of(s.skip(end + 1))
        } else {
            Seq::empty()
        }
    }
}

/// What the characters of a line become: each one that `T` can be made
/// from, in order.
pub open spec fn converted<T: TryFrom<char>>(line: Seq<char>) -> Seq<T>
    decreases line.len(),
{
    if line.len() == 0 {
        Seq::empty()
    } else {
        match T::try_from_spec(line.last()) {
            Ok(v) => converted::<T>(line.drop_last()).push(v),
            Err(_) => converted::<T>(line.drop_last()),
        }
    }
}

/// The rows that a text stands for: its lines, converted.
pub open spec fn text_rows<T: TryFrom<char>>(s: Seq<char>) -> Seq<Seq<T>> {
    Seq::new(lines_of(s).len(), |i: int| converted::<T>(lines_of(s)[i]))
}

/// A line that holds no line feed, with a line feed and more text behind
/// it, is the first line of the whole.
pub proof fn lemma_lines_cut(line: Seq<char>, rest: Seq<char>)
    requires
        forall|i: int| 0 <= i < line.len() ==> line[i] != '\n',
    ensures
        lines_of(line + seq!['\n'] + rest) == seq![strip_cr(line)] + lines_of(rest),
{
    let s = line + seq!['\n'] + rest;
    lemma_line_end(s);
    let end = line_end(s);
    if end < line.len() {
        assert(s[end] == line[end]);
    }
    if end > line.len() {
        assert(s[line.len() as int] == '\n');
    }
    assert(s.take(end) =~= line);
    assert(s.skip(end + 1) =~= rest);
}

/// A text that holds no line feed is one line, or none where it is empty.
pub proof fn lemma_lines_last(line: Seq<char>)
    requires
        forall|i: int| 0 <= i < line.len() ==> line[i] != '\n',
    ensures
        lines_of(line) == if line.len() == 0 {
            Seq::<Seq<char>>::empty()
        } else {
            seq![line]
        },
{
    lemma_line_end(line);
}

/// The texts of `pieces` in rows of `cols`, a line feed behind each row.
pub open spec fn in_rows(pieces: Seq<String>, cols: int, upto: int) -> Seq<char>
    decreases upto,
{
    if upto <= 0 || cols <= 0 {
        Seq::empty()
    } else {
        in_rows(pieces, cols, upto - 1) + pieces[upto - 1]@ + if upto % cols == 0 {
            seq!['\n']
        } else {
            Seq::<char>::empty()
        }
    }
}

/// What the references point at.
pub open spec fn values<T>(s: Seq<&T>) -> Seq<T> {
    Seq::new(s.len(), |i: int| *s[i])
}

/// `data` turned to the right by `k`: its last `k` items come first.
pub open spec fn turned_right<T>(data: Seq<T>, k: int) -> Seq<T> {
    data.subrange(data.len() - k, data.len() as int) + data.subrange(0, data.len() - k)
}

/// Each run of `width` items of `data` turned to the right by `k`.
pub open spec fn each_turned<T>(data: Seq<T>, width: int, k: int) -> Seq<T>
    decreases data.len(),
{
    if width <= 0 || data.len() < width {
        data
    } else {
        turned_right(data.take(width), k) + each_turned(data.skip(width), width, k)
    }
}

/// The closure `pred` answers as the predicate `p` does.
pub open spec fn answers_as<T, F: Fn(&T) -> bool>(pred: F, p: spec_fn(T) -> bool) -> bool {
    forall|v: T, b: bool| call_ensures(pred, (&v,), b) ==> b == p(v)
}

/// Appends `cell` to `out` where there is one.
fn keep<'a, T>(out: &mut Vec<&'a T>, cell: Option<&'a T>)
    ensures
        final(out)@ == match cell {
            Some(v) => old(out)@.push(v),
            None => old(out)@,
        },
{
    match cell {
        Some(v) => out.push(v),
        None => {},
    }
}

/// `v` turned to the right by `k`.
fn turn_right<T>(v: Vec<T>, k: usize) -> (r: Vec<T>)
    requires
        k <= v@.len(),
    ensures
        r@ == turned_right(v@, k as int),
{
    let mut head = v;
    let mut tail = head.split_off(head.len() - k);
    tail.append(&mut head);
    tail
}

/// A rectangle of cells, kept row after row.
#[derive(Debug, PartialEq, Eq, Clone)]
pub struct Grid<T> {
    data: Vec<T>,
    rows: usize,
    cols: usize,
}

impl<T> View for Grid<T> {
    type V = GridView<T>;

    closed spec fn view(&self) -> GridView<T> {
        GridView { data: self.data@, rows: self.rows as nat, cols: self.cols as nat }
    }
}

impl<T: Copy> Grid<T> {
    /// A grid of `rows` by `cols` cells that all hold `default`.
    pub fn new(rows: usize, cols: usize, default: T) -> (g: Self)
        requires
            rows * cols <= usize::MAX,
        ensures
            g.wf(),
            g@.rows == rows,
            g@.cols == cols,
            g@.data == Seq::new((rows * cols) as nat, |i: int| default),
    {
        let n = rows * cols;
        let mut data: Vec<T> = Vec::new();
        let mut i: usize = 0;
        while i < n
            invariant
                i <= n,
                data@ == Seq::new(i as nat, |k: int| default),
            decreases n - i,
        {
            data.push(default);
            assert(data@ =~= Seq::new((i + 1) as nat, |k: int| default));
            i += 1;
        }
        Grid { data, rows, cols }
    }
}

/// What is shown of the first pieces does not change with the pieces
/// behind them.
pub proof fn lemma_in_rows(a: Seq<String>, b: Seq<String>, cols: int, upto: int)
    requires
        0 <= upto <= a.len(),
        upto <= b.len(),
        forall|k: int| 0 <= k < upto ==> a[k] == b[k],
    ensures
        in_rows(a, cols, upto) == in_rows(b, cols, upto),
    decreases upto,
{
    if upto > 0 && cols > 0 {
        lemma_in_rows(a, b, cols, upto - 1);
    }
}

/// `r` is what making a grid of `rows` gives: the grid, or what is wrong
/// with the rows.
pub open spec fn made_of<T>(r: Result<Grid<T>, GridError>, rows: Seq<Seq<T>>) -> bool {
    match r {
        Ok(g) => rows_fault(rows) is None && g.wf() && g@.rows == rows.len() && g@.cols
            == rows[0].len() && g@.data == cells_of(rows),
        Err(e) => rows_fault(rows) == Some(e),
    }
}

/// The characters of `line` before `upto`, converted.
fn convert_line<T: TryFrom<char>>(line: &Vec<char>, upto: usize) -> (r: Vec<T>)
    requires
        upto <= line@.len(),
    ensures
        T::obeys_try_from_spec() ==> r@ == converted::<T>(line@.take(upto as int)),
{
    let mut out: Vec<T> = Vec::new();
    let mut i: usize = 0;
    while i < upto
        invariant
            i <= upto <= line@.len(),
            T::obeys_try_from_spec() ==> out@ == converted::<T>(line@.take(i as int)),
        decreases upto - i,
    {
        proof {
            assert(line@.take(i + 1).drop_last() =~= line@.take(i as int));
            assert(line@.take(i + 1).last() == line@[i as int]);
        }
        match T::try_from(line[i]) {
            Ok(v) => {
                out.push(v);
            },
            Err(_) => {},
        }
        i += 1;
    }
    out
}

impl<T> Grid<T> {
    /// The invariant of the grid, as its view states it.
    pub open spec fn wf(&self) -> bool {
        self@.wf()
    }

    /// The cells of a grid can be counted.
    pub proof fn lemma_size(&self)
        ensures
            self@.data.len() <= usize::MAX,
    {
        assert(self.data@.len() == self.data.len());
    }

    /// A grid from text: each line is a row, and each character that `T`
    /// can be made from is a cell; the others are passed over.
    pub fn from_str(text: &str) -> (r: Result<Self, GridError>) where T: TryFrom<char>
        ensures
            T::obeys_try_from_spec() ==> made_of(r, text_rows::<T>(text@)),
    {
        let mut rows: Vec<Vec<T>> = Vec::new();
        let mut line: Vec<char> = Vec::new();
        let ghost s = text@;
        let ghost mut done: Seq<Seq<char>> = Seq::empty();
        proof {
            assert(line@ + s.skip(0) =~= s);
        }
        for c in it: text.chars()
            invariant
                it.seq() == s,
                forall|i: int| 0 <= i < line@.len() ==> line@[i] != '\n',
                lines_of(s) == done + lines_of(line@ + s.skip(it.index())),
                rows@.len() == done.len(),
                T::obeys_try_from_spec() ==> forall|k: int|
                    0 <= k < done.len() ==> (#[trigger] rows@[k])@ == converted::<T>(done[k]),
        {
            let ghost at = it.index();
            let ghost old_line = line@;
            let ghost old_done = done;
            proof {
                assert(s.skip(at) =~= seq![c] + s.skip(at + 1));
            }
            if c == '\n' {
                let upto = if line.len() > 0 && line[line.len() - 1] == '\r' {
                    line.len() - 1
                } else {
                    line.len()
                };
                proof {
                    lemma_lines_cut(line@, s.skip(at + 1));
                    assert(line@ + s.skip(at) =~= line@ + seq!['\n'] + s.skip(at + 1));
                    assert(line@.take(upto as int) =~= strip_cr(line@));
                    done = done.push(strip_cr(line@));
                }
                rows.push(convert_line::<T>(&line, upto));
                line = Vec::new();
                proof {
                    assert(line@ + s.skip(at + 1) =~= s.skip(at + 1));
                    assert(old_done + (seq![strip_cr(old_line)] + lines_of(s.skip(at + 1)))
                        =~= done + lines_of(s.skip(at + 1)));
                }
            } else {
                line.push(c);
                proof {
                    assert(line@ + s.skip(at + 1) =~= old_line + s.skip(at));
                }
            }
        }
        proof {
            assert(line@ + s.skip(s.len() as int) =~= line@);
            lemma_lines_last(line@);
        }
        if line.len() > 0 {
            proof {
                assert(line@.take(line@.len() as int) =~= line@);
                done = done.push(line@);
            }
            rows.push(convert_line::<T>(&line, line.len()));
        }
        proof {
            if T::obeys_try_from_spec() {
                assert(seqs_of(rows@) =~= text_rows::<T>(s));
            }
        }
        Self::from_rows(rows)
    }

    /// A grid over `data`, which holds the cells row after row, `cols` to a
    /// row. The number of cells must be a multiple of `cols`.
    pub fn from_data(data: Vec<T>, cols: usize) -> (r: Result<Self, GridError>)
        requires
            cols != 0,
        ensures
            match r {
                Ok(g) => g.wf() && data@.len() % (cols as nat) == 0 && g@.data == data@ && g@.cols
                    == cols && g@.rows == data@.len() / (cols as nat),
                Err(e) => data@.len() % (cols as nat) != 0 && e == GridError::BadDataSize(
                    data.len(),
                ),
            },
    {
        let (rows, rem) = div_rem(data.len(), cols);
        if rem != 0 {
            return Err(GridError::BadDataSize(data.len()));
        }
        proof {
            vstd::arithmetic::div_mod::lemma_fundamental_div_mod(data@.len() as int, cols as int);
            assert(rows * cols == cols * rows) by (nonlinear_arith);
        }
        Ok(Grid { data, rows, cols })
    }

    /// A grid whose rows are `data`. There must be a row, the first row
    /// must hold a cell, and all rows must be of one length.
    pub fn from_rows(data: Vec<Vec<T>>) -> (r: Result<Self, GridError>)
        ensures
            made_of(r, seqs_of(data@)),
    {
        if data.len() == 0 {
            return Err(GridError::OuterEmpty);
        }
        let cols = data[0].len();
        if cols == 0 {
            return Err(GridError::InnerEmpty);
        }
        let mut lens: Vec<usize> = Vec::new();
        let mut i: usize = 0;
        while i < data.len()
            invariant
                i <= data@.len(),
                lens@.len() == i,
                forall|k: int| 0 <= k < i ==> lens@[k] == (#[trigger] data@[k])@.len(),
            decreases data@.len() - i,
        {
            lens.push(data[i].len());
            i += 1;
        }
        if !all_equal(&lens) {
            proof {
                let (a, b) = choose|a: int, b: int|
                    0 <= a < lens@.len() && 0 <= b < lens@.len() && lens@[a] != lens@[b];
                assert(seqs_of(data@)[a].len() != seqs_of(data@)[0].len() || seqs_of(
                    data@,
                )[b].len() != seqs_of(data@)[0].len());
            }
            return Err(GridError::UnequalRows);
        }
        proof {
            assert forall|k: int| 0 <= k < data@.len() implies (#[trigger] seqs_of(
                data@,
            )[k]).len() == cols by {
                assert(lens@[k] == lens@[0]);
            }
            lemma_cells_of(seqs_of(data@), cols as nat);
        }
        let ghost rows = data@;
        let mut flat: Vec<T> = Vec::new();
        for row in it: data
            invariant
                it.seq() == rows,
                flat@ == cells_of(seqs_of(rows).take(it.index())),
        {
            let mut row = row;
            let ghost done = it.index();
            proof {
                assert(seqs_of(rows).take(done + 1).drop_last() =~= seqs_of(rows).take(done));
                assert(seqs_of(rows).take(done + 1).last() == row@);
            }
            flat.append(&mut row);
        }
        proof {
            assert(seqs_of(rows).take(rows.len() as int) =~= seqs_of(rows));
            assert(flat@.len() == rows.len() * cols);
            vstd::arithmetic::div_mod::lemma_fundamental_div_mod_converse(
                flat@.len() as int,
                cols as int,
                rows.len() as int,
                0,
            );
        }
        Self::from_data(flat, cols)
    }

    /// The cells of row `row`, left to right.
    pub fn row(&self, row: usize) -> (r: Vec<&T>)
        requires
            self.wf(),
            row < self@.rows,
        ensures
            r@.len() == self@.cols,
            forall|c: int| 0 <= c < r@.len() ==> *(#[trigger] r@[c]) == self@.cell(row as int, c),
    {
        let mut out: Vec<&T> = Vec::new();
        let mut col: usize = 0;
        while col < self.cols
            invariant
                self.wf(),
                row < self@.rows,
                col <= self@.cols,
                out@.len() == col,
                forall|c: int|
                    0 <= c < out@.len() ==> *(#[trigger] out@[c]) == self@.cell(row as int, c),
            decreases self@.cols - col,
        {
            match self.get(row, col) {
                Some(v) => out.push(v),
                None => {},
            }
            col += 1;
        }
        out
    }

    /// The cells of column `col`, top to bottom.
    pub fn col(&self, col: usize) -> (r: Vec<&T>)
        requires
            self.wf(),
            self@.has(0, col as int),
        ensures
            r@.len() == self@.rows,
            forall|i: int| 0 <= i < r@.len() ==> *(#[trigger] r@[i]) == self@.cell(i, col as int),
    {
        let mut out: Vec<&T> = Vec::new();
        let mut row: usize = 0;
        while row < self.rows
            invariant
                self.wf(),
                col < self@.cols,
                row <= self@.rows,
                out@.len() == row,
                forall|i: int|
                    0 <= i < out@.len() ==> *(#[trigger] out@[i]) == self@.cell(i, col as int),
            decreases self@.rows - row,
        {
            match self.get(row, col) {
                Some(v) => out.push(v),
                None => {},
            }
            row += 1;
        }
        out
    }

    /// Every cell, row after row.
    pub fn iter(&self) -> (r: Vec<&T>)
        ensures
            r@.len() == self@.data.len(),
            forall|i: int| 0 <= i < r@.len() ==> *(#[trigger] r@[i]) == self@.data[i],
    {
        let mut out: Vec<&T> = Vec::new();
        let mut i: usize = 0;
        while i < self.data.len()
            invariant
                i <= self.data@.len(),
                out@.len() == i,
                forall|k: int| 0 <= k < out@.len() ==> *(#[trigger] out@[k]) == self.data@[k],
            decreases self.data@.len() - i,
        {
            out.push(&self.data[i]);
            i += 1;
        }
        out
    }

    /// Every cell with its row and column, row after row.
    pub fn cells(&self) -> (r: Vec<(usize, usize, &T)>)
        requires
            self.wf(),
        ensures
            r@.len() == self@.data.len(),
            forall|i: int|
                0 <= i < r@.len() ==> {
                    &&& (#[trigger] r@[i]).0 == i / (self@.cols as int)
                    &&& r@[i].1 == i % (self@.cols as int)
                    &&& *r@[i].2 == self@.data[i]
                    &&& self@.at(r@[i].0 as int, r@[i].1 as int) == Some(*r@[i].2)
                },
    {
        let mut out: Vec<(usize, usize, &T)> = Vec::new();
        let mut i: usize = 0;
        while i < self.data.len()
            invariant
                self.wf(),
                i <= self.data@.len(),
                out@.len() == i,
                forall|k: int|
                    0 <= k < out@.len() ==> {
                        &&& (#[trigger] out@[k]).0 == k / (self@.cols as int)
                        &&& out@[k].1 == k % (self@.cols as int)
                        &&& *out@[k].2 == self@.data[k]
                        &&& self@.at(out@[k].0 as int, out@[k].1 as int) == Some(*out@[k].2)
                    },
            decreases self.data@.len() - i,
        {
            proof {
                self@.lemma_place(i as int);
            }
            let (row, col) = div_rem(i, self.cols);
            out.push((row, col, &self.data[i]));
            i += 1;
        }
        out
    }

    /// The cells around the cell at `row` and `col`, row after row, as far
    /// as they lie in the grid.
    pub fn neighbors(&self, row: usize, col: usize) -> (r: Vec<&T>)
        requires
            self.wf(),
            row < usize::MAX,
            col < usize::MAX,
        ensures
            values(r@) == self@.present(GridView::<T>::around(row as int, col as int)),
    {
        let up = row.wrapping_sub(1);
        let left = col.wrapping_sub(1);
        let mut out: Vec<&T> = Vec::new();
        keep(&mut out, self.get(up, left));
        keep(&mut out, self.get(up, col));
        keep(&mut out, self.get(up, col + 1));
        keep(&mut out, self.get(row, left));
        keep(&mut out, self.get(row, col + 1));
        keep(&mut out, self.get(row + 1, left));
        keep(&mut out, self.get(row + 1, col));
        keep(&mut out, self.get(row + 1, col + 1));
        proof {
            let places = GridView::<T>::around(row as int, col as int);
            let p7 = places.drop_last();
            let p6 = p7.drop_last();
            let p5 = p6.drop_last();
            let p4 = p5.drop_last();
            let p3 = p4.drop_last();
            let p2 = p3.drop_last();
            let p1 = p2.drop_last();
            let p0 = p1.drop_last();
            assert(self@.present(p0) =~= Seq::<T>::empty());
            assert(self@.at(up as int, left as int) == self@.at(row - 1, col - 1));
            assert(self@.at(up as int, col as int) == self@.at(row - 1, col as int));
            assert(self@.at(up as int, col + 1) == self@.at(row - 1, col + 1));
            assert(self@.at(row as int, left as int) == self@.at(row as int, col - 1));
            assert(self@.at(row + 1, left as int) == self@.at(row + 1, col - 1));
            assert(values(out@) =~= self@.present(places)) by {
                reveal_with_fuel(GridView::present, 9);
            }
        }
        out
    }

    /// The grid as text: the cells of each row as they show themselves,
    /// one behind the other, and a line feed behind each row. `pieces`
    /// names what the cells show.
    pub fn render(&self) -> (r: String) where T: std::fmt::Display
        requires
            self.wf(),
        ensures
            exists|pieces: Seq<String>|
                {
                    &&& pieces.len() == self@.data.len()
                    &&& forall|i: int|
                        0 <= i < pieces.len() ==> to_string_from_display_ensures::<T>(
                            &self@.data[i],
                            #[trigger] pieces[i],
                        )
                    &&& r@ == in_rows(pieces, self@.cols as int, pieces.len() as int)
                },
    {
        let mut out = String::new();
        let ghost mut pieces: Seq<String> = Seq::empty();
        let mut i: usize = 0;
        proof {
            reveal_strlit("\n");
        }
        while i < self.data.len()
            invariant
                self.wf(),
                i <= self.data@.len(),
                pieces.len() == i,
                forall|k: int|
                    0 <= k < pieces.len() ==> to_string_from_display_ensures::<T>(
                        &self.data@[k],
                        #[trigger] pieces[k],
                    ),
                out@ == in_rows(pieces, self.cols as int, i as int),
                "\n"@ == seq!['\n'],
            decreases self.data@.len() - i,
        {
            let piece = self.data[i].to_string();
            let ghost before = pieces;
            proof {
                self@.lemma_place(i as int);
                pieces = pieces.push(piece);
                lemma_in_rows(before, pieces, self.cols as int, i as int);
            }
            out.append(piece.as_str());
            if (i + 1) % self.cols == 0 {
                out.append("\n");
            }
            proof {
                assert(out@ =~= in_rows(pieces, self.cols as int, i + 1));
            }
            i += 1;
        }
        out
    }

    /// The cells above, left of, right of and below the cell at `row` and
    /// `col`, in that order, as far as they lie in the grid.
    pub fn orthogonal(&self, row: usize, col: usize) -> (r: Vec<&T>)
        requires
            self.wf(),
            0 < row < usize::MAX,
            0 < col < usize::MAX,
        ensures
            values(r@) == self@.present(GridView::<T>::beside(row as int, col as int)),
    {
        let mut out: Vec<&T> = Vec::new();
        keep(&mut out, self.get(row - 1, col));
        keep(&mut out, self.get(row, col - 1));
        keep(&mut out, self.get(row, col + 1));
        keep(&mut out, self.get(row + 1, col));
        proof {
            let places = GridView::<T>::beside(row as int, col as int);
            let p3 = places.drop_last();
            let p2 = p3.drop_last();
            let p1 = p2.drop_last();
            let p0 = p1.drop_last();
            assert(self@.present(p0) =~= Seq::<T>::empty());
            assert(values(out@) =~= self@.present(places)) by {
                reveal_with_fuel(GridView::present, 5);
            }
        }
        out
    }

    /// How many of the cells around the cell at `row` and `col` meet
    /// `pred`.
    pub fn count_neighbors<F: Fn(&T) -> bool>(&self, row: usize, col: usize, pred: F) -> (r: usize)
        requires
            self.wf(),
            row < usize::MAX,
            col < usize::MAX,
            forall|v: &T| call_requires(pred, (v,)),
        ensures
            r <= self@.present(GridView::<T>::around(row as int, col as int)).len(),
            forall|p: spec_fn(T) -> bool|
                answers_as(pred, p) ==> r == self@.present(
                    GridView::<T>::around(row as int, col as int),
                ).filter(p).len(),
    {
        let cells = self.neighbors(row, col);
        let ghost all = self@.present(GridView::<T>::around(row as int, col as int));
        let mut count: usize = 0;
        let mut i: usize = 0;
        proof {
            assert(all.take(0) =~= Seq::<T>::empty());
            assert(all.len() == cells@.len());
        }
        while i < cells.len()
            invariant
                i <= cells@.len(),
                values(cells@) == all,
                count <= i,
                forall|v: &T| call_requires(pred, (v,)),
                forall|p: spec_fn(T) -> bool|
                    answers_as(pred, p) ==> count == all.take(i as int).filter(p).len(),
            decreases cells@.len() - i,
        {
            let hit = pred(cells[i]);
            let ghost cell = *cells@[i as int];
            proof {
                assert(all[i as int] == cell);
                assert(all.take(i + 1) =~= all.take(i as int).push(cell));
                assert forall|p: spec_fn(T) -> bool| answers_as(pred, p) implies (if hit {
                    count + 1
                } else {
                    count as int
                }) == all.take(i + 1).filter(p).len() by {
                    all.take(i as int).lemma_filter_push(cell, p);
                    assert(hit == p(cell));
                }
            }
            if hit {
                count += 1;
            }
            i += 1;
        }
        proof {
            assert(all.take(cells@.len() as int) =~= all);
        }
        count
    }

    /// The cells that a walk comes by which starts at `from` and moves by
    /// `step`, each with its place. The walk ends where it leaves the
    /// grid, and before the cell from which its next place cannot be
    /// written down.
    pub fn step(&self, from: (usize, usize), step: (isize, isize)) -> (r: Vec<
        (&T, (usize, usize)),
    >)
        requires
            self.wf(),
            !(step.0 == 0 && step.1 == 0 && self@.has(from.0 as int, from.1 as int)),
        ensures
            r@.len() == self@.line_from(
                from.0 as int,
                from.1 as int,
                step.0 as int,
                step.1 as int,
                self@.rows + self@.cols,
            ).len(),
            forall|i: int|
                0 <= i < r@.len() ==> {
                    &&& ((#[trigger] r@[i]).1.0 as int, r@[i].1.1 as int) == self@.line_from(
                        from.0 as int,
                        from.1 as int,
                        step.0 as int,
                        step.1 as int,
                        self@.rows + self@.cols,
                    )[i]
                    &&& self@.at(r@[i].1.0 as int, r@[i].1.1 as int) == Some(*r@[i].0)
                },
    {
        let mut out: Vec<(&T, (usize, usize))> = Vec::new();
        let mut cursor = from;
        let ghost whole = self@.line_from(
            from.0 as int,
            from.1 as int,
            step.0 as int,
            step.1 as int,
            self@.rows + self@.cols,
        );
        let ghost mut fuel: nat = self@.rows + self@.cols;
        let ghost mut seen: Seq<(int, int)> = Seq::empty();
        loop
            invariant
                self.wf(),
                !(step.0 == 0 && step.1 == 0) || !self@.has(cursor.0 as int, cursor.1 as int),
                self@.has(cursor.0 as int, cursor.1 as int) ==> fuel >= self@.room(
                    cursor.0 as int,
                    cursor.1 as int,
                    step.0 as int,
                    step.1 as int,
                ),
                whole == seen + self@.line_from(
                    cursor.0 as int,
                    cursor.1 as int,
                    step.0 as int,
                    step.1 as int,
                    fuel,
                ),
                out@.len() == seen.len(),
                forall|i: int|
                    0 <= i < out@.len() ==> {
                        &&& ((#[trigger] out@[i]).1.0 as int, out@[i].1.1 as int) == seen[i]
                        &&& self@.at(out@[i].1.0 as int, out@[i].1.1 as int) == Some(*out@[i].0)
                    },
            ensures
                whole == seen,
                out@.len() == seen.len(),
                forall|i: int|
                    0 <= i < out@.len() ==> {
                        &&& ((#[trigger] out@[i]).1.0 as int, out@[i].1.1 as int) == seen[i]
                        &&& self@.at(out@[i].1.0 as int, out@[i].1.1 as int) == Some(*out@[i].0)
                    },
            decreases fuel,
        {
            let value = match self.get(cursor.0, cursor.1) {
                Some(v) => v,
                None => {
                    proof {
                        assert(whole =~= seen);
                    }
                    break ;
                },
            };
            let down = match cursor.0.checked_add_signed(step.0) {
                Some(n) => n,
                None => {
                    proof {
                        assert(whole =~= seen);
                    }
                    break ;
                },
            };
            let right = match cursor.1.checked_add_signed(step.1) {
                Some(n) => n,
                None => {
                    proof {
                        assert(whole =~= seen);
                    }
                    break ;
                },
            };
            proof {
                assert(fuel > 0);
                let place = (cursor.0 as int, cursor.1 as int);
                assert(whole =~= seen.push(place) + self@.line_from(
                    down as int,
                    right as int,
                    step.0 as int,
                    step.1 as int,
                    (fuel - 1) as nat,
                ));
                seen = seen.push(place);
                fuel = (fuel - 1) as nat;
            }
            out.push((value, cursor));
            cursor = (down, right);
        }
        out
    }

    /// Moves every row down by `n`, or up where `n` is negative; what
    /// leaves the grid on one side comes in again on the other.
    pub fn rotate_rows(&mut self, n: isize)
        requires
            old(self).wf(),
            -(old(self)@.rows as int) <= n <= old(self)@.rows || old(self)@.cols == 0,
        ensures
            final(self).wf(),
            final(self)@.rows == old(self)@.rows,
            final(self)@.cols == old(self)@.cols,
            final(self)@.data == if n > 0 {
                turned_right(old(self)@.data, n * old(self)@.cols)
            } else {
                turned_right(old(self)@.data, old(self)@.data.len() + n * old(self)@.cols)
            },
    {
        let ghost len = self.data@.len() as int;
        let ghost cols = self.cols as int;
        if self.cols == 0 {
            proof {
                assert(len == 0) by (nonlinear_arith)
                    requires
                        len == self@.rows * self@.cols,
                        self@.cols == 0,
                ;
                assert(n * cols == 0) by (nonlinear_arith)
                    requires
                        cols == 0,
                ;
                assert(turned_right(self.data@, 0) =~= self.data@);
            }
            return ;
        }
        let mut data: Vec<T> = Vec::new();
        core::mem::swap(&mut data, &mut self.data);
        let total = data.len();
        assert(total == len);
        if n > 0 {
            proof {
                assert(0 <= n * cols <= len) by (nonlinear_arith)
                    requires
                        0 < n <= self@.rows,
                        cols > 0,
                        len == self@.rows * cols,
                ;
            }
            assert((n as usize) * self.cols == n * cols);
            let k = (n as usize) * self.cols;
            self.data = turn_right(data, k);
        } else {
            let up: usize = if n == 0 {
                0
            } else {
                (-(n + 1)) as usize + 1
            };
            proof {
                assert(up == -n);
                assert(0 <= up * cols <= len && up * cols == -(n * cols)) by (nonlinear_arith)
                    requires
                        up == -n,
                        0 <= up <= self@.rows,
                        cols > 0,
                        len == self@.rows * cols,
                ;
            }
            assert(up * self.cols == up * cols);
            let k = up * self.cols;
            self.data = turn_right(data, total - k);
        }
    }

    /// Moves every column right by `offset`, or left where `offset` is
    /// negative; what leaves the grid on one side comes in again on the
    /// other.
    pub fn rotate_cols(&mut self, offset: isize)
        requires
            old(self).wf(),
            old(self)@.cols > 0,
            -(old(self)@.cols as int) <= offset <= old(self)@.cols,
        ensures
            final(self).wf(),
            final(self)@.rows == old(self)@.rows,
            final(self)@.cols == old(self)@.cols,
            final(self)@.data == each_turned(
                old(self)@.data,
                old(self)@.cols as int,
                if offset > 0 {
                    offset as int
                } else {
                    old(self)@.cols + offset
                },
            ),
    {
        let cols = self.cols;
        let k: usize = if offset > 0 {
            offset as usize
        } else if offset == 0 {
            cols
        } else {
            cols - ((-(offset + 1)) as usize + 1)
        };
        let ghost whole = self.data@;
        let mut rest: Vec<T> = Vec::new();
        core::mem::swap(&mut rest, &mut self.data);
        let mut out: Vec<T> = Vec::new();
        let mut row: usize = 0;
        proof {
            assert(self@.rows * self@.cols - 0 * cols == whole.len()) by (nonlinear_arith)
                requires
                    whole.len() == self@.rows * self@.cols,
            ;
        }
        while row < self.rows
            invariant
                row <= self.rows,
                cols == self.cols,
                cols > 0,
                k <= cols,
                self.rows == old(self)@.rows,
                rest@.len() == (self.rows - row) * cols,
                out@.len() == row * cols,
                whole.len() == self.rows * cols,
                each_turned(whole, cols as int, k as int) == out@ + each_turned(
                    rest@,
                    cols as int,
                    k as int,
                ),
            decreases self.rows - row,
        {
            proof {
                assert((self.rows - row) * cols == (self.rows - row - 1) * cols + cols)
                    by (nonlinear_arith);
                assert((self.rows - row - 1) * cols >= 0) by (nonlinear_arith)
                    requires
                        row < self.rows,
                        cols > 0,
                ;
                assert((row + 1) * cols == row * cols + cols) by (nonlinear_arith);
            }
            let ghost before = rest@;
            let ghost sofar = out@;
            let mut chunk = rest;
            rest = chunk.split_off(cols);
            let mut turned = turn_right(chunk, k);
            out.append(&mut turned);
            proof {
                assert(chunk@ =~= before.take(cols as int));
                assert(rest@ =~= before.skip(cols as int));
                assert(sofar + (turned_right(before.take(cols as int), k as int) + each_turned(
                    rest@,
                    cols as int,
                    k as int,
                )) =~= out@ + each_turned(rest@, cols as int, k as int));
            }
            row += 1;
        }
        proof {
            assert(rest@.len() == 0) by (nonlinear_arith)
                requires
                    rest@.len() == (self.rows - row) * cols,
                    row == self.rows,
            ;
            assert(out@ + each_turned(rest@, cols as int, k as int) =~= out@);
        }
        self.data = out;
    }

    /// Copies of the cells at the places `order` of the data, in that
    /// order.
    fn pick(&self, order: &Vec<usize>) -> (r: Vec<T>) where T: Clone
        requires
            forall|k: int| 0 <= k < order@.len() ==> (#[trigger] order@[k]) < self@.data.len(),
        ensures
            r@.len() == order@.len(),
            forall|k: int|
                0 <= k < r@.len() ==> cloned(self@.data[order@[k] as int], #[trigger] r@[k]),
    {
        let mut out: Vec<T> = Vec::new();
        let mut k: usize = 0;
        while k < order.len()
            invariant
                k <= order@.len(),
                out@.len() == k,
                forall|j: int| 0 <= j < order@.len() ==> (#[trigger] order@[j]) < self.data@.len(),
                forall|j: int|
                    0 <= j < out@.len() ==> cloned(
                        self.data@[order@[j] as int],
                        #[trigger] out@[j],
                    ),
            decreases order@.len() - k,
        {
            out.push(self.data[order[k]].clone());
            k += 1;
        }
        out
    }

    /// The grid with rows and columns exchanged: the cell at `row` and
    /// `col` goes to `col` and `row`.
    pub fn transpose(&self) -> (r: Self) where T: Clone
        requires
            self.wf(),
            self@.rows > 0,
        ensures
            r.wf(),
            r@.rows == self@.cols,
            r@.cols == self@.rows,
            forall|row: int, col: int|
                0 <= row < self@.rows && 0 <= col < self@.cols ==> cloned(
                    self@.cell(row, col),
                    #[trigger] r@.cell(col, row),
                ),
    {
        let mut order: Vec<usize> = Vec::new();
        let mut col: usize = 0;
        while col < self.cols
            invariant
                self.wf(),
                col <= self.cols,
                order@.len() == col * self.rows,
                forall|k: int|
                    0 <= k < order@.len() ==> (#[trigger] order@[k]) == (k % (self.rows as int))
                        * self.cols + k / (self.rows as int) && order@[k] < self.data@.len(),
            decreases self.cols - col,
        {
            let mut row: usize = 0;
            while row < self.rows
                invariant
                    self.wf(),
                    col < self.cols,
                    row <= self.rows,
                    order@.len() == col * self.rows + row,
                    forall|k: int|
                        0 <= k < order@.len() ==> (#[trigger] order@[k]) == (k % (
                        self.rows as int)) * self.cols + k / (self.rows as int) && order@[k]
                            < self.data@.len(),
                decreases self.rows - row,
            {
                proof {
                    self@.lemma_index(row as int, col as int);
                    vstd::arithmetic::div_mod::lemma_fundamental_div_mod_converse(
                        col * self.rows + row,
                        self.rows as int,
                        col as int,
                        row as int,
                    );
                }
                match self.get_index(row, col) {
                    Some(place) => order.push(place),
                    None => {},
                }
                row += 1;
            }
            proof {
                assert((col + 1) * self.rows == col * self.rows + self.rows) by (nonlinear_arith);
            }
            col += 1;
        }
        let data = self.pick(&order);
        proof {
            assert(self.cols * self.rows == self.rows * self.cols) by (nonlinear_arith);
            vstd::arithmetic::div_mod::lemma_fundamental_div_mod_converse(
                data@.len() as int,
                self.rows as int,
                self.cols as int,
                0,
            );
        }
        let made = match Grid::from_data(data, self.rows) {
            Ok(g) => g,
            Err(_) => unreached(),
        };
        proof {
            assert forall|row: int, col: int|
                0 <= row < self@.rows && 0 <= col < self@.cols implies cloned(
                self@.cell(row, col),
                #[trigger] made@.cell(col, row),
            ) by {
                made@.lemma_index(col, row);
                let k = col * self.rows + row;
                assert(order@[k] == row * self.cols + col);
            }
        }
        made
    }

    /// The grid turned by a quarter: its last column becomes the first
    /// row, its first column the last row.
    pub fn rotate(&self) -> (r: Self) where T: Clone
        requires
            self.wf(),
            self@.rows > 0,
        ensures
            r.wf(),
            r@.rows == self@.cols,
            r@.cols == self@.rows,
            forall|row: int, col: int|
                0 <= row < self@.rows && 0 <= col < self@.cols ==> cloned(
                    self@.cell(row, col),
                    #[trigger] r@.cell(self@.cols - 1 - col, row),
                ),
    {
        let mut order: Vec<usize> = Vec::new();
        let mut done: usize = 0;
        while done < self.cols
            invariant
                self.wf(),
                done <= self.cols,
                order@.len() == done * self.rows,
                forall|k: int|
                    0 <= k < order@.len() ==> (#[trigger] order@[k]) == (k % (self.rows as int))
                        * self.cols + (self.cols - 1 - k / (self.rows as int)) && order@[k]
                        < self.data@.len(),
            decreases self.cols - done,
        {
            let col = self.cols - 1 - done;
            let mut row: usize = 0;
            while row < self.rows
                invariant
                    self.wf(),
                    done < self.cols,
                    col == self.cols - 1 - done,
                    row <= self.rows,
                    order@.len() == done * self.rows + row,
                    forall|k: int|
                        0 <= k < order@.len() ==> (#[trigger] order@[k]) == (k % (
                        self.rows as int)) * self.cols + (self.cols - 1 - k / (self.rows as int))
                            && order@[k] < self.data@.len(),
                decreases self.rows - row,
            {
                proof {
                    self@.lemma_index(row as int, col as int);
                    vstd::arithmetic::div_mod::lemma_fundamental_div_mod_converse(
                        done * self.rows + row,
                        self.rows as int,
                        done as int,
                        row as int,
                    );
                }
                match self.get_index(row, col) {
                    Some(place) => order.push(place),
                    None => {},
                }
                row += 1;
            }
            proof {
                assert((done + 1) * self.rows == done * self.rows + self.rows)
                    by (nonlinear_arith);
            }
            done += 1;
        }
        let data = self.pick(&order);
        proof {
            assert(self.cols * self.rows == self.rows * self.cols) by (nonlinear_arith);
            vstd::arithmetic::div_mod::lemma_fundamental_div_mod_converse(
                data@.len() as int,
                self.rows as int,
                self.cols as int,
                0,
            );
        }
        let made = match Grid::from_data(data, self.rows) {
            Ok(g) => g,
            Err(_) => unreached(),
        };
        proof {
            assert forall|row: int, col: int|
                0 <= row < self@.rows && 0 <= col < self@.cols implies cloned(
                self@.cell(row, col),
                #[trigger] made@.cell(self@.cols - 1 - col, row),
            ) by {
                let i = self@.cols - 1 - col;
                made@.lemma_index(i, row);
                let k = i * self.rows + row;
                assert(order@[k] == row * self.cols + col);
            }
        }
        made
    }

    /// The cells in backward order, in a grid of as many rows as this one
    /// has columns, and as many columns as this one has rows.
    pub fn flip(&self) -> (r: Self) where T: Clone
        requires
            self.wf(),
            self@.rows > 0,
        ensures
            r.wf(),
            r@.rows == self@.cols,
            r@.cols == self@.rows,
            r@.data.len() == self@.data.len(),
            forall|k: int|
                0 <= k < r@.data.len() ==> cloned(
                    self@.data[self@.data.len() - 1 - k],
                    #[trigger] r@.data[k],
                ),
    {
        let mut order: Vec<usize> = Vec::new();
        let mut k: usize = self.data.len();
        while k > 0
            invariant
                k <= self.data@.len(),
                order@.len() == self.data@.len() - k,
                forall|j: int|
                    0 <= j < order@.len() ==> (#[trigger] order@[j]) == self.data@.len() - 1 - j,
            decreases k,
        {
            k -= 1;
            order.push(k);
        }
        let data = self.pick(&order);
        proof {
            assert(self.cols * self.rows == self.rows * self.cols) by (nonlinear_arith);
            vstd::arithmetic::div_mod::lemma_fundamental_div_mod_converse(
                data@.len() as int,
                self.rows as int,
                self.cols as int,
                0,
            );
        }
        match Grid::from_data(data, self.rows) {
            Ok(g) => g,
            Err(_) => unreached(),
        }
    }

    /// The number of rows.
    #[inline]
    pub fn rows(&self) -> (n: usize)
        ensures
            n == self@.rows,
    {
        self.rows
    }

    /// The number of columns.
    #[inline]
    pub fn cols(&self) -> (n: usize)
        ensures
            n == self@.cols,
    {
        self.cols
    }

    /// The number of rows and of columns.
    pub fn dimensions(&self) -> (d: (usize, usize))
        ensures
            d.0 == self@.rows,
            d.1 == self@.cols,
    {
        (self.rows, self.cols)
    }

    /// The place in the data of the cell at `row` and `col`, where there is
    /// such a cell.
    #[inline]
    pub fn get_index(&self, row: usize, col: usize) -> (r: Option<usize>)
        requires
            self.wf(),
        ensures
            r is Some <==> self@.has(row as int, col as int),
            r matches Some(i) ==> i == row * self@.cols + col && i < self@.data.len(),
    {
        if self.rows <= row || self.cols <= col {
            None
        } else {
            proof {
                self@.lemma_index(row as int, col as int);
                assert(row * self.cols + col < self.data.len());
                assert(0 <= row * self.cols) by (nonlinear_arith);
            }
            Some(row * self.cols + col)
        }
    }

    /// The cell at `row` and `col`, where there is one.
    pub fn get(&self, row: usize, col: usize) -> (r: Option<&T>)
        requires
            self.wf(),
        ensures
            match r {
                Some(v) => self@.at(row as int, col as int) == Some(*v),
                None => self@.at(row as int, col as int) is None,
            },
    {
        match self.get_index(row, col) {
            Some(idx) => Some(&self.data[idx]),
            None => None,
        }
    }

    /// The cell at `row` and `col`, to be changed in place, where there is
    /// one.
    pub fn get_mut(&mut self, row: usize, col: usize) -> (r: Option<&mut T>)
        requires
            old(self).wf(),
        ensures
            final(self)@.rows == old(self)@.rows,
            final(self)@.cols == old(self)@.cols,
            match r {
                Some(cell) => old(self)@.at(row as int, col as int) == Some(*cell)
                    && final(self)@.data == old(self)@.data.update(
                    row * old(self)@.cols + col,
                    *final(cell),
                ),
                None => old(self)@.at(row as int, col as int) is None
                    && final(self)@.data == old(self)@.data,
            },
    {
        match self.get_index(row, col) {
            Some(idx) => Some(&mut self.data[idx]),
            None => None,
        }
    }

    /// Puts `value` into the cell at `row` and `col` and returns what was
    /// there. Where there is no such cell nothing changes.
    pub fn set(&mut self, row: usize, col: usize, value: T) -> (r: Option<T>)
        requires
            old(self).wf(),
        ensures
            final(self).wf(),
            final(self)@.rows == old(self)@.rows,
            final(self)@.cols == old(self)@.cols,
            r == old(self)@.at(row as int, col as int),
            final(self)@.data == if old(self)@.has(row as int, col as int) {
                old(self)@.data.update(row * old(self)@.cols + col, value)
            } else {
                old(self)@.data
            },
    {
        match self.get_index(row, col) {
            Some(idx) => {
                let mut value = value;
                self.data.set_and_swap(idx, &mut value);
                Some(value)
            },
            None => None,
        }
    }
}

impl<T> vstd::std_specs::core::IndexSpecImpl<(usize, usize)> for Grid<T> {
    /// A cell can be taken by its place where the grid has that place.
    open spec fn index_req(&self, index: &(usize, usize)) -> bool {
        self.wf() && self@.has(index.0 as int, index.1 as int)
    }
}

impl<T> std::ops::Index<(usize, usize)> for Grid<T> {
    type Output = T;

    /// The cell at the row and column of `index`.
    fn index(&self, index: (usize, usize)) -> (r: &T)
        ensures
            *r == self@.cell(index.0 as int, index.1 as int),
    {
        let idx = self.get_index(index.0, index.1).unwrap();
        &self.data[idx]
    }
}

} // verus!
