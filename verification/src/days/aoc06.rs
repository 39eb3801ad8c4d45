use crate::grid::lines_of;
use crate::outside::{trim_of, trimmed, words, words_of};
use crate::text::{chars_of, number_of, parse_u64, slice_of, split_lines};
use vstd::pervasive::VecAdditionalExecFns;
use vstd::prelude::*;

verus! {

/// What is done with the numbers of a problem.
#[derive(Clone, Copy, Debug, PartialEq, Eq, Structural)]
pub enum Operator {
    Plus,
    Times,
}

/// Numbers, and what is to be done with them.
#[derive(Debug, PartialEq, Eq)]
pub struct Problem {
    pub numbers: Vec<u64>,
    pub operator: Operator,
}

/// Why a sheet of problems could not be read.
#[derive(Clone, Copy, Debug, PartialEq, Eq)]
pub enum SheetError {
    /// There are fewer than three lines; this many.
    TooFewLines(usize),
    /// The last line holds this many operators, for that many columns.
    OperatorCount(usize, usize),
    /// A line holds this many numbers, for that many columns.
    NumberCount(usize, usize),
    /// The first column of a problem ends with no operator.
    NoOperator,
}

/// The operator that a word writes.
pub open spec fn operator_of(word: Seq<char>) -> Option<Operator> {
    if word == seq!['+'] {
        Some(Operator::Plus)
    } else if word == seq!['*'] {
        Some(Operator::Times)
    } else {
        None
    }
}

/// The numbers of `s`, added up.
pub open spec fn sum_of(s: Seq<u64>) -> nat
    decreases s.len(),
{
    if s.len() == 0 {
        0
    } else {
        sum_of(s.drop_last()) + s.last() as nat
    }
}

/// The numbers of `s`, multiplied.
pub open spec fn product_of(s: Seq<u64>) -> nat
    decreases s.len(),
{
    if s.len() == 0 {
        1
    } else {
        product_of(s.drop_last()) * s.last() as nat
    }
}

/// What a problem comes to.
pub open spec fn answer_of(numbers: Seq<u64>, operator: Operator) -> nat {
    match operator {
        Operator::Plus => sum_of(numbers),
        Operator::Times => product_of(numbers),
    }
}

/// Whether what a problem comes to can be computed: the sums, or the
/// products, on the way fit.
pub open spec fn computable(numbers: Seq<u64>, operator: Operator) -> bool {
    forall|k: int| 0 <= k <= numbers.len() ==> #[trigger] answer_of(numbers.take(k), operator)
        <= u64::MAX
}

impl Problem {
    /// The sum or the product of the numbers.
    pub fn compute(&self) -> (r: u64)
        requires
            computable(self.numbers@, self.operator),
        ensures
            r == answer_of(self.numbers@, self.operator),
    {
        let mut acc: u64 = match self.operator {
            Operator::Plus => 0,
            Operator::Times => 1,
        };
        let mut i: usize = 0;
        proof {
            assert(self.numbers@.take(0) =~= Seq::<u64>::empty());
        }
        while i < self.numbers.len()
            invariant
                i <= self.numbers@.len(),
                computable(self.numbers@, self.operator),
                acc == answer_of(self.numbers@.take(i as int), self.operator),
            decreases self.numbers@.len() - i,
        {
            proof {
                assert(self.numbers@.take(i + 1).drop_last() =~= self.numbers@.take(i as int));
                assert(self.numbers@.take(i + 1).last() == self.numbers@[i as int]);
                assert(answer_of(self.numbers@.take(i + 1), self.operator) <= u64::MAX);
            }
            acc = match self.operator {
                Operator::Plus => acc + self.numbers[i],
                Operator::Times => acc * self.numbers[i],
            };
            i += 1;
        }
        proof {
            assert(self.numbers@.take(self.numbers@.len() as int) =~= self.numbers@);
        }
        acc
    }
}

/// A product of which one factor is no less than 1 is no less than the
/// other factor.
pub proof fn lemma_answers_grow(numbers: Seq<u64>, operator: Operator, upto: int)
    requires
        0 <= upto <= numbers.len(),
        answer_of(numbers.take(upto), operator) > u64::MAX,
    ensures
        !computable(numbers, operator),
{
    assert(answer_of(numbers.take(upto), operator) > u64::MAX);
}

impl Problem {
    /// The sum or the product of the numbers, where the sums, or the
    /// products, on the way fit.
    pub fn try_compute(&self) -> (r: Option<u64>)
        ensures
            match r {
                Some(v) => computable(self.numbers@, self.operator) && v == answer_of(
                    self.numbers@,
                    self.operator,
                ),
                None => !computable(self.numbers@, self.operator),
            },
    {
        let mut acc: u64 = match self.operator {
            Operator::Plus => 0,
            Operator::Times => 1,
        };
        let mut i: usize = 0;
        proof {
            assert(self.numbers@.take(0) =~= Seq::<u64>::empty());
        }
        while i < self.numbers.len()
            invariant
                i <= self.numbers@.len(),
                forall|k: int| 0 <= k <= i ==> #[trigger] answer_of(
                    self.numbers@.take(k),
                    self.operator,
                ) <= u64::MAX,
                acc == answer_of(self.numbers@.take(i as int), self.operator),
            decreases self.numbers@.len() - i,
        {
            proof {
                assert(self.numbers@.take(i + 1).drop_last() =~= self.numbers@.take(i as int));
                assert(self.numbers@.take(i + 1).last() == self.numbers@[i as int]);
            }
            let next = match self.operator {
                Operator::Plus => acc.checked_add(self.numbers[i]),
                Operator::Times => acc.checked_mul(self.numbers[i]),
            };
            acc = match next {
                Some(v) => v,
                None => {
                    proof {
                        lemma_answers_grow(self.numbers@, self.operator, i + 1);
                    }
                    return None;
                },
            };
            i += 1;
        }
        proof {
            assert(self.numbers@.take(self.numbers@.len() as int) =~= self.numbers@);
        }
        Some(acc)
    }
}

/// What each of `problems` comes to.
pub fn compute_all(problems: &Vec<Problem>) -> (r: Vec<u64>)
    requires
        forall|i: int|
            0 <= i < problems@.len() ==> computable(
                (#[trigger] problems@[i]).numbers@,
                problems@[i].operator,
            ),
    ensures
        r@.len() == problems@.len(),
        forall|i: int|
            0 <= i < r@.len() ==> #[trigger] r@[i] == answer_of(
                problems@[i].numbers@,
                problems@[i].operator,
            ),
{
    let mut out: Vec<u64> = Vec::new();
    let mut i: usize = 0;
    while i < problems.len()
        invariant
            i <= problems@.len(),
            out@.len() == i,
            forall|k: int|
                0 <= k < problems@.len() ==> computable(
                    (#[trigger] problems@[k]).numbers@,
                    problems@[k].operator,
                ),
            forall|k: int|
                0 <= k < i ==> #[trigger] out@[k] == answer_of(
                    problems@[k].numbers@,
                    problems@[k].operator,
                ),
        decreases problems@.len() - i,
    {
        out.push(problems[i].compute());
        i += 1;
    }
    out
}

/// The numbers that the words of `ws` write; a word that writes none is
/// passed over.
pub open spec fn numbers_in(ws: Seq<Seq<char>>) -> Seq<u64>
    decreases ws.len(),
{
    if ws.len() == 0 {
        Seq::empty()
    } else {
        match number_of(ws.last()) {
            Some(n) => numbers_in(ws.drop_last()).push(n),
            None => numbers_in(ws.drop_last()),
        }
    }
}

/// The operators that the words of `ws` write; a word that writes none
/// is passed over.
pub open spec fn operators_in(ws: Seq<Seq<char>>) -> Seq<Operator>
    decreases ws.len(),
{
    if ws.len() == 0 {
        Seq::empty()
    } else {
        match operator_of(ws.last()) {
            Some(op) => operators_in(ws.drop_last()).push(op),
            None => operators_in(ws.drop_last()),
        }
    }
}

/// The numbers that the words of `line` write.
fn read_numbers(line: &Vec<char>) -> (r: Vec<u64>)
    ensures
        r@ == numbers_in(words_of(line@)),
{
    let ws = words(line);
    let ghost all = words_of(line@);
    let mut out: Vec<u64> = Vec::new();
    let mut i: usize = 0;
    proof {
        assert(all.take(0) =~= Seq::<Seq<char>>::empty());
    }
    while i < ws.len()
        invariant
            i <= ws@.len(),
            ws@.len() == all.len(),
            forall|k: int| 0 <= k < all.len() ==> (#[trigger] ws@[k])@ == all[k],
            out@ == numbers_in(all.take(i as int)),
        decreases ws@.len() - i,
    {
        proof {
            assert(all.take(i + 1).drop_last() =~= all.take(i as int));
            assert(all.take(i + 1).last() == ws@[i as int]@);
        }
        match parse_u64(&ws[i]) {
            Some(n) => out.push(n),
            None => {},
        }
        i += 1;
    }
    proof {
        assert(all.take(all.len() as int) =~= all);
    }
    out
}

/// The operators that the words of `line` write.
fn read_operators(line: &Vec<char>) -> (r: Vec<Operator>)
    ensures
        r@ == operators_in(words_of(line@)),
{
    let ws = words(line);
    let ghost all = words_of(line@);
    let mut out: Vec<Operator> = Vec::new();
    let mut i: usize = 0;
    proof {
        assert(all.take(0) =~= Seq::<Seq<char>>::empty());
    }
    while i < ws.len()
        invariant
            i <= ws@.len(),
            ws@.len() == all.len(),
            forall|k: int| 0 <= k < all.len() ==> (#[trigger] ws@[k])@ == all[k],
            out@ == operators_in(all.take(i as int)),
        decreases ws@.len() - i,
    {
        let w = &ws[i];
        proof {
            assert(all.take(i + 1).drop_last() =~= all.take(i as int));
            assert(all.take(i + 1).last() == w@);
        }
        if w.len() == 1 && w[0] == '+' {
            proof {
                assert(w@ =~= seq!['+']);
            }
            out.push(Operator::Plus);
        } else if w.len() == 1 && w[0] == '*' {
            proof {
                assert(w@ =~= seq!['*']);
            }
            out.push(Operator::Times);
        } else {
            proof {
                if w@ == seq!['+'] {
                    assert(seq!['+'].len() == 1 && seq!['+'][0] == '+');
                }
                if w@ == seq!['*'] {
                    assert(seq!['*'].len() == 1 && seq!['*'][0] == '*');
                }
            }
        }
        i += 1;
    }
    proof {
        assert(all.take(all.len() as int) =~= all);
    }
    out
}

/// What is wrong with a sheet whose problems stand in columns, if
/// anything: the first fault found, lines before operators, operators
/// before numbers, and the numbers line by line.
pub open spec fn sheet_fault(lines: Seq<Seq<char>>) -> Option<SheetError> {
    if lines.len() < 3 {
        Some(SheetError::TooFewLines(lines.len() as usize))
    } else {
        let width = words_of(lines[0]).len();
        let ops = operators_in(words_of(lines.last())).len();
        if ops != width {
            Some(SheetError::OperatorCount(ops as usize, width as usize))
        } else {
            rows_fault(lines, width, 0)
        }
    }
}

/// The first line from `from` on, the last line left out, that does not
/// hold `width` numbers.
pub open spec fn rows_fault(lines: Seq<Seq<char>>, width: nat, from: int) -> Option<SheetError>
    decreases lines.len() - from,
{
    if from < 0 || from >= lines.len() - 1 {
        None
    } else if numbers_in(words_of(lines[from])).len() != width {
        Some(SheetError::NumberCount(numbers_in(words_of(lines[from])).len() as usize, width as usize))
    } else {
        rows_fault(lines, width, from + 1)
    }
}

/// Problems that stand in columns: the numbers of a problem one below
/// the other, and its operator below them.
#[derive(Debug, PartialEq, Eq)]
pub struct ProblemsOne(pub Vec<Problem>);

impl ProblemsOne {
    /// Reads a sheet whose problems stand in columns.
    pub fn parse(value: &str) -> (r: Result<ProblemsOne, SheetError>)
        ensures
            match r {
                Ok(sheet) => {
                    let lines = lines_of(value@);
                    &&& sheet_fault(lines) is None
                    &&& sheet.0@.len() == words_of(lines[0]).len()
                    &&& forall|c: int|
                        0 <= c < sheet.0@.len() ==> {
                            &&& (#[trigger] sheet.0@[c]).operator == operators_in(
                                words_of(lines.last()),
                            )[c]
                            &&& sheet.0@[c].numbers@ == Seq::new(
                                (lines.len() - 1) as nat,
                                |row: int| numbers_in(words_of(lines[row]))[c],
                            )
                        }
                },
                Err(e) => sheet_fault(lines_of(value@)) == Some(e),
            },
    {
        let lines = split_lines(&chars_of(value));
        let ghost all = lines_of(value@);
        if lines.len() < 3 {
            return Err(SheetError::TooFewLines(lines.len()));
        }
        let width = words(&lines[0]).len();
        let operators = read_operators(&lines[lines.len() - 1]);
        if operators.len() != width {
            return Err(SheetError::OperatorCount(operators.len(), width));
        }
        let mut problems: Vec<Problem> = Vec::new();
        let mut c: usize = 0;
        while c < width
            invariant
                c <= width,
                width == operators@.len(),
                problems@.len() == c,
                forall|k: int|
                    0 <= k < c ==> (#[trigger] problems@[k]).operator == operators@[k]
                        && problems@[k].numbers@.len() == 0,
            decreases width - c,
        {
            problems.push(Problem { numbers: Vec::new(), operator: operators[c] });
            c += 1;
        }
        let mut row: usize = 0;
        while row < lines.len() - 1
            invariant
                row <= lines@.len() - 1,
                all == lines_of(value@),
                lines@.len() == all.len(),
                lines@.len() >= 3,
                forall|k: int| 0 <= k < all.len() ==> (#[trigger] lines@[k])@ == all[k],
                width == words_of(all[0]).len(),
                width == operators@.len(),
                operators@ == operators_in(words_of(all.last())),
                sheet_fault(all) == rows_fault(all, width as nat, row as int),
                problems@.len() == width,
                forall|k: int|
                    0 <= k < width ==> {
                        &&& (#[trigger] problems@[k]).operator == operators@[k]
                        &&& problems@[k].numbers@ == Seq::new(
                            row as nat,
                            |r: int| numbers_in(words_of(all[r]))[k],
                        )
                    },
            decreases lines@.len() - row,
        {
            let split = read_numbers(&lines[row]);
            proof {
                assert(lines@[row as int]@ == all[row as int]);
                assert(split@ == numbers_in(words_of(all[row as int])));
            }
            if split.len() != width {
                proof {
                    assert(rows_fault(all, width as nat, row as int) == Some(
                        SheetError::NumberCount(split.len(), width),
                    ));
                }
                return Err(SheetError::NumberCount(split.len(), width));
            }
            let mut k: usize = 0;
            while k < width
                invariant
                    k <= width,
                    row < lines@.len() - 1,
                    lines@.len() == all.len(),
                    width == operators@.len(),
                    split@ == numbers_in(words_of(all[row as int])),
                    split@.len() == width,
                    problems@.len() == width,
                    forall|j: int|
                        0 <= j < width ==> (#[trigger] problems@[j]).operator == operators@[j],
                    forall|j: int|
                        0 <= j < k ==> (#[trigger] problems@[j]).numbers@ == Seq::new(
                            (row + 1) as nat,
                            |r: int| numbers_in(words_of(all[r]))[j],
                        ),
                    forall|j: int|
                        k <= j < width ==> (#[trigger] problems@[j]).numbers@ == Seq::new(
                            row as nat,
                            |r: int| numbers_in(words_of(all[r]))[j],
                        ),
                decreases width - k,
            {
                let mut problem = Problem { numbers: Vec::new(), operator: Operator::Plus };
                problems.set_and_swap(k, &mut problem);
                let ghost before = problem.numbers@;
                problem.numbers.push(split[k]);
                proof {
                    assert(problem.numbers@ =~= Seq::new(
                        (row + 1) as nat,
                        |r: int| numbers_in(words_of(all[r]))[k as int],
                    ));
                }
                problems.set_and_swap(k, &mut problem);
                k += 1;
            }
            row += 1;
        }
        Ok(ProblemsOne(problems))
    }
}

/// What each problem comes to.
pub fn part_one(problems: ProblemsOne) -> (r: Vec<u64>)
    requires
        forall|i: int|
            0 <= i < problems.0@.len() ==> computable(
                (#[trigger] problems.0@[i]).numbers@,
                problems.0@[i].operator,
            ),
    ensures
        r@.len() == problems.0@.len(),
        forall|i: int|
            0 <= i < r@.len() ==> #[trigger] r@[i] == answer_of(
                problems.0@[i].numbers@,
                problems.0@[i].operator,
            ),
{
    compute_all(&problems.0)
}


/// The lines of `lines` that hold anything.
pub open spec fn filled(lines: Seq<Seq<char>>) -> Seq<Seq<char>>
    decreases lines.len(),
{
    if lines.len() == 0 {
        Seq::empty()
    } else if lines.last().len() == 0 {
        filled(lines.drop_last())
    } else {
        filled(lines.drop_last()).push(lines.last())
    }
}

/// Column `idx` of `lines`, read from the top: what each line holds
/// there, or a blank where the line is too short.
pub open spec fn column_of(lines: Seq<Seq<char>>, idx: int) -> Seq<char> {
    Seq::new(
        lines.len(),
        |l: int|
            if 0 <= idx < lines[l].len() {
                lines[l][idx]
            } else {
                ' '
            },
    )
}

/// A problem as its numbers and its operator.
pub type Sum = (Seq<u64>, Operator);

/// The problems read from the first `upto` columns: those that are done,
/// and the one that is being read. A blank column ends a problem. The
/// first column of a problem ends with its operator, and each column of
/// it, without its last character, writes a number of it; a column that
/// writes none is passed over.
pub open spec fn read_columns(cols: Seq<Seq<char>>, upto: int) -> Result<
    (Seq<Sum>, Option<Sum>),
    SheetError,
>
    decreases upto,
{
    if upto <= 0 || upto > cols.len() {
        Ok((Seq::empty(), None))
    } else {
        match read_columns(cols, upto - 1) {
            Err(e) => Err(e),
            Ok((done, cur)) => {
                let col = cols[upto - 1];
                if trim_of(col).len() == 0 {
                    match cur {
                        Some(sum) => Ok((done.push(sum), None)),
                        None => Ok((done, None)),
                    }
                } else {
                    let number = if col.len() == 0 {
                        None
                    } else {
                        number_of(trim_of(col.drop_last()))
                    };
                    match cur {
                        Some(sum) => Ok(
                            (
                                done,
                                Some(
                                    (
                                        match number {
                                            Some(n) => sum.0.push(n),
                                            None => sum.0,
                                        },
                                        sum.1,
                                    ),
                                ),
                            ),
                        ),
                        None => {
                            if col.len() > 0 && (col.last() == '*' || col.last() == '+') {
                                Ok(
                                    (
                                        done,
                                        Some(
                                            (
                                                match number {
                                                    Some(n) => seq![n],
                                                    None => Seq::empty(),
                                                },
                                                if col.last() == '*' {
                                                    Operator::Times
                                                } else {
                                                    Operator::Plus
                                                },
                                            ),
                                        ),
                                    ),
                                )
                            } else {
                                Err(SheetError::NoOperator)
                            }
                        },
                    }
                }
            },
        }
    }
}

/// A fault stays the fault however many columns follow.
pub proof fn lemma_read_columns(cols: Seq<Seq<char>>, upto: int, end: int)
    requires
        0 <= upto <= end <= cols.len(),
        read_columns(cols, upto) is Err,
    ensures
        read_columns(cols, end) == read_columns(cols, upto),
    decreases end - upto,
{
    if upto < end {
        lemma_read_columns(cols, upto, end - 1);
    }
}

/// The problems of a sheet that is read column by column.
pub open spec fn columns_sheet(lines: Seq<Seq<char>>) -> Result<Seq<Sum>, SheetError> {
    let rows = filled(lines);
    let cols = Seq::new(rows[0].len(), |idx: int| column_of(rows, idx));
    match read_columns(cols, cols.len() as int) {
        Err(e) => Err(e),
        Ok((done, Some(sum))) => Ok(done.push(sum)),
        Ok((done, None)) => Ok(done),
    }
}

/// The problems as numbers and operators.
pub open spec fn sums_of(problems: Seq<Problem>) -> Seq<Sum> {
    Seq::new(problems.len(), |i: int| (problems[i].numbers@, problems[i].operator))
}

/// Problems that are written top to bottom, one column of characters to a
/// number, with the operator at the foot of the first column.
#[derive(Debug, PartialEq, Eq)]
pub struct ProblemsTwo(pub Vec<Problem>);

impl ProblemsTwo {
    /// Reads a sheet column by column. A line must hold something.
    pub fn parse(value: &str) -> (r: Result<ProblemsTwo, SheetError>)
        requires
            filled(lines_of(value@)).len() > 0,
        ensures
            match r {
                Ok(sheet) => columns_sheet(lines_of(value@)) == Ok::<Seq<Sum>, SheetError>(
                    sums_of(sheet.0@),
                ),
                Err(e) => columns_sheet(lines_of(value@)) == Err::<Seq<Sum>, SheetError>(e),
            },
    {
        let lines = split_lines(&chars_of(value));
        let ghost all = lines_of(value@);
        let mut rows: Vec<Vec<char>> = Vec::new();
        let mut i: usize = 0;
        proof {
            assert(all.take(0) =~= Seq::<Seq<char>>::empty());
        }
        while i < lines.len()
            invariant
                i <= lines@.len(),
                lines@.len() == all.len(),
                forall|k: int| 0 <= k < all.len() ==> (#[trigger] lines@[k])@ == all[k],
                rows@.len() == filled(all.take(i as int)).len(),
                forall|k: int| 0 <= k < rows@.len() ==> (#[trigger] rows@[k])@ == filled(
                    all.take(i as int),
                )[k],
            decreases lines@.len() - i,
        {
            proof {
                assert(all.take(i + 1).drop_last() =~= all.take(i as int));
                assert(all.take(i + 1).last() == lines@[i as int]@);
            }
            if lines[i].len() > 0 {
                rows.push(slice_of(&lines[i], 0, lines[i].len()));
                proof {
                    assert(lines@[i as int]@.subrange(0, lines@[i as int]@.len() as int)
                        =~= lines@[i as int]@);
                }
            }
            i += 1;
        }
        proof {
            assert(all.take(all.len() as int) =~= all);
        }
        let ghost fr = filled(all);
        let width = rows[0].len();
        let ghost cols = Seq::new(fr[0].len(), |idx: int| column_of(fr, idx));
        let mut done: Vec<Problem> = Vec::new();
        let mut cur: Option<Problem> = None;
        let mut c: usize = 0;
        proof {
            assert(sums_of(done@) =~= Seq::<Sum>::empty());
        }
        while c < width
            invariant
                c <= width,
                width == cols.len(),
                all == lines_of(value@),
                fr == filled(all),
                cols == Seq::new(fr[0].len(), |idx: int| column_of(fr, idx)),
                rows@.len() == fr.len(),
                rows@.len() > 0,
                forall|k: int| 0 <= k < rows@.len() ==> (#[trigger] rows@[k])@ == fr[k],
                read_columns(cols, c as int) == Ok::<(Seq<Sum>, Option<Sum>), SheetError>(
                    (
                        sums_of(done@),
                        match cur {
                            Some(p) => Some((p.numbers@, p.operator)),
                            None => None,
                        },
                    ),
                ),
            decreases width - c,
        {
            let mut col: Vec<char> = Vec::new();
            let mut l: usize = 0;
            while l < rows.len()
                invariant
                    l <= rows@.len(),
                    c < width,
                    rows@.len() == fr.len(),
                    forall|k: int| 0 <= k < rows@.len() ==> (#[trigger] rows@[k])@ == fr[k],
                    col@.len() == l,
                    forall|k: int| 0 <= k < l ==> col@[k] == column_of(fr, c as int)[k],
                decreases rows@.len() - l,
            {
                let ch = if c < rows[l].len() {
                    rows[l][c]
                } else {
                    ' '
                };
                col.push(ch);
                l += 1;
            }
            proof {
                assert(col@ =~= column_of(fr, c as int));
                assert(cols[c as int] == col@);
            }
            let ghost old_done = sums_of(done@);
            if trimmed(&col).len() == 0 {
                match cur {
                    Some(p) => {
                        let ghost sum = (p.numbers@, p.operator);
                        done.push(p);
                        proof {
                            assert(sums_of(done@) =~= old_done.push(sum));
                        }
                    },
                    None => {},
                }
                cur = None;
            } else {
                let number = parse_u64(&trimmed(&slice_of(&col, 0, col.len() - 1)));
                proof {
                    assert(col@.subrange(0, col@.len() - 1) =~= col@.drop_last());
                }
                let mut problem = match cur {
                    Some(p) => p,
                    None => {
                        let last = col[col.len() - 1];
                        if last == '*' {
                            Problem { numbers: Vec::new(), operator: Operator::Times }
                        } else if last == '+' {
                            Problem { numbers: Vec::new(), operator: Operator::Plus }
                        } else {
                            proof {
                                assert(read_columns(cols, c + 1) == Err::<
                                    (Seq<Sum>, Option<Sum>),
                                    SheetError,
                                >(SheetError::NoOperator));
                                lemma_read_columns(cols, c + 1, cols.len() as int);
                            }
                            return Err(SheetError::NoOperator);
                        }
                    },
                };
                let ghost before = problem.numbers@;
                match number {
                    Some(n) => {
                        problem.numbers.push(n);
                        proof {
                            assert(Seq::<u64>::empty().push(n) =~= seq![n]);
                        }
                    },
                    None => {},
                }
                cur = Some(problem);
            }
            c += 1;
        }
        match cur {
            Some(p) => {
                let ghost old_done = sums_of(done@);
                let ghost sum = (p.numbers@, p.operator);
                done.push(p);
                proof {
                    assert(sums_of(done@) =~= old_done.push(sum));
                }
            },
            None => {},
        }
        Ok(ProblemsTwo(done))
    }
}

/// What each problem comes to.
pub fn part_two(problems: ProblemsTwo) -> (r: Vec<u64>)
    requires
        forall|i: int|
            0 <= i < problems.0@.len() ==> computable(
                (#[trigger] problems.0@[i]).numbers@,
                problems.0@[i].operator,
            ),
    ensures
        r@.len() == problems.0@.len(),
        forall|i: int|
            0 <= i < r@.len() ==> #[trigger] r@[i] == answer_of(
                problems.0@[i].numbers@,
                problems.0@[i].operator,
            ),
{
    compute_all(&problems.0)
}

} // verus!
