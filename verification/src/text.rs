//! Reading text: lines, places of characters, and numbers.
use crate::grid::{lemma_lines_cut, lemma_lines_last, lines_of, strip_cr};
use vstd::prelude::*;

verus! {

/// The characters of a text.
pub fn chars_of(text: &str) -> (r: Vec<char>)
    ensures
        r@ == text@,
{
    let mut out: Vec<char> = Vec::new();
    let ghost s = text@;
    for c in it: text.chars()
        invariant
            it.seq() == s,
            out@ == s.take(it.index()),
    {
        let ghost at = it.index();
        out.push(c);
        proof {
            assert(out@ =~= s.take(at + 1));
        }
    }
    proof {
        assert(s.take(s.len() as int) =~= s);
    }
    out
}

/// The part of `s` from `from` up to `to`.
pub fn slice_of(s: &Vec<char>, from: usize, to: usize) -> (r: Vec<char>)
    requires
        from <= to <= s@.len(),
    ensures
        r@ == s@.subrange(from as int, to as int),
{
    let mut out: Vec<char> = Vec::new();
    let mut i: usize = from;
    while i < to
        invariant
            from <= i <= to <= s@.len(),
            out@ == s@.subrange(from as int, i as int),
        decreases to - i,
    {
        out.push(s[i]);
        proof {
            assert(out@ =~= s@.subrange(from as int, i + 1));
        }
        i += 1;
    }
    out
}

/// The lines of `s`, as `lines_of` tells them.
pub fn split_lines(s: &Vec<char>) -> (r: Vec<Vec<char>>)
    ensures
        r@.len() == lines_of(s@).len(),
        forall|k: int| 0 <= k < r@.len() ==> (#[trigger] r@[k])@ == lines_of(s@)[k],
{
    let mut rows: Vec<Vec<char>> = Vec::new();
    let mut start: usize = 0;
    let mut i: usize = 0;
    let ghost mut done: Seq<Seq<char>> = Seq::empty();
    proof {
        assert(s@.subrange(0, 0) + s@.skip(0) =~= s@);
    }
    while i < s.len()
        invariant
            start <= i <= s@.len(),
            forall|k: int| start <= k < i ==> s@[k] != '\n',
            lines_of(s@) == done + lines_of(s@.subrange(start as int, i as int) + s@.skip(i as int)),
            rows@.len() == done.len(),
            forall|k: int| 0 <= k < done.len() ==> (#[trigger] rows@[k])@ == done[k],
        decreases s@.len() - i,
    {
        let ghost line = s@.subrange(start as int, i as int);
        let ghost old_done = done;
        proof {
            assert(s@.skip(i as int) =~= seq![s@[i as int]] + s@.skip(i + 1));
        }
        if s[i] == '\n' {
            let end = if i > start && s[i - 1] == '\r' {
                i - 1
            } else {
                i
            };
            proof {
                lemma_lines_cut(line, s@.skip(i + 1));
                assert(line + s@.skip(i as int) =~= line + seq!['\n'] + s@.skip(i + 1));
                assert(s@.subrange(start as int, end as int) =~= strip_cr(line));
                done = done.push(strip_cr(line));
                assert(s@.subrange(i + 1, i + 1) + s@.skip(i + 1) =~= s@.skip(i + 1));
                assert(old_done + (seq![strip_cr(line)] + lines_of(s@.skip(i + 1))) =~= done
                    + lines_of(s@.skip(i + 1)));
            }
            rows.push(slice_of(s, start, end));
            start = i + 1;
        } else {
            proof {
                assert(s@.subrange(start as int, i + 1) + s@.skip(i + 1) =~= line + s@.skip(
                    i as int,
                ));
            }
        }
        i += 1;
    }
    proof {
        let line = s@.subrange(start as int, i as int);
        assert(line + s@.skip(s@.len() as int) =~= line);
        lemma_lines_last(line);
    }
    if start < s.len() {
        proof {
            done = done.push(s@.subrange(start as int, s@.len() as int));
        }
        rows.push(slice_of(s, start, s.len()));
    }
    rows
}

/// The first place at or behind `from` where `s` holds `c`, or the length
/// of `s` where there is none.
pub open spec fn place_of(s: Seq<char>, c: char, from: int) -> int
    decreases s.len() - from,
{
    if from >= s.len() || s[from] == c {
        if from >= s.len() {
            s.len() as int
        } else {
            from
        }
    } else {
        place_of(s, c, from + 1)
    }
}

pub proof fn lemma_place_of(s: Seq<char>, c: char, from: int)
    requires
        0 <= from <= s.len(),
    ensures
        from <= place_of(s, c, from) <= s.len(),
        place_of(s, c, from) < s.len() ==> s[place_of(s, c, from)] == c,
        forall|k: int| from <= k < place_of(s, c, from) ==> s[k] != c,
    decreases s.len() - from,
{
    if from < s.len() && s[from] != c {
        lemma_place_of(s, c, from + 1);
    }
}

/// The first place where `s` holds `c`, or the length of `s`.
pub fn find_char(s: &Vec<char>, c: char) -> (r: usize)
    ensures
        r == place_of(s@, c, 0),
        r <= s@.len(),
{
    let mut i: usize = 0;
    proof {
        lemma_place_of(s@, c, 0);
    }
    while i < s.len() && s[i] != c
        invariant
            i <= s@.len(),
            place_of(s@, c, 0) == place_of(s@, c, i as int),
        decreases s@.len() - i,
    {
        i += 1;
    }
    i
}

/// The value of a digit, where `c` is one.
pub open spec fn digit_of(c: char) -> Option<nat> {
    if '0' <= c <= '9' {
        Some((c as u32 - '0' as u32) as nat)
    } else {
        None
    }
}

/// The number that the digits of `s` write; nothing where `s` is empty or
/// holds anything but digits.
pub open spec fn digits_of(s: Seq<char>) -> Option<nat>
    decreases s.len(),
{
    if s.len() == 0 {
        None
    } else if s.len() == 1 {
        digit_of(s[0])
    } else {
        match (digits_of(s.drop_last()), digit_of(s.last())) {
            (Some(front), Some(d)) => Some(front * 10 + d),
            _ => None,
        }
    }
}

/// The number that `s` writes as `u64`: digits, with or without a plus
/// sign before them, that write a number which fits.
pub open spec fn number_of(s: Seq<char>) -> Option<u64> {
    let body = if s.len() > 0 && s[0] == '+' {
        s.skip(1)
    } else {
        s
    };
    match digits_of(body) {
        Some(n) => if n <= u64::MAX {
            Some(n as u64)
        } else {
            None
        },
        None => None,
    }
}

pub proof fn lemma_digits_grow(s: Seq<char>, upto: int)
    requires
        1 <= upto <= s.len(),
    ensures
        digits_of(s.take(upto)) is None ==> digits_of(s) is None,
        digits_of(s.take(upto)) matches Some(n) ==> (digits_of(s) matches Some(m) ==> n <= m),
    decreases s.len() - upto,
{
    if upto < s.len() {
        lemma_digits_grow(s, upto + 1);
        assert(s.take(upto + 1).drop_last() =~= s.take(upto));
    } else {
        assert(s.take(upto) =~= s);
    }
}

/// The number that the digits of `s` from `start` on write, where it
/// fits.
pub open spec fn fitting(s: Seq<char>, start: int) -> Option<u64> {
    match digits_of(s.skip(start)) {
        Some(n) => if n <= u64::MAX {
            Some(n as u64)
        } else {
            None
        },
        None => None,
    }
}

/// Reads the digits of `s` from `start` on.
pub fn parse_digits(s: &Vec<char>, start: usize) -> (r: Option<u64>)
    requires
        start <= s@.len(),
    ensures
        r == fitting(s@, start as int),
{
    let ghost body = s@.skip(start as int);
    if start >= s.len() {
        return None;
    }
    let mut acc: u64 = 0;
    let mut i: usize = start;
    while i < s.len()
        invariant
            start <= i <= s@.len(),
            start < s@.len(),
            body == s@.skip(start as int),
            i > start ==> digits_of(body.take(i - start)) == Some(acc as nat),
            i == start ==> acc == 0,
        decreases s@.len() - i,
    {
        let c = s[i];
        let ghost more = body.take(i - start + 1);
        proof {
            assert(more.drop_last() =~= body.take(i - start));
            assert(more.last() == c);
            assert(more[more.len() - 1] == c);
            lemma_digits_grow(body, i - start + 1);
            if digit_of(c) is None {
                assert(digits_of(more) is None);
            } else {
                assert(digits_of(more) == Some((acc * 10 + digit_of(c)->0) as nat));
            }
        }
        if !('0' <= c && c <= '9') {
            return None;
        }
        let d = (c as u32 - '0' as u32) as u64;
        if acc > (u64::MAX - d) / 10 {
            proof {
                assert(acc * 10 + d > u64::MAX) by (nonlinear_arith)
                    requires
                        acc > (u64::MAX - d) / 10,
                        d < 10,
                ;
            }
            return None;
        }
        proof {
            assert(acc * 10 + d <= u64::MAX) by (nonlinear_arith)
                requires
                    acc <= (u64::MAX - d) / 10,
                    d < 10,
            ;
        }
        acc = acc * 10 + d;
        i += 1;
    }
    proof {
        assert(body.take(body.len() as int) =~= body);
    }
    Some(acc)
}

/// Reads `s` as a number.
pub fn parse_u64(s: &Vec<char>) -> (r: Option<u64>)
    ensures
        r == number_of(s@),
{
    let start: usize = if s.len() > 0 && s[0] == '+' {
        1
    } else {
        0
    };
    proof {
        assert(s@.skip(0) =~= s@);
    }
    parse_digits(s, start)
}

/// The number that `s` writes as `i64`: digits, with or without a sign
/// before them, that write a number which fits.
pub open spec fn signed_of(s: Seq<char>) -> Option<i64> {
    let minus = s.len() > 0 && s[0] == '-';
    let body = if s.len() > 0 && (s[0] == '+' || s[0] == '-') {
        s.skip(1)
    } else {
        s
    };
    match digits_of(body) {
        Some(n) => if minus {
            if n <= i64::MAX + 1 {
                Some((-n) as i64)
            } else {
                None
            }
        } else {
            if n <= i64::MAX {
                Some(n as i64)
            } else {
                None
            }
        },
        None => None,
    }
}

/// Reads `s` as a number with a sign.
pub fn parse_i64(s: &Vec<char>) -> (r: Option<i64>)
    ensures
        r == signed_of(s@),
{
    let minus = s.len() > 0 && s[0] == '-';
    let start: usize = if s.len() > 0 && (s[0] == '+' || s[0] == '-') {
        1
    } else {
        0
    };
    proof {
        assert(s@.skip(0) =~= s@);
    }
    match parse_digits(s, start) {
        None => None,
        Some(n) => {
            if minus {
                if n <= 9223372036854775807 {
                    Some(-(n as i64))
                } else if n == 9223372036854775808 {
                    Some(i64::MIN)
                } else {
                    None
                }
            } else if n <= 9223372036854775807 {
                Some(n as i64)
            } else {
                None
            }
        },
    }
}

} // verus!
