use crate::outside::{trim_of, trimmed};
use crate::text::{chars_of, find_char, number_of, parse_u64, place_of, slice_of};
use vstd::prelude::*;

verus! {

/// The decimal digits of `n`, the first first.
pub open spec fn decimal_of(n: nat) -> Seq<u8>
    decreases n,
{
    if n < 10 {
        seq![n as u8]
    } else {
        decimal_of(n / 10).push((n % 10) as u8)
    }
}

/// The decimal digits of `id`.
pub fn decimal(id: u64) -> (r: Vec<u8>)
    ensures
        r@ == decimal_of(id as nat),
{
    // The digits are gathered from the last to the first, and then put
    // in order.
    let mut back: Vec<u8> = Vec::new();
    let mut rest = id;
    while rest >= 10
        invariant
            decimal_of(id as nat) == decimal_of(rest as nat) + back@.reverse(),
        decreases rest,
    {
        let ghost old_back = back@;
        back.push((rest % 10) as u8);
        proof {
            assert(back@.reverse() =~= seq![(rest % 10) as u8] + old_back.reverse());
            assert(decimal_of(rest as nat) == decimal_of((rest / 10) as nat).push((rest % 10) as u8));
            assert(decimal_of((rest / 10) as nat).push((rest % 10) as u8) + old_back.reverse()
                =~= decimal_of((rest / 10) as nat) + back@.reverse());
        }
        rest = rest / 10;
    }
    let ghost old_back = back@;
    back.push(rest as u8);
    proof {
        assert(back@.reverse() =~= seq![rest as u8] + old_back.reverse());
    }
    let mut out: Vec<u8> = Vec::new();
    let mut i: usize = back.len();
    while i > 0
        invariant
            i <= back@.len(),
            out@.len() == back@.len() - i,
            forall|k: int| 0 <= k < out@.len() ==> out@[k] == back@[back@.len() - 1 - k],
        decreases i,
    {
        i -= 1;
        out.push(back[i]);
    }
    proof {
        assert(out@ =~= back@.reverse());
    }
    out
}

/// Whether `s` is `chunk` digits said over and over.
pub open spec fn repeats(s: Seq<u8>, chunk: int) -> bool {
    &&& 0 < chunk
    &&& s.len() % (chunk as nat) == 0
    &&& forall|i: int| chunk <= i < s.len() ==> #[trigger] s[i] == s[i - chunk]
}

/// Whether the digits of `id` are some digits said twice.
pub fn is_invalid_id(id: u64) -> (r: bool)
    ensures
        r == (decimal_of(id as nat).len() % 2 == 0 && repeats(
            decimal_of(id as nat),
            decimal_of(id as nat).len() as int / 2,
        )),
{
    let digits = decimal(id);
    let n = digits.len();
    let half = n / 2;
    proof {
        lemma_decimal_of(id as nat);
    }
    if n % 2 != 0 {
        return false;
    }
    is_repeat(&digits, half)
}

pub proof fn lemma_decimal_of(n: nat)
    ensures
        decimal_of(n).len() >= 1,
    decreases n,
{
    if n >= 10 {
        lemma_decimal_of(n / 10);
    }
}

/// Whether `s` is `chunk` digits said over and over.
fn is_repeat(s: &Vec<u8>, chunk: usize) -> (r: bool)
    requires
        0 < chunk,
    ensures
        r == repeats(s@, chunk as int),
{
    if s.len() % chunk != 0 {
        return false;
    }
    let mut i: usize = chunk;
    while i < s.len()
        invariant
            chunk <= i,
            0 < chunk,
            forall|k: int| chunk <= k < i && k < s@.len() ==> #[trigger] s@[k] == s@[k - chunk],
        decreases s@.len() - i,
    {
        if s[i] != s[i - chunk] {
            return false;
        }
        i += 1;
    }
    true
}

/// Whether the digits of `id` are some digits said over and over, twice
/// at least.
pub fn is_invalid_id2(id: u64) -> (r: bool)
    ensures
        r == exists|chunk: int|
            1 <= chunk <= decimal_of(id as nat).len() / 2 && #[trigger] repeats(
                decimal_of(id as nat),
                chunk,
            ),
{
    let digits = decimal(id);
    let n = digits.len();
    let mut chunk: usize = 1;
    while chunk <= n / 2
        invariant
            1 <= chunk,
            n == digits@.len(),
            digits@ == decimal_of(id as nat),
            forall|c: int| 1 <= c < chunk ==> !#[trigger] repeats(digits@, c),
        decreases n - chunk,
    {
        if is_repeat(&digits, chunk) {
            return true;
        }
        chunk += 1;
    }
    false
}

/// The numbers from `min` to `max` whose digits are some digits said over
/// and over, added up.
pub open spec fn invalid_sum(min: u64, upto: int) -> nat
    decreases upto - min,
{
    if upto <= min {
        0
    } else {
        invalid_sum(min, upto - 1) + if exists|chunk: int|
            1 <= chunk <= decimal_of((upto - 1) as nat).len() / 2 && #[trigger] repeats(
                decimal_of((upto - 1) as nat),
                chunk,
            ) {
            (upto - 1) as nat
        } else {
            0nat
        }
    }
}

pub proof fn lemma_invalid_sum(min: u64, upto: int, end: int)
    requires
        min <= upto <= end,
    ensures
        invalid_sum(min, upto) <= invalid_sum(min, end),
    decreases end - upto,
{
    if upto < end {
        lemma_invalid_sum(min, upto, end - 1);
    }
}

/// The sum of the invalid numbers from `min` to `max`. It must fit.
pub fn sum_invalid(min: u64, max: u64) -> (r: u64)
    requires
        invalid_sum(min, max + 1) <= u64::MAX,
    ensures
        r == invalid_sum(min, max + 1),
{
    let mut total: u64 = 0;
    let mut id = min;
    if min > max {
        return 0;
    }
    while id < max
        invariant
            min <= id <= max,
            invalid_sum(min, max + 1) <= u64::MAX,
            total == invalid_sum(min, id as int),
        decreases max - id,
    {
        proof {
            lemma_invalid_sum(min, id + 1, max + 1);
        }
        if is_invalid_id2(id) {
            total = total + id;
        }
        id += 1;
    }
    proof {
        assert(invalid_sum(min, max + 1) == invalid_sum(min, max as int) + if exists|chunk: int|
            1 <= chunk <= decimal_of(max as nat).len() / 2 && #[trigger] repeats(
                decimal_of(max as nat),
                chunk,
            ) {
            max as nat
        } else {
            0nat
        });
    }
    if is_invalid_id2(max) {
        total = total + max;
    }
    total
}

/// A range of numbers, from `min` to `max`.
#[derive(Debug, PartialEq, Eq)]
pub struct IdRange {
    pub min: u64,
    pub max: u64,
}

/// Why a text is no range.
#[derive(Debug, PartialEq, Eq)]
pub enum RangeError {
    /// No dash parts the two numbers.
    NoRange,
    /// What stands before or behind the first dash is no number that fits.
    BadNumber,
}

/// The range that `t` writes: two numbers with a dash between them.
pub open spec fn range_in(t: Seq<char>) -> Result<IdRange, RangeError> {
    let dash = place_of(t, '-', 0);
    if dash >= t.len() {
        Err(RangeError::NoRange)
    } else {
        match (number_of(t.subrange(0, dash)), number_of(t.subrange(dash + 1, t.len() as int))) {
            (Some(min), Some(max)) => Ok(IdRange { min, max }),
            _ => Err(RangeError::BadNumber),
        }
    }
}

impl IdRange {
    /// Reads a range from a text without white space around it.
    pub fn read(text: &Vec<char>) -> (r: Result<IdRange, RangeError>)
        ensures
            r == range_in(text@),
    {
        let dash = find_char(text, '-');
        if dash >= text.len() {
            return Err(RangeError::NoRange);
        }
        let min = parse_u64(&slice_of(text, 0, dash));
        let max = parse_u64(&slice_of(text, dash + 1, text.len()));
        match (min, max) {
            (Some(min), Some(max)) => Ok(IdRange { min, max }),
            _ => Err(RangeError::BadNumber),
        }
    }

    /// Reads a range, with or without white space around it.
    pub fn parse(value: &str) -> (r: Result<IdRange, RangeError>)
        ensures
            r == range_in(trim_of(value@)),
    {
        IdRange::read(&trimmed(&chars_of(value)))
    }
}

} // verus!
