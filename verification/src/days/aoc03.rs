use vstd::prelude::*;
use vstd::string::StringSliceAdditionalSpecFns;

verus! {

/// The greatest of `s`, or 0 where `s` is empty.
pub open spec fn max_of(s: Seq<u32>) -> u32
    decreases s.len(),
{
    if s.len() == 0 {
        0
    } else if s.last() >= max_of(s.drop_last()) {
        s.last()
    } else {
        max_of(s.drop_last())
    }
}

/// The first place of `s` that holds `v`, or the length of `s` where none
/// does.
pub open spec fn first_of(s: Seq<u32>, v: u32) -> int
    decreases s.len(),
{
    if s.len() == 0 {
        0
    } else if s[0] == v {
        0
    } else {
        1 + first_of(s.drop_first(), v)
    }
}

pub proof fn lemma_max_of(s: Seq<u32>)
    ensures
        forall|i: int| 0 <= i < s.len() ==> s[i] <= max_of(s),
        s.len() > 0 ==> s.contains(max_of(s)),
    decreases s.len(),
{
    if s.len() > 0 {
        let front = s.drop_last();
        lemma_max_of(front);
        assert forall|i: int| 0 <= i < s.len() implies s[i] <= max_of(s) by {
            if i < front.len() {
                assert(front[i] == s[i]);
            }
        }
        if s.last() >= max_of(front) {
            assert(s[s.len() - 1] == max_of(s));
        } else {
            let k = choose|k: int| 0 <= k < front.len() && front[k] == max_of(front);
            assert(s[k] == max_of(s));
        }
    }
}

pub proof fn lemma_first_of(s: Seq<u32>, v: u32)
    ensures
        0 <= first_of(s, v) <= s.len(),
        first_of(s, v) < s.len() ==> s[first_of(s, v)] == v,
        forall|i: int| 0 <= i < first_of(s, v) ==> s[i] != v,
    decreases s.len(),
{
    if s.len() > 0 && s[0] != v {
        let t = s.drop_first();
        lemma_first_of(t, v);
        assert forall|i: int| 0 <= i < first_of(s, v) implies s[i] != v by {
            if i > 0 {
                assert(t[i - 1] == s[i]);
            }
        }
    }
}

/// Why a bank could not be read.
#[derive(Clone, Copy, Debug, PartialEq, Eq)]
pub enum BankError {
    /// The text is empty.
    NoData,
}

/// A bank of batteries, each with its joltage.
#[derive(Clone, Debug)]
pub struct Bank(pub Vec<u32>);

/// The greatest of `s` with its first place, where `s` holds anything.
fn find_next(s: &Vec<u32>, start: usize, end: usize) -> (r: Option<(u32, usize)>)
    requires
        start <= end <= s@.len(),
    ensures
        r is None <==> start == end,
        r matches Some(found) ==> found.0 == max_of(s@.subrange(start as int, end as int))
            && found.1 == first_of(s@.subrange(start as int, end as int), found.0) && found.1 < end
            - start,
{
    if start == end {
        return None;
    }
    let ghost part = s@.subrange(start as int, end as int);
    let mut best = s[start];
    let mut at: usize = 0;
    let mut i: usize = start + 1;
    proof {
        assert(part.take(1).drop_last() =~= Seq::<u32>::empty());
        assert(part.take(1).last() == best);
        assert(max_of(Seq::<u32>::empty()) == 0);
        assert(max_of(part.take(1)) == best);
        assert(part.take(1)[0] == best);
        assert(first_of(part.take(1), best) == 0);
    }
    while i < end
        invariant
            start < i <= end <= s@.len(),
            part == s@.subrange(start as int, end as int),
            best == max_of(part.take(i - start)),
            at == first_of(part.take(i - start), best),
            at < i - start,
        decreases end - i,
    {
        let ghost seen = part.take(i - start);
        let ghost more = part.take(i - start + 1);
        proof {
            assert(more.drop_last() =~= seen);
            assert(more.last() == s@[i as int]);
            assert(more =~= seen.push(s@[i as int]));
            lemma_max_of(seen);
            lemma_first_of(seen, best);
            lemma_first_of(seen, s@[i as int]);
            if s@[i as int] > best && first_of(seen, s@[i as int]) < seen.len() {
                assert(seen[first_of(seen, s@[i as int])] <= best);
            }
        }
        if s[i] > best {
            proof {
                lemma_first_grows(seen, s@[i as int], s@[i as int]);
            }
            best = s[i];
            at = i - start;
        } else {
            proof {
                lemma_first_grows(seen, s@[i as int], best);
            }
        }
        i += 1;
    }
    proof {
        assert(part.take(end - start) =~= part);
    }
    Some((best, at))
}

/// The first place of a value in a list that has one more item at its
/// end.
pub proof fn lemma_first_grows(s: Seq<u32>, last: u32, v: u32)
    ensures
        first_of(s.push(last), v) == if first_of(s, v) < s.len() {
            first_of(s, v)
        } else if last == v {
            s.len() as int
        } else {
            s.len() as int + 1
        },
    decreases s.len(),
{
    let more = s.push(last);
    if s.len() == 0 {
        assert(more.drop_first() =~= Seq::<u32>::empty());
        assert(first_of(Seq::<u32>::empty(), v) == 0);
        assert(more[0] == last);
    } else {
        assert(more.drop_first() =~= s.drop_first().push(last));
        assert(more[0] == s[0]);
        if s[0] != v {
            lemma_first_grows(s.drop_first(), last, v);
        }
    }
}

impl Bank {
    /// The joltages that the digits of `value` stand for.
    pub fn parse(value: &str) -> (r: Result<Bank, BankError>)
        requires
            forall|i: int| 0 <= i < value.spec_bytes().len() ==> value.spec_bytes()[i] >= 48,
        ensures
            match r {
                Ok(bank) => value.spec_bytes().len() > 0 && bank.0@ == Seq::new(
                    value.spec_bytes().len(),
                    |i: int| (value.spec_bytes()[i] - 48) as u32,
                ),
                Err(e) => value.spec_bytes().len() == 0 && e == BankError::NoData,
            },
    {
        let bytes = value.as_bytes();
        if bytes.len() == 0 {
            return Err(BankError::NoData);
        }
        let mut values: Vec<u32> = Vec::new();
        let mut i: usize = 0;
        while i < bytes.len()
            invariant
                i <= bytes@.len(),
                bytes@ == value.spec_bytes(),
                forall|k: int| 0 <= k < bytes@.len() ==> bytes@[k] >= 48,
                values@ == Seq::new(i as nat, |k: int| (bytes@[k] - 48) as u32),
            decreases bytes@.len() - i,
        {
            values.push((bytes[i] - 48) as u32);
            proof {
                assert(values@ =~= Seq::new((i + 1) as nat, |k: int| (bytes@[k] - 48) as u32));
            }
            i += 1;
        }
        Ok(Bank(values))
    }

    /// Whether every joltage is small enough for sums of them to fit.
    pub open spec fn wf(self) -> bool {
        forall|i: int| 0 <= i < self.0@.len() ==> self.0@[i] < 256
    }

    /// The greatest joltage of two batteries: ten times the greatest of
    /// all but the last, at its first place, plus the greatest of those
    /// behind it.
    pub open spec fn pair_of(s: Seq<u32>) -> Option<int> {
        if s.len() < 2 {
            None
        } else {
            let first = max_of(s.drop_last());
            let at = first_of(s.drop_last(), first);
            Some(10 * first + max_of(s.subrange(at + 1, s.len() as int)))
        }
    }

    /// The greatest joltage that two batteries of the bank give, taken in
    /// their order.
    pub fn part_one(&self) -> (r: Option<u32>)
        requires
            self.wf(),
            self.0@.len() >= 1,
        ensures
            match r {
                Some(v) => Bank::pair_of(self.0@) == Some(v as int),
                None => Bank::pair_of(self.0@) is None,
            },
    {
        let bank = &self.0;
        let n = bank.len();
        proof {
            assert(bank@.subrange(0, n - 1) =~= bank@.drop_last());
        }
        let (first, first_index) = match find_next(bank, 0, n - 1) {
            Some(found) => found,
            None => {
                return None;
            },
        };
        let (second, _) = match find_next(bank, first_index + 1, n) {
            Some(found) => found,
            None => {
                return None;
            },
        };
        proof {
            assert(Bank::pair_of(bank@) == Some(10 * first + second));
            lemma_max_of(bank@.drop_last());
            lemma_max_of(bank@.subrange(first_index + 1, n as int));
            let k = choose|k: int|
                0 <= k < bank@.drop_last().len() && bank@.drop_last()[k] == first;
            assert(bank@[k] == first);
            let tail = bank@.subrange(first_index + 1, n as int);
            let j = choose|j: int| 0 <= j < tail.len() && tail[j] == second;
            assert(bank@[first_index + 1 + j] == second);
        }
        Some(10 * first + second)
    }

    /// The number that twelve picks make: the picks made so far stand in
    /// `sofar`, the next may be taken from `start` on, and `left` more
    /// are to be made, each the greatest that leaves enough behind it, at
    /// its first place.
    pub open spec fn picks_of(s: Seq<u32>, start: int, left: nat, sofar: int) -> Option<int>
        decreases left,
    {
        if left == 0 {
            Some(sofar)
        } else {
            let end = s.len() - (left - 1);
            if start < 0 || start >= end || end > s.len() {
                None
            } else {
                let part = s.subrange(start, end);
                Bank::picks_of(
                    s,
                    start + first_of(part, max_of(part)) + 1,
                    (left - 1) as nat,
                    sofar * 10 + max_of(part),
                )
            }
        }
    }

    /// The greatest joltage that twelve batteries of the bank give, taken in
    /// their order.
    pub fn part_two(&self) -> (r: Option<u64>)
        requires
            self.wf(),
            self.0@.len() >= 11,
        ensures
            match r {
                Some(v) => Bank::picks_of(self.0@, 0, 12, 0) == Some(v as int),
                None => Bank::picks_of(self.0@, 0, 12, 0) is None,
            },
    {
        let bank = &self.0;
        let mut joltage: u64 = 0;
        let mut start: usize = 0;
        let mut left: usize = 12;
        proof {
            assert(pow10(0) == 1);
        }
        while left > 0
            invariant
                self.wf(),
                bank@ == self.0@,
                bank@.len() >= 11,
                left <= 12,
                start <= bank@.len(),
                joltage <= (pow10((12 - left) as nat) - 1) * 256,
                Bank::picks_of(self.0@, 0, 12, 0) == Bank::picks_of(
                    bank@,
                    start as int,
                    left as nat,
                    joltage as int,
                ),
            decreases left,
        {
            let end = bank.len() - (left - 1);
            if start >= end {
                return None;
            }
            let (value, offset) = match find_next(bank, start, end) {
                Some(found) => found,
                None => {
                    return None;
                },
            };
            proof {
                let part = bank@.subrange(start as int, end as int);
                lemma_max_of(part);
                let k = choose|k: int| 0 <= k < part.len() && part[k] == value;
                assert(bank@[start + k] == value);
                let k = (12 - left) as nat;
                lemma_pow10(k);
                lemma_pow10_grows(k, 11);
                assert(pow10(11) == 100000000000) by {
                    reveal_with_fuel(pow10, 12);
                }
                assert(joltage * 10 + value <= (pow10(k + 1) - 1) * 256 && joltage * 10 + value
                    <= 100000000000 * 2560) by (nonlinear_arith)
                    requires
                        joltage <= (pow10(k) - 1) * 256,
                        value < 256,
                        pow10(k + 1) == 10 * pow10(k),
                        1 <= pow10(k) <= 100000000000,
                ;
                assert(Bank::picks_of(bank@, start as int, left as nat, joltage as int)
                    == Bank::picks_of(
                    bank@,
                    start + offset + 1,
                    (left - 1) as nat,
                    joltage * 10 + value,
                ));
            }
            joltage = (joltage * 10) + value as u64;
            start = start + offset + 1;
            left -= 1;
        }
        Some(joltage)
    }
}

/// Ten to the power `n`.
pub open spec fn pow10(n: nat) -> nat
    decreases n,
{
    if n == 0 {
        1
    } else {
        10 * pow10((n - 1) as nat)
    }
}

pub proof fn lemma_pow10(n: nat)
    ensures
        pow10(n) >= 1,
        pow10(n + 1) == 10 * pow10(n),
    decreases n,
{
    if n > 0 {
        lemma_pow10((n - 1) as nat);
    }
}

pub proof fn lemma_pow10_grows(a: nat, b: nat)
    requires
        a <= b,
    ensures
        pow10(a) <= pow10(b),
    decreases b,
{
    if a < b {
        lemma_pow10_grows(a, (b - 1) as nat);
    }
}

} // verus!
