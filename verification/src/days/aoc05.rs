use crate::grid::lines_of;
use crate::text::{chars_of, find_char, number_of, parse_u64, place_of, slice_of, split_lines};
use vstd::prelude::*;

verus! {

/// The ranges of fresh ingredients, each with its first and its last
/// number, and the numbers of the ingredients at hand.
#[derive(Clone, Debug, PartialEq, Eq)]
pub struct Inventory {
    pub fresh: Vec<(u64, u64)>,
    pub ids: Vec<u64>,
}

/// Why an inventory could not be read.
#[derive(Clone, Copy, Debug, PartialEq, Eq)]
pub enum InventoryError {
    /// No empty line parts the ranges from the numbers.
    PartMissing,
}

/// The first place where an empty line begins in `s`: a line feed with a
/// line feed behind it; the length of `s` where there is none.
pub open spec fn gap_of(s: Seq<char>, from: int) -> int
    decreases s.len() - from,
{
    if from + 1 >= s.len() {
        s.len() as int
    } else if s[from] == '\n' && s[from + 1] == '\n' {
        from
    } else {
        gap_of(s, from + 1)
    }
}

/// The range that a line writes: a number, a dash, a number.
pub open spec fn range_of(line: Seq<char>) -> Option<(u64, u64)> {
    let dash = place_of(line, '-', 0);
    if dash >= line.len() {
        None
    } else {
        match (number_of(line.subrange(0, dash)), number_of(line.subrange(dash + 1, line.len() as int))) {
            (Some(lo), Some(hi)) => Some((lo, hi)),
            _ => None,
        }
    }
}

/// The ranges that `lines` write; a line that writes none is passed over.
pub open spec fn ranges_of(lines: Seq<Seq<char>>) -> Seq<(u64, u64)>
    decreases lines.len(),
{
    if lines.len() == 0 {
        Seq::empty()
    } else {
        match range_of(lines.last()) {
            Some(r) => ranges_of(lines.drop_last()).push(r),
            None => ranges_of(lines.drop_last()),
        }
    }
}

/// The numbers that `lines` write; a line that writes none is passed
/// over.
pub open spec fn numbers_of(lines: Seq<Seq<char>>) -> Seq<u64>
    decreases lines.len(),
{
    if lines.len() == 0 {
        Seq::empty()
    } else {
        match number_of(lines.last()) {
            Some(n) => numbers_of(lines.drop_last()).push(n),
            None => numbers_of(lines.drop_last()),
        }
    }
}

/// Whether `id` lies in one of `ranges`.
pub open spec fn is_fresh(ranges: Seq<(u64, u64)>, id: u64) -> bool {
    exists|k: int| 0 <= k < ranges.len() && (#[trigger] ranges[k]).0 <= id <= ranges[k].1
}

/// How many of `ids` lie in one of `ranges`.
pub open spec fn count_fresh(ranges: Seq<(u64, u64)>, ids: Seq<u64>) -> nat
    decreases ids.len(),
{
    if ids.len() == 0 {
        0
    } else {
        count_fresh(ranges, ids.drop_last()) + if is_fresh(ranges, ids.last()) {
            1nat
        } else {
            0nat
        }
    }
}

/// Whether two ranges share a number, or would if neither were empty.
pub open spec fn overlaps(a: (u64, u64), b: (u64, u64)) -> bool {
    a.0 <= b.1 && b.0 <= a.1
}

/// The first of `new` that overlaps `r`, or the length of `new`.
pub open spec fn first_overlap(new: Seq<(u64, u64)>, r: (u64, u64)) -> int
    decreases new.len(),
{
    if new.len() == 0 {
        0
    } else if overlaps(new[0], r) {
        0
    } else {
        1 + first_overlap(new.drop_first(), r)
    }
}

pub proof fn lemma_first_overlap(new: Seq<(u64, u64)>, r: (u64, u64))
    ensures
        0 <= first_overlap(new, r) <= new.len(),
        first_overlap(new, r) < new.len() ==> overlaps(new[first_overlap(new, r)], r),
        forall|k: int| 0 <= k < first_overlap(new, r) ==> !overlaps(new[k], r),
    decreases new.len(),
{
    if new.len() > 0 && !overlaps(new[0], r) {
        let t = new.drop_first();
        lemma_first_overlap(t, r);
        assert forall|k: int| 0 <= k < first_overlap(new, r) implies !overlaps(new[k], r) by {
            if k > 0 {
                assert(t[k - 1] == new[k]);
            }
        }
    }
}

/// The range from the lesser start to the greater end of two ranges.
pub open spec fn joined(a: (u64, u64), b: (u64, u64)) -> (u64, u64) {
    (if a.0 <= b.0 {
        a.0
    } else {
        b.0
    }, if a.1 >= b.1 {
        a.1
    } else {
        b.1
    })
}

/// One round of merging: each range in turn is joined into the first
/// range kept so far that it overlaps, or kept itself where it overlaps
/// none. With the ranges kept comes the number of joins.
pub open spec fn merged(ranges: Seq<(u64, u64)>) -> (Seq<(u64, u64)>, nat)
    decreases ranges.len(),
{
    if ranges.len() == 0 {
        (Seq::empty(), 0)
    } else {
        let (new, count) = merged(ranges.drop_last());
        let at = first_overlap(new, ranges.last());
        if at < new.len() {
            (new.update(at, joined(new[at], ranges.last())), count + 1)
        } else {
            (new.push(ranges.last()), count)
        }
    }
}

pub proof fn lemma_merged(ranges: Seq<(u64, u64)>)
    ensures
        merged(ranges).0.len() + merged(ranges).1 == ranges.len(),
    decreases ranges.len(),
{
    if ranges.len() > 0 {
        lemma_merged(ranges.drop_last());
        lemma_first_overlap(merged(ranges.drop_last()).0, ranges.last());
    }
}

/// The ranges after rounds of merging, up to the round that joins
/// nothing; `fuel` bounds the rounds.
pub open spec fn merged_fully(ranges: Seq<(u64, u64)>, fuel: nat) -> Seq<(u64, u64)>
    decreases fuel,
{
    let (new, count) = merged(ranges);
    if fuel == 0 || count == 0 {
        new
    } else {
        merged_fully(new, (fuel - 1) as nat)
    }
}

/// With fuel for as many rounds as there are ranges, more fuel changes
/// nothing.
pub proof fn lemma_merged_fuel(ranges: Seq<(u64, u64)>, f1: nat, f2: nat)
    requires
        f1 >= ranges.len(),
        f2 >= ranges.len(),
    ensures
        merged_fully(ranges, f1) == merged_fully(ranges, f2),
    decreases f1,
{
    lemma_merged(ranges);
    if merged(ranges).1 > 0 {
        lemma_merged_fuel(merged(ranges).0, (f1 - 1) as nat, (f2 - 1) as nat);
    }
}

/// How many numbers a range holds.
pub open spec fn size_of(r: (u64, u64)) -> nat {
    if r.0 <= r.1 {
        (r.1 - r.0 + 1) as nat
    } else {
        0
    }
}

/// How many numbers `ranges` hold, each range counted for itself.
pub open spec fn total_size(ranges: Seq<(u64, u64)>) -> nat
    decreases ranges.len(),
{
    if ranges.len() == 0 {
        0
    } else {
        total_size(ranges.drop_last()) + size_of(ranges.last())
    }
}

pub proof fn lemma_total_size(ranges: Seq<(u64, u64)>, upto: int)
    requires
        0 <= upto <= ranges.len(),
    ensures
        total_size(ranges.take(upto)) <= total_size(ranges),
    decreases ranges.len() - upto,
{
    if upto < ranges.len() {
        lemma_total_size(ranges, upto + 1);
        assert(ranges.take(upto + 1).drop_last() =~= ranges.take(upto));
    } else {
        assert(ranges.take(upto) =~= ranges);
    }
}

/// The range that `line` writes.
fn parse_range(line: &Vec<char>) -> (r: Option<(u64, u64)>)
    ensures
        r == range_of(line@),
{
    let dash = find_char(line, '-');
    if dash >= line.len() {
        return None;
    }
    let lo = parse_u64(&slice_of(line, 0, dash));
    let hi = parse_u64(&slice_of(line, dash + 1, line.len()));
    match (lo, hi) {
        (Some(lo), Some(hi)) => Some((lo, hi)),
        _ => None,
    }
}

impl Inventory {
    /// Reads an inventory: lines that write ranges, an empty line, and
    /// lines that write numbers.
    pub fn parse(value: &str) -> (r: Result<Inventory, InventoryError>)
        ensures
            match r {
                Ok(inv) => {
                    let gap = gap_of(value@, 0);
                    &&& gap < value@.len()
                    &&& inv.fresh@ == ranges_of(lines_of(value@.subrange(0, gap)))
                    &&& inv.ids@ == numbers_of(
                        lines_of(value@.subrange(gap + 2, value@.len() as int)),
                    )
                },
                Err(e) => gap_of(value@, 0) >= value@.len() && e == InventoryError::PartMissing,
            },
    {
        let s = chars_of(value);
        if s.len() < 2 {
            return Err(InventoryError::PartMissing);
        }
        let mut gap: usize = 0;
        while gap < s.len() - 1 && !(s[gap] == '\n' && s[gap + 1] == '\n')
            invariant
                gap < s@.len(),
                s@.len() >= 2,
                gap_of(s@, 0) == gap_of(s@, gap as int),
            decreases s@.len() - gap,
        {
            gap += 1;
        }
        if gap >= s.len() - 1 {
            return Err(InventoryError::PartMissing);
        }
        let range_lines = split_lines(&slice_of(&s, 0, gap));
        let id_lines = split_lines(&slice_of(&s, gap + 2, s.len()));
        let ghost rl = lines_of(s@.subrange(0, gap as int));
        let ghost il = lines_of(s@.subrange(gap + 2, s@.len() as int));
        let mut fresh: Vec<(u64, u64)> = Vec::new();
        let mut i: usize = 0;
        proof {
            assert(rl.take(0) =~= Seq::<Seq<char>>::empty());
        }
        while i < range_lines.len()
            invariant
                i <= range_lines@.len(),
                range_lines@.len() == rl.len(),
                forall|k: int| 0 <= k < rl.len() ==> (#[trigger] range_lines@[k])@ == rl[k],
                fresh@ == ranges_of(rl.take(i as int)),
            decreases range_lines@.len() - i,
        {
            proof {
                assert(rl.take(i + 1).drop_last() =~= rl.take(i as int));
                assert(rl.take(i + 1).last() == rl[i as int]);
            }
            match parse_range(&range_lines[i]) {
                Some(r) => fresh.push(r),
                None => {},
            }
            i += 1;
        }
        let mut ids: Vec<u64> = Vec::new();
        let mut j: usize = 0;
        proof {
            assert(rl.take(rl.len() as int) =~= rl);
            assert(il.take(0) =~= Seq::<Seq<char>>::empty());
        }
        while j < id_lines.len()
            invariant
                j <= id_lines@.len(),
                id_lines@.len() == il.len(),
                forall|k: int| 0 <= k < il.len() ==> (#[trigger] id_lines@[k])@ == il[k],
                ids@ == numbers_of(il.take(j as int)),
            decreases id_lines@.len() - j,
        {
            proof {
                assert(il.take(j + 1).drop_last() =~= il.take(j as int));
                assert(il.take(j + 1).last() == il[j as int]);
            }
            match parse_u64(&id_lines[j]) {
                Some(n) => ids.push(n),
                None => {},
            }
            j += 1;
        }
        proof {
            assert(il.take(il.len() as int) =~= il);
        }
        Ok(Inventory { fresh, ids })
    }
}

/// How many of the ingredients at hand are fresh.
pub fn part_one(inventory: Inventory) -> (n: usize)
    ensures
        n == count_fresh(inventory.fresh@, inventory.ids@),
{
    let ids = &inventory.ids;
    let fresh = &inventory.fresh;
    let mut count: usize = 0;
    let mut i: usize = 0;
    proof {
        assert(ids@.take(0) =~= Seq::<u64>::empty());
    }
    while i < ids.len()
        invariant
            i <= ids@.len(),
            count <= i,
            count == count_fresh(fresh@, ids@.take(i as int)),
        decreases ids@.len() - i,
    {
        let id = ids[i];
        let mut found = false;
        let mut k: usize = 0;
        while k < fresh.len() && !found
            invariant
                k <= fresh@.len(),
                found ==> is_fresh(fresh@, id),
                !found ==> forall|j: int| 0 <= j < k ==> !((#[trigger] fresh@[j]).0 <= id <= fresh@[j].1),
            decreases fresh@.len() - k + if found {
                0int
            } else {
                1int
            },
        {
            if fresh[k].0 <= id && id <= fresh[k].1 {
                found = true;
            } else {
                k += 1;
            }
        }
        proof {
            assert(ids@.take(i + 1).drop_last() =~= ids@.take(i as int));
            assert(ids@.take(i + 1).last() == id);
        }
        if found {
            count += 1;
        }
        i += 1;
    }
    proof {
        assert(ids@.take(ids@.len() as int) =~= ids@);
    }
    count
}

/// One round of merging, with the number of joins.
pub fn merge_ranges(ranges: Vec<(u64, u64)>) -> (r: (Vec<(u64, u64)>, usize))
    ensures
        r.0@ == merged(ranges@).0,
        r.1 == merged(ranges@).1,
{
    let mut new: Vec<(u64, u64)> = Vec::new();
    let mut count: usize = 0;
    let mut i: usize = 0;
    proof {
        assert(ranges@.take(0) =~= Seq::<(u64, u64)>::empty());
    }
    while i < ranges.len()
        invariant
            i <= ranges@.len(),
            new@ == merged(ranges@.take(i as int)).0,
            count == merged(ranges@.take(i as int)).1,
            count <= i,
        decreases ranges@.len() - i,
    {
        let range = ranges[i];
        proof {
            assert(ranges@.take(i + 1).drop_last() =~= ranges@.take(i as int));
            assert(ranges@.take(i + 1).last() == range);
            lemma_first_overlap(new@, range);
        }
        let mut at: usize = 0;
        while at < new.len() && !(new[at].0 <= range.1 && range.0 <= new[at].1)
            invariant
                at <= new@.len(),
                at <= first_overlap(new@, range),
                first_overlap(new@, range) <= new@.len(),
                first_overlap(new@, range) < new@.len() ==> overlaps(
                    new@[first_overlap(new@, range)],
                    range,
                ),
                forall|k: int| 0 <= k < first_overlap(new@, range) ==> !overlaps(new@[k], range),
            decreases new@.len() - at,
        {
            at += 1;
        }
        if at < new.len() {
            let old = new[at];
            let lo = if old.0 <= range.0 {
                old.0
            } else {
                range.0
            };
            let hi = if old.1 >= range.1 {
                old.1
            } else {
                range.1
            };
            new[at] = (lo, hi);
            count += 1;
        } else {
            new.push(range);
        }
        i += 1;
    }
    proof {
        assert(ranges@.take(ranges@.len() as int) =~= ranges@);
    }
    (new, count)
}

/// How many numbers the fresh ranges hold, after they were merged until
/// no round joins any. The count must fit.
pub fn part_two(inventory: Inventory) -> (n: usize)
    requires
        total_size(merged_fully(inventory.fresh@, inventory.fresh@.len())) <= usize::MAX,
    ensures
        n == total_size(merged_fully(inventory.fresh@, inventory.fresh@.len())),
{
    match try_part_two(inventory) {
        Some(n) => n,
        None => unreached(),
    }
}

/// How many numbers the fresh ranges hold, after they were merged until
/// no round joins any, where the count fits.
pub fn try_part_two(inventory: Inventory) -> (r: Option<usize>)
    ensures
        match r {
            Some(n) => n == total_size(merged_fully(inventory.fresh@, inventory.fresh@.len())),
            None => total_size(merged_fully(inventory.fresh@, inventory.fresh@.len()))
                > usize::MAX,
        },
{
    let ghost start = inventory.fresh@;
    let mut ranges = inventory.fresh;
    loop
        invariant_except_break
            merged_fully(start, start.len()) == merged_fully(ranges@, ranges@.len()),
        ensures
            merged_fully(start, start.len()) == ranges@,
        decreases ranges@.len(),
    {
        let ghost before = ranges@;
        let (new, count) = merge_ranges(ranges);
        ranges = new;
        proof {
            lemma_merged(before);
            if count > 0 {
                lemma_merged_fuel(ranges@, (before.len() - 1) as nat, ranges@.len());
            }
        }
        if count == 0 {
            break ;
        }
    }
    let mut total: usize = 0;
    let mut i: usize = 0;
    proof {
        assert(ranges@.take(0) =~= Seq::<(u64, u64)>::empty());
    }
    while i < ranges.len()
        invariant
            i <= ranges@.len(),
            start == inventory.fresh@,
            merged_fully(start, start.len()) == ranges@,
            total == total_size(ranges@.take(i as int)),
        decreases ranges@.len() - i,
    {
        let r = ranges[i];
        proof {
            assert(ranges@.take(i + 1).drop_last() =~= ranges@.take(i as int));
            assert(ranges@.take(i + 1).last() == r);
            lemma_total_size(ranges@, i + 1);
        }
        if r.0 <= r.1 {
            proof {
                assert(total_size(ranges@.take(i + 1)) == total + size_of(r));
            }
            let width = r.1 - r.0;
            if width >= usize::MAX as u64 {
                return None;
            }
            total = match total.checked_add(width as usize + 1) {
                Some(sum) => sum,
                None => {
                    return None;
                },
            };
        }
        i += 1;
    }
    proof {
        assert(ranges@.take(ranges@.len() as int) =~= ranges@);
    }
    Some(total)
}

} // verus!
