//! The calls into other crates and into parts of the standard library
//! whose results are taken on trust, each with what is claimed of it.
use vstd::prelude::*;

verus! {

/// `num_traits::Euclid::div_rem_euclid` on `usize`: quotient and remainder
/// of a division by a divisor that is not 0.
#[verifier::external_body]
pub(crate) fn div_rem(a: usize, b: usize) -> (r: (usize, usize))
    requires
        b != 0,
    ensures
        r.0 == a / b,
        r.1 == a % b,
{
    num_traits::Euclid::div_rem_euclid(&a, &b)
}

/// `itertools::Itertools::all_equal` over the numbers in `v`: whether no
/// two of them differ.
#[verifier::external_body]
pub(crate) fn all_equal(v: &Vec<usize>) -> (r: bool)
    ensures
        r == (forall|i: int, j: int| 0 <= i < v@.len() && 0 <= j < v@.len() ==> v@[i] == v@[j]),
{
    itertools::Itertools::all_equal(&mut v.iter())
}

/// `rand::random_range` over `min..=max`: some number of the range, which
/// must hold one. Which number it is, is left open.
#[verifier::external_body]
pub(crate) fn random_between(min: i8, max: i8) -> (r: i8)
    requires
        min <= max,
    ensures
        min <= r <= max,
{
    rand::random_range(min..=max)
}

/// Whether `s` is in the order that a sort by weight which keeps equal
/// weights in their order gives to edges that came by ascending ends:
/// by weight, and by ends among equal weights.
pub open spec fn by_weight(s: Seq<((usize, usize), u64)>) -> bool {
    forall|i: int, j: int|
        0 <= i < j < s.len() ==> (#[trigger] s[i]).1 < (#[trigger] s[j]).1 || (s[i].1 == s[j].1 && (
        s[i].0.0 < s[j].0.0 || (s[i].0.0 == s[j].0.0 && s[i].0.1 < s[j].0.1)))
}

/// Whether the ends of `s` ascend.
pub open spec fn by_ends(s: Seq<((usize, usize), u64)>) -> bool {
    forall|i: int, j: int|
        0 <= i < j < s.len() ==> (#[trigger] s[i]).0.0 < (#[trigger] s[j]).0.0 || (s[i].0.0
            == s[j].0.0 && s[i].0.1 < s[j].0.1)
}

/// `slice::sort_by` with a comparison of the weights, on edges that come
/// by ascending ends: the same edges by ascending weight, and, as the
/// sort keeps equal weights in their order, by ascending ends among
/// equal weights.
#[verifier::external_body]
pub(crate) fn sort_by_weight(edges: &mut Vec<((usize, usize), u64)>)
    requires
        by_ends(old(edges)@),
    ensures
        by_weight(final(edges)@),
        final(edges)@.to_multiset() == old(edges)@.to_multiset(),
{
    edges.sort_by(|a, b| a.1.cmp(&b.1))
}

/// What `str::split_whitespace` makes of a text: its words, which are
/// the longest runs of characters that are no white space.
pub uninterp spec fn words_of(line: Seq<char>) -> Seq<Seq<char>>;

/// `str::split_whitespace` on the text that `line` holds: its words.
#[verifier::external_body]
pub(crate) fn words(line: &Vec<char>) -> (r: Vec<Vec<char>>)
    ensures
        r@.len() == words_of(line@).len(),
        forall|i: int| 0 <= i < r@.len() ==> (#[trigger] r@[i])@ == words_of(line@)[i],
{
    let text: String = line.iter().collect();
    text.split_whitespace().map(|w| w.chars().collect()).collect()
}

/// What `str::trim` makes of a text: the text without the white space at
/// its start and at its end.
pub uninterp spec fn trim_of(line: Seq<char>) -> Seq<char>;

/// `str::trim` on the text that `line` holds.
#[verifier::external_body]
pub(crate) fn trimmed(line: &Vec<char>) -> (r: Vec<char>)
    ensures
        r@ == trim_of(line@),
{
    let text: String = line.iter().collect();
    text.trim().chars().collect()
}

} // verus!
