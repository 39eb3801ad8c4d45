//! A Bloom filter: a row of bits in which each item sets the bits that
//! its hashes name, and is taken for a member where all of them are set.
use crate::outside::div_rem;
use std::borrow::Borrow;
use std::collections::hash_map::DefaultHasher;
use std::hash::{Hash, Hasher};
use std::marker::PhantomData;
use vstd::prelude::*;

verus! {

/// The bits of a word that a filter uses.
pub const BITS: usize = 8;

/// Whether bit `b` of `w` is set.
pub open spec fn word_bit(w: u64, b: nat) -> bool {
    (w >> (b as u64)) & 1 == 1
}

/// How many of `bits` are set.
pub open spec fn count_set(bits: Seq<bool>) -> nat
    decreases bits.len(),
{
    if bits.len() == 0 {
        0
    } else {
        count_set(bits.drop_last()) + if bits.last() {
            1nat
        } else {
            0nat
        }
    }
}

pub proof fn lemma_count_set_bound(bits: Seq<bool>)
    ensures
        count_set(bits) <= bits.len(),
    decreases bits.len(),
{
    if bits.len() > 0 {
        lemma_count_set_bound(bits.drop_last());
    }
}

pub proof fn lemma_count_set_push(bits: Seq<bool>, b: bool)
    ensures
        count_set(bits.push(b)) == count_set(bits) + if b {
            1nat
        } else {
            0nat
        },
{
    assert(bits.push(b).drop_last() =~= bits);
}

/// `bits` with each of `places` set, where a place counts around the
/// number of bits.
pub open spec fn with_places(bits: Seq<bool>, places: Seq<usize>) -> Seq<bool>
    decreases places.len(),
{
    if places.len() == 0 {
        bits
    } else {
        with_places(bits, places.drop_last()).update(places.last() as int % bits.len() as int, true)
    }
}

/// Whether each of `places` is set in `bits`.
pub open spec fn all_places(bits: Seq<bool>, places: Seq<usize>) -> bool {
    forall|x: int| 0 <= x < places.len() ==> bits[#[trigger] places[x] as int % bits.len() as int]
}

/// `std::hash::Hash::hash` into a `DefaultHasher`: feeds `value` to the
/// hasher. Nothing is said of the hasher's state afterwards.
#[verifier::external_body]
fn feed<H: Hash>(value: &H, state: &mut DefaultHasher) {
    value.hash(state)
}

/// `std::borrow::Borrow::borrow`: the value that `item` stands for.
/// Nothing is said of it.
#[verifier::external_body]
fn lend<T, B: Borrow<T>>(item: &B) -> &T {
    item.borrow()
}

/// The number of the hash function `offset`, applied to `item`.
fn hash<T: Hash>(item: &T, offset: usize) -> usize
    requires
        offset < 31,
{
    let mut s = DefaultHasher::new();
    let salt: i32 = 1i32 << offset;
    feed(&salt, &mut s);
    feed(item, &mut s);
    #[verifier::truncate]
    let r = s.finish() as usize;
    r
}

/// A set of items that may say of an item that is not in it that it is,
/// and never the other way round.
pub struct BloomFilter<T> {
    bits: Vec<u64>,
    hashes: usize,
    _marker: PhantomData<T>,
}

impl<T> View for BloomFilter<T> {
    type V = Seq<bool>;

    /// The bits of the filter.
    closed spec fn view(&self) -> Seq<bool> {
        Seq::new(
            (self.bits@.len() * BITS) as nat,
            |i: int| word_bit(self.bits@[i / BITS as int], (i % BITS as int) as nat),
        )
    }
}

pub proof fn lemma_set_bit(w: u64, b: u64)
    requires
        w < 256,
        b < 8,
    ensures
        w | (1u64 << b) < 256,
        forall|c: u64| c < 8 ==> (#[trigger] (((w | (1u64 << b)) >> c) & 1) == 1) == (c == b || (w
            >> c) & 1 == 1),
{
    assert(w | (1u64 << b) < 256) by (bit_vector)
        requires
            w < 256,
            b < 8,
    ;
    assert forall|c: u64| c < 8 implies (#[trigger] (((w | (1u64 << b)) >> c) & 1) == 1) == (c
        == b || (w >> c) & 1 == 1) by {
        assert(((((w | (1u64 << b)) >> c) & 1) == 1) == (c == b || (w >> c) & 1 == 1))
            by (bit_vector)
            requires
                b < 8,
                c < 8,
        ;
    }
}

impl<T: Hash> BloomFilter<T> {
    /// The invariant of the filter: it asks one hash function at least and
    /// eight at most, the number of its bits fits, and each of its words
    /// holds eight bits.
    pub closed spec fn wf(&self) -> bool {
        &&& 0 < self.hashes <= BITS
        &&& self.bits@.len() * BITS <= usize::MAX
        &&& forall|i: int| 0 <= i < self.bits@.len() ==> #[trigger] self.bits@[i] < 256
    }

    /// The number of hash functions.
    pub closed spec fn spec_hashes(&self) -> nat {
        self.hashes as nat
    }

    /// A filter of at least `bits` bits, none of them set, that asks
    /// `hashes` hash functions of each item. There must be one hash
    /// function at least and eight at most.
    pub fn new(bits: usize, hashes: usize) -> (f: Self)
        requires
            0 < hashes <= BITS,
            bits <= usize::MAX - 7,
        ensures
            f.wf(),
            f.spec_hashes() == hashes,
            f@.len() == (bits + 7) / 8 * 8,
            forall|i: int| 0 <= i < f@.len() ==> !f@[i],
    {
        let words = (bits + 7) / BITS;
        let mut data: Vec<u64> = Vec::new();
        let mut i: usize = 0;
        while i < words
            invariant
                i <= words,
                data@.len() == i,
                forall|k: int| 0 <= k < i ==> #[trigger] data@[k] == 0,
            decreases words - i,
        {
            data.push(0);
            i += 1;
        }
        let f = BloomFilter { bits: data, hashes, _marker: PhantomData };
        proof {
            assert forall|k: int| 0 <= k < f@.len() implies !f@[k] by {
                let b = (k % BITS as int) as u64;
                assert(f.bits@[k / BITS as int] == 0);
                assert((0u64 >> b) & 1 == 0) by (bit_vector);
            }
        }
        f
    }

    /// The number of hash functions.
    pub fn num_hashes(&self) -> (n: usize)
        ensures
            n == self.spec_hashes(),
    {
        self.hashes
    }

    /// The number of bits.
    pub fn num_bits(&self) -> (n: usize)
        requires
            self.wf(),
        ensures
            n == self@.len(),
    {
        self.bits.len() * BITS
    }

    /// How many bits are set.
    pub fn num_set_bits(&self) -> (n: usize)
        requires
            self.wf(),
        ensures
            n == count_set(self@),
    {
        let total = self.num_bits();
        let mut count: usize = 0;
        let mut i: usize = 0;
        proof {
            assert(self@.take(0) =~= Seq::<bool>::empty());
        }
        while i < total
            invariant
                self.wf(),
                total == self@.len(),
                i <= total,
                count == count_set(self@.take(i as int)),
                count <= i,
            decreases total - i,
        {
            let (word, bit) = div_rem(i, BITS);
            let set = (self.bits[word] >> (bit as u64)) & 1 == 1;
            proof {
                assert(self@[i as int] == set);
                assert(self@.take(i + 1) =~= self@.take(i as int).push(set));
                lemma_count_set_push(self@.take(i as int), set);
            }
            if set {
                count += 1;
            }
            i += 1;
        }
        proof {
            assert(self@.take(total as int) =~= self@);
        }
        count
    }

    /// Sets the bit that the hash `place` stands for.
    pub fn mark(&mut self, place: usize)
        requires
            old(self).wf(),
            old(self)@.len() > 0,
        ensures
            final(self).wf(),
            final(self).spec_hashes() == old(self).spec_hashes(),
            final(self)@ == old(self)@.update(place as int % old(self)@.len() as int, true),
    {
        let num_bits = self.num_bits();
        let idx = place % num_bits;
        let (word, bit) = div_rem(idx, BITS);
        let ghost before = self.bits@;
        let old_word = self.bits[word];
        proof {
            lemma_set_bit(old_word, bit as u64);
        }
        self.bits[word] = old_word | (1u64 << (bit as u64));
        proof {
            let after = self.bits@;
            assert forall|k: int| 0 <= k < self@.len() implies self@[k] == old(self)@.update(
                idx as int,
                true,
            )[k] by {
                let w = k / BITS as int;
                let b = (k % BITS as int) as u64;
                if w == word {
                    assert(after[w] == old_word | (1u64 << (bit as u64)));
                    assert(b < 8);
                } else {
                    assert(after[w] == before[w]);
                }
            }
            assert(self@ =~= old(self)@.update(idx as int, true));
        }
    }

    /// Whether the bit that the hash `place` stands for is set.
    pub fn marked(&self, place: usize) -> (r: bool)
        requires
            self.wf(),
            self@.len() > 0,
        ensures
            r == self@[place as int % self@.len() as int],
    {
        let num_bits = self.num_bits();
        let idx = place % num_bits;
        let (word, bit) = div_rem(idx, BITS);
        (self.bits[word] >> (bit as u64)) & 1 == 1
    }

    /// Puts `item` into the filter: sets the bit for each of its hashes.
    /// `places` names the hashes, one for each hash function.
    pub fn insert<B: Borrow<T>>(&mut self, item: B)
        requires
            old(self).wf(),
            old(self)@.len() > 0,
        ensures
            final(self).wf(),
            final(self).spec_hashes() == old(self).spec_hashes(),
            exists|places: Seq<usize>|
                places.len() == old(self).spec_hashes() && final(self)@ == with_places(
                    old(self)@,
                    places,
                ),
    {
        let item = lend::<T, B>(&item);
        let ghost mut places: Seq<usize> = Seq::empty();
        let mut x: usize = 0;
        while x < self.hashes
            invariant
                self.wf(),
                self.hashes == old(self).hashes,
                x <= self.hashes,
                self@.len() == old(self)@.len(),
                self@.len() > 0,
                places.len() == x,
                self@ == with_places(old(self)@, places),
            decreases self.hashes - x,
        {
            let place = hash(item, x);
            proof {
                assert(places.push(place).drop_last() =~= places);
                places = places.push(place);
            }
            self.mark(place);
            x += 1;
        }
    }

    /// Whether `item` may be in the filter: whether the bit for each of
    /// its hashes is set. `places` names the hashes, one for each hash
    /// function.
    pub fn has<B: Borrow<T>>(&self, item: B) -> (r: bool)
        requires
            self.wf(),
            self@.len() > 0,
        ensures
            exists|places: Seq<usize>|
                places.len() == self.spec_hashes() && r == all_places(self@, places),
    {
        let item = lend::<T, B>(&item);
        let ghost mut places: Seq<usize> = Seq::empty();
        let mut all = true;
        let mut x: usize = 0;
        while x < self.hashes
            invariant
                self.wf(),
                x <= self.hashes,
                self@.len() > 0,
                places.len() == x,
                all == all_places(self@, places),
            decreases self.hashes - x,
        {
            let place = hash(item, x);
            let set = self.marked(place);
            proof {
                let more = places.push(place);
                assert forall|k: int| 0 <= k < places.len() implies more[k] == places[k] by {}
                assert(more[places.len() as int] == place);
                if all && set {
                    assert forall|k: int| 0 <= k < more.len() implies self@[#[trigger] more[k] as int
                        % self@.len() as int] by {
                        if k < places.len() {
                            assert(more[k] == places[k]);
                        }
                    }
                }
                if !all {
                    let k = choose|k: int|
                        0 <= k < places.len() && !self@[#[trigger] places[k] as int % self@.len() as int];
                    assert(more[k] == places[k]);
                }
                places = more;
            }
            all = all && set;
            x += 1;
        }
        all
    }
}

} // verus!
