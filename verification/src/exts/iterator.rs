//! Items without repetitions, and items said several times.
use std::collections::HashSet;
use std::hash::Hash;
use vstd::prelude::*;
use vstd::std_specs::hash::obeys_key_model;

verus! {

/// The items of `items` without those whose key an earlier item has.
pub open spec fn unique_of<T, M>(items: Seq<T>, key: spec_fn(T) -> M) -> Seq<T>
    decreases items.len(),
{
    if items.len() == 0 {
        Seq::empty()
    } else {
        let rest = unique_of(items.drop_last(), key);
        if exists|j: int| 0 <= j < items.len() - 1 && key(items[j]) == key(items.last()) {
            rest
        } else {
            rest.push(items.last())
        }
    }
}

/// Each item of `items` `count` times over, in order.
pub open spec fn repeated<T>(items: Seq<T>, count: nat) -> Seq<T>
    decreases items.len(),
{
    if items.len() == 0 {
        Seq::empty()
    } else {
        repeated(items.drop_last(), count) + Seq::new(count, |i: int| items.last())
    }
}

/// The closure `mapper` answers as the function `key` does.
pub open spec fn maps_as<T, M, F: Fn(&T) -> M>(mapper: F, key: spec_fn(T) -> M) -> bool {
    forall|t: T, m: M| call_ensures(mapper, (&t,), m) ==> m == key(t)
}

/// More ways to go through a list of items.
pub trait IteratorExt<T>: Sized {
    /// The items.
    spec fn items(self) -> Seq<T>;

    /// The items without those whose key, as `mapper` gives it, an
    /// earlier item has.
    fn unique_by<M: Hash + Eq + Clone, F: Fn(&T) -> M>(self, mapper: F) -> (r: Vec<T>)
        requires
            forall|t: &T| call_requires(mapper, (t,)),
        ensures
            obeys_key_model::<M>() ==> forall|key: spec_fn(T) -> M|
                maps_as(mapper, key) ==> r@ == #[trigger] unique_of(self.items(), key),
    ;

    /// Each item `count` times over. `count` may not be 0.
    fn repeat_each(self, count: usize) -> (r: Vec<T>) where T: Copy
        requires
            count > 0,
        ensures
            r@ == repeated(self.items(), count as nat),
    ;
}

impl<T> IteratorExt<T> for Vec<T> {
    open spec fn items(self) -> Seq<T> {
        self@
    }

    fn unique_by<M: Hash + Eq + Clone, F: Fn(&T) -> M>(self, mapper: F) -> (r: Vec<T>) {
        broadcast use vstd::std_specs::hash::group_hash_axioms;

        let ghost all = self@;
        let mut seen: HashSet<M> = HashSet::new();
        let mut out: Vec<T> = Vec::new();
        for item in it: self
            invariant
                it.seq() == all,
                forall|t: &T| call_requires(mapper, (t,)),
                obeys_key_model::<M>() ==> forall|key: spec_fn(T) -> M|
                    maps_as(mapper, key) ==> {
                        &&& out@ == #[trigger] unique_of(all.take(it.index()), key)
                        &&& forall|m: M|
                            seen@.contains(m) <==> exists|j: int|
                                0 <= j < it.index() && key(all[j]) == m
                    },
        {
            let ghost at = it.index();
            let ghost old_out = out@;
            let ghost old_seen = seen@;
            let mapped = mapper(&item);
            let known = seen.contains(&mapped);
            if !known {
                seen.insert(mapped);
                out.push(item);
            }
            proof {
                if obeys_key_model::<M>() {
                    assert forall|key: spec_fn(T) -> M| maps_as(mapper, key) implies {
                        &&& out@ == #[trigger] unique_of(all.take(at + 1), key)
                        &&& forall|m: M|
                            seen@.contains(m) <==> exists|j: int|
                                0 <= j < at + 1 && key(all[j]) == m
                    } by {
                        let part = all.take(at + 1);
                        assert(part.drop_last() =~= all.take(at));
                        assert(part.last() == item);
                        assert(old_out == unique_of(all.take(at), key));
                        assert(mapped == key(item));
                        assert(known == old_seen.contains(mapped));
                        if known {
                            let j = choose|j: int| 0 <= j < at && key(all[j]) == mapped;
                            assert(part[j] == all[j]);
                        } else {
                            if exists|j: int|
                                0 <= j < part.len() - 1 && key(part[j]) == key(part.last()) {
                                let j = choose|j: int|
                                    0 <= j < part.len() - 1 && key(part[j]) == key(part.last());
                                assert(part[j] == all[j]);
                                assert(old_seen.contains(mapped));
                            }
                        }
                        assert forall|m: M|
                            seen@.contains(m) <==> exists|j: int|
                                0 <= j < at + 1 && key(all[j]) == m by {
                            if old_seen.contains(m) {
                                let j = choose|j: int| 0 <= j < at && key(all[j]) == m;
                                assert(0 <= j < at + 1 && key(all[j]) == m);
                            }
                            if m == mapped {
                                assert(0 <= at < at + 1 && key(all[at]) == m);
                            }
                            if exists|j: int| 0 <= j < at + 1 && key(all[j]) == m {
                                let j = choose|j: int| 0 <= j < at + 1 && key(all[j]) == m;
                                if j < at {
                                    assert(old_seen.contains(m));
                                }
                            }
                        }
                    }
                }
            }
        }
        proof {
            assert(all.take(all.len() as int) =~= all);
        }
        out
    }

    fn repeat_each(self, count: usize) -> (r: Vec<T>) where T: Copy {
        let mut out: Vec<T> = Vec::new();
        let mut i: usize = 0;
        proof {
            assert(self@.take(0) =~= Seq::<T>::empty());
        }
        while i < self.len()
            invariant
                i <= self@.len(),
                out@ == repeated(self@.take(i as int), count as nat),
            decreases self@.len() - i,
        {
            let item = self[i];
            let ghost before = out@;
            let mut cur: usize = 0;
            while cur < count
                invariant
                    cur <= count,
                    out@ == before + Seq::new(cur as nat, |k: int| item),
                decreases count - cur,
            {
                out.push(item);
                proof {
                    assert(out@ =~= before + Seq::new((cur + 1) as nat, |k: int| item));
                }
                cur += 1;
            }
            proof {
                assert(self@.take(i + 1).drop_last() =~= self@.take(i as int));
                assert(self@.take(i + 1).last() == item);
            }
            i += 1;
        }
        proof {
            assert(self@.take(self@.len() as int) =~= self@);
        }
        out
    }
}

} // verus!
