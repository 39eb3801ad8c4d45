//! Vectors of a fixed number of coordinates.
use std::ops::{Add, Div, Mul, Sub};
use vstd::prelude::*;
use vstd::std_specs::ops::{AddSpec, DivSpec, MulSpec, SubSpec};

verus! {

/// A vector of `DIM` numbers.
#[derive(PartialEq, Eq, Debug, Clone, Copy)]
pub struct Vex<T, const DIM: usize>(pub [T; DIM]);

impl<T, const D: usize> View for Vex<T, D> {
    type V = Seq<T>;

    open spec fn view(&self) -> Seq<T> {
        self.0@
    }
}

/// The vector whose parts are `parts`.
pub open spec fn vex_of<T, const D: usize>(parts: Seq<T>) -> Vex<T, D> {
    choose|v: Vex<T, D>| v@ == parts
}

/// Two vectors of the same parts are the same vector.
pub proof fn lemma_vex_of<T, const D: usize>(v: Vex<T, D>)
    ensures
        vex_of::<T, D>(v@) == v,
        v@.len() == D,
{
    let w = vex_of::<T, D>(v@);
    assert(w@ == v@);
    assert(w.0@ =~= v.0@);
    assert(w.0 == v.0);
}

impl<T, const D: usize> Vex<T, D> {
    /// The vector with the coordinates `vals`.
    pub fn new(vals: [T; D]) -> (v: Self)
        ensures
            v@ == vals@,
    {
        Vex(vals)
    }
}

impl<T: Add<Output = T> + Copy, const D: usize> vstd::std_specs::ops::AddSpecImpl for Vex<T, D> {
    open spec fn obeys_add_spec() -> bool {
        T::obeys_add_spec()
    }

    open spec fn add_req(self, rhs: Self) -> bool {
        forall|i: int| 0 <= i < D ==> (#[trigger] self@[i]).add_req(rhs@[i])
    }

    open spec fn add_spec(self, rhs: Self) -> Self {
        vex_of(Seq::new(D as nat, |i: int| self@[i].add_spec(rhs@[i])))
    }
}

impl<T: Add<Output = T> + Copy, const D: usize> Add for Vex<T, D> {
    type Output = Self;

    /// The sum, part by part.
    fn add(self, rhs: Self) -> (r: Self)
        ensures
            T::obeys_add_spec() ==> r@ == Seq::new(D as nat, |i: int| self@[i].add_spec(rhs@[i])),
    {
        let mut out = self.0;
        let mut i: usize = 0;
        while i < D
            invariant
                i <= D,
                forall|k: int| 0 <= k < D ==> (#[trigger] self@[k]).add_req(rhs@[k]),
                forall|k: int| i <= k < D ==> out@[k] == self@[k],
                T::obeys_add_spec() ==> forall|k: int|
                    0 <= k < i ==> out@[k] == self@[k].add_spec(rhs@[k]),
            decreases D - i,
        {
            assert(self@[i as int].add_req(rhs@[i as int]));
            let a = self.0[i];
            let b = rhs.0[i];
            assert(a == self@[i as int] && b == rhs@[i as int]);
            let c = a + b;
            out[i] = c;
            i += 1;
        }
        let r = Vex(out);
        proof {
            lemma_vex_of(r);
            if T::obeys_add_spec() {
                assert(r@ =~= Seq::new(D as nat, |i: int| self@[i].add_spec(rhs@[i])));
            }
        }
        r
    }
}

impl<T: Sub<Output = T> + Copy, const D: usize> vstd::std_specs::ops::SubSpecImpl for Vex<T, D> {
    open spec fn obeys_sub_spec() -> bool {
        T::obeys_sub_spec()
    }

    open spec fn sub_req(self, rhs: Self) -> bool {
        forall|i: int| 0 <= i < D ==> (#[trigger] self@[i]).sub_req(rhs@[i])
    }

    open spec fn sub_spec(self, rhs: Self) -> Self {
        vex_of(Seq::new(D as nat, |i: int| self@[i].sub_spec(rhs@[i])))
    }
}

impl<T: Sub<Output = T> + Copy, const D: usize> Sub for Vex<T, D> {
    type Output = Self;

    /// The difference, part by part.
    fn sub(self, rhs: Self) -> (r: Self)
        ensures
            T::obeys_sub_spec() ==> r@ == Seq::new(D as nat, |i: int| self@[i].sub_spec(rhs@[i])),
    {
        let mut out = self.0;
        let mut i: usize = 0;
        while i < D
            invariant
                i <= D,
                forall|k: int| 0 <= k < D ==> (#[trigger] self@[k]).sub_req(rhs@[k]),
                forall|k: int| i <= k < D ==> out@[k] == self@[k],
                T::obeys_sub_spec() ==> forall|k: int|
                    0 <= k < i ==> out@[k] == self@[k].sub_spec(rhs@[k]),
            decreases D - i,
        {
            assert(self@[i as int].sub_req(rhs@[i as int]));
            let a = self.0[i];
            let b = rhs.0[i];
            assert(a == self@[i as int] && b == rhs@[i as int]);
            let c = a - b;
            out[i] = c;
            i += 1;
        }
        let r = Vex(out);
        proof {
            lemma_vex_of(r);
            if T::obeys_sub_spec() {
                assert(r@ =~= Seq::new(D as nat, |i: int| self@[i].sub_spec(rhs@[i])));
            }
        }
        r
    }
}

impl<T: Mul<Output = T> + Copy, const D: usize> vstd::std_specs::ops::MulSpecImpl<T> for Vex<T, D> {
    open spec fn obeys_mul_spec() -> bool {
        T::obeys_mul_spec()
    }

    open spec fn mul_req(self, rhs: T) -> bool {
        forall|i: int| 0 <= i < D ==> (#[trigger] self@[i]).mul_req(rhs)
    }

    open spec fn mul_spec(self, rhs: T) -> Self {
        vex_of(Seq::new(D as nat, |i: int| self@[i].mul_spec(rhs)))
    }
}

impl<T: Mul<Output = T> + Copy, const D: usize> Mul<T> for Vex<T, D> {
    type Output = Self;

    /// Each part times `rhs`.
    fn mul(self, rhs: T) -> (r: Self)
        ensures
            T::obeys_mul_spec() ==> r@ == Seq::new(D as nat, |i: int| self@[i].mul_spec(rhs)),
    {
        let mut out = self.0;
        let mut i: usize = 0;
        while i < D
            invariant
                i <= D,
                forall|k: int| 0 <= k < D ==> (#[trigger] self@[k]).mul_req(rhs),
                forall|k: int| i <= k < D ==> out@[k] == self@[k],
                T::obeys_mul_spec() ==> forall|k: int|
                    0 <= k < i ==> out@[k] == self@[k].mul_spec(rhs),
            decreases D - i,
        {
            assert(self@[i as int].mul_req(rhs));
            let a = self.0[i];
            let b = rhs;
            assert(a == self@[i as int]);
            let c = a * b;
            out[i] = c;
            i += 1;
        }
        let r = Vex(out);
        proof {
            lemma_vex_of(r);
            if T::obeys_mul_spec() {
                assert(r@ =~= Seq::new(D as nat, |i: int| self@[i].mul_spec(rhs)));
            }
        }
        r
    }
}

impl<T: Div<Output = T> + Copy, const D: usize> vstd::std_specs::ops::DivSpecImpl<T> for Vex<T, D> {
    open spec fn obeys_div_spec() -> bool {
        T::obeys_div_spec()
    }

    open spec fn div_req(self, rhs: T) -> bool {
        forall|i: int| 0 <= i < D ==> (#[trigger] self@[i]).div_req(rhs)
    }

    open spec fn div_spec(self, rhs: T) -> Self {
        vex_of(Seq::new(D as nat, |i: int| self@[i].div_spec(rhs)))
    }
}

impl<T: Div<Output = T> + Copy, const D: usize> Div<T> for Vex<T, D> {
    type Output = Self;

    /// Each part divided by `rhs`.
    fn div(self, rhs: T) -> (r: Self)
        ensures
            T::obeys_div_spec() ==> r@ == Seq::new(D as nat, |i: int| self@[i].div_spec(rhs)),
    {
        let mut out = self.0;
        let mut i: usize = 0;
        while i < D
            invariant
                i <= D,
                forall|k: int| 0 <= k < D ==> (#[trigger] self@[k]).div_req(rhs),
                forall|k: int| i <= k < D ==> out@[k] == self@[k],
                T::obeys_div_spec() ==> forall|k: int|
                    0 <= k < i ==> out@[k] == self@[k].div_spec(rhs),
            decreases D - i,
        {
            assert(self@[i as int].div_req(rhs));
            let a = self.0[i];
            let b = rhs;
            assert(a == self@[i as int]);
            let c = a / b;
            out[i] = c;
            i += 1;
        }
        let r = Vex(out);
        proof {
            lemma_vex_of(r);
            if T::obeys_div_spec() {
                assert(r@ =~= Seq::new(D as nat, |i: int| self@[i].div_spec(rhs)));
            }
        }
        r
    }
}

impl<T: Copy, const D: usize> Vex<T, D> {
    /// Adds `rhs` to the vector, part by part.
    pub fn add_assign(&mut self, rhs: Self) where T: Add<Output = T>
        requires
            forall|i: int| 0 <= i < D ==> (#[trigger] old(self)@[i]).add_req(rhs@[i]),
        ensures
            T::obeys_add_spec() ==> final(self)@ == Seq::new(
                D as nat,
                |i: int| old(self)@[i].add_spec(rhs@[i]),
            ),
    {
        let sum = *self + rhs;
        proof {
            lemma_vex_of(sum);
        }
        *self = sum;
    }

    /// Takes `rhs` from the vector, part by part.
    pub fn sub_assign(&mut self, rhs: Self) where T: Sub<Output = T>
        requires
            forall|i: int| 0 <= i < D ==> (#[trigger] old(self)@[i]).sub_req(rhs@[i]),
        ensures
            T::obeys_sub_spec() ==> final(self)@ == Seq::new(
                D as nat,
                |i: int| old(self)@[i].sub_spec(rhs@[i]),
            ),
    {
        let diff = *self - rhs;
        proof {
            lemma_vex_of(diff);
        }
        *self = diff;
    }

    /// Multiplies each part by `rhs`.
    pub fn mul_assign(&mut self, rhs: T) where T: Mul<Output = T>
        requires
            forall|i: int| 0 <= i < D ==> (#[trigger] old(self)@[i]).mul_req(rhs),
        ensures
            T::obeys_mul_spec() ==> final(self)@ == Seq::new(
                D as nat,
                |i: int| old(self)@[i].mul_spec(rhs),
            ),
    {
        let scaled = *self * rhs;
        proof {
            lemma_vex_of(scaled);
        }
        *self = scaled;
    }

    /// Divides each part by `rhs`.
    pub fn div_assign(&mut self, rhs: T) where T: Div<Output = T>
        requires
            forall|i: int| 0 <= i < D ==> (#[trigger] old(self)@[i]).div_req(rhs),
        ensures
            T::obeys_div_spec() ==> final(self)@ == Seq::new(
                D as nat,
                |i: int| old(self)@[i].div_spec(rhs),
            ),
    {
        let scaled = *self / rhs;
        proof {
            lemma_vex_of(scaled);
        }
        *self = scaled;
    }
}

/// The squares of `parts`, added up.
pub open spec fn sum_of_squares(parts: Seq<u64>) -> nat
    decreases parts.len(),
{
    if parts.len() == 0 {
        0
    } else {
        sum_of_squares(parts.drop_last()) + (parts.last() * parts.last()) as nat
    }
}

pub proof fn lemma_sum_of_squares_grows(parts: Seq<u64>, upto: int)
    requires
        0 <= upto <= parts.len(),
    ensures
        sum_of_squares(parts.take(upto)) <= sum_of_squares(parts),
    decreases parts.len() - upto,
{
    if upto < parts.len() {
        lemma_sum_of_squares_grows(parts, upto + 1);
        assert(parts.take(upto + 1).drop_last() =~= parts.take(upto));
    } else {
        assert(parts.take(upto) =~= parts);
    }
}

impl<const D: usize> Vex<u64, D> {
    /// The square of the vector's length. It must fit.
    pub fn length2(&self) -> (r: u64)
        requires
            sum_of_squares(self@) <= u64::MAX,
        ensures
            r == sum_of_squares(self@),
    {
        let mut total: u64 = 0;
        let mut i: usize = 0;
        proof {
            assert(self@.take(0) =~= Seq::<u64>::empty());
        }
        while i < D
            invariant
                i <= D,
                self@.len() == D,
                sum_of_squares(self@) <= u64::MAX,
                total == sum_of_squares(self@.take(i as int)),
            decreases D - i,
        {
            let x = self.0[i];
            proof {
                lemma_sum_of_squares_grows(self@, i + 1);
                assert(self@.take(i + 1).drop_last() =~= self@.take(i as int));
                assert(self@.take(i + 1).last() == x);
                assert(x * x >= 0) by (nonlinear_arith);
            }
            total = total + x * x;
            i += 1;
        }
        proof {
            assert(self@.take(D as int) =~= self@);
        }
        total
    }
}

impl<T: Copy> Vex<T, 3> {
    /// The first coordinate.
    pub fn x(&self) -> (r: T)
        ensures
            r == self@[0],
    {
        self.0[0]
    }

    /// The second coordinate.
    pub fn y(&self) -> (r: T)
        ensures
            r == self@[1],
    {
        self.0[1]
    }

    /// The third coordinate.
    pub fn z(&self) -> (r: T)
        ensures
            r == self@[2],
    {
        self.0[2]
    }
}

impl<T: Default + Copy, const D: usize> Default for Vex<T, D> {
    /// The vector whose coordinates all hold what `T` holds by default.
    fn default() -> (v: Self)
        ensures
            forall|i: int| 0 <= i < D ==> call_ensures(T::default, (), #[trigger] v@[i]),
    {
        Vex([T::default(); D])
    }
}

} // verus!
