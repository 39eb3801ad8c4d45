//! Greatest common divisor, least common multiple and binomial
//! coefficients.
use vstd::arithmetic::div_mod::{
    lemma_fundamental_div_mod, lemma_fundamental_div_mod_converse, lemma_mod_multiples_basic,
};
use vstd::prelude::*;

verus! {

/// The greatest common divisor of `a` and `b`; of 0 and 0 it is 0.
pub open spec fn gcd_of(a: nat, b: nat) -> nat
    decreases b,
{
    if b == 0 {
        a
    } else {
        gcd_of(b, a % b)
    }
}

/// `d` divides `n`.
pub open spec fn divides(d: nat, n: nat) -> bool {
    exists|k: nat| n == #[trigger] (k * d)
}

/// The number of ways to choose `k` of `n` things.
pub open spec fn binomial(n: nat, k: nat) -> nat
    decreases n,
{
    if k == 0 {
        1
    } else if n == 0 {
        0
    } else {
        binomial((n - 1) as nat, (k - 1) as nat) + binomial((n - 1) as nat, k)
    }
}

/// `gcd_of` divides both numbers, and whatever divides both divides it.
pub proof fn law_gcd(a: nat, b: nat)
    ensures
        divides(gcd_of(a, b), a),
        divides(gcd_of(a, b), b),
        forall|d: nat| divides(d, a) && divides(d, b) ==> #[trigger] divides(d, gcd_of(a, b)),
    decreases b,
{
    let g = gcd_of(a, b);
    if b == 0 {
        assert(a == 1 * g);
        assert(b == 0 * g);
    } else {
        let r = a % b;
        let q = a / b;
        law_gcd(b, r);
        lemma_fundamental_div_mod(a as int, b as int);
        let kb = choose|k: nat| b == #[trigger] (k * g);
        let kr = choose|k: nat| r == #[trigger] (k * g);
        assert(a == (q * kb + kr) * g) by (nonlinear_arith)
            requires
                a == b * q + r,
                b == kb * g,
                r == kr * g,
        ;
        assert forall|d: nat| divides(d, a) && divides(d, b) implies #[trigger] divides(d, g) by {
            let ka = choose|k: nat| a == #[trigger] (k * d);
            let kd = choose|k: nat| b == #[trigger] (k * d);
            assert(q * kd <= ka && r == (ka - q * kd) * d) by (nonlinear_arith)
                requires
                    a == b * q + r,
                    a == ka * d,
                    b == kd * d,
                    r >= 0,
                    r < b,
            ;
            let k = (ka - q * kd) as nat;
            assert(r == k * d);
            assert(divides(d, r));
        }
    }
}

/// Of a multiple of `d` and `d` itself, the greatest common divisor is
/// `d`.
pub proof fn lemma_gcd_multiple(m: nat, d: nat)
    requires
        d > 0,
    ensures
        gcd_of(m * d, d) == d,
{
    lemma_mod_multiples_basic(m as int, d as int);
    assert(gcd_of(d, 0) == d);
}

pub proof fn lemma_binomial_one(n: nat)
    ensures
        binomial(n, 1) == n,
    decreases n,
{
    if n > 0 {
        lemma_binomial_one((n - 1) as nat);
        assert(binomial((n - 1) as nat, 0) == 1);
    }
}

pub proof fn lemma_binomial_none(n: nat, k: nat)
    requires
        k > n,
    ensures
        binomial(n, k) == 0,
    decreases n,
{
    if n > 0 {
        lemma_binomial_none((n - 1) as nat, (k - 1) as nat);
        lemma_binomial_none((n - 1) as nat, k);
    }
}

/// Each binomial coefficient gives the next: the number of ways to choose
/// `i` of `n`, times the `n - i` things left, counts each choice of
/// `i + 1` once for each of its members.
pub proof fn lemma_binomial_next(n: nat, i: nat)
    requires
        i <= n,
    ensures
        binomial(n, i) * (n - i) == (i + 1) * binomial(n, i + 1),
    decreases n,
{
    if i == 0 {
        lemma_binomial_one(n);
    } else if i == n {
        lemma_binomial_none(n, n + 1);
    } else {
        let m = (n - 1) as nat;
        let j = (i - 1) as nat;
        lemma_binomial_next(m, j);
        lemma_binomial_next(m, i);
        let a = binomial(m, j);
        let b = binomial(m, i);
        let c = binomial(m, i + 1);
        assert(binomial(n, i) == a + b);
        assert(binomial(n, i + 1) == b + c);
        assert((a + b) * (n - i) == (i + 1) * (b + c)) by (nonlinear_arith)
            requires
                a * (m - j) == (j + 1) * b,
                b * (m - i) == (i + 1) * c,
                m == n - 1,
                j == i - 1,
        ;
    }
}

/// Number theory on unsigned integers.
pub trait UnsignedExt: Sized {
    /// Whether `lcm` can be computed for the two.
    spec fn lcm_fits(self, rhs: Self) -> bool;

    /// Whether `choose_k` can be computed for the two.
    spec fn choose_fits(self, k: Self) -> bool;

    /// The number as a natural number.
    spec fn value(self) -> nat;

    /// The greatest common divisor of `self` and `rhs`. Of 0 and a number
    /// it is that number.
    fn gcd(self, rhs: Self) -> (r: Self)
        ensures
            r.value() == gcd_of(self.value(), rhs.value()),
    ;

    /// The least common multiple of `self` and `rhs`; 0 where one of them
    /// is 0. Not both may be 0, and `self` times `rhs` over their greatest
    /// common divisor must fit.
    fn lcm(self, rhs: Self) -> (r: Self)
        requires
            self.lcm_fits(rhs),
        ensures
            r.value() == self.value() * (rhs.value() / gcd_of(self.value(), rhs.value())),
    ;

    /// The binomial coefficient, `self` over `k`: the number of ways to
    /// choose `k` things of `self`. `k` may not exceed `self`, and the
    /// products on the way must fit: each coefficient up to `k`, times the
    /// number of things left.
    fn choose_k(self, k: Self) -> (r: Self)
        requires
            self.choose_fits(k),
        ensures
            r.value() == binomial(self.value(), k.value()),
    ;
}

impl UnsignedExt for u64 {
    open spec fn value(self) -> nat {
        self as nat
    }

    open spec fn lcm_fits(self, rhs: u64) -> bool {
        &&& self != 0 || rhs != 0
        &&& (self as nat) * ((rhs as nat) / gcd_of(self as nat, rhs as nat)) <= u64::MAX
    }

    open spec fn choose_fits(self, k: u64) -> bool {
        &&& k <= self
        &&& forall|i: nat| i < k ==> #[trigger] binomial(self as nat, i) * (self - i) <= u64::MAX
    }

    fn gcd(self, rhs: u64) -> (r: u64) {
        let mut a = self;
        let mut b = rhs;
        while b != 0
            invariant
                gcd_of(a as nat, b as nat) == gcd_of(self as nat, rhs as nat),
            decreases b,
        {
            let r = a % b;
            a = b;
            b = r;
        }
        a
    }

    fn lcm(self, rhs: u64) -> (r: u64) {
        let g = self.gcd(rhs);
        proof {
            law_gcd(self as nat, rhs as nat);
            if g == 0 {
                let ka = choose|k: nat| self as nat == #[trigger] (k * (g as nat));
                let kb = choose|k: nat| rhs as nat == #[trigger] (k * (g as nat));
                assert(ka * 0 == 0 && kb * 0 == 0) by (nonlinear_arith);
            }
        }
        self * (rhs / g)
    }

    fn choose_k(self, k: u64) -> (r: u64) {
        let mut num: u64 = 1;
        let mut den: u64 = 1;
        let mut i: u64 = 0;
        while i < k
            invariant
                i <= k <= self,
                self.choose_fits(k),
                num == binomial(self as nat, i as nat),
                den == 1,
            decreases k - i,
        {
            let n = self - i;
            let d = i + 1;
            proof {
                lemma_binomial_next(self as nat, i as nat);
                assert(binomial(self as nat, i as nat) * (self - i as nat) <= u64::MAX);
                lemma_gcd_multiple(binomial(self as nat, (i + 1) as nat), d as nat);
                assert((d as nat) * binomial(self as nat, (i + 1) as nat) == binomial(
                    self as nat,
                    (i + 1) as nat,
                ) * (d as nat)) by (nonlinear_arith);
            }
            let top = num * n;
            let bottom = den * d;
            let g = top.gcd(bottom);
            proof {
                let next = binomial(self as nat, (i + 1) as nat) as int;
                assert(top == next * d);
                lemma_fundamental_div_mod_converse(top as int, d as int, next, 0);
            }
            num = top / g;
            den = bottom / g;
            i += 1;
        }
        num / den
    }
}

} // verus!
