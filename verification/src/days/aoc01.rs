use crate::text::{chars_of, parse_i64, signed_of, slice_of};
use vstd::prelude::*;

verus! {

/// A turn of the dial: to the right by a number of clicks, or to the left
/// where the number is negative.
#[derive(Debug, PartialEq, Eq)]
pub struct Turn(pub i64);

/// Why a text writes no turn.
#[derive(Clone, Copy, Debug, PartialEq, Eq)]
pub enum TurnError {
    /// The text has fewer than two characters.
    TooShort,
    /// The text does not begin with `R` or `L`.
    BadDirection,
    /// What follows the direction writes no number, or the turn does not
    /// fit.
    BadNumber,
}

/// The turn that a text writes: `R` or `L` and a number.
pub open spec fn turn_of(s: Seq<char>) -> Result<i64, TurnError> {
    if s.len() < 2 {
        Err(TurnError::TooShort)
    } else if s[0] != 'R' && s[0] != 'L' {
        Err(TurnError::BadDirection)
    } else {
        match signed_of(s.skip(1)) {
            None => Err(TurnError::BadNumber),
            Some(n) => if s[0] == 'R' {
                Ok(n)
            } else if n == i64::MIN {
                Err(TurnError::BadNumber)
            } else {
                Ok((-n) as i64)
            },
        }
    }
}

impl Turn {
    /// Reads a turn.
    pub fn parse(value: &str) -> (r: Result<Turn, TurnError>)
        ensures
            match r {
                Ok(turn) => turn_of(value@) == Ok::<i64, TurnError>(turn.0),
                Err(e) => turn_of(value@) == Err::<i64, TurnError>(e),
            },
    {
        let s = chars_of(value);
        if s.len() < 2 {
            return Err(TurnError::TooShort);
        }
        let right = s[0] == 'R';
        if !right && s[0] != 'L' {
            return Err(TurnError::BadDirection);
        }
        proof {
            assert(s@.subrange(1, s@.len() as int) =~= s@.skip(1));
        }
        match parse_i64(&slice_of(&s, 1, s.len())) {
            None => Err(TurnError::BadNumber),
            Some(n) => {
                if right {
                    Ok(Turn(n))
                } else if n == i64::MIN {
                    Err(TurnError::BadNumber)
                } else {
                    Ok(Turn(-n))
                }
            },
        }
    }
}

/// How many multiples of 100 lie between `a` and `b`, the two counted
/// too, but `a` not.
pub open spec fn hundreds_between(a: int, b: int) -> int {
    let hi = if a >= b {
        a
    } else {
        b
    };
    let lo = if a >= b {
        b
    } else {
        a
    };
    // The greatest multiple at or below `hi`, and the least at or above
    // `lo`, each as a count of hundreds.
    hi / 100 - (-((-lo) / 100)) + if a % 100 == 0 {
        0int
    } else {
        1int
    }
}

/// How often the dial comes by 0 on its way from `a` to `b`.
pub fn multiples_of_100_between(a: i64, b: i64) -> (r: u64)
    ensures
        r == hundreds_between(a as int, b as int),
{
    let hi = if a >= b {
        a
    } else {
        b
    };
    let lo = if a >= b {
        b
    } else {
        a
    };
    let high: i128 = floor_100(hi as i128);
    let low: i128 = -floor_100(-(lo as i128));
    let adj: i128 = if floor_100(a as i128) * 100 == a as i128 {
        0
    } else {
        1
    };
    proof {
        assert(hi / 100 >= -((-lo) / 100) - 1 && (hi / 100 == -((-lo) / 100) - 1 ==> a % 100 != 0))
            by (nonlinear_arith)
            requires
                hi >= lo,
                a == hi || a == lo,
        ;
        assert((a as int) % 100 == 0 <==> (a as int / 100) * 100 == a) by (nonlinear_arith);
    }
    (high - low + adj) as u64
}

/// `x` over 100, rounded down.
fn floor_100(x: i128) -> (r: i128)
    requires
        -9223372036854775809 < x < 9223372036854775809,
    ensures
        r == x / 100,
{
    if x >= 0 {
        x / 100
    } else {
        let up = (-x) as u128;
        let q = (up / 100) as i128;
        let rest = up % 100;
        proof {
            assert(x == -q * 100 - rest);
            if rest == 0 {
                vstd::arithmetic::div_mod::lemma_fundamental_div_mod_converse(x as int, 100, -q, 0);
            } else {
                vstd::arithmetic::div_mod::lemma_fundamental_div_mod_converse(
                    x as int,
                    100,
                    -q - 1,
                    100 - rest,
                );
            }
        }
        if rest == 0 {
            -q
        } else {
            -q - 1
        }
    }
}

} // verus!
