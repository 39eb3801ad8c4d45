//! Note sequences as trees: rests, notes, random notes, patterns whose
//! parts take turns, and sums and stretches of sequences.
use crate::exts::numbers::{gcd_of, UnsignedExt};
use crate::outside::random_between;
use std::ops::{Add, Mul};
use vstd::pervasive::VecAdditionalExecFns;
use vstd::prelude::*;

verus! {

/// A sequence of notes and rests.
#[derive(Debug)]
pub enum Sequence {
    /// A rest, over and over.
    Silence,
    /// One note, over and over.
    Note(i8),
    /// Sequences that take turns, each giving one item in its turn.
    Pattern { pattern: Vec<Sequence>, index: usize },
    /// The sum of two sequences, item by item; a rest where either rests.
    Add { left: Box<Sequence>, right: Box<Sequence> },
    /// Each item of `num` as many times over as `den` says.
    Mul { num: Box<Sequence>, den: Box<Sequence>, value: Option<i8>, remaining: i8 },
    /// Some note from `min` to `max`.
    Random { min: i8, max: i8 },
}

/// The note of an item, where the sequence has not ended and does not
/// rest.
pub open spec fn note_of(item: Option<Option<i8>>) -> Option<i8> {
    match item {
        Some(Some(n)) => Some(n),
        _ => None,
    }
}

/// What the sequences within a sequence gave when it gave an item.
pub ghost enum Inner {
    /// No sequence within was asked.
    Leaf,
    /// One sequence within was asked: what it gave, and what was given
    /// within it.
    One(Option<Option<i8>>, Box<Inner>),
    /// Two sequences within were asked.
    Two(Option<Option<i8>>, Box<Inner>, Option<Option<i8>>, Box<Inner>),
}

/// `after` is `before` one item on, `out` is the item, and `w` tells what
/// the sequences within gave.
pub open spec fn steps_with(
    before: Sequence,
    after: Sequence,
    out: Option<Option<i8>>,
    w: Inner,
) -> bool
    decreases before,
{
    match before {
        Sequence::Silence => after == before && out == Some(None::<i8>),
        Sequence::Note(n) => after == before && out == Some(Some(n)),
        Sequence::Random { min, max } => after == before && match out {
            Some(Some(v)) => min <= v <= max,
            _ => false,
        },
        Sequence::Pattern { pattern, index } => if index >= pattern@.len() {
            after == before && out is None
        } else {
            match (after, w) {
                (Sequence::Pattern { pattern: later, index: next }, Inner::One(inner, sub)) => {
                    &&& later@.len() == pattern@.len()
                    &&& next == (index + 1) % (pattern@.len() as int)
                    &&& forall|k: int|
                        0 <= k < pattern@.len() && k != index ==> #[trigger] later@[k]
                            == pattern@[k]
                    &&& steps_with(pattern@[index as int], later@[index as int], inner, *sub)
                    &&& out == Some(note_of(inner))
                },
                _ => false,
            }
        },
        Sequence::Add { left, right } => match (after, w) {
            (Sequence::Add { left: left2, right: right2 }, Inner::Two(l, lw, r, rw)) => {
                &&& steps_with(*left, *left2, l, *lw)
                &&& steps_with(*right, *right2, r, *rw)
                &&& out == Some(
                    match (note_of(l), note_of(r)) {
                        (Some(a), Some(b)) => if -128 <= a + b <= 127 {
                            Some((a + b) as i8)
                        } else {
                            None
                        },
                        _ => None,
                    },
                )
            },
            _ => false,
        },
        Sequence::Mul { num, den, value, remaining } => match after {
            Sequence::Mul { num: num2, den: den2, value: value2, remaining: remaining2 } => {
                if remaining != 0 {
                    num2 == num && den2 == den && value2 == value && remaining2 == remaining - 1
                        && out == Some(value)
                } else {
                    match w {
                        Inner::Two(Some(d), dw, Some(v), vw) => {
                            &&& steps_with(*den, *den2, Some(d), *dw)
                            &&& steps_with(*num, *num2, Some(v), *vw)
                            &&& value2 == v
                            &&& match d {
                                Some(times) if times != 0 => remaining2 == times - 1 && out == Some(
                                    v,
                                ),
                                _ => remaining2 == 0 && out is None,
                            }
                        },
                        _ => false,
                    }
                }
            },
            _ => false,
        },
    }
}

/// `after` is `before` one item on, and `out` is the item: a note, a
/// rest, or nothing where the sequence has ended.
pub open spec fn steps(before: Sequence, after: Sequence, out: Option<Option<i8>>) -> bool {
    exists|w: Inner| steps_with(before, after, out, w)
}

/// Whether the next item can be taken: sums and counts fit, the bounds
/// of each range are in order, and what is to be repeated, and how
/// often, has not ended.
pub open spec fn can_step(s: Sequence) -> bool
    decreases s,
{
    match s {
        Sequence::Silence => true,
        Sequence::Note(_) => true,
        Sequence::Random { min, max } => min <= max,
        Sequence::Pattern { pattern, index } => index < pattern@.len() ==> can_step(
            pattern@[index as int],
        ),
        Sequence::Add { left, right } => {
            &&& can_step(*left)
            &&& can_step(*right)
            &&& forall|la: Sequence, ra: Sequence, a: i8, b: i8|
                #![trigger steps(*left, la, Some(Some(a))), steps(*right, ra, Some(Some(b)))]
                steps(*left, la, Some(Some(a))) && steps(*right, ra, Some(Some(b))) ==> -128 <= a
                    + b <= 127
        },
        Sequence::Mul { num, den, value, remaining } => if remaining != 0 {
            remaining > -128
        } else {
            &&& can_step(*den)
            &&& can_step(*num)
            &&& forall|da: Sequence, o: Option<Option<i8>>| #[trigger]
                steps(*den, da, o) ==> o is Some && o != Some(Some(-128i8))
            &&& forall|na: Sequence, o: Option<Option<i8>>| #[trigger] steps(*num, na, o) ==> o is Some
        },
    }
}

impl Sequence {
    /// Takes the next item.
    pub fn next(&mut self) -> (r: Option<Option<i8>>)
        requires
            can_step(*old(self)),
        ensures
            steps(*old(self), *final(self), r),
        decreases *old(self),
    {
        let mut taken = Sequence::Silence;
        core::mem::swap(self, &mut taken);
        let (out, back) = match taken {
            Sequence::Silence => (Some(None), Sequence::Silence),
            Sequence::Note(n) => (Some(Some(n)), Sequence::Note(n)),
            Sequence::Random { min, max } => (
                Some(Some(random_between(min, max))),
                Sequence::Random { min, max },
            ),
            Sequence::Pattern { pattern, index } => {
                let mut pattern = pattern;
                if index >= pattern.len() {
                    (None, Sequence::Pattern { pattern, index })
                } else {
                    let ghost before = pattern@;
                    let mut inner = Sequence::Silence;
                    pattern.set_and_swap(index, &mut inner);
                    let item = inner.next();
                    pattern.set_and_swap(index, &mut inner);
                    let next = (index + 1) % pattern.len();
                    let out = match item {
                        Some(Some(n)) => Some(n),
                        _ => None,
                    };
                    let back = Sequence::Pattern { pattern, index: next };
                    proof {
                        let sub = choose|sub: Inner|
                            steps_with(
                                before[index as int],
                                back->pattern@[index as int],
                                item,
                                sub,
                            );
                        assert(steps_with(
                            *old(self),
                            back,
                            Some(out),
                            Inner::One(item, Box::new(sub)),
                        ));
                    }
                    (Some(out), back)
                }
            },
            Sequence::Add { left, right } => {
                let ghost left0 = *left;
                let ghost right0 = *right;
                let mut left = left;
                let mut right = right;
                let l = left.next();
                let r = right.next();
                let out = match (l, r) {
                    (Some(Some(a)), Some(Some(b))) => Some(a + b),
                    _ => None,
                };
                let back = Sequence::Add { left, right };
                proof {
                    let lw = choose|lw: Inner| steps_with(left0, *back->left, l, lw);
                    let rw = choose|rw: Inner| steps_with(right0, *back->right, r, rw);
                    assert(steps_with(
                        *old(self),
                        back,
                        Some(out),
                        Inner::Two(l, Box::new(lw), r, Box::new(rw)),
                    ));
                }
                (Some(out), back)
            },
            Sequence::Mul { num, den, value, remaining } => {
                let mut num = num;
                let mut den = den;
                if remaining != 0 {
                    (Some(value), Sequence::Mul { num, den, value, remaining: remaining - 1 })
                } else {
                    let ghost num0 = *num;
                    let ghost den0 = *den;
                    let counted = den.next();
                    let times = match counted {
                        Some(Some(d)) => d,
                        Some(None) => 0,
                        None => unreached(),
                    };
                    let fresh = match num.next() {
                        Some(v) => v,
                        None => unreached(),
                    };
                    let ghost d = counted->0;
                    if times == 0 {
                        let back = Sequence::Mul { num, den, value: fresh, remaining: 0 };
                        proof {
                            let dw = choose|dw: Inner|
                                steps_with(den0, *back->den, Some(d), dw);
                            let vw = choose|vw: Inner|
                                steps_with(num0, *back->num, Some(fresh), vw);
                            assert(steps_with(
                                *old(self),
                                back,
                                None,
                                Inner::Two(Some(d), Box::new(dw), Some(fresh), Box::new(vw)),
                            ));
                        }
                        (None, back)
                    } else {
                        let back = Sequence::Mul { num, den, value: fresh, remaining: times - 1 };
                        proof {
                            let dw = choose|dw: Inner|
                                steps_with(den0, *back->den, Some(d), dw);
                            let vw = choose|vw: Inner|
                                steps_with(num0, *back->num, Some(fresh), vw);
                            assert(steps_with(
                                *old(self),
                                back,
                                Some(fresh),
                                Inner::Two(Some(d), Box::new(dw), Some(fresh), Box::new(vw)),
                            ));
                        }
                        (Some(fresh), back)
                    }
                }
            },
        };
        proof {
            if forall|w: Inner| !steps_with(*old(self), back, out, w) {
                assert(!steps_with(*old(self), back, out, Inner::Leaf));
            }
        }
        *self = back;
        out
    }
}


/// The notes among `items`, in order.
pub open spec fn notes_in(items: Seq<Option<Option<i8>>>) -> Seq<i8>
    decreases items.len(),
{
    if items.len() == 0 {
        Seq::empty()
    } else {
        match items.last() {
            Some(Some(n)) => notes_in(items.drop_last()).push(n),
            _ => notes_in(items.drop_last()),
        }
    }
}

/// Whether `n` items can be taken from `s`, whatever is drawn on the way.
pub open spec fn sound_for(s: Sequence, n: nat) -> bool
    decreases n,
{
    n == 0 || (can_step(s) && forall|after: Sequence, out: Option<Option<i8>>|
        #![trigger steps(s, after, out)]
        steps(s, after, out) && out is Some ==> sound_for(after, (n - 1) as nat))
}

/// `states` and `items` tell of items taken one after the other, `n` at
/// most, and none after the sequence has ended.
pub open spec fn taken_on(states: Seq<Sequence>, items: Seq<Option<Option<i8>>>, n: nat) -> bool {
    &&& states.len() == items.len() + 1
    &&& items.len() <= n
    &&& forall|i: int| 0 <= i < items.len() ==> steps(#[trigger] states[i], states[i + 1], items[i])
    &&& forall|i: int| 0 <= i < items.len() - 1 ==> (#[trigger] items[i]) is Some
    &&& items.len() < n ==> items.len() > 0 && items.last() is None
}

/// The length after which a sequence begins anew, where it has one.
pub open spec fn period_of(s: Sequence) -> Option<nat>
    decreases s,
{
    match s {
        Sequence::Silence => Some(1),
        Sequence::Note(_) => Some(1),
        Sequence::Pattern { pattern, index } => Some(periods_sum(pattern@, pattern@.len() as int)),
        Sequence::Add { left, right } => match (period_of(*left), period_of(*right)) {
            (Some(l), Some(r)) => Some(l * (r / gcd_of(l, r))),
            _ => None,
        },
        Sequence::Random { .. } => None,
        Sequence::Mul { .. } => None,
    }
}

/// The periods of the first `upto` of `parts`, added up; a part without a
/// period adds nothing.
pub open spec fn periods_sum(parts: Seq<Sequence>, upto: int) -> nat
    decreases parts, upto,
{
    if upto <= 0 || upto > parts.len() {
        0
    } else {
        periods_sum(parts, upto - 1) + match period_of(parts[upto - 1]) {
            Some(p) => p,
            None => 0,
        }
    }
}

/// Whether the period of `s` can be computed: the sums and the common
/// multiples on the way fit, and no common multiple is asked of 0 and 0.
pub open spec fn period_fits(s: Sequence) -> bool
    decreases s,
{
    match s {
        Sequence::Pattern { pattern, index } => {
            &&& forall|i: int| 0 <= i < pattern@.len() ==> period_fits(#[trigger] pattern@[i])
            &&& periods_sum(pattern@, pattern@.len() as int) <= usize::MAX
        },
        Sequence::Add { left, right } => {
            &&& period_fits(*left)
            &&& period_fits(*right)
            &&& match (period_of(*left), period_of(*right)) {
                (Some(l), Some(r)) => (l != 0 || r != 0) && l * (r / gcd_of(l, r)) <= usize::MAX,
                _ => true,
            }
        },
        _ => true,
    }
}

pub proof fn lemma_periods_sum(parts: Seq<Sequence>, upto: int)
    requires
        0 <= upto <= parts.len(),
    ensures
        periods_sum(parts, upto) <= periods_sum(parts, parts.len() as int),
    decreases parts.len() - upto,
{
    if upto < parts.len() {
        lemma_periods_sum(parts, upto + 1);
    }
}

impl Sequence {
    /// The notes among the first `n` items; fewer where the sequence ends
    /// before. `states` and `items` name the states and the items on the
    /// way.
    pub fn sample(self, n: usize) -> (r: Vec<i8>)
        requires
            sound_for(self, n as nat),
        ensures
            exists|states: Seq<Sequence>, items: Seq<Option<Option<i8>>>|
                taken_on(states, items, n as nat) && states[0] == self && r@ == notes_in(items),
    {
        let mut seq = self;
        let mut out: Vec<i8> = Vec::new();
        let ghost mut states: Seq<Sequence> = seq![self];
        let ghost mut items: Seq<Option<Option<i8>>> = Seq::empty();
        let mut i: usize = 0;
        while i < n
            invariant_except_break
                items.len() == i,
                states.len() == i + 1,
                sound_for(seq, (n - i) as nat),
                forall|k: int| 0 <= k < items.len() ==> (#[trigger] items[k]) is Some,
            invariant
                i <= n,
                states[0] == self,
                states.last() == seq,
                forall|k: int| 0 <= k < items.len() ==> steps(#[trigger] states[k], states[k + 1], items[k]),
                out@ == notes_in(items),
            ensures
                taken_on(states, items, n as nat),
                states[0] == self,
                out@ == notes_in(items),
            decreases n - i,
        {
            let ghost before = seq;
            let ghost old_states = states;
            let ghost old_items = items;
            let item = seq.next();
            proof {
                states = states.push(seq);
                items = items.push(item);
                assert(items.drop_last() =~= old_items);
                assert forall|k: int| 0 <= k < items.len() implies steps(
                    #[trigger] states[k],
                    states[k + 1],
                    items[k],
                ) by {
                    if k < old_items.len() {
                        assert(states[k] == old_states[k] && states[k + 1] == old_states[k + 1]);
                        assert(items[k] == old_items[k]);
                    }
                }
                assert forall|k: int| 0 <= k < items.len() - 1 implies (#[trigger] items[k])
                    is Some by {
                    assert(items[k] == old_items[k]);
                }
            }
            match item {
                None => {
                    break ;
                },
                Some(Some(note)) => {
                    out.push(note);
                },
                Some(None) => {},
            }
            i += 1;
        }
        out
    }

    /// The length after which the sequence begins anew, where it has one.
    pub fn period(&self) -> (r: Option<usize>)
        requires
            period_fits(*self),
        ensures
            match r {
                Some(p) => period_of(*self) == Some(p as nat),
                None => period_of(*self) is None,
            },
        decreases *self,
    {
        match self {
            Sequence::Silence => Some(1),
            Sequence::Note(_) => Some(1),
            Sequence::Pattern { pattern, index: _ } => {
                let mut total: usize = 0;
                let mut i: usize = 0;
                while i < pattern.len()
                    invariant
                        i <= pattern@.len(),
                        forall|k: int| 0 <= k < pattern@.len() ==> period_fits(#[trigger] pattern@[k]),
                        periods_sum(pattern@, pattern@.len() as int) <= usize::MAX,
                        total == periods_sum(pattern@, i as int),
                        forall|k: int|
                            0 <= k < pattern@.len() ==> decreases_to!(*self => #[trigger] pattern@[k]),
                    decreases pattern@.len() - i,
                {
                    proof {
                        lemma_periods_sum(pattern@, i + 1);
                    }
                    match pattern[i].period() {
                        Some(p) => {
                            total = total + p;
                        },
                        None => {},
                    }
                    i += 1;
                }
                Some(total)
            },
            Sequence::Add { left, right } => {
                match (left.period(), right.period()) {
                    (Some(l), Some(r)) => {
                        proof {
                            crate::exts::numbers::law_gcd(l as nat, r as nat);
                            if gcd_of(l as nat, r as nat) == 0 {
                                let ka = choose|k: nat| l as nat == #[trigger] (k * 0nat);
                                let kb = choose|k: nat| r as nat == #[trigger] (k * 0nat);
                                assert(ka * 0 == 0 && kb * 0 == 0) by (nonlinear_arith);
                            }
                            assert(0 <= (r as nat) / gcd_of(l as nat, r as nat)) by (nonlinear_arith)
                                requires
                                    gcd_of(l as nat, r as nat) > 0,
                            ;
                        }
                        let m = (l as u64).lcm(r as u64);
                        Some(m as usize)
                    },
                    _ => None,
                }
            },
            Sequence::Random { min: _, max: _ } => None,
            Sequence::Mul { num: _, den: _, value: _, remaining: _ } => None,
        }
    }
}

/// A copy of a sequence: a sequence built like `s`, down to the
/// sequences within it and the places at which they stand.
pub fn copy_of(s: &Sequence) -> (r: Sequence)
    ensures
        alike(*s, r),
    decreases *s,
{
    match s {
        Sequence::Silence => Sequence::Silence,
        Sequence::Note(n) => Sequence::Note(*n),
        Sequence::Random { min, max } => Sequence::Random { min: *min, max: *max },
        Sequence::Pattern { pattern, index } => {
            let mut copy: Vec<Sequence> = Vec::new();
            let mut i: usize = 0;
            while i < pattern.len()
                invariant
                    i <= pattern@.len(),
                    copy@.len() == i,
                    forall|k: int|
                        0 <= k < pattern@.len() ==> decreases_to!(*s => #[trigger] pattern@[k]),
                    forall|k: int| 0 <= k < i ==> alike(#[trigger] pattern@[k], copy@[k]),
                decreases pattern@.len() - i,
            {
                copy.push(copy_of(&pattern[i]));
                i += 1;
            }
            Sequence::Pattern { pattern: copy, index: *index }
        },
        Sequence::Add { left, right } => Sequence::Add {
            left: Box::new(copy_of(left)),
            right: Box::new(copy_of(right)),
        },
        Sequence::Mul { num, den, value, remaining } => Sequence::Mul {
            num: Box::new(copy_of(num)),
            den: Box::new(copy_of(den)),
            value: *value,
            remaining: *remaining,
        },
    }
}

impl Clone for Sequence {
    /// A sequence built like this one.
    fn clone(&self) -> (r: Self)
        ensures
            alike(*self, r),
    {
        copy_of(self)
    }
}

/// Two sequences are built alike: they are of one kind, with the same
/// numbers, and the sequences within them are built alike, part by part.
pub open spec fn alike(a: Sequence, b: Sequence) -> bool
    decreases a,
{
    match a {
        Sequence::Silence => b is Silence,
        Sequence::Note(n) => b == Sequence::Note(n),
        Sequence::Random { min, max } => b == (Sequence::Random { min, max }),
        Sequence::Pattern { pattern, index } => match b {
            Sequence::Pattern { pattern: other, index: at } => {
                &&& at == index
                &&& other@.len() == pattern@.len()
                &&& forall|i: int|
                    0 <= i < pattern@.len() ==> alike(#[trigger] pattern@[i], other@[i])
            },
            _ => false,
        },
        Sequence::Add { left, right } => match b {
            Sequence::Add { left: l, right: r } => alike(*left, *l) && alike(*right, *r),
            _ => false,
        },
        Sequence::Mul { num, den, value, remaining } => match b {
            Sequence::Mul { num: n, den: d, value: v, remaining: r } => {
                &&& alike(*num, *n)
                &&& alike(*den, *d)
                &&& v == value
                &&& r == remaining
            },
            _ => false,
        },
    }
}

/// The notes `notes`, taking turns.
pub fn turns_of(notes: &Vec<i8>) -> (s: Sequence)
    ensures
        s is Pattern,
        s->index == 0,
        s->pattern@ == Seq::new(notes@.len(), |i: int| Sequence::Note(notes@[i])),
{
    let mut pattern: Vec<Sequence> = Vec::new();
    let mut i: usize = 0;
    while i < notes.len()
        invariant
            i <= notes@.len(),
            pattern@ == Seq::new(i as nat, |k: int| Sequence::Note(notes@[k])),
        decreases notes@.len() - i,
    {
        pattern.push(Sequence::Note(notes[i]));
        proof {
            assert(pattern@ =~= Seq::new((i + 1) as nat, |k: int| Sequence::Note(notes@[k])));
        }
        i += 1;
    }
    Sequence::Pattern { pattern, index: 0 }
}

impl vstd::std_specs::convert::FromSpecImpl<Vec<i8>> for Sequence {
    open spec fn obeys_from_spec() -> bool {
        false
    }

    open spec fn from_spec(v: Vec<i8>) -> Self {
        arbitrary()
    }
}

impl From<Vec<i8>> for Sequence {
    /// The notes `value`, taking turns.
    fn from(value: Vec<i8>) -> (s: Self)
        ensures
            s is Pattern,
            s->index == 0,
            s->pattern@ == Seq::new(value@.len(), |i: int| Sequence::Note(value@[i])),
    {
        turns_of(&value)
    }
}

impl<const L: usize> vstd::std_specs::convert::FromSpecImpl<[i8; L]> for Sequence {
    open spec fn obeys_from_spec() -> bool {
        false
    }

    open spec fn from_spec(v: [i8; L]) -> Self {
        arbitrary()
    }
}

impl<const L: usize> From<[i8; L]> for Sequence {
    /// The notes `value`, taking turns.
    fn from(value: [i8; L]) -> (s: Self)
        ensures
            s is Pattern,
            s->index == 0,
            s->pattern@ == Seq::new(L as nat, |i: int| Sequence::Note(value@[i])),
    {
        let mut notes: Vec<i8> = Vec::new();
        let mut i: usize = 0;
        while i < L
            invariant
                i <= L,
                notes@ == Seq::new(i as nat, |k: int| value@[k]),
            decreases L - i,
        {
            notes.push(value[i]);
            proof {
                assert(notes@ =~= Seq::new((i + 1) as nat, |k: int| value@[k]));
            }
            i += 1;
        }
        let s = turns_of(&notes);
        proof {
            assert(s->pattern@ =~= Seq::new(L as nat, |i: int| Sequence::Note(value@[i])));
        }
        s
    }
}

impl<T: Into<Sequence>> vstd::std_specs::ops::AddSpecImpl<T> for Sequence {
    open spec fn obeys_add_spec() -> bool {
        false
    }

    open spec fn add_req(self, rhs: T) -> bool {
        true
    }

    open spec fn add_spec(self, rhs: T) -> Self {
        arbitrary()
    }
}

impl<T: Into<Sequence>> Add<T> for Sequence {
    type Output = Sequence;

    /// The sum of this sequence and `rhs`, item by item.
    fn add(self, rhs: T) -> (r: Sequence)
        ensures
            r is Add,
            *r->left == self,
    {
        Sequence::Add { left: Box::new(self), right: Box::new(rhs.into()) }
    }
}

impl<T: Into<Sequence>> vstd::std_specs::ops::MulSpecImpl<T> for Sequence {
    open spec fn obeys_mul_spec() -> bool {
        false
    }

    open spec fn mul_req(self, rhs: T) -> bool {
        true
    }

    open spec fn mul_spec(self, rhs: T) -> Self {
        arbitrary()
    }
}

impl<T: Into<Sequence>> Mul<T> for Sequence {
    type Output = Sequence;

    /// Each item of this sequence as many times over as `rhs` says.
    fn mul(self, rhs: T) -> (r: Sequence)
        ensures
            r is Mul,
            *r->num == self,
            r->value is None,
            r->remaining == 0,
    {
        Sequence::Mul { num: Box::new(self), den: Box::new(rhs.into()), value: None, remaining: 0 }
    }
}

} // verus!
