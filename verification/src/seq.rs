//! Note sequences that are played round and round, and ways to blend,
//! clamp and slow them.
use crate::outside::random_between;
use vstd::pervasive::VecAdditionalExecFns;
use vstd::prelude::*;

verus! {

/// One place of a pattern.
#[derive(Debug)]
pub enum SeqToken {
    /// The note played last.
    Repeat,
    /// A note.
    Num(i8),
    /// The next note of a pattern of its own.
    SubSequence(NoteSeq),
    /// Some note from `min` to `max`.
    Random { min: i8, max: i8 },
}

/// A pattern of notes that is played over and over.
#[derive(Debug)]
pub struct NoteSeq {
    pub pattern: Vec<SeqToken>,
    pub index: usize,
    pub last: i8,
}

/// Whether a pattern can be played: it and each pattern in it holds a
/// token, its place is one of its tokens, and from each range a note can
/// be drawn.
pub open spec fn playable(s: NoteSeq) -> bool
    decreases s,
{
    &&& s.pattern@.len() > 0
    &&& s.index < s.pattern@.len()
    &&& forall|i: int|
        0 <= i < s.pattern@.len() ==> match #[trigger] s.pattern@[i] {
            SeqToken::SubSequence(inner) => playable(inner),
            SeqToken::Random { min, max } => min <= max,
            _ => true,
        }
}

/// `after` is `before` one note on, and `value` is the note: the token at
/// the place of `before` gives it, the place moves on by one and comes
/// round to the first token behind the last, and a pattern within moves
/// on in the same way where its token was played.
pub open spec fn plays(before: NoteSeq, after: NoteSeq, value: i8) -> bool
    decreases before,
{
    &&& before.pattern@.len() > 0
    &&& before.index < before.pattern@.len()
    &&& after.pattern@.len() == before.pattern@.len()
    &&& after.index == (before.index + 1) % (before.pattern@.len() as int)
    &&& after.last == value
    &&& forall|k: int|
        0 <= k < before.pattern@.len() && k != before.index ==> #[trigger] after.pattern@[k]
            == before.pattern@[k]
    &&& match before.pattern@[before.index as int] {
        SeqToken::Repeat => value == before.last && after.pattern@[before.index as int]
            == before.pattern@[before.index as int],
        SeqToken::Num(n) => value == n && after.pattern@[before.index as int]
            == before.pattern@[before.index as int],
        SeqToken::Random { min, max } => min <= value <= max && after.pattern@[before.index as int]
            == before.pattern@[before.index as int],
        SeqToken::SubSequence(inner) => match after.pattern@[before.index as int] {
            SeqToken::SubSequence(later) => plays(inner, later, value),
            _ => false,
        },
    }
}

/// Playing keeps a pattern playable.
pub proof fn lemma_plays(before: NoteSeq, after: NoteSeq, value: i8)
    requires
        playable(before),
        plays(before, after, value),
    ensures
        playable(after),
    decreases before,
{
    let i = before.index as int;
    match before.pattern@[i] {
        SeqToken::SubSequence(inner) => {
            match after.pattern@[i] {
                SeqToken::SubSequence(later) => {
                    lemma_plays(inner, later, value);
                },
                _ => {},
            }
        },
        _ => {},
    }
    assert forall|k: int| 0 <= k < after.pattern@.len() implies match #[trigger] after.pattern@[k] {
        SeqToken::SubSequence(inner) => playable(inner),
        SeqToken::Random { min, max } => min <= max,
        _ => true,
    } by {
        if k != i {
            assert(after.pattern@[k] == before.pattern@[k]);
        }
    }
}

/// `states` and `values` tell of notes played one after the other: each
/// state comes from the one before it by the note of its place.
pub open spec fn plays_on(states: Seq<NoteSeq>, values: Seq<i8>) -> bool {
    &&& states.len() == values.len() + 1
    &&& forall|i: int| 0 <= i < values.len() ==> plays(#[trigger] states[i], states[i + 1], values[i])
}

/// Two patterns hold the same tokens and stand at the same place, and so
/// do the patterns within them.
pub open spec fn alike(a: NoteSeq, b: NoteSeq) -> bool
    decreases a,
{
    &&& a.index == b.index
    &&& a.last == b.last
    &&& a.pattern@.len() == b.pattern@.len()
    &&& forall|i: int|
        0 <= i < a.pattern@.len() ==> match #[trigger] a.pattern@[i] {
            SeqToken::SubSequence(inner) => match b.pattern@[i] {
                SeqToken::SubSequence(other) => alike(inner, other),
                _ => false,
            },
            t => b.pattern@[i] == t,
        }
}

/// A copy of a token.
pub fn copy_token(t: &SeqToken) -> (r: SeqToken)
    ensures
        match *t {
            SeqToken::SubSequence(inner) => match r {
                SeqToken::SubSequence(other) => alike(inner, other),
                _ => false,
            },
            same => r == same,
        },
    decreases *t,
{
    match t {
        SeqToken::Repeat => SeqToken::Repeat,
        SeqToken::Num(n) => SeqToken::Num(*n),
        SeqToken::Random { min, max } => SeqToken::Random { min: *min, max: *max },
        SeqToken::SubSequence(inner) => SeqToken::SubSequence(copy_seq(inner)),
    }
}

/// A copy of a pattern.
pub fn copy_seq(s: &NoteSeq) -> (r: NoteSeq)
    ensures
        alike(*s, r),
    decreases *s,
{
    let mut pattern: Vec<SeqToken> = Vec::new();
    let mut i: usize = 0;
    while i < s.pattern.len()
        invariant
            i <= s.pattern@.len(),
            pattern@.len() == i,
            forall|k: int|
                0 <= k < i ==> match #[trigger] s.pattern@[k] {
                    SeqToken::SubSequence(inner) => match pattern@[k] {
                        SeqToken::SubSequence(other) => alike(inner, other),
                        _ => false,
                    },
                    t => pattern@[k] == t,
                },
        decreases s.pattern@.len() - i,
    {
        pattern.push(copy_token(&s.pattern[i]));
        i += 1;
    }
    NoteSeq { pattern, index: s.index, last: s.last }
}

impl Clone for NoteSeq {
    fn clone(&self) -> (r: Self)
        ensures
            alike(*self, r),
    {
        copy_seq(self)
    }
}

impl NoteSeq {
    /// A pattern of `pattern`, at its first token.
    pub fn new(pattern: Vec<SeqToken>) -> (s: Self)
        ensures
            s.pattern == pattern,
            s.index == 0,
            s.last == 0,
    {
        NoteSeq { pattern, index: 0, last: 0 }
    }

    /// A pattern of one token, which stands for some note between `min`
    /// and `max`, whichever of the two is the greater.
    pub fn rand(min: i8, max: i8) -> (s: Self)
        ensures
            playable(s),
            s.index == 0,
            s.last == 0,
            s.pattern@ == seq![
                SeqToken::Random {
                    min: if min <= max {
                        min
                    } else {
                        max
                    },
                    max: if min <= max {
                        max
                    } else {
                        min
                    },
                },
            ],
    {
        let lo = if min <= max {
            min
        } else {
            max
        };
        let hi = if min <= max {
            max
        } else {
            min
        };
        let mut pattern: Vec<SeqToken> = Vec::new();
        pattern.push(SeqToken::Random { min: lo, max: hi });
        let s = NoteSeq::new(pattern);
        proof {
            assert(s.pattern@ =~= seq![SeqToken::Random { min: lo, max: hi }]);
        }
        s
    }

    /// A pattern of the notes `notes`.
    pub fn of_notes(notes: &Vec<i8>) -> (s: Self)
        ensures
            s.index == 0,
            s.last == 0,
            s.pattern@ == Seq::new(notes@.len(), |i: int| SeqToken::Num(notes@[i])),
    {
        let mut pattern: Vec<SeqToken> = Vec::new();
        let mut i: usize = 0;
        while i < notes.len()
            invariant
                i <= notes@.len(),
                pattern@ == Seq::new(i as nat, |k: int| SeqToken::Num(notes@[k])),
            decreases notes@.len() - i,
        {
            pattern.push(SeqToken::Num(notes[i]));
            proof {
                assert(pattern@ =~= Seq::new((i + 1) as nat, |k: int| SeqToken::Num(notes@[k])));
            }
            i += 1;
        }
        NoteSeq::new(pattern)
    }

    /// Plays the next note.
    pub fn next(&mut self) -> (r: i8)
        requires
            playable(*old(self)),
        ensures
            plays(*old(self), *final(self), r),
            playable(*final(self)),
        decreases *old(self),
    {
        let index = self.index;
        assert(self.index < self.pattern.len());
        self.index = (self.index + 1) % self.pattern.len();
        let mut token = SeqToken::Repeat;
        self.pattern.set_and_swap(index, &mut token);
        let res = match token {
            SeqToken::Repeat => {
                token = SeqToken::Repeat;
                self.last
            },
            SeqToken::Num(num) => {
                token = SeqToken::Num(num);
                num
            },
            SeqToken::SubSequence(inner) => {
                let mut inner = inner;
                let note = inner.next();
                token = SeqToken::SubSequence(inner);
                note
            },
            SeqToken::Random { min, max } => {
                token = SeqToken::Random { min, max };
                random_between(min, max)
            },
        };
        self.pattern.set_and_swap(index, &mut token);
        self.last = res;
        proof {
            lemma_plays(*old(self), *self, res);
        }
        res
    }

    /// Plays the next `n` notes. `states` names the states on the way,
    /// the first of them the state before, the last the state after.
    pub fn take(&mut self, n: usize) -> (r: Vec<i8>)
        requires
            playable(*old(self)),
        ensures
            r@.len() == n,
            playable(*final(self)),
            exists|states: Seq<NoteSeq>|
                plays_on(states, r@) && states[0] == *old(self) && states.last() == *final(self),
    {
        let mut out: Vec<i8> = Vec::new();
        let ghost mut states: Seq<NoteSeq> = seq![*self];
        let mut i: usize = 0;
        while i < n
            invariant
                i <= n,
                out@.len() == i,
                playable(*self),
                plays_on(states, out@),
                states[0] == *old(self),
                states.last() == *self,
            decreases n - i,
        {
            let ghost before = *self;
            let ghost old_states = states;
            let ghost old_out = out@;
            let note = self.next();
            out.push(note);
            proof {
                states = states.push(*self);
                assert forall|k: int| 0 <= k < out@.len() implies plays(
                    #[trigger] states[k],
                    states[k + 1],
                    out@[k],
                ) by {
                    if k < old_out.len() {
                        assert(states[k] == old_states[k]);
                        assert(states[k + 1] == old_states[k + 1]);
                        assert(out@[k] == old_out[k]);
                    }
                }
            }
            i += 1;
        }
        out
    }
}


/// Why a text writes no pattern.
#[derive(Clone, Copy, Debug, PartialEq, Eq)]
pub enum SeqError {
    /// The text ends behind a minus sign.
    ExpectedNumber,
    /// A minus sign stands before this, which is no digit.
    ExpectedNumeric(char),
    /// A number does not fit.
    Overflow,
    /// This character has no meaning.
    UnexpectedToken(char),
}

/// Whether `c` is a decimal digit.
pub open spec fn is_digit(c: char) -> bool {
    '0' <= c <= '9'
}

/// The place behind the digits that stand at `from`.
pub open spec fn digits_end(s: Seq<char>, from: int) -> int
    decreases s.len() - from,
{
    if 0 <= from < s.len() && is_digit(s[from]) {
        digits_end(s, from + 1)
    } else {
        from
    }
}

/// The number that the digits from `from` up to `to` write.
pub open spec fn digits_value(s: Seq<char>, from: int, to: int) -> nat
    decreases to - from,
{
    if to <= from {
        0
    } else {
        digits_value(s, from, to - 1) * 10 + (s[to - 1] as u32 - '0' as u32) as nat
    }
}

pub proof fn lemma_digits_end(s: Seq<char>, from: int)
    requires
        0 <= from <= s.len(),
    ensures
        from <= digits_end(s, from) <= s.len(),
        forall|k: int| from <= k < digits_end(s, from) ==> is_digit(s[k]),
        digits_end(s, from) < s.len() ==> !is_digit(s[digits_end(s, from)]),
    decreases s.len() - from,
{
    if from < s.len() && is_digit(s[from]) {
        lemma_digits_end(s, from + 1);
    }
}

pub proof fn lemma_digits_value(s: Seq<char>, from: int, mid: int, to: int)
    requires
        from <= mid <= to,
    ensures
        digits_value(s, from, mid) <= digits_value(s, from, to),
    decreases to - mid,
{
    if mid < to {
        lemma_digits_value(s, from, mid, to - 1);
    }
}

/// Where reading one pattern from `from` ends, or why it fails. A pattern
/// ends with the text or behind a closing bracket; `fuel` bounds the
/// depth of patterns within patterns, and the length of the text is
/// enough.
pub open spec fn scan(s: Seq<char>, from: int, fuel: nat) -> Result<int, SeqError>
    decreases fuel, s.len() - from,
{
    if from < 0 || from >= s.len() {
        Ok(from)
    } else if s[from] == ' ' || s[from] == '_' {
        scan(s, from + 1, fuel)
    } else if s[from] == '>' {
        Ok(from + 1)
    } else if s[from] == '<' {
        if fuel == 0 {
            Ok(from)
        } else {
            match scan(s, from + 1, (fuel - 1) as nat) {
                Ok(mid) => if from < mid <= s.len() {
                    scan(s, mid, fuel)
                } else {
                    Ok(from)
                },
                Err(e) => Err(e),
            }
        }
    } else if s[from] == '-' {
        if from + 1 >= s.len() {
            Err(SeqError::ExpectedNumber)
        } else if !is_digit(s[from + 1]) {
            Err(SeqError::ExpectedNumeric(s[from + 1]))
        } else if digits_value(s, from + 1, digits_end(s, from + 1)) > 127 {
            Err(SeqError::Overflow)
        } else if from < digits_end(s, from + 1) <= s.len() {
            scan(s, digits_end(s, from + 1), fuel)
        } else {
            Ok(from)
        }
    } else if is_digit(s[from]) {
        if digits_value(s, from, digits_end(s, from)) > 127 {
            Err(SeqError::Overflow)
        } else if from < digits_end(s, from) <= s.len() {
            scan(s, digits_end(s, from), fuel)
        } else {
            Ok(from)
        }
    } else {
        Err(SeqError::UnexpectedToken(s[from]))
    }
}

/// `out` holds the tokens that the pattern at `from` writes: a number is
/// a note, an underscore stands for the note played last, and what
/// stands in angle brackets is a pattern of its own.
pub open spec fn written(s: Seq<char>, from: int, fuel: nat, out: Seq<SeqToken>) -> bool
    decreases fuel, s.len() - from,
{
    if from < 0 || from >= s.len() || s[from] == '>' {
        out.len() == 0
    } else if s[from] == ' ' {
        written(s, from + 1, fuel, out)
    } else if s[from] == '_' {
        out.len() > 0 && out[0] == SeqToken::Repeat && written(s, from + 1, fuel, out.drop_first())
    } else if s[from] == '<' {
        fuel > 0 && out.len() > 0 && match out[0] {
            SeqToken::SubSequence(inner) => inner.index == 0 && inner.last == 0 && written(
                s,
                from + 1,
                (fuel - 1) as nat,
                inner.pattern@,
            ) && match scan(s, from + 1, (fuel - 1) as nat) {
                Ok(mid) => from < mid <= s.len() && written(s, mid, fuel, out.drop_first()),
                Err(_) => false,
            },
            _ => false,
        }
    } else if s[from] == '-' {
        from < digits_end(s, from + 1) <= s.len() && out.len() > 0 && (match out[0] {
            SeqToken::Num(n) => n == -digits_value(s, from + 1, digits_end(s, from + 1)),
            _ => false,
        }) && written(s, digits_end(s, from + 1), fuel, out.drop_first())
    } else if is_digit(s[from]) {
        from < digits_end(s, from) <= s.len() && out.len() > 0 && (match out[0] {
            SeqToken::Num(n) => n == digits_value(s, from, digits_end(s, from)),
            _ => false,
        }) && written(s, digits_end(s, from), fuel, out.drop_first())
    } else {
        false
    }
}

/// Reads the number whose digits stand at `from`.
fn read_num(s: &Vec<char>, from: usize) -> (r: Result<(i8, usize), SeqError>)
    requires
        from <= s@.len(),
    ensures
        match r {
            Ok(found) => found.1 == digits_end(s@, from as int) && found.0 == digits_value(
                s@,
                from as int,
                found.1 as int,
            ) && digits_value(s@, from as int, found.1 as int) <= 127,
            Err(e) => e == SeqError::Overflow && digits_value(
                s@,
                from as int,
                digits_end(s@, from as int),
            ) > 127,
        },
{
    let mut acc: i8 = 0;
    let mut i: usize = from;
    proof {
        lemma_digits_end(s@, from as int);
    }
    while i < s.len() && '0' <= s[i] && s[i] <= '9'
        invariant
            from <= i <= s@.len(),
            from <= digits_end(s@, from as int) <= s@.len(),
            digits_end(s@, from as int) == digits_end(s@, i as int),
            acc == digits_value(s@, from as int, i as int),
            0 <= acc,
        decreases s@.len() - i,
    {
        let d = (s[i] as u32 - '0' as u32) as i8;
        proof {
            lemma_digits_end(s@, i as int);
            lemma_digits_value(s@, from as int, i + 1, digits_end(s@, from as int));
        }
        if acc > 12 || acc * 10 > 127 - d {
            return Err(SeqError::Overflow);
        }
        acc = acc * 10 + d;
        i += 1;
    }
    Ok((acc, i))
}

/// Reads the pattern at `from`: its tokens, and the place where it ends.
fn parse_level(s: &Vec<char>, from: usize, Ghost(fuel): Ghost<nat>) -> (r: Result<
    (Vec<SeqToken>, usize),
    SeqError,
>)
    requires
        from <= s@.len(),
        fuel + from >= s@.len(),
    ensures
        match r {
            Ok(found) => scan(s@, from as int, fuel) == Ok::<int, SeqError>(found.1 as int)
                && from <= found.1 <= s@.len() && (found.1 > from || from == s@.len()) && written(
                s@,
                from as int,
                fuel,
                found.0@,
            ),
            Err(e) => scan(s@, from as int, fuel) == Err::<int, SeqError>(e),
        },
    decreases fuel, s@.len() - from,
{
    if from >= s.len() {
        return Ok((Vec::new(), from));
    }
    let c = s[from];
    if c == '>' {
        return Ok((Vec::new(), from + 1));
    }
    if c == ' ' {
        return match parse_level(s, from + 1, Ghost(fuel)) {
            Ok(found) => Ok((found.0, found.1)),
            Err(e) => Err(e),
        };
    }
    let (first, next) = if c == '_' {
        (SeqToken::Repeat, from + 1)
    } else if c == '<' {
        match parse_level(s, from + 1, Ghost((fuel - 1) as nat)) {
            Ok(found) => (SeqToken::SubSequence(NoteSeq::new(found.0)), found.1),
            Err(e) => {
                return Err(e);
            },
        }
    } else if c == '-' {
        if from + 1 >= s.len() {
            return Err(SeqError::ExpectedNumber);
        }
        let after = s[from + 1];
        if !('0' <= after && after <= '9') {
            return Err(SeqError::ExpectedNumeric(after));
        }
        match read_num(s, from + 1) {
            Ok(found) => (SeqToken::Num(-found.0), found.1),
            Err(e) => {
                return Err(e);
            },
        }
    } else if '0' <= c && c <= '9' {
        match read_num(s, from) {
            Ok(found) => (SeqToken::Num(found.0), found.1),
            Err(e) => {
                return Err(e);
            },
        }
    } else {
        return Err(SeqError::UnexpectedToken(c));
    };
    proof {
        lemma_digits_end(s@, from as int);
        lemma_digits_end(s@, from + 1);
    }
    match parse_level(s, next, Ghost(fuel)) {
        Ok(found) => {
            let mut out: Vec<SeqToken> = Vec::new();
            out.push(first);
            let mut rest = found.0;
            let ghost tail = rest@;
            out.append(&mut rest);
            proof {
                assert(out@.drop_first() =~= tail);
            }
            Ok((out, found.1))
        },
        Err(e) => Err(e),
    }
}

impl NoteSeq {
    /// Reads a pattern: numbers are notes, an underscore stands for the
    /// note played last, and what stands in angle brackets is a pattern
    /// of its own, of which one note is played each time round. What
    /// follows a closing bracket that closes nothing is not read.
    pub fn parse(text: &str) -> (r: Result<NoteSeq, SeqError>)
        ensures
            match r {
                Ok(seq) => scan(text@, 0, text@.len()) is Ok && seq.index == 0 && seq.last == 0
                    && written(text@, 0, text@.len(), seq.pattern@),
                Err(e) => scan(text@, 0, text@.len()) == Err::<int, SeqError>(e),
            },
    {
        let s = crate::text::chars_of(text);
        match parse_level(&s, 0, Ghost(s@.len())) {
            Ok(found) => Ok(NoteSeq::new(found.0)),
            Err(e) => Err(e),
        }
    }
}


impl vstd::std_specs::convert::FromSpecImpl<i8> for NoteSeq {
    open spec fn obeys_from_spec() -> bool {
        false
    }

    open spec fn from_spec(v: i8) -> Self {
        arbitrary()
    }
}

impl From<i8> for NoteSeq {
    /// The pattern of the one note `value`.
    fn from(value: i8) -> (s: Self)
        ensures
            playable(s),
            s.index == 0,
            s.last == 0,
            s.pattern@ == seq![SeqToken::Num(value)],
    {
        let mut pattern: Vec<SeqToken> = Vec::new();
        pattern.push(SeqToken::Num(value));
        let s = NoteSeq::new(pattern);
        proof {
            assert(s.pattern@ =~= seq![SeqToken::Num(value)]);
        }
        s
    }
}

impl vstd::std_specs::convert::FromSpecImpl<Vec<i8>> for NoteSeq {
    open spec fn obeys_from_spec() -> bool {
        false
    }

    open spec fn from_spec(v: Vec<i8>) -> Self {
        arbitrary()
    }
}

impl From<Vec<i8>> for NoteSeq {
    /// The pattern of the notes `value`.
    fn from(value: Vec<i8>) -> (s: Self)
        ensures
            s.index == 0,
            s.last == 0,
            s.pattern@ == Seq::new(value@.len(), |i: int| SeqToken::Num(value@[i])),
    {
        NoteSeq::of_notes(&value)
    }
}

impl<const L: usize> vstd::std_specs::convert::FromSpecImpl<[i8; L]> for NoteSeq {
    open spec fn obeys_from_spec() -> bool {
        false
    }

    open spec fn from_spec(v: [i8; L]) -> Self {
        arbitrary()
    }
}

impl<const L: usize> From<[i8; L]> for NoteSeq {
    /// The pattern of the notes `value`.
    fn from(value: [i8; L]) -> (s: Self)
        ensures
            s.index == 0,
            s.last == 0,
            s.pattern@ == Seq::new(L as nat, |i: int| SeqToken::Num(value@[i])),
    {
        let mut notes: Vec<i8> = Vec::new();
        let mut i: usize = 0;
        while i < L
            invariant
                i <= L,
                notes@ == Seq::new(i as nat, |k: int| value@[k]),
            decreases L - i,
        {
            notes.push(value[i]);
            proof {
                assert(notes@ =~= Seq::new((i + 1) as nat, |k: int| value@[k]));
            }
            i += 1;
        }
        let s = NoteSeq::of_notes(&notes);
        proof {
            assert(s.pattern@ =~= Seq::new(L as nat, |i: int| SeqToken::Num(value@[i])));
        }
        s
    }
}

/// How two notes become one.
#[derive(Clone, Copy, Debug, PartialEq, Eq, Structural)]
pub enum Blend {
    /// The sum, which comes round at the ends of the scale.
    Sum,
    /// The difference, which comes round at the ends of the scale.
    Difference,
    /// The higher.
    Higher,
    /// The lower.
    Lower,
}

impl Blend {
    /// What `l` and `r` become.
    pub open spec fn of(self, l: i8, r: i8) -> i8 {
        match self {
            Blend::Sum => vstd::wrapping::i8_specs::wrapping_add(l, r),
            Blend::Difference => vstd::wrapping::i8_specs::wrapping_sub(l, r),
            Blend::Higher => if l >= r {
                l
            } else {
                r
            },
            Blend::Lower => if l <= r {
                l
            } else {
                r
            },
        }
    }
}

/// Two patterns played together, note by note.
pub struct Blended {
    pub left: NoteSeq,
    pub right: NoteSeq,
    pub how: Blend,
}

impl Blended {
    /// Plays the next note of both patterns, and returns what the two
    /// become.
    pub fn next(&mut self) -> (r: i8)
        requires
            playable(old(self).left),
            playable(old(self).right),
        ensures
            playable(final(self).left),
            playable(final(self).right),
            final(self).how == old(self).how,
            exists|l: i8, v: i8|
                plays(old(self).left, final(self).left, l) && plays(
                    old(self).right,
                    final(self).right,
                    v,
                ) && r == old(self).how.of(l, v),
    {
        let l = self.left.next();
        let v = self.right.next();
        let r = match self.how {
            Blend::Sum => l.wrapping_add(v),
            Blend::Difference => l.wrapping_sub(v),
            Blend::Higher => if l >= v {
                l
            } else {
                v
            },
            Blend::Lower => if l <= v {
                l
            } else {
                v
            },
        };
        proof {
            assert(plays(old(self).left, self.left, l) && plays(old(self).right, self.right, v)
                && r == old(self).how.of(l, v));
        }
        r
    }

    /// Plays the next `n` notes.
    pub fn take(&mut self, n: usize) -> (r: Vec<i8>)
        requires
            playable(old(self).left),
            playable(old(self).right),
        ensures
            r@.len() == n,
            playable(final(self).left),
            playable(final(self).right),
            exists|lefts: Seq<NoteSeq>, rights: Seq<NoteSeq>, ls: Seq<i8>, vs: Seq<i8>|
                {
                    &&& plays_on(lefts, ls)
                    &&& plays_on(rights, vs)
                    &&& ls.len() == n
                    &&& vs.len() == n
                    &&& lefts[0] == old(self).left
                    &&& rights[0] == old(self).right
                    &&& lefts.last() == final(self).left
                    &&& rights.last() == final(self).right
                    &&& forall|i: int| 0 <= i < n ==> #[trigger] r@[i] == old(self).how.of(ls[i], vs[i])
                },
    {
        let mut out: Vec<i8> = Vec::new();
        let ghost mut lefts: Seq<NoteSeq> = seq![self.left];
        let ghost mut rights: Seq<NoteSeq> = seq![self.right];
        let ghost mut ls: Seq<i8> = Seq::empty();
        let ghost mut vs: Seq<i8> = Seq::empty();
        let mut i: usize = 0;
        while i < n
            invariant
                i <= n,
                out@.len() == i,
                self.how == old(self).how,
                playable(self.left),
                playable(self.right),
                plays_on(lefts, ls),
                plays_on(rights, vs),
                ls.len() == i,
                vs.len() == i,
                lefts[0] == old(self).left,
                rights[0] == old(self).right,
                lefts.last() == self.left,
                rights.last() == self.right,
                forall|k: int| 0 <= k < i ==> #[trigger] out@[k] == old(self).how.of(ls[k], vs[k]),
            decreases n - i,
        {
            let ghost old_lefts = lefts;
            let ghost old_rights = rights;
            let ghost old_ls = ls;
            let ghost old_vs = vs;
            let ghost before = *self;
            let note = self.next();
            out.push(note);
            proof {
                let (l, v) = choose|l: i8, v: i8|
                    plays(before.left, self.left, l) && plays(before.right, self.right, v) && note
                        == before.how.of(l, v);
                lefts = lefts.push(self.left);
                rights = rights.push(self.right);
                ls = ls.push(l);
                vs = vs.push(v);
                assert forall|k: int| 0 <= k < ls.len() implies plays(
                    #[trigger] lefts[k],
                    lefts[k + 1],
                    ls[k],
                ) by {
                    if k < old_ls.len() {
                        assert(lefts[k] == old_lefts[k] && lefts[k + 1] == old_lefts[k + 1]);
                        assert(ls[k] == old_ls[k]);
                    }
                }
                assert forall|k: int| 0 <= k < vs.len() implies plays(
                    #[trigger] rights[k],
                    rights[k + 1],
                    vs[k],
                ) by {
                    if k < old_vs.len() {
                        assert(rights[k] == old_rights[k] && rights[k + 1] == old_rights[k + 1]);
                        assert(vs[k] == old_vs[k]);
                    }
                }
            }
            i += 1;
        }
        out
    }
}

/// A pattern whose notes are kept between two bounds.
pub struct Clamped {
    pub inner: NoteSeq,
    pub min: i8,
    pub max: i8,
}

/// `x` kept between `min` and `max`.
pub open spec fn clamped(x: i8, min: i8, max: i8) -> i8 {
    if x < min {
        min
    } else if x > max {
        max
    } else {
        x
    }
}

impl Clamped {
    /// Plays the next note, kept between the bounds. The lower bound may
    /// not exceed the upper.
    pub fn next(&mut self) -> (r: i8)
        requires
            playable(old(self).inner),
            old(self).min <= old(self).max,
        ensures
            playable(final(self).inner),
            final(self).min == old(self).min,
            final(self).max == old(self).max,
            exists|x: i8|
                plays(old(self).inner, final(self).inner, x) && r == clamped(
                    x,
                    old(self).min,
                    old(self).max,
                ),
    {
        let x = self.inner.next();
        let r = if x < self.min {
            self.min
        } else if x > self.max {
            self.max
        } else {
            x
        };
        proof {
            assert(plays(old(self).inner, self.inner, x) && r == clamped(
                x,
                old(self).min,
                old(self).max,
            ));
        }
        r
    }

    /// Plays the next `n` notes.
    pub fn take(&mut self, n: usize) -> (r: Vec<i8>)
        requires
            playable(old(self).inner),
            old(self).min <= old(self).max,
        ensures
            r@.len() == n,
            playable(final(self).inner),
            forall|i: int| 0 <= i < n ==> old(self).min <= #[trigger] r@[i] <= old(self).max,
    {
        let mut out: Vec<i8> = Vec::new();
        let mut i: usize = 0;
        while i < n
            invariant
                i <= n,
                out@.len() == i,
                playable(self.inner),
                self.min == old(self).min,
                self.max == old(self).max,
                self.min <= self.max,
                forall|k: int| 0 <= k < i ==> self.min <= #[trigger] out@[k] <= self.max,
            decreases n - i,
        {
            let note = self.next();
            out.push(note);
            i += 1;
        }
        out
    }
}

/// A pattern of which each note is played several times over.
pub struct Slowed {
    pub inner: NoteSeq,
    pub count: usize,
    pub held: Option<i8>,
    pub cur: usize,
}

impl Slowed {
    /// Plays the next note: the note held, until it was played `count`
    /// times; then the next note of the pattern, which is held from then
    /// on.
    pub fn next(&mut self) -> (r: i8)
        requires
            playable(old(self).inner),
            old(self).count > 0,
            old(self).cur <= old(self).count,
        ensures
            playable(final(self).inner),
            final(self).count == old(self).count,
            final(self).cur <= final(self).count,
            final(self).held == Some(r),
            match old(self).held {
                Some(held) if old(self).cur != old(self).count => r == held && final(self).inner
                    == old(self).inner && final(self).cur == old(self).cur + 1,
                _ => plays(old(self).inner, final(self).inner, r) && final(self).cur == 1,
            },
    {
        if self.cur == self.count {
            self.held = None;
            self.cur = 0;
        }
        let item = match self.held {
            Some(item) => item,
            None => {
                let fresh = self.inner.next();
                self.held = Some(fresh);
                self.cur = 0;
                fresh
            },
        };
        self.cur += 1;
        item
    }

    /// Plays the next `n` notes.
    pub fn take(&mut self, n: usize) -> (r: Vec<i8>)
        requires
            playable(old(self).inner),
            old(self).count > 0,
            old(self).cur <= old(self).count,
        ensures
            r@.len() == n,
            playable(final(self).inner),
            final(self).count == old(self).count,
            final(self).cur <= final(self).count,
    {
        let mut out: Vec<i8> = Vec::new();
        let mut i: usize = 0;
        while i < n
            invariant
                i <= n,
                out@.len() == i,
                playable(self.inner),
                self.count == old(self).count,
                self.count > 0,
                self.cur <= self.count,
            decreases n - i,
        {
            let note = self.next();
            out.push(note);
            i += 1;
        }
        out
    }
}

impl NoteSeq {
    /// Whether the pattern can be played.
    pub fn is_playable(&self) -> (r: bool)
        ensures
            r == playable(*self),
        decreases *self,
    {
        if self.pattern.len() == 0 || self.index >= self.pattern.len() {
            return false;
        }
        let mut i: usize = 0;
        while i < self.pattern.len()
            invariant
                i <= self.pattern@.len(),
                self.pattern@.len() > 0,
                self.index < self.pattern@.len(),
                forall|k: int|
                    0 <= k < i ==> match #[trigger] self.pattern@[k] {
                        SeqToken::SubSequence(inner) => playable(inner),
                        SeqToken::Random { min, max } => min <= max,
                        _ => true,
                    },
            decreases self.pattern@.len() - i,
        {
            let fine = match &self.pattern[i] {
                SeqToken::SubSequence(inner) => inner.is_playable(),
                SeqToken::Random { min, max } => *min <= *max,
                _ => true,
            };
            if !fine {
                return false;
            }
            i += 1;
        }
        true
    }

    /// This pattern and `rhs` played together, each note the sum of the
    /// two, which comes round at the ends of the scale.
    pub fn add<R: Into<NoteSeq>>(self, rhs: R) -> (r: Blended)
        ensures
            r.left == self,
            r.how == Blend::Sum,
    {
        Blended { left: self, right: rhs.into(), how: Blend::Sum }
    }

    /// This pattern and `rhs` played together, each note the difference
    /// of the two, which comes round at the ends of the scale.
    pub fn sub<R: Into<NoteSeq>>(self, rhs: R) -> (r: Blended)
        ensures
            r.left == self,
            r.how == Blend::Difference,
    {
        Blended { left: self, right: rhs.into(), how: Blend::Difference }
    }

    /// This pattern and `rhs` played together, each note the higher of
    /// the two.
    pub fn max<R: Into<NoteSeq>>(self, rhs: R) -> (r: Blended)
        ensures
            r.left == self,
            r.how == Blend::Higher,
    {
        Blended { left: self, right: rhs.into(), how: Blend::Higher }
    }

    /// This pattern and `rhs` played together, each note the lower of the
    /// two.
    pub fn min<R: Into<NoteSeq>>(self, rhs: R) -> (r: Blended)
        ensures
            r.left == self,
            r.how == Blend::Lower,
    {
        Blended { left: self, right: rhs.into(), how: Blend::Lower }
    }

    /// This pattern with each note kept between `min` and `max`.
    pub fn clamp(self, min: i8, max: i8) -> (r: Clamped)
        ensures
            r.inner == self,
            r.min == min,
            r.max == max,
    {
        Clamped { inner: self, min, max }
    }

    /// This pattern with each note played `x` times over. `x` may not be
    /// 0.
    pub fn slow(self, x: usize) -> (r: Slowed)
        requires
            x > 0,
        ensures
            r.inner == self,
            r.count == x,
            r.held is None,
            r.cur == 0,
    {
        Slowed { inner: self, count: x, held: None, cur: 0 }
    }
}

} // verus!
