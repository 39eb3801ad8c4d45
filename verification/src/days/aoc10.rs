use crate::grid::lines_of;
use crate::outside::{words, words_of};
use crate::text::{chars_of, number_of, parse_u64, place_of, slice_of, split_lines};
use std::collections::VecDeque;
use vstd::prelude::*;

verus! {

/// A machine: the lights that shall be on, and for each button the
/// lights that it toggles.
pub struct Machine {
    pub target: Vec<bool>,
    pub buttons: Vec<Vec<u32>>,
    pub joltage: Vec<u32>,
}

/// `lights` with each light of `button` toggled, in turn.
pub open spec fn toggled(lights: Seq<bool>, button: Seq<u32>) -> Seq<bool>
    decreases button.len(),
{
    if button.len() == 0 {
        lights
    } else {
        let before = toggled(lights, button.drop_last());
        before.update(button.last() as int, !before[button.last() as int])
    }
}

pub proof fn lemma_toggled(lights: Seq<bool>, button: Seq<u32>)
    requires
        forall|i: int| 0 <= i < button.len() ==> button[i] < lights.len(),
    ensures
        toggled(lights, button).len() == lights.len(),
    decreases button.len(),
{
    if button.len() > 0 {
        lemma_toggled(lights, button.drop_last());
    }
}

/// The lights after a button was pressed. The button may name no light
/// that is not there.
pub fn toggle(current: &Vec<bool>, button: &Vec<u32>) -> (r: Vec<bool>)
    requires
        forall|i: int| 0 <= i < button@.len() ==> button@[i] < current@.len(),
    ensures
        r@ == toggled(current@, button@),
        r@.len() == current@.len(),
{
    let mut new: Vec<bool> = Vec::new();
    let mut k: usize = 0;
    while k < current.len()
        invariant
            k <= current@.len(),
            new@ == current@.take(k as int),
        decreases current@.len() - k,
    {
        new.push(current[k]);
        proof {
            assert(new@ =~= current@.take(k + 1));
        }
        k += 1;
    }
    proof {
        assert(current@.take(current@.len() as int) =~= current@);
        assert(button@.take(0) =~= Seq::<u32>::empty());
    }
    let mut i: usize = 0;
    while i < button.len()
        invariant
            i <= button@.len(),
            forall|j: int| 0 <= j < button@.len() ==> button@[j] < current@.len(),
            new@.len() == current@.len(),
            new@ == toggled(current@, button@.take(i as int)),
        decreases button@.len() - i,
    {
        let x = button[i] as usize;
        proof {
            assert(button@.take(i + 1).drop_last() =~= button@.take(i as int));
            assert(button@.take(i + 1).last() == button@[i as int]);
        }
        let was = new[x];
        new[x] = !was;
        i += 1;
    }
    proof {
        assert(button@.take(button@.len() as int) =~= button@);
    }
    new
}

/// The buttons pressed on the way that stands at place `g` in the order
/// in which ways are tried: the shorter before the longer, and ways of
/// one length by their buttons.
pub open spec fn way_at(g: nat, buttons: nat) -> Seq<int>
    decreases g,
{
    if g == 0 || buttons == 0 {
        Seq::empty()
    } else {
        way_at(((g - 1) / buttons as int) as nat, buttons).push((g - 1) % (buttons as int))
    }
}

/// The lights after the buttons of `way` were pressed, one after the
/// other.
pub open spec fn pressed(lights: Seq<bool>, buttons: Seq<Vec<u32>>, way: Seq<int>) -> Seq<bool>
    decreases way.len(),
{
    if way.len() == 0 {
        lights
    } else {
        toggled(pressed(lights, buttons, way.drop_last()), buttons[way.last()]@)
    }
}

/// Whether the way at place `g` turns `lights` into `target`.
pub open spec fn reaches(
    lights: Seq<bool>,
    buttons: Seq<Vec<u32>>,
    target: Seq<bool>,
    g: nat,
) -> bool {
    pressed(lights, buttons, way_at(g, buttons.len())) == target
}

/// Whether `g` is the first place whose way turns `lights` into `target`.
pub open spec fn first_reach(
    lights: Seq<bool>,
    buttons: Seq<Vec<u32>>,
    target: Seq<bool>,
    g: nat,
) -> bool {
    reaches(lights, buttons, target, g) && forall|i: nat|
        i < g ==> !reaches(lights, buttons, target, i)
}

/// How many buttons are pressed on the first way that turns `lights`
/// into `target`; 0 where there is no button.
pub open spec fn presses(lights: Seq<bool>, buttons: Seq<Vec<u32>>, target: Seq<bool>) -> nat {
    if buttons.len() == 0 {
        0
    } else {
        way_at(choose|g: nat| first_reach(lights, buttons, target, g), buttons.len()).len()
    }
}

pub proof fn lemma_first_reach(
    lights: Seq<bool>,
    buttons: Seq<Vec<u32>>,
    target: Seq<bool>,
    g: nat,
)
    requires
        buttons.len() > 0,
        first_reach(lights, buttons, target, g),
    ensures
        presses(lights, buttons, target) == way_at(g, buttons.len()).len(),
{
    let h = choose|h: nat| first_reach(lights, buttons, target, h);
    if h < g {
        assert(!reaches(lights, buttons, target, h));
    }
    if g < h {
        assert(!reaches(lights, buttons, target, g));
    }
}

/// No light is on.
pub open spec fn dark(n: nat) -> Seq<bool> {
    Seq::new(n, |i: int| false)
}

/// Whether the machine can be brought from darkness to its target.
pub open spec fn solvable(m: Machine) -> bool {
    &&& buttons_fit(m.buttons@, m.target@.len())
    &&& m.buttons@.len() > 0 ==> exists|g: nat|
        reaches(dark(m.target@.len()), m.buttons@, m.target@, g) && way_at(
            g,
            m.buttons@.len(),
        ).len() < usize::MAX
}

/// The presses that the first `upto` of `machines` need together.
pub open spec fn presses_upto(machines: Seq<Machine>, upto: int) -> nat
    decreases upto,
{
    if upto <= 0 {
        0
    } else {
        presses_upto(machines, upto - 1) + presses(
            dark(machines[upto - 1].target@.len()),
            machines[upto - 1].buttons@,
            machines[upto - 1].target@,
        )
    }
}

pub proof fn lemma_presses_upto(machines: Seq<Machine>, upto: int, end: int)
    requires
        0 <= upto <= end,
    ensures
        presses_upto(machines, upto) <= presses_upto(machines, end),
    decreases end - upto,
{
    if upto < end {
        lemma_presses_upto(machines, upto, end - 1);
    }
}

/// Every button names lights that are there.
pub open spec fn buttons_fit(buttons: Seq<Vec<u32>>, lights: nat) -> bool {
    forall|b: int, i: int|
        0 <= b < buttons.len() && 0 <= i < buttons[b]@.len() ==> (#[trigger] buttons[b]@[i])
            < lights
}

pub proof fn lemma_pressed(lights: Seq<bool>, buttons: Seq<Vec<u32>>, way: Seq<int>)
    requires
        buttons_fit(buttons, lights.len()),
        forall|i: int| 0 <= i < way.len() ==> 0 <= #[trigger] way[i] < buttons.len(),
    ensures
        pressed(lights, buttons, way).len() == lights.len(),
    decreases way.len(),
{
    if way.len() > 0 {
        lemma_pressed(lights, buttons, way.drop_last());
        let b = way.last();
        assert forall|i: int| 0 <= i < buttons[b]@.len() implies buttons[b]@[i] < lights.len() by {
            assert(buttons[b]@[i] < lights.len());
        }
        lemma_toggled(pressed(lights, buttons, way.drop_last()), buttons[b]@);
    }
}

/// A later way is no shorter than an earlier one.
pub proof fn lemma_way_grows(i: nat, j: nat, buttons: nat)
    requires
        i <= j,
    ensures
        way_at(i, buttons).len() <= way_at(j, buttons).len(),
    decreases j,
{
    if i > 0 && buttons > 0 {
        let pi = ((i - 1) / buttons as int) as nat;
        let pj = ((j - 1) / buttons as int) as nat;
        assert(pi <= pj && pj < j) by (nonlinear_arith)
            requires
                pi == (i - 1) / buttons as int,
                pj == (j - 1) / buttons as int,
                0 < i <= j,
                buttons > 0,
        ;
        lemma_way_grows(pi, pj, buttons);
    }
}

pub proof fn lemma_way_at(g: nat, buttons: nat)
    ensures
        forall|i: int| 0 <= i < way_at(g, buttons).len() ==> 0 <= #[trigger] way_at(g, buttons)[i]
            < buttons,
        way_at(g, buttons).len() <= g,
    decreases g,
{
    if g > 0 && buttons > 0 {
        let parent = ((g - 1) / buttons as int) as nat;
        assert(parent < g) by (nonlinear_arith)
            requires
                parent == (g - 1) / buttons as int,
                g > 0,
                buttons > 0,
        ;
        lemma_way_at(parent, buttons);
    }
}

/// Whether two rows of lights are the same.
fn same_lights(a: &Vec<bool>, b: &Vec<bool>) -> (r: bool)
    ensures
        r == (a@ == b@),
{
    if a.len() != b.len() {
        return false;
    }
    let mut i: usize = 0;
    while i < a.len()
        invariant
            i <= a@.len(),
            a@.len() == b@.len(),
            forall|k: int| 0 <= k < i ==> a@[k] == b@[k],
        decreases a@.len() - i,
    {
        if a[i] != b[i] {
            return false;
        }
        i += 1;
    }
    proof {
        assert(a@ =~= b@);
    }
    true
}

/// How many buttons are pressed on the first way, in the order in which
/// ways are tried, that turns `initial` into the target of the machine;
/// 0 where the machine has no button and the lights are not as they
/// shall be. Where the machine has a button, some way must lead to the
/// target: the search goes on until it finds one.
pub fn search_buttons(initial: Vec<bool>, machine: &Machine) -> (r: usize)
    requires
        buttons_fit(machine.buttons@, initial@.len()),
        machine.buttons@.len() > 0 ==> exists|g: nat|
            reaches(initial@, machine.buttons@, machine.target@, g) && way_at(
                g,
                machine.buttons@.len(),
            ).len() < usize::MAX,
    ensures
        r == presses(initial@, machine.buttons@, machine.target@),
{
    let ghost start = initial@;
    let ghost buttons = machine.buttons@;
    let ghost b = machine.buttons@.len();
    let ghost goal: nat = if b > 0 {
        choose|g: nat|
            reaches(start, buttons, machine.target@, g) && way_at(g, b).len() < usize::MAX
    } else {
        0
    };
    let mut stack: VecDeque<(Vec<bool>, usize)> = VecDeque::new();
    stack.push_back((initial, 0));
    let ghost mut done: nat = 0;
    proof {
        assert(way_at(0, b) =~= Seq::<int>::empty());
    }
    while stack.len() > 0
        invariant
            start == initial@,
            buttons == machine.buttons@,
            b == buttons.len(),
            buttons_fit(buttons, start.len()),
            b > 0 ==> reaches(start, buttons, machine.target@, goal) && done <= goal && way_at(
                goal,
                b,
            ).len() < usize::MAX,
            b == 0 ==> done <= 1,
            forall|i: nat| i < done ==> !reaches(start, buttons, machine.target@, i),
            stack@.len() == b * done + 1 - done,
            forall|k: int|
                0 <= k < stack@.len() ==> {
                    let g = (b * done + 1 - 1 - k) as nat;
                    &&& (#[trigger] stack@[k]).0@ == pressed(start, buttons, way_at(g, b))
                    &&& stack@[k].1 == way_at(g, b).len()
                },
        decreases
                if b > 0 {
                    goal - done + 1
                } else {
                    2 - done
                },
    {
        let ghost before = stack@;
        let (current, steps) = match stack.pop_back() {
            Some(entry) => entry,
            None => unreached(),
        };
        proof {
            assert(before[before.len() - 1] == (current, steps));
            assert((b * done + 1 - 1 - (before.len() - 1)) as nat == done) by (nonlinear_arith)
                requires
                    before.len() == b * done + 1 - done,
            ;
            lemma_way_at(done, b);
            lemma_pressed(start, buttons, way_at(done, b));
            if b > 0 {
                lemma_way_grows(done, goal, b);
            }
            assert(stack@ =~= before.drop_last());
        }
        if same_lights(&current, &machine.target) {
            proof {
                if b > 0 {
                    lemma_first_reach(start, buttons, machine.target@, done);
                } else {
                    assert(way_at(done, b) =~= Seq::<int>::empty());
                }
            }
            return steps;
        }
        let mut j: usize = 0;
        let ghost popped = stack@;
        while j < machine.buttons.len()
            invariant
                j <= b,
                b == machine.buttons@.len(),
                buttons == machine.buttons@,
                buttons_fit(buttons, start.len()),
                current@.len() == start.len(),
                current@ == pressed(start, buttons, way_at(done, b)),
                steps == way_at(done, b).len(),
                steps < usize::MAX,
                popped.len() == b * done - done,
                stack@.len() == popped.len() + j,
                forall|k: int| 0 <= k < j ==> {
                    let g = (b * done + 1 + (j - 1 - k)) as nat;
                    &&& (#[trigger] stack@[k]).0@ == pressed(start, buttons, way_at(g, b))
                    &&& stack@[k].1 == way_at(g, b).len()
                },
                forall|k: int| 0 <= k < popped.len() ==> #[trigger] stack@[j + k] == popped[k],
            decreases b - j,
        {
            let ghost old_stack = stack@;
            proof {
                assert forall|i: int| 0 <= i < machine.buttons@[j as int]@.len() implies machine.buttons@[j as int]@[i]
                    < current@.len() by {
                    assert(buttons[j as int]@[i] < start.len());
                }
            }
            let toggled = toggle(&current, &machine.buttons[j]);
            stack.push_front((toggled, steps + 1));
            proof {
                let g = (b * done + 1 + j) as nat;
                assert((g - 1) / (b as int) == done && (g - 1) % (b as int) == j) by {
                    assert(g - 1 == done * b + j) by (nonlinear_arith)
                        requires
                            g == b * done + 1 + j,
                    ;
                    vstd::arithmetic::div_mod::lemma_fundamental_div_mod_converse(
                        g - 1,
                        b as int,
                        done as int,
                        j as int,
                    );
                }
                assert(way_at(g, b) == way_at(done, b).push(j as int));
                assert(way_at(g, b).drop_last() =~= way_at(done, b));
                assert forall|k: int| 0 <= k < j + 1 implies {
                    let gk = (b * done + 1 + (j + 1 - 1 - k)) as nat;
                    &&& (#[trigger] stack@[k]).0@ == pressed(start, buttons, way_at(gk, b))
                    &&& stack@[k].1 == way_at(gk, b).len()
                } by {
                    if k > 0 {
                        assert(stack@[k] == old_stack[k - 1]);
                    }
                }
                assert forall|k: int| 0 <= k < popped.len() implies #[trigger] stack@[j + 1 + k]
                    == popped[k] by {
                    assert(stack@[j + 1 + k] == old_stack[j + k]);
                }
            }
            j += 1;
        }
        proof {
            assert(b * (done + 1) + 1 - (done + 1) == popped.len() + b) by (nonlinear_arith)
                requires
                    popped.len() == b * done - done,
            ;
            assert forall|k: int| 0 <= k < stack@.len() implies {
                let g = (b * (done + 1) + 1 - 1 - k) as nat;
                &&& (#[trigger] stack@[k]).0@ == pressed(start, buttons, way_at(g, b))
                &&& stack@[k].1 == way_at(g, b).len()
            } by {
                assert(b * (done + 1) == b * done + b) by (nonlinear_arith);
                if k >= b {
                    assert(stack@[b + (k - b)] == popped[k - b]);
                    assert(popped[k - b] == before[k - b]);
                }
            }
            done = done + 1;
        }
    }
    proof {
        if b > 0 {
            assert(b * done + 1 - done >= 1) by (nonlinear_arith)
                requires
                    b >= 1,
                    done >= 0,
            ;
        }
    }
    0
}

/// The presses that all machines need together, each brought from
/// darkness to its target. Their number must fit.
pub fn part_one(machines: &Vec<Machine>) -> (r: usize)
    requires
        forall|m: int| 0 <= m < machines@.len() ==> solvable(#[trigger] machines@[m]),
        presses_upto(machines@, machines@.len() as int) <= usize::MAX,
    ensures
        r == presses_upto(machines@, machines@.len() as int),
{
    let mut total: usize = 0;
    let mut m: usize = 0;
    while m < machines.len()
        invariant
            m <= machines@.len(),
            forall|k: int| 0 <= k < machines@.len() ==> solvable(#[trigger] machines@[k]),
            presses_upto(machines@, machines@.len() as int) <= usize::MAX,
            total == presses_upto(machines@, m as int),
        decreases machines@.len() - m,
    {
        let machine = &machines[m];
        let mut initial: Vec<bool> = Vec::new();
        let mut i: usize = 0;
        while i < machine.target.len()
            invariant
                i <= machine.target@.len(),
                initial@ == dark(i as nat),
            decreases machine.target@.len() - i,
        {
            initial.push(false);
            proof {
                assert(initial@ =~= dark((i + 1) as nat));
            }
            i += 1;
        }
        proof {
            assert(solvable(machines@[m as int]));
            lemma_presses_upto(machines@, m + 1, machines@.len() as int);
        }
        let steps = search_buttons(initial, machine);
        total += steps;
        m += 1;
    }
    total
}


/// The lights that a word writes: a dot is a light that is off, a hash
/// one that is on; other characters are passed over.
pub open spec fn lights_of(word: Seq<char>) -> Seq<bool>
    decreases word.len(),
{
    if word.len() == 0 {
        Seq::empty()
    } else if word.last() == '.' {
        lights_of(word.drop_last()).push(false)
    } else if word.last() == '#' {
        lights_of(word.drop_last()).push(true)
    } else {
        lights_of(word.drop_last())
    }
}

/// The numbers that `s` writes from `from` on, with commas between them;
/// what stands between two commas and writes no number that fits is
/// passed over.
pub open spec fn list_of(s: Seq<char>, from: int) -> Seq<u32>
    decreases s.len() - from,
{
    if from < 0 || from > s.len() {
        Seq::empty()
    } else {
        let comma = place_of(s, ',', from);
        let head = match number_of(s.subrange(from, comma)) {
            Some(n) if n <= u32::MAX => seq![n as u32],
            _ => Seq::empty(),
        };
        if from <= comma < s.len() {
            head + list_of(s, comma + 1)
        } else {
            head
        }
    }
}

/// The list that a word in brackets writes.
pub open spec fn bracketed(word: Seq<char>) -> Seq<u32> {
    list_of(word.subrange(1, word.len() - 1), 0)
}

/// The buttons that the words of `ws` write: each word that begins with
/// a round bracket is a button.
pub open spec fn buttons_of(ws: Seq<Seq<char>>) -> Seq<Seq<u32>>
    decreases ws.len(),
{
    if ws.len() == 0 {
        Seq::empty()
    } else if ws.last().len() > 0 && ws.last()[0] == '(' {
        buttons_of(ws.drop_last()).push(bracketed(ws.last()))
    } else {
        buttons_of(ws.drop_last())
    }
}

/// Whether a line can be read as a machine: it holds a word, its last
/// word has two characters at least, and so has each word that begins
/// with a round bracket.
pub open spec fn readable(line: Seq<char>) -> bool {
    let ws = words_of(line);
    &&& ws.len() > 0
    &&& ws.last().len() >= 2
    &&& forall|i: int|
        0 <= i < ws.len() && (#[trigger] ws[i]).len() > 0 && ws[i][0] == '(' ==> ws[i].len() >= 2
}

/// The lists of `buttons`.
pub open spec fn lists_of(buttons: Seq<Vec<u32>>) -> Seq<Seq<u32>> {
    Seq::new(buttons.len(), |i: int| buttons[i]@)
}

/// Reads the numbers of `s` from its start on.
fn read_list(s: &Vec<char>) -> (r: Vec<u32>)
    ensures
        r@ == list_of(s@, 0),
{
    let mut out: Vec<u32> = Vec::new();
    let mut from: usize = 0;
    loop
        invariant_except_break
            list_of(s@, 0) == out@ + list_of(s@, from as int),
        invariant
            from <= s@.len(),
        ensures
            out@ == list_of(s@, 0),
        decreases s@.len() - from,
    {
        let mut comma = from;
        proof {
            crate::text::lemma_place_of(s@, ',', from as int);
        }
        while comma < s.len() && s[comma] != ','
            invariant
                from <= comma <= s@.len(),
                place_of(s@, ',', from as int) == place_of(s@, ',', comma as int),
            decreases s@.len() - comma,
        {
            comma += 1;
        }
        let ghost old_out = out@;
        match parse_u64(&slice_of(s, from, comma)) {
            Some(n) => {
                if n <= 4294967295 {
                    out.push(n as u32);
                }
            },
            None => {},
        }
        if comma < s.len() {
            proof {
                assert(old_out + (out@.skip(old_out.len() as int) + list_of(s@, comma + 1))
                    =~= out@ + list_of(s@, comma + 1));
                assert(out@.skip(old_out.len() as int) =~= match number_of(
                    s@.subrange(from as int, comma as int),
                ) {
                    Some(n) if n <= u32::MAX => seq![n as u32],
                    _ => Seq::<u32>::empty(),
                });
            }
            from = comma + 1;
        } else {
            proof {
                assert(out@.skip(old_out.len() as int) =~= match number_of(
                    s@.subrange(from as int, comma as int),
                ) {
                    Some(n) if n <= u32::MAX => seq![n as u32],
                    _ => Seq::<u32>::empty(),
                });
                assert(old_out + out@.skip(old_out.len() as int) =~= out@);
            }
            break ;
        }
    }
    out
}

impl Machine {
    /// Reads a machine from a line: the lights in square brackets, the
    /// buttons in round brackets, and the joltages in curly brackets at
    /// the end.
    pub fn parse_line(line: &Vec<char>) -> (m: Machine)
        requires
            readable(line@),
        ensures
            m.target@ == lights_of(words_of(line@)[0]),
            lists_of(m.buttons@) == buttons_of(words_of(line@)),
            m.joltage@ == bracketed(words_of(line@).last()),
    {
        let split = words(line);
        let ghost ws = words_of(line@);
        let first = &split[0];
        let mut target: Vec<bool> = Vec::new();
        let mut i: usize = 0;
        proof {
            assert(first@.take(0) =~= Seq::<char>::empty());
        }
        while i < first.len()
            invariant
                i <= first@.len(),
                target@ == lights_of(first@.take(i as int)),
            decreases first@.len() - i,
        {
            proof {
                assert(first@.take(i + 1).drop_last() =~= first@.take(i as int));
                assert(first@.take(i + 1).last() == first@[i as int]);
            }
            if first[i] == '.' {
                target.push(false);
            } else if first[i] == '#' {
                target.push(true);
            }
            i += 1;
        }
        proof {
            assert(first@.take(first@.len() as int) =~= first@);
            assert(ws.take(0) =~= Seq::<Seq<char>>::empty());
        }
        let mut buttons: Vec<Vec<u32>> = Vec::new();
        let mut w: usize = 0;
        proof {
            assert(lists_of(buttons@) =~= Seq::<Seq<u32>>::empty());
        }
        while w < split.len()
            invariant
                w <= split@.len(),
                split@.len() == ws.len(),
                readable(line@),
                ws == words_of(line@),
                forall|k: int| 0 <= k < ws.len() ==> (#[trigger] split@[k])@ == ws[k],
                lists_of(buttons@) == buttons_of(ws.take(w as int)),
            decreases split@.len() - w,
        {
            let word = &split[w];
            proof {
                assert(ws.take(w + 1).drop_last() =~= ws.take(w as int));
                assert(ws.take(w + 1).last() == word@);
                assert(ws[w as int] == word@);
            }
            if word.len() > 0 && word[0] == '(' {
                let ghost before = lists_of(buttons@);
                let list = read_list(&slice_of(word, 1, word.len() - 1));
                buttons.push(list);
                proof {
                    assert(lists_of(buttons@) =~= before.push(bracketed(word@)));
                }
            }
            w += 1;
        }
        proof {
            assert(ws.take(ws.len() as int) =~= ws);
        }
        let last = &split[split.len() - 1];
        let joltage = read_list(&slice_of(last, 1, last.len() - 1));
        Machine { target, buttons, joltage }
    }
}

/// Whether the words of a line let it be read as a machine.
fn words_readable(split: &Vec<Vec<char>>) -> (r: bool)
    ensures
        r == {
            &&& split@.len() > 0
            &&& split@.last()@.len() >= 2
            &&& forall|i: int|
                0 <= i < split@.len() && (#[trigger] split@[i])@.len() > 0 && split@[i]@[0] == '('
                    ==> split@[i]@.len() >= 2
        },
{
    if split.len() == 0 || split[split.len() - 1].len() < 2 {
        return false;
    }
    let mut w: usize = 0;
    while w < split.len()
        invariant
            w <= split@.len(),
            forall|i: int|
                0 <= i < w && (#[trigger] split@[i])@.len() > 0 && split@[i]@[0] == '('
                    ==> split@[i]@.len() >= 2,
        decreases split@.len() - w,
    {
        let word = &split[w];
        if word.len() > 0 && word[0] == '(' && word.len() < 2 {
            return false;
        }
        w += 1;
    }
    true
}

impl Machine {
    /// Reads a machine from a line where the line can be read as one,
    /// and gives nothing where it cannot.
    pub fn try_parse_line(line: &Vec<char>) -> (r: Option<Machine>)
        ensures
            r.is_some() == readable(line@),
            match r {
                Some(m) => {
                    &&& m.target@ == lights_of(words_of(line@)[0])
                    &&& lists_of(m.buttons@) == buttons_of(words_of(line@))
                    &&& m.joltage@ == bracketed(words_of(line@).last())
                },
                None => true,
            },
    {
        let split = words(line);
        if words_readable(&split) {
            proof {
                let ws = words_of(line@);
                assert(ws.last() == split@.last()@);
                assert forall|i: int|
                    0 <= i < ws.len() && (#[trigger] ws[i]).len() > 0 && ws[i][0]
                        == '(' implies ws[i].len() >= 2 by {
                    assert(split@[i]@ == ws[i]);
                }
            }
            Some(Machine::parse_line(line))
        } else {
            proof {
                let ws = words_of(line@);
                if readable(line@) {
                    assert(ws.last() == split@.last()@);
                    assert forall|i: int|
                        0 <= i < split@.len() && (#[trigger] split@[i])@.len() > 0
                            && split@[i]@[0] == '(' implies split@[i]@.len() >= 2 by {
                        assert(split@[i]@ == ws[i]);
                    }
                }
            }
            None
        }
    }
}

/// Reads the machines, one to a line, where every line can be read as
/// one, and gives nothing where some line cannot.
pub fn try_parse(input: &str) -> (r: Option<Vec<Machine>>)
    ensures
        r.is_some() == (forall|i: int|
            0 <= i < lines_of(input@).len() ==> readable(#[trigger] lines_of(input@)[i])),
        match r {
            Some(ms) => {
                &&& ms@.len() == lines_of(input@).len()
                &&& forall|i: int|
                    0 <= i < ms@.len() ==> {
                        &&& (#[trigger] ms@[i]).target@ == lights_of(
                            words_of(lines_of(input@)[i])[0],
                        )
                        &&& lists_of(ms@[i].buttons@) == buttons_of(words_of(lines_of(input@)[i]))
                        &&& ms@[i].joltage@ == bracketed(words_of(lines_of(input@)[i]).last())
                    }
            },
            None => true,
        },
{
    let lines = split_lines(&chars_of(input));
    let ghost all = lines_of(input@);
    let mut out: Vec<Machine> = Vec::new();
    let mut i: usize = 0;
    while i < lines.len()
        invariant
            i <= lines@.len(),
            all == lines_of(input@),
            lines@.len() == all.len(),
            forall|k: int| 0 <= k < all.len() ==> (#[trigger] lines@[k])@ == all[k],
            forall|k: int| 0 <= k < i ==> readable(#[trigger] all[k]),
            out@.len() == i,
            forall|k: int|
                0 <= k < i ==> {
                    &&& (#[trigger] out@[k]).target@ == lights_of(words_of(all[k])[0])
                    &&& lists_of(out@[k].buttons@) == buttons_of(words_of(all[k]))
                    &&& out@[k].joltage@ == bracketed(words_of(all[k]).last())
                },
        decreases lines@.len() - i,
    {
        proof {
            assert(lines@[i as int]@ == all[i as int]);
        }
        match Machine::try_parse_line(&lines[i]) {
            Some(m) => {
                out.push(m);
            },
            None => {
                proof {
                    assert(!readable(all[i as int]));
                }
                return None;
            },
        }
        i += 1;
    }
    Some(out)
}

/// Reads the machines, one to a line.
pub fn parse(input: &str) -> (r: Vec<Machine>)
    requires
        forall|i: int| 0 <= i < lines_of(input@).len() ==> readable(#[trigger] lines_of(input@)[i]),
    ensures
        r@.len() == lines_of(input@).len(),
        forall|i: int|
            0 <= i < r@.len() ==> {
                &&& (#[trigger] r@[i]).target@ == lights_of(words_of(lines_of(input@)[i])[0])
                &&& lists_of(r@[i].buttons@) == buttons_of(words_of(lines_of(input@)[i]))
                &&& r@[i].joltage@ == bracketed(words_of(lines_of(input@)[i]).last())
            },
{
    let lines = split_lines(&chars_of(input));
    let ghost all = lines_of(input@);
    let mut out: Vec<Machine> = Vec::new();
    let mut i: usize = 0;
    while i < lines.len()
        invariant
            i <= lines@.len(),
            all == lines_of(input@),
            lines@.len() == all.len(),
            forall|k: int| 0 <= k < all.len() ==> (#[trigger] lines@[k])@ == all[k],
            forall|k: int| 0 <= k < all.len() ==> readable(#[trigger] all[k]),
            out@.len() == i,
            forall|k: int|
                0 <= k < i ==> {
                    &&& (#[trigger] out@[k]).target@ == lights_of(words_of(all[k])[0])
                    &&& lists_of(out@[k].buttons@) == buttons_of(words_of(all[k]))
                    &&& out@[k].joltage@ == bracketed(words_of(all[k]).last())
                },
        decreases lines@.len() - i,
    {
        proof {
            assert(lines@[i as int]@ == all[i as int]);
            assert(readable(all[i as int]));
        }
        out.push(Machine::parse_line(&lines[i]));
        i += 1;
    }
    out
}

} // verus!
