use crate::grid::lines_of;
use crate::outside::{trim_of, trimmed, words, words_of};
use crate::text::{chars_of, find_char, place_of, slice_of, split_lines};
use std::collections::VecDeque;
use vstd::prelude::*;

verus! {

/// A host of the network, with the names of the hosts that it sends to.
#[derive(Debug, PartialEq, Eq)]
pub struct Host {
    pub name: Vec<char>,
    pub outputs: Vec<Vec<char>>,
}

/// Why a network could not be read.
#[derive(Clone, Copy, Debug, PartialEq, Eq)]
pub enum NetworkError {
    /// A line holds no colon behind the name of its host.
    NoColon,
}

/// The texts that `names` hold.
pub open spec fn names_of(names: Seq<Vec<char>>) -> Seq<Seq<char>> {
    Seq::new(names.len(), |i: int| names[i]@)
}

/// Whether a line writes a host at all: it holds a colon.
pub open spec fn has_colon(line: Seq<char>) -> bool {
    place_of(line, ':', 0) < line.len()
}

/// Whether `host` is the host that `line` writes: its name stands before
/// the first colon, with or without white space around it, and the names
/// of its outputs are the words behind that colon.
pub open spec fn reads_as(line: Seq<char>, host: Host) -> bool {
    let colon = place_of(line, ':', 0);
    &&& has_colon(line)
    &&& host.name@ == trim_of(line.subrange(0, colon))
    &&& names_of(host.outputs@) == words_of(trim_of(line.subrange(colon + 1, line.len() as int)))
}

/// Reads the host that a line writes, where it writes one.
pub fn parse_host(line: &Vec<char>) -> (r: Option<Host>)
    ensures
        r is Some == has_colon(line@),
        r matches Some(host) ==> reads_as(line@, host),
{
    let colon = find_char(line, ':');
    if colon >= line.len() {
        return None;
    }
    let name = trimmed(&slice_of(line, 0, colon));
    let outputs = words(&trimmed(&slice_of(line, colon + 1, line.len())));
    proof {
        assert(names_of(outputs@) =~= words_of(
            trim_of(line@.subrange(colon + 1, line@.len() as int)),
        ));
    }
    Some(Host { name, outputs })
}

/// Reads the hosts of a network, one to a line. A line without a colon
/// is an error.
pub fn parse(input: &str) -> (r: Result<Vec<Host>, NetworkError>)
    ensures
        match r {
            Ok(hosts) => {
                &&& hosts@.len() == lines_of(input@).len()
                &&& forall|i: int|
                    0 <= i < hosts@.len() ==> reads_as(lines_of(input@)[i], #[trigger] hosts@[i])
            },
            Err(e) => e == NetworkError::NoColon && exists|i: int|
                0 <= i < lines_of(input@).len() && !has_colon(#[trigger] lines_of(input@)[i]),
        },
{
    let lines = split_lines(&chars_of(input));
    let ghost all = lines_of(input@);
    let mut hosts: Vec<Host> = Vec::new();
    let mut i: usize = 0;
    while i < lines.len()
        invariant
            i <= lines@.len(),
            all == lines_of(input@),
            lines@.len() == all.len(),
            forall|k: int| 0 <= k < all.len() ==> (#[trigger] lines@[k])@ == all[k],
            hosts@.len() == i,
            forall|k: int| 0 <= k < i ==> reads_as(all[k], #[trigger] hosts@[k]),
        decreases lines@.len() - i,
    {
        proof {
            assert(lines@[i as int]@ == all[i as int]);
        }
        match parse_host(&lines[i]) {
            Some(host) => {
                hosts.push(host);
            },
            None => {
                proof {
                    assert(!has_colon(all[i as int]));
                }
                return Err(NetworkError::NoColon);
            },
        }
        i += 1;
    }
    Ok(hosts)
}

/// The name of the host where the ways end.
pub open spec fn out_name() -> Seq<char> {
    seq!['o', 'u', 't']
}

/// The name of the host where the ways start.
pub open spec fn you_name() -> Seq<char> {
    seq!['y', 'o', 'u']
}

/// The outputs of the host `name`: those of the last line that names it,
/// or nothing where no line does.
pub open spec fn outputs_of(hosts: Seq<Host>, name: Seq<char>) -> Option<Seq<Seq<char>>>
    decreases hosts.len(),
{
    if hosts.len() == 0 {
        None
    } else if hosts.last().name@ == name {
        Some(names_of(hosts.last().outputs@))
    } else {
        outputs_of(hosts.drop_last(), name)
    }
}

/// What a walk from `name` comes to, following every output of every
/// host: the number of ways that end at `out`, and the number of hosts
/// that the walk comes by on all its ways together. A way ends at `out`
/// and at a host without a line. Nothing where some way has more than
/// `fuel` steps.
pub open spec fn tally_one(hosts: Seq<Host>, name: Seq<char>, fuel: nat) -> Option<(nat, nat)>
    decreases fuel, 0nat,
{
    if name == out_name() {
        Some((1nat, 1nat))
    } else {
        match outputs_of(hosts, name) {
            None => Some((0nat, 1nat)),
            Some(outs) => if fuel == 0 {
                None
            } else {
                match tally_from(hosts, outs, (fuel - 1) as nat) {
                    Some(t) => Some((t.0, t.1 + 1)),
                    None => None,
                }
            },
        }
    }
}

/// What the walks from each of `names` come to together.
pub open spec fn tally_from(hosts: Seq<Host>, names: Seq<Seq<char>>, fuel: nat) -> Option<
    (nat, nat),
>
    decreases fuel, names.len() + 1,
{
    if names.len() == 0 {
        Some((0nat, 0nat))
    } else {
        match (tally_from(hosts, names.drop_last(), fuel), tally_one(hosts, names.last(), fuel)) {
            (Some(a), Some(b)) => Some((a.0 + b.0, a.1 + b.1)),
            _ => None,
        }
    }
}

proof fn lemma_tally_one_more(hosts: Seq<Host>, name: Seq<char>, fuel: nat)
    requires
        tally_one(hosts, name, fuel) is Some,
    ensures
        tally_one(hosts, name, fuel + 1) == tally_one(hosts, name, fuel),
    decreases fuel, 0nat,
{
    if name != out_name() {
        match outputs_of(hosts, name) {
            None => {},
            Some(outs) => {
                lemma_tally_from_more(hosts, outs, (fuel - 1) as nat);
            },
        }
    }
}

proof fn lemma_tally_from_more(hosts: Seq<Host>, names: Seq<Seq<char>>, fuel: nat)
    requires
        tally_from(hosts, names, fuel) is Some,
    ensures
        tally_from(hosts, names, fuel + 1) == tally_from(hosts, names, fuel),
    decreases fuel, names.len() + 1,
{
    if names.len() > 0 {
        lemma_tally_from_more(hosts, names.drop_last(), fuel);
        lemma_tally_one_more(hosts, names.last(), fuel);
    }
}

/// With more fuel a walk comes to the same.
pub proof fn lemma_tally_upto(hosts: Seq<Host>, name: Seq<char>, fuel: nat, more: nat)
    requires
        fuel <= more,
        tally_one(hosts, name, fuel) is Some,
    ensures
        tally_one(hosts, name, more) == tally_one(hosts, name, fuel),
    decreases more - fuel,
{
    if fuel < more {
        lemma_tally_upto(hosts, name, fuel, (more - 1) as nat);
        lemma_tally_one_more(hosts, name, (more - 1) as nat);
    }
}

/// What the walks from the hosts that wait come to together, each with
/// the fuel that is left for it.
pub open spec fn tally_waiting(hosts: Seq<Host>, names: Seq<Seq<char>>, fuels: Seq<nat>) -> (
    nat,
    nat,
)
    decreases names.len(),
{
    if names.len() == 0 || fuels.len() != names.len() {
        (0nat, 0nat)
    } else {
        let rest = tally_waiting(hosts, names.drop_last(), fuels.drop_last());
        match tally_one(hosts, names.last(), fuels.last()) {
            Some(t) => (rest.0 + t.0, rest.1 + t.1),
            None => rest,
        }
    }
}

proof fn lemma_waiting_front(hosts: Seq<Host>, names: Seq<Seq<char>>, fuels: Seq<nat>)
    requires
        names.len() > 0,
        fuels.len() == names.len(),
        tally_one(hosts, names[0], fuels[0]) is Some,
    ensures
        tally_waiting(hosts, names, fuels).0 == tally_one(hosts, names[0], fuels[0]).unwrap().0
            + tally_waiting(hosts, names.skip(1), fuels.skip(1)).0,
        tally_waiting(hosts, names, fuels).1 == tally_one(hosts, names[0], fuels[0]).unwrap().1
            + tally_waiting(hosts, names.skip(1), fuels.skip(1)).1,
    decreases names.len(),
{
    let none = (0nat, 0nat);
    if names.len() == 1 {
        assert(tally_waiting(hosts, names.drop_last(), fuels.drop_last()) == none);
        assert(tally_waiting(hosts, names.skip(1), fuels.skip(1)) == none);
        assert(names.last() == names[0] && fuels.last() == fuels[0]);
    } else {
        lemma_waiting_front(hosts, names.drop_last(), fuels.drop_last());
        assert(names.skip(1).drop_last() =~= names.drop_last().skip(1));
        assert(fuels.skip(1).drop_last() =~= fuels.drop_last().skip(1));
        assert(names.skip(1).last() == names.last());
        assert(fuels.skip(1).last() == fuels.last());
        assert(names.drop_last()[0] == names[0] && fuels.drop_last()[0] == fuels[0]);
        let rest = tally_waiting(hosts, names.skip(1).drop_last(), fuels.skip(1).drop_last());
        assert(tally_waiting(hosts, names.skip(1), fuels.skip(1)) == match tally_one(
            hosts,
            names.last(),
            fuels.last(),
        ) {
            Some(t) => (rest.0 + t.0, rest.1 + t.1),
            None => rest,
        });
    }
}

proof fn lemma_tally_prefix(hosts: Seq<Host>, names: Seq<Seq<char>>, upto: int, fuel: nat)
    requires
        tally_from(hosts, names, fuel) is Some,
        0 <= upto <= names.len(),
    ensures
        tally_from(hosts, names.take(upto), fuel) is Some,
        upto < names.len() ==> tally_one(hosts, names[upto], fuel) is Some,
    decreases names.len() - upto,
{
    if upto == names.len() {
        assert(names.take(upto) =~= names);
    } else {
        lemma_tally_prefix(hosts, names, upto + 1, fuel);
        assert(names.take(upto + 1).drop_last() =~= names.take(upto));
        assert(names.take(upto + 1).last() == names[upto]);
    }
}

/// Whether two names are the same.
fn same(a: &Vec<char>, b: &Vec<char>) -> (r: bool)
    ensures
        r == (a@ == b@),
{
    if a.len() != b.len() {
        return false;
    }
    let mut i: usize = 0;
    while i < a.len()
        invariant
            i <= a@.len(),
            a@.len() == b@.len(),
            forall|k: int| 0 <= k < i ==> a@[k] == b@[k],
        decreases a@.len() - i,
    {
        if a[i] != b[i] {
            return false;
        }
        i += 1;
    }
    proof {
        assert(a@ =~= b@);
    }
    true
}

/// The outputs of the host `name`, as `outputs_of` tells them.
fn outputs<'a>(hosts: &'a Vec<Host>, name: &Vec<char>) -> (r: Option<&'a Vec<Vec<char>>>)
    ensures
        match r {
            Some(outs) => outputs_of(hosts@, name@) == Some(names_of(outs@)),
            None => outputs_of(hosts@, name@) is None,
        },
{
    let mut i: usize = hosts.len();
    proof {
        assert(hosts@.take(i as int) =~= hosts@);
    }
    while i > 0
        invariant
            i <= hosts@.len(),
            outputs_of(hosts@, name@) == outputs_of(hosts@.take(i as int), name@),
        decreases i,
    {
        i -= 1;
        proof {
            assert(hosts@.take(i + 1).drop_last() =~= hosts@.take(i as int));
            assert(hosts@.take(i + 1).last() == hosts@[i as int]);
        }
        if same(&hosts[i].name, name) {
            return Some(&hosts[i].outputs);
        }
    }
    None
}

/// The number of ways from `you` to `out`, along the outputs of the
/// hosts. The walk must come to an end, which it does where no way from
/// `you` leads round in a circle, and the number must fit.
pub fn part_one(hosts: &Vec<Host>) -> (r: u64)
    requires
        exists|fuel: nat|
            (#[trigger] tally_one(hosts@, you_name(), fuel)) matches Some(t) && t.0 <= u64::MAX,
    ensures
        forall|fuel: nat|
            (#[trigger] tally_one(hosts@, you_name(), fuel)) matches Some(t) ==> r == t.0,
{
    let you: Vec<char> = vec!['y', 'o', 'u'];
    let out: Vec<char> = vec!['o', 'u', 't'];
    let ghost start = choose|fuel: nat|
        (#[trigger] tally_one(hosts@, you_name(), fuel)) matches Some(t) && t.0 <= u64::MAX;
    let ghost goal = tally_one(hosts@, you_name(), start).unwrap();
    let mut queue: VecDeque<&Vec<char>> = VecDeque::new();
    queue.push_back(&you);
    let ghost mut names: Seq<Seq<char>> = seq![you@];
    let ghost mut fuels: Seq<nat> = seq![start];
    let mut total: u64 = 0;
    proof {
        assert(you@ =~= you_name());
        assert(out@ =~= out_name());
        let none = (0nat, 0nat);
        assert(tally_waiting(hosts@, names.drop_last(), fuels.drop_last()) == none);
    }
    while queue.len() > 0
        invariant
            out@ == out_name(),
            goal.0 <= u64::MAX,
            names.len() == queue@.len(),
            fuels.len() == queue@.len(),
            forall|i: int| 0 <= i < names.len() ==> (#[trigger] queue@[i])@ == names[i],
            forall|i: int|
                0 <= i < names.len() ==> tally_one(hosts@, #[trigger] names[i], fuels[i]) is Some,
            total + tally_waiting(hosts@, names, fuels).0 == goal.0,
        decreases tally_waiting(hosts@, names, fuels).1,
    {
        let node = queue.pop_front().unwrap();
        let ghost name = names[0];
        let ghost fuel = fuels[0];
        proof {
            lemma_waiting_front(hosts@, names, fuels);
            names = names.skip(1);
            fuels = fuels.skip(1);
        }
        let ghost rest = tally_waiting(hosts@, names, fuels);
        if same(node, &out) {
            total += 1;
        } else {
            match outputs(hosts, node) {
                Some(outs) => {
                    let ghost kids = names_of(outs@);
                    let ghost left = (fuel - 1) as nat;
                    proof {
                        assert(kids.take(0) =~= Seq::<Seq<char>>::empty());
                    }
                    let mut j: usize = 0;
                    while j < outs.len()
                        invariant
                            j <= outs@.len(),
                            kids == names_of(outs@),
                            tally_from(hosts@, kids, left) is Some,
                            tally_from(hosts@, kids.take(j as int), left) is Some,
                            names.len() == queue@.len(),
                            fuels.len() == queue@.len(),
                            forall|i: int|
                                0 <= i < names.len() ==> (#[trigger] queue@[i])@ == names[i],
                            forall|i: int|
                                0 <= i < names.len() ==> tally_one(
                                    hosts@,
                                    #[trigger] names[i],
                                    fuels[i],
                                ) is Some,
                            tally_waiting(hosts@, names, fuels).0 == rest.0 + tally_from(
                                hosts@,
                                kids.take(j as int),
                                left,
                            ).unwrap().0,
                            tally_waiting(hosts@, names, fuels).1 == rest.1 + tally_from(
                                hosts@,
                                kids.take(j as int),
                                left,
                            ).unwrap().1,
                        decreases outs@.len() - j,
                    {
                        queue.push_back(&outs[j]);
                        proof {
                            lemma_tally_prefix(hosts@, kids, j as int, left);
                            lemma_tally_prefix(hosts@, kids, j + 1, left);
                            assert(kids.take(j + 1).drop_last() =~= kids.take(j as int));
                            assert(kids.take(j + 1).last() == kids[j as int]);
                            assert(kids[j as int] == outs@[j as int]@);
                            let before = names;
                            let fuels_before = fuels;
                            names = names.push(kids[j as int]);
                            fuels = fuels.push(left);
                            assert(names.drop_last() =~= before);
                            assert(fuels.drop_last() =~= fuels_before);
                        }
                        j += 1;
                    }
                    proof {
                        assert(kids.take(kids.len() as int) =~= kids);
                    }
                },
                None => {},
            }
        }
    }
    proof {
        assert forall|fuel: nat| (#[trigger] tally_one(hosts@, you_name(), fuel)) is Some implies total
            == tally_one(hosts@, you_name(), fuel).unwrap().0 by {
            if fuel <= start {
                lemma_tally_upto(hosts@, you_name(), fuel, start);
            } else {
                lemma_tally_upto(hosts@, you_name(), start, fuel);
            }
        }
    }
    total
}

} // verus!
