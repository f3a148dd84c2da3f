//! The deterministic automaton, and how it is built from the sets of states
//! in which the automaton with empty moves can be.
use crate::language::lemma_closure_holds_move;
use crate::language::lemma_closure_holds_set;
use crate::language::lemma_closure_is;
use crate::language::lemma_closure_of_part;
use crate::alphabet::contiguous;
use crate::alphabet::covered;
use crate::alphabet::lemma_contiguous_partitions;
use crate::alphabet::within;
use crate::error::LexerError;
use crate::flags::is_empty_flags;
use crate::alphabet::lemma_contiguous_ordered;
use crate::flags::distinct_subsets;
use crate::flags::lemma_members_equal;
use crate::flags::lemma_subsets_bound;
use crate::flags::lemma_unset_update;
use crate::flags::members;
use crate::flags::no_states;
use crate::flags::same_flags;
use crate::flags::subsets_of;
use crate::flags::unset;
use crate::language::is_word;
use crate::language::Automaton;
use crate::nfa::EpsilonConnection;
use crate::nfa::State;
use crate::nfa::NFA;
use vstd::prelude::*;

verus! {

/// The move `j`, if it is an empty one, does not lead out of `s`.
pub open spec fn respects(m: Automaton, j: int, s: Set<int>) -> bool {
    match m.connections[j] {
        EpsilonConnection::Epsilon(a, b) => s.contains(a as int) ==> s.contains(b as int),
        EpsilonConnection::Connection(_, _, _) => true,
    }
}

/// Adds to the marked states those that are reached from them by empty
/// moves alone.
pub fn epsilon_closure(nfa: &NFA, connected: &mut Vec<bool>)
    requires
        nfa@.wf(),
        old(connected)@.len() == nfa.states@.len(),
    ensures
        final(connected)@.len() == nfa.states@.len(),
        members(final(connected)@) == nfa@.closure(members(old(connected)@)),
{
    close_under_empty_moves(nfa, connected);
    proof {
        lemma_closure_is(nfa@, members(old(connected)@), members(connected@));
    }
}

/// Marks what is reached by empty moves, one state at a time, until no
/// empty move leads out of the marked states.
fn close_under_empty_moves(nfa: &NFA, connected: &mut Vec<bool>)
    requires
        nfa@.wf(),
        old(connected)@.len() == nfa.states@.len(),
    ensures
        final(connected)@.len() == nfa.states@.len(),
        members(old(connected)@).subset_of(members(final(connected)@)),
        nfa@.closed(members(final(connected)@)),
        members(final(connected)@).subset_of(nfa@.closure(members(old(connected)@))),
        unset(final(connected)@) <= unset(old(connected)@),
    decreases unset(old(connected)@),
{
    let ghost m = nfa@;
    let ghost start = members(connected@);
    proof {
        lemma_closure_holds_set(m, start);
    }
    let mut i: usize = 0;
    while i < nfa.connections.len()
        invariant
            i <= nfa.connections@.len(),
            m == nfa@,
            m.wf(),
            start == members(old(connected)@),
            connected@.len() == nfa.states@.len(),
            start.subset_of(members(connected@)),
            unset(connected@) <= unset(old(connected)@),
            members(connected@).subset_of(m.closure(start)),
            forall|j: int| 0 <= j < i ==> #[trigger] respects(m, j, members(connected@)),
        decreases nfa.connections@.len() - i,
    {
        match nfa.connections[i] {
            EpsilonConnection::Epsilon(a, b) => {
                assert(m.connections[i as int].source() < nfa.states@.len());
                assert(m.connections[i as int].target() < nfa.states@.len());
                if connected[a] && !connected[b] {
                    let ghost before = connected@;
                    connected.set(b, true);
                    let ghost marked = members(connected@);
                    proof {
                        lemma_unset_update(before, b as int);
                        lemma_mark(m, start, before, i as int, a, b);
                    }
                    close_under_empty_moves(nfa, connected);
                    proof {
                        lemma_marked(m, start, marked, members(connected@));
                    }
                }
            },
            EpsilonConnection::Connection(_, _, _) => {},
        }
        i += 1;
    }
    proof {
        lemma_respects_closed(m, members(connected@));
    }
}

/// Marking the end of an empty move that starts at a marked state keeps the
/// marked states between the first ones and their closure.
proof fn lemma_mark(m: Automaton, start: Set<int>, before: Seq<bool>, i: int, a: usize, b: usize)
    requires
        start.subset_of(members(before)),
        members(before).subset_of(m.closure(start)),
        0 <= a < before.len(),
        0 <= b < before.len(),
        before[a as int],
        0 <= i < m.connections.len(),
        m.connections[i] == EpsilonConnection::Epsilon(a, b),
    ensures
        start.subset_of(members(before.update(b as int, true))),
        members(before.update(b as int, true)).subset_of(m.closure(start)),
{
    let marked = members(before.update(b as int, true));
    assert(m.empty_move(a as int, b as int));
    assert(members(before).contains(a as int));
    lemma_closure_holds_move(m, start, a as int, b as int);
    assert forall|q: int| marked.contains(q) implies m.closure(start).contains(q) by {
        if q != b {
            assert(members(before).contains(q));
        }
    }
    assert forall|q: int| start.contains(q) implies marked.contains(q) by {
        assert(members(before).contains(q));
    }
}

/// What closing the marked states gives lies between the first states and
/// their closure, and no empty move leads out of it.
proof fn lemma_marked(m: Automaton, start: Set<int>, marked: Set<int>, closed: Set<int>)
    requires
        start.subset_of(marked),
        marked.subset_of(m.closure(start)),
        marked.subset_of(closed),
        closed.subset_of(m.closure(marked)),
        m.closed(closed),
    ensures
        start.subset_of(closed),
        closed.subset_of(m.closure(start)),
        forall|j: int| 0 <= j < m.connections.len() ==> #[trigger] respects(m, j, closed),
{
    lemma_closure_of_part(m, start, marked);
    lemma_closed_respects(m, closed);
}

/// No empty move leads out of a closed set.
pub proof fn lemma_closed_respects(m: Automaton, s: Set<int>)
    requires
        m.closed(s),
    ensures
        forall|j: int| 0 <= j < m.connections.len() ==> #[trigger] respects(m, j, s),
{
    assert forall|j: int| 0 <= j < m.connections.len() implies #[trigger] respects(m, j, s) by {
        match m.connections[j] {
            EpsilonConnection::Epsilon(x, y) => {
                assert(m.empty_move(x as int, y as int));
            },
            _ => {},
        }
    }
}

/// A set that no empty move leads out of is closed.
pub proof fn lemma_respects_closed(m: Automaton, s: Set<int>)
    requires
        forall|j: int| 0 <= j < m.connections.len() ==> #[trigger] respects(m, j, s),
    ensures
        m.closed(s),
{
    assert forall|a: int, b: int| s.contains(a) && #[trigger] m.empty_move(a, b) implies s.contains(
        b,
    ) by {
        let j = choose|j: int|
            0 <= j < m.connections.len() && #[trigger] m.connections[j]
                == EpsilonConnection::Epsilon(a as usize, b as usize) && 0 <= a <= usize::MAX && 0
                <= b <= usize::MAX;
        assert(respects(m, j, s));
    }
}

/// A move of the deterministic automaton: from `start` to `end` over the
/// code points of `range`.
#[derive(Debug, Clone, Copy, PartialEq, Eq)]
pub struct Connection {
    pub range: (u32, u32),
    pub start: usize,
    pub end: usize,
}

/// The moves that leave the state `s`, in the order in which they are held.
pub open spec fn leaving(connections: Seq<Connection>, s: int) -> Seq<Connection>
    decreases connections.len(),
{
    if connections.len() == 0 {
        Seq::empty()
    } else {
        let before = leaving(connections.drop_last(), s);
        if connections.last().start == s {
            before.push(connections.last())
        } else {
            before
        }
    }
}

/// The state `s` has a move for each of the first `k` intervals of the
/// alphabet, in the alphabet's order, and no other move.
pub open spec fn row(connections: Seq<Connection>, alphabet: Seq<(u32, u32)>, s: int, k: int) -> bool {
    &&& leaving(connections, s).len() == k
    &&& k <= alphabet.len()
    &&& forall|j: int| 0 <= j < k ==> (#[trigger] leaving(connections, s)[j]).range == alphabet[j]
}

/// What one more move adds to the moves that leave `s`.
pub proof fn lemma_leaving_push(connections: Seq<Connection>, c: Connection, s: int)
    ensures
        leaving(connections.push(c), s) == if c.start == s {
            leaving(connections, s).push(c)
        } else {
            leaving(connections, s)
        },
{
    assert(connections.push(c).drop_last() =~= connections);
}

/// Each of the moves that leave `s` is one of the moves, and leaves `s`.
pub proof fn lemma_leaving_from(connections: Seq<Connection>, s: int, j: int) -> (i: int)
    requires
        0 <= j < leaving(connections, s).len(),
    ensures
        0 <= i < connections.len(),
        connections[i] == leaving(connections, s)[j],
        connections[i].start == s,
    decreases connections.len(),
{
    let before = leaving(connections.drop_last(), s);
    if connections.last().start == s && j == before.len() {
        connections.len() - 1
    } else {
        lemma_leaving_from(connections.drop_last(), s, j)
    }
}

/// The sets of states that the vectors mark, as values to reason about.
pub open spec fn subsets(powersets: Seq<Vec<bool>>) -> Seq<Seq<bool>> {
    Seq::new(powersets.len(), |i: int| powersets[i]@)
}

/// The automaton can be in exactly the states of `s` after some word.
pub open spec fn reachable(m: Automaton, s: Set<int>) -> bool {
    exists|w: Seq<u32>| is_word(w) && s == #[trigger] m.reach(w)
}

/// The move `c` leads from one of the sets to the set in which the
/// automaton is after one more code point of the move's interval.
pub open spec fn linked(m: Automaton, sets: Seq<Seq<bool>>, c: Connection) -> bool {
    &&& c.start < sets.len()
    &&& c.end < sets.len()
    &&& c.range.0 <= c.range.1
    &&& members(sets[c.end as int]) == m.step(members(sets[c.start as int]), c.range.0)
}

/// The sets are distinct, and each move leads from one of them to the set
/// in which the automaton `m` is after one more code point of the move's
/// interval.
pub open spec fn tied(
    m: Automaton,
    alphabet: Seq<(u32, u32)>,
    sets: Seq<Seq<bool>>,
    connections: Seq<Connection>,
) -> bool {
    &&& distinct_subsets(sets, m.labels.len())
    &&& forall|i: int|
        0 <= i < connections.len() ==> linked(m, sets, #[trigger] connections[i])
            && alphabet.contains(connections[i].range)
}

/// What holds of the sets and moves while the deterministic automaton is
/// built: the sets and moves are tied, and the automaton `m` can be in each
/// of the sets.
pub open spec fn construction(
    m: Automaton,
    alphabet: Seq<(u32, u32)>,
    sets: Seq<Seq<bool>>,
    connections: Seq<Connection>,
) -> bool {
    &&& tied(m, alphabet, sets, connections)
    &&& forall|i: int| 0 <= i < sets.len() ==> reachable(m, members(#[trigger] sets[i]))
}

/// The first sets are those of `before`.
pub open spec fn sets_kept(before: Seq<Seq<bool>>, after: Seq<Seq<bool>>) -> bool {
    &&& before.len() <= after.len()
    &&& forall|i: int| 0 <= i < before.len() ==> #[trigger] after[i] == before[i]
}

/// The states below `below`, but for `except`, have the moves that they had.
pub open spec fn rows_kept(
    before: Seq<Connection>,
    after: Seq<Connection>,
    below: int,
    except: int,
) -> bool {
    forall|s: int|
        0 <= s < below && s != except ==> #[trigger] leaving(after, s) == leaving(before, s)
}

/// The states from `from` up to `to` have all their moves.
pub open spec fn rows_done(
    connections: Seq<Connection>,
    alphabet: Seq<(u32, u32)>,
    from: int,
    to: int,
) -> bool {
    forall|s: int| from <= s < to ==> #[trigger] row(connections, alphabet, s, alphabet.len() as int)
}

/// The state `s` is the target of a move from a state with a smaller
/// index.
pub open spec fn found_from_earlier(connections: Seq<Connection>, s: int) -> bool {
    exists|i: int|
        0 <= i < connections.len() && (#[trigger] connections[i]).end == s && connections[i].start
            < s
}

/// Each of the states from `from` up to `to` was found from a state with a
/// smaller index.
pub open spec fn found_in_order(connections: Seq<Connection>, from: int, to: int) -> bool {
    forall|s: int| from <= s < to ==> #[trigger] found_from_earlier(connections, s)
}

/// A state that was found from an earlier one stays so when moves are added.
pub proof fn lemma_found_stays(before: Seq<Connection>, after: Seq<Connection>, s: int)
    requires
        found_from_earlier(before, s),
        before.len() <= after.len(),
        forall|i: int| 0 <= i < before.len() ==> before[i] == after[i],
    ensures
        found_from_earlier(after, s),
{
    let i = choose|i: int|
        0 <= i < before.len() && (#[trigger] before[i]).end == s && before[i].start < s;
    assert(after[i].end == s && after[i].start < s);
}

/// The states entered from a state of `s` over `c` by one of the first `n`
/// moves.
pub open spec fn moved_by(m: Automaton, n: int, s: Set<int>, c: u32) -> Set<int> {
    Set::new(|q: int| exists|i: int| 0 <= i < n && m.moves_on(i, s, c, q))
}

/// In an alphabet the first code point of an interval lies in that
/// interval and in no other.
pub proof fn lemma_interval_hit(alphabet: Seq<(u32, u32)>, range: (u32, u32), k: int)
    requires
        contiguous(alphabet),
        alphabet.contains(range),
        0 <= k < alphabet.len(),
    ensures
        (range.0 <= alphabet[k].0 <= range.1) <==> range == alphabet[k],
{
    let j = choose|j: int| 0 <= j < alphabet.len() && alphabet[j] == range;
    assert(alphabet[j].0 <= alphabet[j].1);
    assert(alphabet[k].0 <= alphabet[k].1);
    if j < k {
        lemma_contiguous_ordered(alphabet, j, k);
    } else if k < j {
        lemma_contiguous_ordered(alphabet, k, j);
    }
}

/// The set in which the automaton is after one more code point of the
/// interval `k` of the alphabet, when it was in `from` before.
pub fn successor(nfa: &NFA, alphabet: &Vec<(u32, u32)>, from: &Vec<bool>, k: usize) -> (to: Vec<bool>)
    requires
        nfa@.wf(),
        nfa@.over(alphabet@),
        contiguous(alphabet@),
        from@.len() == nfa.states@.len(),
        k < alphabet@.len(),
    ensures
        to@.len() == nfa.states@.len(),
        members(to@) == nfa@.step(members(from@), alphabet@[k as int].0),
{
    let ghost m = nfa@;
    let ghost c = alphabet@[k as int].0;
    let ghost s = members(from@);
    let arange = alphabet[k];
    let mut to = no_states(nfa.states.len());
    let mut i: usize = 0;
    assert(members(to@) =~= moved_by(m, 0, s, c));
    while i < nfa.connections.len()
        invariant
            i <= nfa.connections@.len(),
            m == nfa@,
            m.wf(),
            m.over(alphabet@),
            contiguous(alphabet@),
            k < alphabet@.len(),
            arange == alphabet@[k as int],
            c == arange.0,
            s == members(from@),
            from@.len() == nfa.states@.len(),
            to@.len() == nfa.states@.len(),
            members(to@) == moved_by(m, i as int, s, c),
        decreases nfa.connections@.len() - i,
    {
        let ghost before = to@;
        match nfa.connections[i] {
            EpsilonConnection::Connection(range, a, b) => {
                assert(m.connections[i as int].source() < nfa.states@.len());
                assert(m.connections[i as int].target() < nfa.states@.len());
                proof {
                    lemma_interval_hit(alphabet@, range, k as int);
                }
                if from[a] && range.0 == arange.0 && range.1 == arange.1 {
                    to.set(b, true);
                    proof {
                        assert(m.moves_on(i as int, s, c, b as int));
                    }
                }
            },
            EpsilonConnection::Epsilon(_, _) => {},
        }
        proof {
            let now = members(to@);
            let want = moved_by(m, i + 1, s, c);
            assert forall|q: int| now.contains(q) implies want.contains(q) by {
                if members(before).contains(q) {
                    let j = choose|j: int| 0 <= j < i && m.moves_on(j, s, c, q);
                    assert(m.moves_on(j, s, c, q));
                } else {
                    assert(m.moves_on(i as int, s, c, q));
                }
            }
            assert forall|q: int| want.contains(q) implies now.contains(q) by {
                let j = choose|j: int| 0 <= j < i + 1 && m.moves_on(j, s, c, q);
                if j < i {
                    assert(moved_by(m, i as int, s, c).contains(q));
                    assert(members(before).contains(q));
                }
            }
            assert(now =~= want);
        }
        i += 1;
    }
    assert(moved_by(m, nfa.connections@.len() as int, s, c) =~= m.moved(s, c));
    epsilon_closure(nfa, &mut to);
    to
}

/// The first of the sets that is equal to `set`, if there is one.
pub fn find_subset(powersets: &Vec<Vec<bool>>, set: &Vec<bool>) -> (found: Option<usize>)
    ensures
        match found {
            Some(i) => i < powersets@.len() && powersets@[i as int]@ == set@ && forall|j: int|
                0 <= j < i ==> (#[trigger] powersets@[j])@ != set@,
            None => forall|j: int| 0 <= j < powersets@.len() ==> (#[trigger] powersets@[j])@ != set@,
        },
{
    let mut i: usize = 0;
    while i < powersets.len()
        invariant
            i <= powersets@.len(),
            forall|j: int| 0 <= j < i ==> (#[trigger] powersets@[j])@ != set@,
        decreases powersets@.len() - i,
    {
        if same_flags(&powersets[i], set) {
            return Some(i);
        }
        i += 1;
    }
    None
}

/// After one more code point the automaton is again in a set in which it
/// can be.
pub proof fn lemma_reachable_step(m: Automaton, s: Set<int>, c: u32)
    requires
        reachable(m, s),
        c <= crate::rules::MAX_CODEPOINT,
    ensures
        reachable(m, m.step(s, c)),
{
    let w = choose|w: Seq<u32>| is_word(w) && s == #[trigger] m.reach(w);
    let longer = w.push(c);
    assert(longer.drop_last() =~= w);
    assert(is_word(longer));
    assert(m.step(s, c) == m.reach(longer));
}

/// A new set that differs from the sets so far, and in which the automaton
/// can be, can join them.
proof fn lemma_push_subset(
    m: Automaton,
    alphabet: Seq<(u32, u32)>,
    before: Seq<Seq<bool>>,
    connections: Seq<Connection>,
    set: Seq<bool>,
)
    requires
        construction(m, alphabet, before, connections),
        set.len() == m.labels.len(),
        forall|j: int| 0 <= j < before.len() ==> #[trigger] before[j] != set,
        reachable(m, members(set)),
    ensures
        construction(m, alphabet, before.push(set), connections),
        sets_kept(before, before.push(set)),
        before.len() + 1 <= subsets_of(m.labels.len()),
{
    let after = before.push(set);
    assert forall|i: int| 0 <= i < connections.len() implies linked(
        m,
        after,
        #[trigger] connections[i],
    ) by {
        assert(linked(m, before, connections[i]));
    }
    lemma_subsets_bound(after, m.labels.len());
}

/// A new move from `start` over the next interval of the alphabet can join
/// the moves so far.
proof fn lemma_push_connection(
    m: Automaton,
    alphabet: Seq<(u32, u32)>,
    sets: Seq<Seq<bool>>,
    before: Seq<Connection>,
    c: Connection,
    k: int,
)
    requires
        contiguous(alphabet),
        construction(m, alphabet, sets, before),
        0 <= k < alphabet.len(),
        c.range == alphabet[k],
        c.start < sets.len(),
        c.end < sets.len(),
        members(sets[c.end as int]) == m.step(members(sets[c.start as int]), alphabet[k].0),
        row(before, alphabet, c.start as int, k),
    ensures
        construction(m, alphabet, sets, before.push(c)),
        row(before.push(c), alphabet, c.start as int, k + 1),
        forall|s: int| s != c.start ==> #[trigger] leaving(before.push(c), s) == leaving(before, s),
{
    let after = before.push(c);
    assert(alphabet[k].0 <= alphabet[k].1);
    assert forall|i: int| 0 <= i < after.len() implies linked(m, sets, #[trigger] after[i])
        && alphabet.contains(after[i].range) by {
        if i < before.len() {
            assert(after[i] == before[i]);
        }
    }
    lemma_leaving_push(before, c, c.start as int);
    assert forall|s: int| s != c.start implies #[trigger] leaving(after, s) == leaving(before, s) by {
        lemma_leaving_push(before, c, s);
    }
}

/// No move leaves a state that is not yet among the sets.
proof fn lemma_no_row_yet(
    m: Automaton,
    alphabet: Seq<(u32, u32)>,
    sets: Seq<Seq<bool>>,
    connections: Seq<Connection>,
    s: int,
)
    requires
        tied(m, alphabet, sets, connections),
        s >= sets.len(),
    ensures
        leaving(connections, s).len() == 0,
{
    if leaving(connections, s).len() > 0 {
        let i = lemma_leaving_from(connections, s, 0);
        assert(linked(m, sets, connections[i]));
    }
}

/// The sets of states that the vectors of flags mark.
pub open spec fn state_sets(sets: Seq<Seq<bool>>) -> Seq<Set<int>> {
    Seq::new(sets.len(), |i: int| members(sets[i]))
}

/// `set` is one of `sets`.
pub open spec fn known(sets: Seq<Set<int>>, set: Set<int>) -> bool {
    exists|j: int| 0 <= j < sets.len() && #[trigger] sets[j] == set
}

/// The place of `set` among `sets`.
pub open spec fn place_of(sets: Seq<Set<int>>, set: Set<int>) -> int {
    choose|j: int| 0 <= j < sets.len() && #[trigger] sets[j] == set
}

/// The move of the set `start` over the interval `k` of the alphabet, to
/// the set `end`.
pub open spec fn move_over(alphabet: Seq<(u32, u32)>, start: int, k: int, end: int) -> Connection {
    Connection { range: alphabet[k], start: start as usize, end: end as usize }
}

/// What the search finds when the set `start` gets its moves from the
/// interval `k` of the alphabet on: the sets and the moves after it.
///
/// The set that follows `start` over an interval is looked up among the
/// sets. A set that is not among them joins them at the end and gets all
/// its moves at once; then the move that leads to it is recorded and the
/// search goes on with the next interval.
pub open spec fn explore(
    m: Automaton,
    alphabet: Seq<(u32, u32)>,
    start: int,
    k: int,
    sets: Seq<Set<int>>,
    connections: Seq<Connection>,
) -> (Seq<Set<int>>, Seq<Connection>)
    decreases subsets_of(m.labels.len()) - sets.len(), alphabet.len() - k,
{
    let bound = subsets_of(m.labels.len());
    if !(0 <= k < alphabet.len()) || !(0 <= start < sets.len()) || sets.len() > bound {
        (sets, connections)
    } else {
        let target = m.step(sets[start], alphabet[k].0);
        if known(sets, target) {
            explore(
                m,
                alphabet,
                start,
                k + 1,
                sets,
                connections.push(move_over(alphabet, start, k, place_of(sets, target))),
            )
        } else if sets.len() < bound {
            let (found, moves) = explore(
                m,
                alphabet,
                sets.len() as int,
                0,
                sets.push(target),
                connections,
            );
            if sets.len() < found.len() <= bound {
                explore(
                    m,
                    alphabet,
                    start,
                    k + 1,
                    found,
                    moves.push(move_over(alphabet, start, k, sets.len() as int)),
                )
            } else {
                (found, moves)
            }
        } else {
            (sets, connections)
        }
    }
}

/// The deterministic automaton of `m` over `alphabet`: the sets of states
/// in which `m` can be, in the order in which the search from the set after
/// no input finds them, and the moves between them.
pub open spec fn determinized(m: Automaton, alphabet: Seq<(u32, u32)>) -> (
    Seq<Set<int>>,
    Seq<Connection>,
) {
    explore(m, alphabet, 0, 0, seq![m.closure(set![m.entry])], Seq::empty())
}

/// Where the set that follows is among the sets at `pos`, the search
/// records the move to `pos` and goes on.
proof fn lemma_explore_known(
    m: Automaton,
    alphabet: Seq<(u32, u32)>,
    start: int,
    k: int,
    flags: Seq<Seq<bool>>,
    connections: Seq<Connection>,
    pos: int,
)
    requires
        0 <= k < alphabet.len(),
        0 <= start < flags.len(),
        distinct_subsets(flags, m.labels.len()),
        0 <= pos < flags.len(),
        members(flags[pos]) == m.step(members(flags[start]), alphabet[k].0),
    ensures
        explore(m, alphabet, start, k, state_sets(flags), connections) == explore(
            m,
            alphabet,
            start,
            k + 1,
            state_sets(flags),
            connections.push(move_over(alphabet, start, k, pos)),
        ),
{
    let sets = state_sets(flags);
    let target = m.step(sets[start], alphabet[k].0);
    lemma_subsets_bound(flags, m.labels.len());
    assert(sets[pos] == target);
    assert(known(sets, target));
    let j = place_of(sets, target);
    if j != pos {
        lemma_members_equal(flags[j], flags[pos]);
    }
}

/// Where the set that follows is not among the sets, it joins them and
/// gets its moves; then the search records the move to it and goes on.
proof fn lemma_explore_new(
    m: Automaton,
    alphabet: Seq<(u32, u32)>,
    start: int,
    k: int,
    flags: Seq<Seq<bool>>,
    connections: Seq<Connection>,
    target: Seq<bool>,
    found: Seq<Seq<bool>>,
    moves: Seq<Connection>,
)
    requires
        0 <= k < alphabet.len(),
        0 <= start < flags.len(),
        distinct_subsets(flags.push(target), m.labels.len()),
        members(target) == m.step(members(flags[start]), alphabet[k].0),
        (state_sets(found), moves) == explore(
            m,
            alphabet,
            flags.len() as int,
            0,
            state_sets(flags.push(target)),
            connections,
        ),
        distinct_subsets(found, m.labels.len()),
        flags.len() < found.len(),
    ensures
        explore(m, alphabet, start, k, state_sets(flags), connections) == explore(
            m,
            alphabet,
            start,
            k + 1,
            state_sets(found),
            moves.push(move_over(alphabet, start, k, flags.len() as int)),
        ),
{
    let sets = state_sets(flags);
    let goal = m.step(sets[start], alphabet[k].0);
    lemma_subsets_bound(flags.push(target), m.labels.len());
    lemma_subsets_bound(found, m.labels.len());
    assert(state_sets(flags.push(target)) =~= sets.push(goal));
    if known(sets, goal) {
        let j = choose|j: int| 0 <= j < sets.len() && #[trigger] sets[j] == goal;
        assert(flags.push(target)[j] == flags[j]);
        assert(flags.push(target)[flags.len() as int] == target);
        lemma_members_equal(flags[j], target);
    }
}

/// Gives the set `start_closure` its moves: one for each interval of the
/// alphabet, to the set in which the automaton is after a code point of
/// that interval. A set that is met for the first time joins `powersets`
/// and gets its moves before the move that leads to it is recorded.
pub fn powerset_construction(
    nfa: &NFA,
    start_closure: usize,
    powersets: &mut Vec<Vec<bool>>,
    connections: &mut Vec<Connection>,
    alphabet: &Vec<(u32, u32)>,
)
    requires
        nfa@.wf(),
        nfa@.over(alphabet@),
        contiguous(alphabet@),
        start_closure < old(powersets)@.len(),
        construction(nfa@, alphabet@, subsets(old(powersets)@), old(connections)@),
        leaving(old(connections)@, start_closure as int).len() == 0,
    ensures
        construction(nfa@, alphabet@, subsets(final(powersets)@), final(connections)@),
        sets_kept(subsets(old(powersets)@), subsets(final(powersets)@)),
        rows_kept(
            old(connections)@,
            final(connections)@,
            old(powersets)@.len() as int,
            start_closure as int,
        ),
        row(final(connections)@, alphabet@, start_closure as int, alphabet@.len() as int),
        rows_done(
            final(connections)@,
            alphabet@,
            old(powersets)@.len() as int,
            final(powersets)@.len() as int,
        ),
        found_in_order(
            final(connections)@,
            old(powersets)@.len() as int,
            final(powersets)@.len() as int,
        ),
        old(connections)@.len() <= final(connections)@.len(),
        forall|i: int|
            0 <= i < old(connections)@.len() ==> old(connections)@[i] == final(connections)@[i],
        (state_sets(subsets(final(powersets)@)), final(connections)@) == explore(
            nfa@,
            alphabet@,
            start_closure as int,
            0,
            state_sets(subsets(old(powersets)@)),
            old(connections)@,
        ),
    decreases subsets_of(nfa.states@.len() as nat) - old(powersets)@.len(),
{
    let ghost m = nfa@;
    let ghost sets0 = subsets(powersets@);
    let ghost conns0 = connections@;
    let ghost count0 = powersets@.len() as int;
    proof {
        lemma_subsets_bound(sets0, m.labels.len());
    }
    let mut k: usize = 0;
    while k < alphabet.len()
        invariant
            k <= alphabet@.len(),
            m == nfa@,
            m.labels.len() == nfa.states@.len(),
            m.wf(),
            m.over(alphabet@),
            contiguous(alphabet@),
            sets0 == subsets(old(powersets)@),
            conns0 == old(connections)@,
            count0 == old(powersets)@.len(),
            start_closure < count0,
            construction(m, alphabet@, subsets(powersets@), connections@),
            sets_kept(sets0, subsets(powersets@)),
            rows_kept(conns0, connections@, count0, start_closure as int),
            row(connections@, alphabet@, start_closure as int, k as int),
            rows_done(connections@, alphabet@, count0, powersets@.len() as int),
            found_in_order(connections@, count0, powersets@.len() as int),
            conns0.len() <= connections@.len(),
            forall|i: int| 0 <= i < conns0.len() ==> conns0[i] == connections@[i],
            explore(
                m,
                alphabet@,
                start_closure as int,
                k as int,
                state_sets(subsets(powersets@)),
                connections@,
            ) == explore(m, alphabet@, start_closure as int, 0, state_sets(sets0), conns0),
        decreases alphabet@.len() - k,
    {
        let ghost sets1 = subsets(powersets@);
        let ghost conns1 = connections@;
        assert(sets1[start_closure as int] == sets0[start_closure as int]);
        assert(sets1[start_closure as int].len() == m.labels.len());
        let transition_closure = successor(nfa, alphabet, &powersets[start_closure], k);
        let ghost target = transition_closure@;
        let pos = match find_subset(powersets, &transition_closure) {
            Some(pos) => {
                assert(sets1[pos as int] == target);
                proof {
                    lemma_explore_known(
                        m,
                        alphabet@,
                        start_closure as int,
                        k as int,
                        sets1,
                        conns1,
                        pos as int,
                    );
                }
                pos
            },
            None => {
                let pos = powersets.len();
                proof {
                    assert forall|j: int| 0 <= j < sets1.len() implies #[trigger] sets1[j]
                        != target by {
                        assert(powersets@[j]@ != target);
                    }
                    assert(reachable(m, members(sets1[start_closure as int])));
                    assert(alphabet@[k as int].0 <= alphabet@[k as int].1);
                    crate::alphabet::lemma_contiguous_partitions(alphabet@);
                    lemma_reachable_step(
                        m,
                        members(sets1[start_closure as int]),
                        alphabet@[k as int].0,
                    );
                    lemma_push_subset(m, alphabet@, sets1, conns1, target);
                    lemma_no_row_yet(m, alphabet@, sets1, conns1, pos as int);
                }
                powersets.push(transition_closure);
                let ghost sets2 = subsets(powersets@);
                assert(sets2 =~= sets1.push(target));
                powerset_construction(nfa, pos, powersets, connections, alphabet);
                proof {
                    let sets3 = subsets(powersets@);
                    let conns3 = connections@;
                    assert(sets3[pos as int] == target);
                    assert forall|s: int| 0 <= s < count0 && s != start_closure implies #[trigger] leaving(
                        conns3,
                        s,
                    ) == leaving(conns0, s) by {
                        assert(leaving(conns3, s) == leaving(conns1, s));
                    }
                    assert(leaving(conns3, start_closure as int) == leaving(
                        conns1,
                        start_closure as int,
                    ));
                    assert forall|s: int| count0 <= s < sets3.len() implies #[trigger] row(
                        conns3,
                        alphabet@,
                        s,
                        alphabet@.len() as int,
                    ) by {
                        if s < pos {
                            assert(leaving(conns3, s) == leaving(conns1, s));
                            assert(row(conns1, alphabet@, s, alphabet@.len() as int));
                        }
                    }
                    assert forall|i: int| 0 <= i < sets0.len() implies #[trigger] sets3[i]
                        == sets0[i] by {
                        assert(sets2[i] == sets1[i]);
                        assert(sets3[i] == sets2[i]);
                    }
                    assert forall|s: int| count0 <= s < pos implies #[trigger] found_from_earlier(
                        conns3,
                        s,
                    ) by {
                        lemma_found_stays(conns1, conns3, s);
                    }
                    lemma_explore_new(
                        m,
                        alphabet@,
                        start_closure as int,
                        k as int,
                        sets1,
                        conns1,
                        target,
                        sets3,
                        conns3,
                    );
                }
                pos
            },
        };
        let ghost fresh = pos >= sets1.len();
        let ghost sets4 = subsets(powersets@);
        let ghost conns4 = connections@;
        let connection = Connection { range: (alphabet[k].0, alphabet[k].1), start: start_closure, end: pos };
        proof {
            assert(sets4[start_closure as int] == sets0[start_closure as int]);
            lemma_push_connection(m, alphabet@, sets4, conns4, connection, k as int);
            let conns5 = conns4.push(connection);
            assert forall|s: int| 0 <= s < count0 && s != start_closure implies #[trigger] leaving(
                conns5,
                s,
            ) == leaving(conns0, s) by {
                assert(leaving(conns5, s) == leaving(conns4, s));
            }
            assert forall|s: int| count0 <= s < sets4.len() implies #[trigger] row(
                conns5,
                alphabet@,
                s,
                alphabet@.len() as int,
            ) by {
                assert(leaving(conns5, s) == leaving(conns4, s));
                assert(row(conns4, alphabet@, s, alphabet@.len() as int));
            }
            assert forall|s: int| count0 <= s < sets4.len() implies #[trigger] found_from_earlier(
                conns5,
                s,
            ) by {
                if fresh && s == pos {
                    assert(conns5[conns4.len() as int] == connection);
                } else {
                    lemma_found_stays(conns4, conns5, s);
                }
            }
        }
        connections.push(connection);
        k += 1;
    }
}

/// The move `i` is the one that the state `s` takes over the code point `c`.
pub open spec fn fires(connections: Seq<Connection>, i: int, s: int, c: u32) -> bool {
    &&& 0 <= i < connections.len()
    &&& connections[i].start == s
    &&& connections[i].range.0 <= c <= connections[i].range.1
}

/// The state that follows `s` over the code point `c`; `s` itself where no
/// move leaves `s` over `c`.
pub open spec fn next_state(connections: Seq<Connection>, s: int, c: u32) -> int {
    if exists|i: int| fires(connections, i, s, c) {
        connections[choose|i: int| fires(connections, i, s, c)].end as int
    } else {
        s
    }
}

/// The state in which the automaton is after the word `w`, from state 0.
pub open spec fn run(connections: Seq<Connection>, w: Seq<u32>) -> int
    decreases w.len(),
{
    if w.len() == 0 {
        0
    } else {
        next_state(connections, run(connections, w.drop_last()), w.last())
    }
}

/// A move over a code point of an interval of the alphabet is a move over
/// the first code point of that interval.
pub proof fn lemma_move_in_interval(
    m: Automaton,
    alphabet: Seq<(u32, u32)>,
    s: Set<int>,
    range: (u32, u32),
    c: u32,
    i: int,
    q: int,
)
    requires
        contiguous(alphabet),
        m.over(alphabet),
        alphabet.contains(range),
        range.0 <= c <= range.1,
    ensures
        m.moves_on(i, s, c, q) <==> m.moves_on(i, s, range.0, q),
{
    let k = choose|k: int| 0 <= k < alphabet.len() && alphabet[k] == range;
    lemma_contiguous_partitions(alphabet);
    if 0 <= i < m.connections.len() {
        match m.connections[i] {
            EpsilonConnection::Connection(r, a, b) => {
                let j = choose|j: int| 0 <= j < alphabet.len() && alphabet[j] == r;
                assert(alphabet[j].0 <= alphabet[j].1);
                assert(alphabet[k].0 <= alphabet[k].1);
                if j != k {
                    assert(alphabet[j].1 < alphabet[k].0 || alphabet[k].1 < alphabet[j].0);
                }
            },
            _ => {},
        }
    }
}

/// In one interval of the alphabet the automaton `m` tells no two code
/// points apart.
pub proof fn lemma_step_in_interval(
    m: Automaton,
    alphabet: Seq<(u32, u32)>,
    s: Set<int>,
    range: (u32, u32),
    c: u32,
)
    requires
        contiguous(alphabet),
        m.over(alphabet),
        alphabet.contains(range),
        range.0 <= c <= range.1,
    ensures
        m.step(s, c) == m.step(s, range.0),
{
    assert forall|q: int| m.moved(s, c).contains(q) implies m.moved(s, range.0).contains(q) by {
        let i = choose|i: int| m.moves_on(i, s, c, q);
        lemma_move_in_interval(m, alphabet, s, range, c, i, q);
        assert(m.moves_on(i, s, range.0, q));
    }
    assert forall|q: int| m.moved(s, range.0).contains(q) implies m.moved(s, c).contains(q) by {
        let i = choose|i: int| m.moves_on(i, s, range.0, q);
        lemma_move_in_interval(m, alphabet, s, range, c, i, q);
        assert(m.moves_on(i, s, c, q));
    }
    assert(m.moved(s, c) =~= m.moved(s, range.0));
}

/// The deterministic automaton follows the automaton with empty moves: the
/// state in which it is after a word stands for the set of states in which
/// the other can be after that word.
pub proof fn lemma_run_tracks(
    m: Automaton,
    alphabet: Seq<(u32, u32)>,
    sets: Seq<Seq<bool>>,
    connections: Seq<Connection>,
    w: Seq<u32>,
)
    requires
        contiguous(alphabet),
        m.over(alphabet),
        tied(m, alphabet, sets, connections),
        rows_done(connections, alphabet, 0, sets.len() as int),
        sets.len() > 0,
        members(sets[0]) == m.closure(set![m.entry]),
        is_word(w),
    ensures
        0 <= run(connections, w) < sets.len(),
        members(sets[run(connections, w)]) == m.reach(w),
    decreases w.len(),
{
    if w.len() > 0 {
        let before = w.drop_last();
        let c = w.last();
        lemma_run_tracks(m, alphabet, sets, connections, before);
        let s = run(connections, before);
        lemma_contiguous_partitions(alphabet);
        assert(covered(alphabet, c));
        let k = choose|k: int| 0 <= k < alphabet.len() && #[trigger] within(alphabet[k], c);
        assert(row(connections, alphabet, s, alphabet.len() as int));
        let i = lemma_leaving_from(connections, s, k);
        assert(fires(connections, i, s, c));
        let f = choose|f: int| fires(connections, f, s, c);
        assert(linked(m, sets, connections[f]));
        lemma_step_in_interval(m, alphabet, members(sets[s]), connections[f].range, c);
    }
}

/// How many of the first `i` moves leave the state `s`.
pub open spec fn rank(connections: Seq<Connection>, s: int, i: int) -> int {
    leaving(connections.take(i), s).len() as int
}

/// The moves that leave `s` are counted in the order in which they are held.
pub proof fn lemma_rank_grows(connections: Seq<Connection>, s: int, i: int, j: int)
    requires
        0 <= i <= j <= connections.len(),
    ensures
        rank(connections, s, i) <= rank(connections, s, j),
        i < j && connections[i].start == s ==> rank(connections, s, i) < rank(connections, s, j),
    decreases j - i,
{
    if i < j {
        lemma_rank_grows(connections, s, i, j - 1);
        assert(connections.take(j).drop_last() =~= connections.take(j - 1));
        if i == j - 1 {
            assert(connections.take(j).last() == connections[i]);
        }
    }
}

/// A move that leaves `s` stands among the moves that leave `s` at the
/// place that its rank gives.
pub proof fn lemma_rank_place(connections: Seq<Connection>, s: int, i: int)
    requires
        0 <= i < connections.len(),
        connections[i].start == s,
    ensures
        0 <= rank(connections, s, i) < leaving(connections, s).len(),
        leaving(connections, s)[rank(connections, s, i)] == connections[i],
    decreases connections.len(),
{
    let shorter = connections.drop_last();
    if i == connections.len() - 1 {
        assert(connections.take(i) =~= shorter);
    } else {
        lemma_rank_place(shorter, s, i);
        assert(shorter.take(i) =~= connections.take(i));
    }
}

/// Every state has moves in `connections`, one for each interval of the
/// alphabet and no other, and every move leads to a state.
pub open spec fn complete(connections: Seq<Connection>, alphabet: Seq<(u32, u32)>, states: int) -> bool {
    &&& rows_done(connections, alphabet, 0, states)
    &&& forall|i: int|
        0 <= i < connections.len() ==> 0 <= (#[trigger] connections[i]).start < states
            && connections[i].end < states
}

/// A complete automaton is total: from each state exactly one move leaves
/// over each interval of the alphabet.
pub proof fn lemma_complete_total(
    connections: Seq<Connection>,
    alphabet: Seq<(u32, u32)>,
    states: int,
    s: int,
    k: int,
) -> (i: int)
    requires
        contiguous(alphabet),
        complete(connections, alphabet, states),
        0 <= s < states,
        0 <= k < alphabet.len(),
    ensures
        0 <= i < connections.len(),
        connections[i].start == s,
        connections[i].range == alphabet[k],
        forall|j: int|
            0 <= j < connections.len() && (#[trigger] connections[j]).start == s
                && connections[j].range == alphabet[k] ==> j == i,
{
    assert(row(connections, alphabet, s, alphabet.len() as int));
    let i = lemma_leaving_from(connections, s, k);
    assert forall|j: int|
        0 <= j < connections.len() && (#[trigger] connections[j]).start == s && connections[j].range
            == alphabet[k] implies j == i by {
        if j != i {
            lemma_complete_deterministic(connections, alphabet, states, i, j);
            assert(alphabet[k].0 <= alphabet[k].1);
        }
    }
    i
}

/// A complete automaton is deterministic: the intervals of two moves that
/// leave one state have no code point in common.
pub proof fn lemma_complete_deterministic(
    connections: Seq<Connection>,
    alphabet: Seq<(u32, u32)>,
    states: int,
    i: int,
    j: int,
)
    requires
        contiguous(alphabet),
        complete(connections, alphabet, states),
        0 <= i < connections.len(),
        0 <= j < connections.len(),
        connections[i].start == connections[j].start,
        i != j,
    ensures
        connections[i].range.1 < connections[j].range.0 || connections[j].range.1
            < connections[i].range.0,
{
    let s = connections[i].start as int;
    assert(row(connections, alphabet, s, alphabet.len() as int));
    lemma_rank_place(connections, s, i);
    lemma_rank_place(connections, s, j);
    if i < j {
        lemma_rank_grows(connections, s, i, j);
    } else {
        lemma_rank_grows(connections, s, j, i);
    }
    lemma_contiguous_partitions(alphabet);
    let x = rank(connections, s, i);
    let y = rank(connections, s, j);
    assert(leaving(connections, s)[x].range == alphabet[x]);
    assert(leaving(connections, s)[y].range == alphabet[y]);
    assert(alphabet[x].1 < alphabet[y].0 || alphabet[y].1 < alphabet[x].0);
}

/// What is built so far is complete once the first set has its moves.
pub proof fn lemma_construction_complete(
    m: Automaton,
    alphabet: Seq<(u32, u32)>,
    sets: Seq<Seq<bool>>,
    connections: Seq<Connection>,
)
    requires
        tied(m, alphabet, sets, connections),
        rows_done(connections, alphabet, 0, sets.len() as int),
    ensures
        complete(connections, alphabet, sets.len() as int),
{
    assert forall|i: int| 0 <= i < connections.len() implies 0 <= (
    #[trigger] connections[i]).start < sets.len() && connections[i].end < sets.len() by {
        assert(linked(m, sets, connections[i]));
    }
}

/// The state that stands for a set of states of `nfa`: it carries the
/// reserved name where the set is empty, and else the one name that states
/// of the set accept, if any does. Two different names are an error.
pub fn accepting_state(nfa: &NFA, set: &Vec<bool>) -> (res: Result<State, LexerError>)
    requires
        set@.len() == nfa.states@.len(),
    ensures
        match res {
            Ok(state) => !nfa@.ambiguous(members(set@)) && nfa@.verdict(
                members(set@),
                state.label(),
            ),
            Err(e) => e == LexerError::AmbiguousAccept && nfa@.ambiguous(members(set@)),
        },
{
    let ghost m = nfa@;
    let ghost s = members(set@);
    if is_empty_flags(set) {
        assert forall|x: Seq<char>| !m.has_label(s, x) by {}
        return Ok(State { accepting: Some("_TRAP".to_owned()) });
    }
    let mut found: Option<String> = None;
    let mut q: usize = 0;
    while q < set.len()
        invariant
            q <= set@.len(),
            m == nfa@,
            s == members(set@),
            set@.len() == nfa.states@.len(),
            match found {
                Some(name) => exists|p: int|
                    0 <= p < q && s.contains(p) && #[trigger] m.labels[p] == Some(name@),
                None => true,
            },
            forall|p: int|
                0 <= p < q && s.contains(p) ==> match #[trigger] m.labels[p] {
                    Some(other) => found is Some && found->0@ == other,
                    None => true,
                },
        decreases set@.len() - q,
    {
        if set[q] {
            assert(s.contains(q as int));
            assert(m.labels[q as int] == nfa.states@[q as int].label());
            match &nfa.states[q].accepting {
                Some(name) => {
                    match &found {
                        Some(first) => {
                            if *first != *name {
                                proof {
                                    let p = choose|p: int|
                                        0 <= p < q && s.contains(p) && #[trigger] m.labels[p]
                                            == Some(first@);
                                    assert(m.has_label(s, first@));
                                    assert(m.has_label(s, name@));
                                }
                                return Err(LexerError::AmbiguousAccept);
                            }
                        },
                        None => {
                            found = Some(name.clone());
                        },
                    }
                },
                None => {},
            }
        }
        q += 1;
    }
    proof {
        assert forall|x: Seq<char>, y: Seq<char>|
            x != y && #[trigger] m.has_label(s, x) && #[trigger] m.has_label(s, y) implies false by {
            let a = choose|a: int|
                s.contains(a) && 0 <= a < m.labels.len() && #[trigger] m.labels[a] == Some(x);
            let b = choose|b: int|
                s.contains(b) && 0 <= b < m.labels.len() && #[trigger] m.labels[b] == Some(y);
            assert(found->0@ == x);
            assert(found->0@ == y);
        }
        if found is Some {
            assert(m.has_label(s, found->0@));
        } else {
            assert forall|x: Seq<char>| !m.has_label(s, x) by {
                if m.has_label(s, x) {
                    let a = choose|a: int|
                        s.contains(a) && 0 <= a < m.labels.len() && #[trigger] m.labels[a] == Some(
                            x,
                        );
                    assert(found is Some);
                }
            }
        }
    }
    Ok(State { accepting: found })
}

/// A deterministic automaton. State 0 is the start.
pub struct DFA {
    pub states: Vec<State>,
    pub connections: Vec<Connection>,
}

impl DFA {
    /// The labels of the states, in order.
    pub open spec fn labels(self) -> Seq<Option<Seq<char>>> {
        Seq::new(self.states@.len(), |i: int| self.states@[i].label())
    }

    /// An automaton without states.
    pub fn new() -> (dfa: DFA)
        ensures
            dfa.states@.len() == 0,
            dfa.connections@.len() == 0,
    {
        DFA { states: Vec::new(), connections: Vec::new() }
    }

    /// Adds `state` and gives its index.
    pub fn add(&mut self, state: State) -> (index: usize)
        ensures
            index == old(self).states@.len(),
            final(self).states@ == old(self).states@.push(state),
            final(self).labels() == old(self).labels().push(state.label()),
            final(self).connections == old(self).connections,
    {
        let l = self.states.len();
        self.states.push(state);
        assert(self.labels() =~= old(self).labels().push(state.label()));
        l
    }

    /// Adds a state that accepts nothing and gives its index.
    pub fn add_empty(&mut self) -> (index: usize)
        ensures
            index == old(self).states@.len(),
            final(self).states@.len() == old(self).states@.len() + 1,
            final(self).labels() == old(self).labels().push(None),
            final(self).connections == old(self).connections,
    {
        self.add(State { accepting: None })
    }

    /// Adds a move from `start` to `end` over `range`.
    pub fn connect_range(&mut self, start: usize, end: usize, range: (u32, u32))
        ensures
            final(self).connections@ == old(self).connections@.push(
                Connection { range, start, end },
            ),
            final(self).states == old(self).states,
    {
        self.connections.push(Connection { range, start, end })
    }
}


/// The moves of a state `t` that lead back to it, one for each of the
/// first `k` intervals of the alphabet.
pub open spec fn loops(alphabet: Seq<(u32, u32)>, t: int, k: nat) -> Seq<Connection> {
    Seq::new(k, |i: int| move_over(alphabet, t, i, t))
}

/// The sets and moves with a trap: where the empty set is not among the
/// sets, it is put behind them, with a move back to it for each interval.
pub open spec fn with_trap(
    sets: Seq<Set<int>>,
    moves: Seq<Connection>,
    alphabet: Seq<(u32, u32)>,
) -> (Seq<Set<int>>, Seq<Connection>) {
    if known(sets, Set::<int>::empty()) {
        (sets, moves)
    } else {
        (sets.push(Set::<int>::empty()), moves + loops(alphabet, sets.len() as int, alphabet.len()))
    }
}

/// The moves of the states before a new state stay what they are when the
/// new state gets moves back to itself, and these are the new state's moves.
pub proof fn lemma_loops_rows(
    connections: Seq<Connection>,
    alphabet: Seq<(u32, u32)>,
    t: int,
    k: nat,
    s: int,
)
    requires
        0 <= t <= usize::MAX,
        leaving(connections, t).len() == 0,
    ensures
        s != t ==> leaving(connections + loops(alphabet, t, k), s) == leaving(connections, s),
        leaving(connections + loops(alphabet, t, k), t) == loops(alphabet, t, k),
    decreases k,
{
    if k == 0 {
        assert(connections + loops(alphabet, t, 0) =~= connections);
        assert(loops(alphabet, t, 0) =~= Seq::<Connection>::empty());
    } else {
        lemma_loops_rows(connections, alphabet, t, (k - 1) as nat, s);
        let c = move_over(alphabet, t, k - 1, t);
        let before = connections + loops(alphabet, t, (k - 1) as nat);
        assert(connections + loops(alphabet, t, k) =~= before.push(c));
        assert(loops(alphabet, t, k) =~= loops(alphabet, t, (k - 1) as nat).push(c));
        lemma_leaving_push(before, c, s);
        lemma_leaving_push(before, c, t);
    }
}

/// The empty set can join the sets as a trap: with moves back to itself
/// the sets and moves stay tied, and every state has its moves.
pub proof fn lemma_trap_added(
    m: Automaton,
    alphabet: Seq<(u32, u32)>,
    sets: Seq<Seq<bool>>,
    connections: Seq<Connection>,
    nothing: Seq<bool>,
)
    requires
        contiguous(alphabet),
        tied(m, alphabet, sets, connections),
        rows_done(connections, alphabet, 0, sets.len() as int),
        sets.len() < usize::MAX,
        nothing.len() == m.labels.len(),
        members(nothing) == Set::<int>::empty(),
        forall|j: int| 0 <= j < sets.len() ==> #[trigger] sets[j] != nothing,
    ensures
        tied(
            m,
            alphabet,
            sets.push(nothing),
            connections + loops(alphabet, sets.len() as int, alphabet.len()),
        ),
        rows_done(
            connections + loops(alphabet, sets.len() as int, alphabet.len()),
            alphabet,
            0,
            sets.len() as int + 1,
        ),
{
    let t = sets.len() as int;
    let more = sets.push(nothing);
    let added = loops(alphabet, t, alphabet.len());
    let all = connections + added;
    lemma_no_row_yet(m, alphabet, sets, connections, t);
    assert forall|i: int| 0 <= i < all.len() implies linked(m, more, #[trigger] all[i])
        && alphabet.contains(all[i].range) by {
        if i < connections.len() {
            assert(all[i] == connections[i]);
            assert(linked(m, sets, connections[i]));
        } else {
            let k = i - connections.len();
            assert(all[i] == move_over(alphabet, t, k, t));
            assert(alphabet[k].0 <= alphabet[k].1);
            crate::language::lemma_step_from_nothing(m, alphabet[k].0);
        }
    }
    assert forall|s: int| 0 <= s < t + 1 implies #[trigger] row(
        all,
        alphabet,
        s,
        alphabet.len() as int,
    ) by {
        lemma_loops_rows(connections, alphabet, t, alphabet.len(), s);
        if s < t {
            assert(row(connections, alphabet, s, alphabet.len() as int));
        }
    }
}

} // verus!
