//! What an automaton with empty moves accepts.
use crate::nfa::EpsilonConnection;
use crate::nfa::NFA;
use vstd::prelude::*;

verus! {

/// The moves and labels of an automaton, as values to reason about.
pub struct Automaton {
    /// For each state the name that it accepts.
    pub labels: Seq<Option<Seq<char>>>,
    /// The state in which every run starts.
    pub entry: int,
    pub connections: Seq<EpsilonConnection>,
}

impl View for NFA {
    type V = Automaton;

    open spec fn view(&self) -> Automaton {
        Automaton {
            labels: self.labels(),
            entry: self.entry as int,
            connections: self.connections@,
        }
    }
}

/// The reserved name of the state in which no rule can match any more.
pub open spec fn trap_name() -> Seq<char> {
    "_TRAP"@
}

/// A sequence of code points.
pub open spec fn is_word(w: Seq<u32>) -> bool {
    forall|i: int| 0 <= i < w.len() ==> #[trigger] w[i] <= crate::rules::MAX_CODEPOINT
}

impl Automaton {
    /// Every index that the automaton holds names one of its states.
    pub open spec fn wf(self) -> bool {
        &&& 0 <= self.entry < self.labels.len()
        &&& forall|i: int|
            0 <= i < self.connections.len() ==> (#[trigger] self.connections[i]).source()
                < self.labels.len() && self.connections[i].target() < self.labels.len()
    }

    /// Every move over code points is a move over an interval of `alphabet`.
    pub open spec fn over(self, alphabet: Seq<(u32, u32)>) -> bool {
        forall|i: int|
            0 <= i < self.connections.len() ==> match #[trigger] self.connections[i] {
                EpsilonConnection::Connection(range, _, _) => alphabet.contains(range),
                EpsilonConnection::Epsilon(_, _) => true,
            }
    }

    /// There is an empty move from `a` to `b`.
    pub open spec fn empty_move(self, a: int, b: int) -> bool {
        exists|i: int|
            0 <= i < self.connections.len() && #[trigger] self.connections[i]
                == EpsilonConnection::Epsilon(a as usize, b as usize) && 0 <= a <= usize::MAX && 0
                <= b <= usize::MAX
    }

    /// `b` is reached from `a` by at most `n` empty moves.
    pub open spec fn empty_moves(self, a: int, b: int, n: nat) -> bool
        decreases n,
    {
        if n == 0 {
            a == b
        } else {
            self.empty_moves(a, b, (n - 1) as nat) || exists|m: int|
                self.empty_moves(a, m, (n - 1) as nat) && #[trigger] self.empty_move(m, b)
        }
    }

    /// `b` is reached from `a` by empty moves alone.
    #[verifier::opaque]
    pub open spec fn reaches(self, a: int, b: int) -> bool {
        exists|n: nat| self.empty_moves(a, b, n)
    }

    /// The states reached from a state of `s` by empty moves alone.
    pub open spec fn closure(self, s: Set<int>) -> Set<int> {
        Set::new(|q: int| exists|p: int| s.contains(p) && #[trigger] self.reaches(p, q))
    }

    /// The move `i` leads from a state of `s` to `q` over the code point `c`.
    pub open spec fn moves_on(self, i: int, s: Set<int>, c: u32, q: int) -> bool {
        &&& 0 <= i < self.connections.len()
        &&& match self.connections[i] {
            EpsilonConnection::Connection(range, a, b) => s.contains(a as int) && range.0 <= c
                <= range.1 && b == q,
            EpsilonConnection::Epsilon(_, _) => false,
        }
    }

    /// The states entered from a state of `s` by one move over the code
    /// point `c`.
    pub open spec fn moved(self, s: Set<int>, c: u32) -> Set<int> {
        Set::new(|q: int| exists|i: int| self.moves_on(i, s, c, q))
    }

    /// The states in which the automaton can be after `c`, when it was in
    /// one of `s` before.
    pub open spec fn step(self, s: Set<int>, c: u32) -> Set<int> {
        self.closure(self.moved(s, c))
    }

    /// The states in which the automaton can be after the word `w`, along
    /// any path from the entry.
    pub open spec fn reach(self, w: Seq<u32>) -> Set<int>
        decreases w.len(),
    {
        if w.len() == 0 {
            self.closure(set![self.entry])
        } else {
            self.step(self.reach(w.drop_last()), w.last())
        }
    }

    /// The moves `path`, taken one after the other, lead from `from` to
    /// `to` and read the word `w`: an empty move reads nothing, a move over
    /// an interval reads one code point of that interval.
    pub open spec fn walk(self, path: Seq<int>, from: int, to: int, w: Seq<u32>) -> bool
        decreases path.len(),
    {
        if path.len() == 0 {
            from == to && w.len() == 0
        } else {
            let i = path.last();
            &&& 0 <= i < self.connections.len()
            &&& self.connections[i].target() == to
            &&& match self.connections[i] {
                EpsilonConnection::Epsilon(a, _) => self.walk(path.drop_last(), from, a as int, w),
                EpsilonConnection::Connection(range, a, _) => w.len() > 0 && range.0 <= w.last()
                    <= range.1 && self.walk(path.drop_last(), from, a as int, w.drop_last()),
            }
        }
    }

    /// The automaton accepts the word `w` for the rule `label`: some path
    /// from the entry reads `w` and ends in a state that accepts `label`.
    pub open spec fn accepts_along(self, w: Seq<u32>, label: Seq<char>) -> bool {
        exists|path: Seq<int>, q: int|
            #[trigger] self.walk(path, self.entry, q, w) && 0 <= q < self.labels.len()
                && self.labels[q] == Some(label)
    }

    /// A state of `s` accepts `label`.
    pub open spec fn has_label(self, s: Set<int>, label: Seq<char>) -> bool {
        exists|q: int|
            s.contains(q) && 0 <= q < self.labels.len() && #[trigger] self.labels[q] == Some(label)
    }

    /// The automaton accepts the word `w` for the rule `label`.
    pub open spec fn accepts(self, w: Seq<u32>, label: Seq<char>) -> bool {
        self.has_label(self.reach(w), label)
    }

    /// Two states of `s` accept different names.
    pub open spec fn ambiguous(self, s: Set<int>) -> bool {
        exists|x: Seq<char>, y: Seq<char>|
            x != y && #[trigger] self.has_label(s, x) && #[trigger] self.has_label(s, y)
    }

    /// `label` is what a deterministic state that stands for the set `s`
    /// carries: the reserved name where `s` is empty, else the name that a
    /// state of `s` accepts, or none where no state of `s` accepts a name.
    pub open spec fn verdict(self, s: Set<int>, label: Option<Seq<char>>) -> bool {
        if s == Set::<int>::empty() {
            label == Some(trap_name())
        } else {
            match label {
                Some(name) => self.has_label(s, name),
                None => forall|name: Seq<char>| !self.has_label(s, name),
            }
        }
    }

    /// `s` is closed under empty moves.
    pub open spec fn closed(self, s: Set<int>) -> bool {
        forall|a: int, b: int| s.contains(a) && #[trigger] self.empty_move(a, b) ==> s.contains(b)
    }
}

/// A walk and a walk from where it ends are one walk.
pub proof fn lemma_walk_joins(
    m: Automaton,
    first: Seq<int>,
    second: Seq<int>,
    a: int,
    b: int,
    c: int,
    v: Seq<u32>,
    w: Seq<u32>,
)
    requires
        m.walk(first, a, b, v),
        m.walk(second, b, c, w),
    ensures
        m.walk(first + second, a, c, v + w),
    decreases second.len(),
{
    if second.len() == 0 {
        assert(first + second =~= first);
        assert(v + w =~= v);
    } else {
        let i = second.last();
        assert((first + second).drop_last() =~= first + second.drop_last());
        match m.connections[i] {
            EpsilonConnection::Epsilon(x, _) => {
                lemma_walk_joins(m, first, second.drop_last(), a, b, x as int, v, w);
            },
            EpsilonConnection::Connection(range, x, _) => {
                lemma_walk_joins(m, first, second.drop_last(), a, b, x as int, v, w.drop_last());
                assert((v + w).drop_last() =~= v + w.drop_last());
            },
        }
    }
}

/// What is reached by empty moves is reached by a walk that reads nothing.
pub proof fn lemma_empty_moves_walk(m: Automaton, a: int, b: int, n: nat) -> (path: Seq<int>)
    requires
        m.empty_moves(a, b, n),
    ensures
        m.walk(path, a, b, Seq::<u32>::empty()),
    decreases n,
{
    if n == 0 {
        Seq::empty()
    } else if m.empty_moves(a, b, (n - 1) as nat) {
        lemma_empty_moves_walk(m, a, b, (n - 1) as nat)
    } else {
        let mid = choose|mid: int|
            m.empty_moves(a, mid, (n - 1) as nat) && #[trigger] m.empty_move(mid, b);
        let before = lemma_empty_moves_walk(m, a, mid, (n - 1) as nat);
        let i = choose|i: int|
            0 <= i < m.connections.len() && #[trigger] m.connections[i]
                == EpsilonConnection::Epsilon(mid as usize, b as usize) && 0 <= mid <= usize::MAX
                && 0 <= b <= usize::MAX;
        let path = before.push(i);
        assert(path.drop_last() =~= before);
        path
    }
}

/// A state in which the automaton can be after a word is the end of a walk
/// from the entry that reads the word.
pub proof fn lemma_reach_walk(m: Automaton, w: Seq<u32>, q: int) -> (path: Seq<int>)
    requires
        m.reach(w).contains(q),
    ensures
        m.walk(path, m.entry, q, w),
    decreases w.len(),
{
    reveal(Automaton::reaches);
    let nothing = Seq::<u32>::empty();
    if w.len() == 0 {
        let p = choose|p: int| set![m.entry].contains(p) && #[trigger] m.reaches(p, q);
        let n = choose|n: nat| m.empty_moves(p, q, n);
        assert(w =~= nothing);
        lemma_empty_moves_walk(m, p, q, n)
    } else {
        let before = m.reach(w.drop_last());
        let p = choose|p: int| m.moved(before, w.last()).contains(p) && #[trigger] m.reaches(p, q);
        let n = choose|n: nat| m.empty_moves(p, q, n);
        let i = choose|i: int| m.moves_on(i, before, w.last(), p);
        let a = m.connections[i].source() as int;
        let first = lemma_reach_walk(m, w.drop_last(), a);
        let stepped = first.push(i);
        assert(stepped.drop_last() =~= first);
        assert(m.walk(stepped, m.entry, p, w));
        let rest = lemma_empty_moves_walk(m, p, q, n);
        lemma_walk_joins(m, stepped, rest, m.entry, p, q, w, nothing);
        assert(w + nothing =~= w);
        stepped + rest
    }
}

/// The closure of a set is closed under empty moves.
pub proof fn lemma_closure_closed(m: Automaton, s: Set<int>)
    ensures
        m.closed(m.closure(s)),
{
    assert forall|a: int, b: int|
        m.closure(s).contains(a) && #[trigger] m.empty_move(a, b) implies m.closure(s).contains(
        b,
    ) by {
        lemma_closure_holds_move(m, s, a, b);
    }
}

/// The end of a walk from the entry that reads a word is a state in which
/// the automaton can be after the word.
pub proof fn lemma_walk_reach(m: Automaton, path: Seq<int>, w: Seq<u32>, q: int)
    requires
        m.walk(path, m.entry, q, w),
    ensures
        m.reach(w).contains(q),
    decreases path.len(),
{
    if path.len() == 0 {
        assert(w =~= Seq::<u32>::empty());
        lemma_closure_holds_set(m, set![m.entry]);
        assert(set![m.entry].contains(m.entry));
    } else {
        let i = path.last();
        match m.connections[i] {
            EpsilonConnection::Epsilon(a, b) => {
                lemma_walk_reach(m, path.drop_last(), w, a as int);
                assert(m.empty_move(a as int, b as int));
                if w.len() == 0 {
                    lemma_closure_closed(m, set![m.entry]);
                } else {
                    lemma_closure_closed(m, m.moved(m.reach(w.drop_last()), w.last()));
                }
            },
            EpsilonConnection::Connection(range, a, b) => {
                lemma_walk_reach(m, path.drop_last(), w.drop_last(), a as int);
                let before = m.reach(w.drop_last());
                assert(m.moves_on(i, before, w.last(), q));
                lemma_closure_holds_set(m, m.moved(before, w.last()));
                assert(m.moved(before, w.last()).contains(q));
            },
        }
    }
}

/// To accept a word along a path is to be, after the word, in a state that
/// accepts.
pub proof fn lemma_accepts_along(m: Automaton, w: Seq<u32>, label: Seq<char>)
    ensures
        m.accepts_along(w, label) <==> m.accepts(w, label),
{
    if m.accepts_along(w, label) {
        let (path, q) = choose|path: Seq<int>, q: int|
            #[trigger] m.walk(path, m.entry, q, w) && 0 <= q < m.labels.len() && m.labels[q]
                == Some(label);
        lemma_walk_reach(m, path, w, q);
        assert(m.has_label(m.reach(w), label));
    }
    if m.accepts(w, label) {
        let q = choose|q: int|
            m.reach(w).contains(q) && 0 <= q < m.labels.len() && #[trigger] m.labels[q] == Some(
                label,
            );
        let path = lemma_reach_walk(m, w, q);
        assert(m.walk(path, m.entry, q, w));
    }
}

/// From no state no state is reached.
pub proof fn lemma_step_from_nothing(m: Automaton, c: u32)
    ensures
        m.step(Set::<int>::empty(), c) == Set::<int>::empty(),
{
    assert(m.moved(Set::<int>::empty(), c) =~= Set::<int>::empty());
    assert(m.closure(Set::<int>::empty()) =~= Set::<int>::empty());
}

/// A set that is closed under empty moves holds what is reached from it.
pub proof fn lemma_closed_holds_reached(m: Automaton, s: Set<int>, a: int, b: int, n: nat)
    requires
        m.closed(s),
        s.contains(a),
        m.empty_moves(a, b, n),
    ensures
        s.contains(b),
    decreases n,
{
    if n > 0 {
        if m.empty_moves(a, b, (n - 1) as nat) {
            lemma_closed_holds_reached(m, s, a, b, (n - 1) as nat);
        } else {
            let mid = choose|mid: int|
                m.empty_moves(a, mid, (n - 1) as nat) && #[trigger] m.empty_move(mid, b);
            lemma_closed_holds_reached(m, s, a, mid, (n - 1) as nat);
        }
    }
}

/// Empty moves can be followed one run after the other.
pub proof fn lemma_empty_moves_add(m: Automaton, a: int, b: int, c: int, n: nat, k: nat)
    requires
        m.empty_moves(a, b, n),
        m.empty_moves(b, c, k),
    ensures
        m.empty_moves(a, c, n + k),
    decreases k,
{
    if k == 0 {
    } else {
        if m.empty_moves(b, c, (k - 1) as nat) {
            lemma_empty_moves_add(m, a, b, c, n, (k - 1) as nat);
        } else {
            let mid = choose|mid: int|
                m.empty_moves(b, mid, (k - 1) as nat) && #[trigger] m.empty_move(mid, c);
            lemma_empty_moves_add(m, a, b, mid, n, (k - 1) as nat);
            assert(m.empty_move(mid, c));
        }
    }
}

/// What is reached from what is reached is reached.
pub proof fn lemma_reaches_transitive(m: Automaton, a: int, b: int, c: int)
    requires
        m.reaches(a, b),
        m.reaches(b, c),
    ensures
        m.reaches(a, c),
{
    reveal(Automaton::reaches);
    let n = choose|n: nat| m.empty_moves(a, b, n);
    let k = choose|k: nat| m.empty_moves(b, c, k);
    lemma_empty_moves_add(m, a, b, c, n, k);
}

/// A set holds itself in its closure.
pub proof fn lemma_closure_holds_set(m: Automaton, s: Set<int>)
    ensures
        s.subset_of(m.closure(s)),
{
    reveal(Automaton::reaches);
    assert forall|q: int| s.contains(q) implies m.closure(s).contains(q) by {
        assert(m.empty_moves(q, q, 0));
        assert(m.reaches(q, q));
    }
}

/// One empty move from a state of a closure leads to a state of it.
pub proof fn lemma_closure_holds_move(m: Automaton, s: Set<int>, a: int, b: int)
    requires
        m.closure(s).contains(a),
        m.empty_move(a, b),
    ensures
        m.closure(s).contains(b),
{
    reveal(Automaton::reaches);
    let p = choose|p: int| s.contains(p) && #[trigger] m.reaches(p, a);
    assert(m.empty_moves(a, a, 0));
    assert(m.empty_moves(a, b, 1));
    assert(m.reaches(a, b));
    lemma_reaches_transitive(m, p, a, b);
}

/// The closure of a part of a closure lies in that closure.
pub proof fn lemma_closure_of_part(m: Automaton, s: Set<int>, t: Set<int>)
    requires
        t.subset_of(m.closure(s)),
    ensures
        m.closure(t).subset_of(m.closure(s)),
{
    assert forall|q: int| m.closure(t).contains(q) implies m.closure(s).contains(q) by {
        let r = choose|r: int| t.contains(r) && #[trigger] m.reaches(r, q);
        let p = choose|p: int| s.contains(p) && #[trigger] m.reaches(p, r);
        lemma_reaches_transitive(m, p, r, q);
    }
}

/// A set between `s` and its closure that is closed is the closure.
pub proof fn lemma_closure_is(m: Automaton, s: Set<int>, t: Set<int>)
    requires
        s.subset_of(t),
        m.closed(t),
        t.subset_of(m.closure(s)),
    ensures
        t == m.closure(s),
{
    reveal(Automaton::reaches);
    assert forall|q: int| m.closure(s).contains(q) implies t.contains(q) by {
        let p = choose|p: int| s.contains(p) && #[trigger] m.reaches(p, q);
        let n = choose|n: nat| m.empty_moves(p, q, n);
        lemma_closed_holds_reached(m, t, p, q, n);
    }
    assert(t =~= m.closure(s));
}

} // verus!
