//! The automaton with empty moves that the rules are first turned into.
use crate::alphabet::fits;
use crate::language::Automaton;
use crate::rules::class_contains;
use crate::rules::first_defect;
use crate::rules::Element;
use crate::meaning::rule_matches;
use crate::rules::Rule;
use vstd::prelude::*;

verus! {

/// A state of an automaton, with the name of the rule that it accepts.
#[derive(Debug, PartialEq, Eq)]
pub struct State {
    pub accepting: Option<String>,
}

impl State {
    /// The name that the state accepts, as characters.
    pub open spec fn label(self) -> Option<Seq<char>> {
        match self.accepting {
            Some(name) => Some(name@),
            None => None,
        }
    }
}

/// A move of the automaton: an empty one, or one over an interval of code
/// points.
#[derive(Debug, Clone, Copy, PartialEq, Eq)]
pub enum EpsilonConnection {
    Epsilon(usize, usize),
    Connection((u32, u32), usize, usize),
}

impl EpsilonConnection {
    /// The state that the move leaves.
    pub open spec fn source(self) -> usize {
        match self {
            EpsilonConnection::Epsilon(a, _) => a,
            EpsilonConnection::Connection(_, a, _) => a,
        }
    }

    /// The state that the move enters.
    pub open spec fn target(self) -> usize {
        match self {
            EpsilonConnection::Epsilon(_, b) => b,
            EpsilonConnection::Connection(_, _, b) => b,
        }
    }

    /// The state that the move leaves.
    pub fn get_a(&self) -> (a: usize)
        ensures
            a == self.source(),
    {
        match self {
            EpsilonConnection::Connection(_, a, _) => *a,
            EpsilonConnection::Epsilon(a, _) => *a,
        }
    }
}

/// The empty move from `a` to `b`.
pub open spec fn eps(a: int, b: int) -> EpsilonConnection {
    EpsilonConnection::Epsilon(a as usize, b as usize)
}

/// The move from `a` to `b` over `range`.
pub open spec fn ranged(range: (u32, u32), a: int, b: int) -> EpsilonConnection {
    EpsilonConnection::Connection(range, a as usize, b as usize)
}

/// A nondeterministic automaton: states and moves held by index.
pub struct NFA {
    pub states: Vec<State>,
    pub entry: usize,
    pub connections: Vec<EpsilonConnection>,
}

impl NFA {
    /// The labels of the states, in order.
    pub open spec fn labels(self) -> Seq<Option<Seq<char>>> {
        Seq::new(self.states@.len(), |i: int| self.states@[i].label())
    }

    /// An automaton of one state, its entry, and no move.
    pub fn new() -> (nfa: NFA)
        ensures
            nfa.entry == 0,
            nfa.labels() == seq![None::<Seq<char>>],
            nfa.connections@.len() == 0,
            nfa@.wf(),
            forall|alphabet: Seq<(u32, u32)>| nfa@.over(alphabet),
    {
        let mut states = Vec::new();
        let entry = states.len();
        states.push(State { accepting: None });
        let nfa = NFA { states, entry, connections: Vec::new() };
        assert(nfa.labels() =~= seq![None::<Seq<char>>]);
        nfa
    }

    /// Adds `state` and gives its index.
    pub fn add(&mut self, state: State) -> (index: usize)
        ensures
            index == old(self).states@.len(),
            final(self).states@ == old(self).states@.push(state),
            final(self).labels() == old(self).labels().push(state.label()),
            final(self).entry == old(self).entry,
            final(self).connections == old(self).connections,
    {
        let l = self.states.len();
        self.states.push(state);
        assert(self.labels() =~= old(self).labels().push(state.label()));
        l
    }

    /// Adds a state that accepts nothing and gives its index.
    pub fn add_empty(&mut self) -> (index: usize)
        ensures
            index == old(self).states@.len(),
            final(self).states@.len() == old(self).states@.len() + 1,
            final(self).labels() == old(self).labels().push(None),
            final(self).entry == old(self).entry,
            final(self).connections == old(self).connections,
    {
        self.add(State { accepting: None })
    }

    /// Adds a move from `start` to `end` over `range`.
    pub fn connect_range(&mut self, start: usize, end: usize, range: (u32, u32))
        ensures
            final(self).connections@ == old(self).connections@.push(
                EpsilonConnection::Connection(range, start, end),
            ),
            final(self).states == old(self).states,
            final(self).entry == old(self).entry,
    {
        self.connections.push(EpsilonConnection::Connection(range, start, end))
    }

    /// Adds an empty move from `start` to `end`.
    pub fn connect_epsilon(&mut self, start: usize, end: usize)
        ensures
            final(self).connections@ == old(self).connections@.push(
                EpsilonConnection::Epsilon(start, end),
            ),
            final(self).states == old(self).states,
            final(self).entry == old(self).entry,
    {
        self.connections.push(EpsilonConnection::Epsilon(start, end))
    }
}

/// The number of states in the fragments of the first `n` elements of `subs`.
pub open spec fn sizes(subs: Seq<Element>, n: nat) -> nat
    decreases subs, n,
{
    if n == 0 || n > subs.len() {
        0
    } else {
        sizes(subs, (n - 1) as nat) + subs[n - 1].size()
    }
}

/// The moves of a literal's first `n` characters: a chain from `base` on.
pub open spec fn literal_edges(lit: Seq<char>, base: int, n: nat) -> Seq<EpsilonConnection> {
    Seq::new(n, |i: int| ranged((lit[i] as u32, lit[i] as u32), base + i, base + i + 1))
}

/// The moves of a character class over the first `n` intervals of the
/// alphabet: one from `entry` to `exit` for each interval whose code points
/// the class holds (or, negated, does not hold), in the alphabet's order.
pub open spec fn class_edges(
    alphabet: Seq<(u32, u32)>,
    chars: Seq<char>,
    ranges: Seq<(char, char)>,
    negated: bool,
    entry: int,
    exit: int,
    n: nat,
) -> Seq<EpsilonConnection>
    decreases n,
{
    if n == 0 || n > alphabet.len() {
        Seq::empty()
    } else {
        let before = class_edges(alphabet, chars, ranges, negated, entry, exit, (n - 1) as nat);
        if class_contains(chars, ranges, alphabet[n - 1].0) != negated {
            before.push(ranged(alphabet[n - 1], entry, exit))
        } else {
            before
        }
    }
}

/// The moves of the first `n` branches of an alternation whose own two
/// states are `base` and `base + 1`: each branch's fragment, an empty move
/// into it and an empty move out of it.
pub open spec fn alternatives_edges(
    subs: Seq<Element>,
    alphabet: Seq<(u32, u32)>,
    base: int,
    n: nat,
) -> Seq<EpsilonConnection>
    decreases subs, n,
{
    if n == 0 || n > subs.len() {
        Seq::empty()
    } else {
        let at = base + 2 + sizes(subs, (n - 1) as nat);
        alternatives_edges(subs, alphabet, base, (n - 1) as nat) + subs[n - 1].edges(alphabet, at)
            + seq![eps(base, subs[n - 1].entry(at)), eps(subs[n - 1].exit(at), base + 1)]
    }
}

/// The moves of the first `n` members of a group: each member's fragment,
/// and from the second on an empty move from the member before it.
pub open spec fn group_edges(
    subs: Seq<Element>,
    alphabet: Seq<(u32, u32)>,
    base: int,
    n: nat,
) -> Seq<EpsilonConnection>
    decreases subs, n,
{
    if n == 0 || n > subs.len() {
        Seq::empty()
    } else if n == 1 {
        subs[0].edges(alphabet, base)
    } else {
        let at = base + sizes(subs, (n - 1) as nat);
        let before = base + sizes(subs, (n - 2) as nat);
        group_edges(subs, alphabet, base, (n - 1) as nat) + subs[n - 1].edges(alphabet, at)
            + seq![eps(subs[n - 2].exit(before), subs[n - 1].entry(at))]
    }
}

impl Element {
    /// The number of states in the element's fragment.
    pub open spec fn size(self) -> nat
        decreases self, 0nat,
    {
        match self {
            Element::Rule { .. } => 0,
            Element::CharSet { .. } => 2,
            Element::NegatedSet { .. } => 2,
            Element::Literal { lit } => lit@.len() + 1,
            Element::OneOrMore { inner } => inner.size(),
            Element::ZeroOrMore { inner } => 2 + inner.size(),
            Element::Optional { inner } => 2 + inner.size(),
            Element::Alternatives { subelems } => 2 + sizes(subelems@, subelems@.len()),
            Element::Group { subelems } => sizes(subelems@, subelems@.len()),
        }
    }

    /// The state at which the element's fragment is entered, when its
    /// states are numbered from `base` on.
    pub open spec fn entry(self, base: int) -> int
        decreases self,
    {
        match self {
            Element::OneOrMore { inner } => inner.entry(base),
            Element::Group { subelems } => if subelems@.len() > 0 {
                subelems[0].entry(base)
            } else {
                base
            },
            _ => base,
        }
    }

    /// The state at which the element's fragment is left, when its states
    /// are numbered from `base` on.
    pub open spec fn exit(self, base: int) -> int
        decreases self,
    {
        match self {
            Element::Rule { .. } => base,
            Element::CharSet { .. } => base + 1,
            Element::NegatedSet { .. } => base + 1,
            Element::Literal { lit } => base + lit@.len(),
            Element::OneOrMore { inner } => inner.exit(base),
            Element::ZeroOrMore { .. } => base + 1,
            Element::Optional { .. } => base + 1,
            Element::Alternatives { .. } => base + 1,
            Element::Group { subelems } => if subelems@.len() > 0 {
                subelems[subelems@.len() - 1].exit(
                    base + sizes(subelems@, (subelems@.len() - 1) as nat),
                )
            } else {
                base
            },
        }
    }

    /// The moves of the element's fragment over `alphabet`, in the order in
    /// which they are added, when its states are numbered from `base` on.
    pub open spec fn edges(self, alphabet: Seq<(u32, u32)>, base: int) -> Seq<EpsilonConnection>
        decreases self, 0nat,
    {
        match self {
            Element::Rule { .. } => Seq::empty(),
            Element::CharSet { chars, ranges } => class_edges(
                alphabet,
                chars@,
                ranges@,
                false,
                base,
                base + 1,
                alphabet.len(),
            ),
            Element::NegatedSet { chars, ranges } => class_edges(
                alphabet,
                chars@,
                ranges@,
                true,
                base,
                base + 1,
                alphabet.len(),
            ),
            Element::Literal { lit } => literal_edges(lit@, base, lit@.len()),
            Element::OneOrMore { inner } => inner.edges(alphabet, base).push(
                eps(inner.exit(base), inner.entry(base)),
            ),
            Element::ZeroOrMore { inner } => inner.edges(alphabet, base + 2) + seq![
                eps(base, inner.entry(base + 2)),
                eps(inner.exit(base + 2), base + 1),
                eps(base, base + 1),
                eps(inner.exit(base + 2), inner.entry(base + 2)),
            ],
            Element::Optional { inner } => inner.edges(alphabet, base + 2) + seq![
                eps(base, inner.entry(base + 2)),
                eps(inner.exit(base + 2), base + 1),
                eps(base, base + 1),
            ],
            Element::Alternatives { subelems } => alternatives_edges(
                subelems@,
                alphabet,
                base,
                subelems@.len(),
            ),
            Element::Group { subelems } => group_edges(subelems@, alphabet, base, subelems@.len()),
        }
    }
}

/// `n` states that accept nothing.
pub open spec fn blank(n: nat) -> Seq<Option<Seq<char>>> {
    Seq::new(n, |i: int| None)
}

/// Whether the class written as `chars` and `ranges` holds the code point `c`.
pub fn class_has(chars: &Vec<char>, ranges: &Vec<(char, char)>, c: u32) -> (found: bool)
    ensures
        found == class_contains(chars@, ranges@, c),
{
    let mut i: usize = 0;
    while i < chars.len()
        invariant
            i <= chars.len(),
            forall|j: int| 0 <= j < i ==> #[trigger] chars@[j] as u32 != c,
        decreases chars.len() - i,
    {
        if chars[i] as u32 == c {
            return true;
        }
        i += 1;
    }
    let mut k: usize = 0;
    while k < ranges.len()
        invariant
            k <= ranges.len(),
            forall|j: int| 0 <= j < chars.len() ==> #[trigger] chars@[j] as u32 != c,
            forall|j: int|
                0 <= j < k ==> !((#[trigger] ranges@[j]).0 as u32 <= c <= ranges@[j].1 as u32),
        decreases ranges.len() - k,
    {
        if ranges[k].0 as u32 <= c && c <= ranges[k].1 as u32 {
            return true;
        }
        k += 1;
    }
    false
}

/// Adds the fragment of a character class: two states, and a move between
/// them for each interval of the alphabet that the class selects.
fn connect_class(
    nfa: &mut NFA,
    alphabet: &Vec<(u32, u32)>,
    chars: &Vec<char>,
    ranges: &Vec<(char, char)>,
    negated: bool,
) -> (ends: (usize, usize))
    requires
        old(nfa)@.wf(),
        old(nfa)@.over(alphabet@),
    ensures
        final(nfa)@.wf(),
        final(nfa)@.over(alphabet@),
        final(nfa).entry == old(nfa).entry,
        final(nfa).labels() == old(nfa).labels() + blank(2),
        final(nfa).connections@ == old(nfa).connections@ + class_edges(
            alphabet@,
            chars@,
            ranges@,
            negated,
            old(nfa).states@.len() as int,
            old(nfa).states@.len() as int + 1,
            alphabet@.len(),
        ),
        ends.0 == old(nfa).states@.len(),
        ends.1 == old(nfa).states@.len() + 1,
{
    let ghost labels0 = nfa.labels();
    let ghost conns0 = nfa.connections@;
    let entry = nfa.add_empty();
    let exit = nfa.add_empty();
    assert(nfa.labels() =~= labels0 + blank(2));
    let mut i: usize = 0;
    while i < alphabet.len()
        invariant
            i <= alphabet.len(),
            nfa@.wf(),
            nfa@.over(alphabet@),
            entry < nfa.states@.len(),
            exit < nfa.states@.len(),
            nfa.entry == old(nfa).entry,
            nfa.labels() == labels0 + blank(2),
            nfa.connections@ == conns0 + class_edges(
                alphabet@,
                chars@,
                ranges@,
                negated,
                entry as int,
                exit as int,
                i as nat,
            ),
        decreases alphabet.len() - i,
    {
        let range = alphabet[i];
        if class_has(chars, ranges, range.0) != negated {
            nfa.connect_range(entry, exit, range);
            assert(alphabet@.contains(alphabet@[i as int]));
        }
        i += 1;
        assert(nfa.connections@ =~= conns0 + class_edges(
            alphabet@,
            chars@,
            ranges@,
            negated,
            entry as int,
            exit as int,
            i as nat,
        ));
    }
    (entry, exit)
}

/// Adds the fragment of a literal: a chain of states with one move for each
/// character.
fn connect_literal(nfa: &mut NFA, alphabet: &Vec<(u32, u32)>, lit: &String) -> (ends: (
    usize,
    usize,
))
    requires
        old(nfa)@.wf(),
        old(nfa)@.over(alphabet@),
        forall|i: int|
            0 <= i < lit@.len() ==> alphabet@.contains(
                (#[trigger] lit@[i] as u32, lit@[i] as u32),
            ),
    ensures
        final(nfa)@.wf(),
        final(nfa)@.over(alphabet@),
        final(nfa).entry == old(nfa).entry,
        final(nfa).labels() == old(nfa).labels() + blank(lit@.len() + 1),
        final(nfa).connections@ == old(nfa).connections@ + literal_edges(
            lit@,
            old(nfa).states@.len() as int,
            lit@.len(),
        ),
        ends.0 == old(nfa).states@.len(),
        ends.1 == old(nfa).states@.len() + lit@.len(),
{
    let ghost labels0 = nfa.labels();
    let ghost conns0 = nfa.connections@;
    let start = nfa.add_empty();
    let mut prev = start;
    assert(nfa.labels() =~= labels0 + blank(1));
    assert(nfa.connections@ =~= conns0 + literal_edges(lit@, start as int, 0));
    for c in it: lit.as_str().chars()
        invariant
            it.seq() == lit@,
            nfa@.wf(),
            nfa@.over(alphabet@),
            forall|i: int|
                0 <= i < lit@.len() ==> alphabet@.contains(
                    (#[trigger] lit@[i] as u32, lit@[i] as u32),
                ),
            nfa.entry == old(nfa).entry,
            nfa.labels() == labels0 + blank((it.index() + 1) as nat),
            nfa.connections@ == conns0 + literal_edges(lit@, start as int, it.index() as nat),
            nfa.states@.len() == start + it.index() + 1,
            prev == start + it.index(),
            start == labels0.len(),
    {
        let end = nfa.add_empty();
        assert(alphabet@.contains((lit@[it.index()] as u32, lit@[it.index()] as u32)));
        nfa.connect_range(prev, end, (c as u32, c as u32));
        prev = end;
        assert(nfa.labels() =~= labels0 + blank((it.index() + 2) as nat));
        assert(nfa.connections@ =~= conns0 + literal_edges(
            lit@,
            start as int,
            (it.index() + 1) as nat,
        ));
    }
    (start, prev)
}

/// Where none of `subs` has a defect, no member has one.
pub proof fn lemma_members_valid(subs: Seq<Element>, n: nat, j: int)
    requires
        n <= subs.len(),
        first_defect(subs, n) is None,
        0 <= j < n,
    ensures
        subs[j].valid(),
    decreases n,
{
    if j < n - 1 {
        lemma_members_valid(subs, (n - 1) as nat, j);
    }
}

/// The alphabet has an interval of its own for each code point that the
/// element names.
pub open spec fn covers(alphabet: Seq<(u32, u32)>, element: Element) -> bool {
    forall|p: u32| element.mentions(p) ==> #[trigger] alphabet.contains((p, p))
}

/// Adds the states and moves of the fragment of `element` to `nfa`, part by
/// part, and gives the states at which the fragment is entered and left.
fn build_fragment(nfa: &mut NFA, alphabet: &Vec<(u32, u32)>, element: &Element) -> (ends: (
    usize,
    usize,
))
    requires
        element.valid(),
        covers(alphabet@, *element),
        old(nfa)@.wf(),
        old(nfa)@.over(alphabet@),
    ensures
        final(nfa)@.wf(),
        final(nfa)@.over(alphabet@),
        ends.0 < final(nfa).states@.len(),
        ends.1 < final(nfa).states@.len(),
        final(nfa).entry == old(nfa).entry,
        final(nfa).labels() == old(nfa).labels() + blank(element.size()),
        final(nfa).connections@ == old(nfa).connections@ + element.edges(
            alphabet@,
            old(nfa).states@.len() as int,
        ),
        ends.0 == element.entry(old(nfa).states@.len() as int),
        ends.1 == element.exit(old(nfa).states@.len() as int),
    decreases element,
{
    let ghost labels0 = nfa.labels();
    let ghost conns0 = nfa.connections@;
    let ghost base = nfa.states@.len() as int;
    match element {
        Element::Group { subelems } => {
            proof {
                lemma_members_valid(subelems@, subelems@.len(), 0);
            }
            let (entry, mut o) = build_fragment(nfa, alphabet, &subelems[0]);
            let mut i: usize = 1;
            assert(sizes(subelems@, 0) == 0);
            assert(nfa.labels().len() == nfa.states@.len());
            while i < subelems.len()
                invariant
                    1 <= i <= subelems.len(),
                    nfa@.wf(),
                    nfa@.over(alphabet@),
                    covers(alphabet@, *element),
                    entry < nfa.states@.len(),
                    o < nfa.states@.len(),
                    element is Group,
                    element->Group_subelems == *subelems,
                    first_defect(subelems@, subelems@.len()) is None,
                    nfa.entry == old(nfa).entry,
                    nfa.labels() == labels0 + blank(sizes(subelems@, i as nat)),
                    nfa.states@.len() == base + sizes(subelems@, i as nat),
                    nfa.connections@ == conns0 + group_edges(
                        subelems@,
                        alphabet@,
                        base,
                        i as nat,
                    ),
                    entry == subelems[0].entry(base),
                    o == subelems[i - 1].exit(base + sizes(subelems@, (i - 1) as nat)),
                decreases subelems.len() - i,
            {
                proof {
                    lemma_members_valid(subelems@, subelems@.len(), i as int);
                    assert(decreases_to!(*subelems => subelems[i as int]));
                }
                let (s, e) = build_fragment(nfa, alphabet, &subelems[i]);
                nfa.connect_epsilon(o, s);
                o = e;
                i += 1;
                assert(nfa.labels() =~= labels0 + blank(sizes(subelems@, i as nat)));
                assert(nfa.connections@ =~= conns0 + group_edges(
                    subelems@,
                    alphabet@,
                    base,
                    i as nat,
                ));
            }
            (entry, o)
        },
        Element::CharSet { chars, ranges } => connect_class(nfa, alphabet, chars, ranges, false),
        Element::Alternatives { subelems } => {
            let entry = nfa.add_empty();
            let exit = nfa.add_empty();
            assert(nfa.labels() =~= labels0 + blank(2));
            assert(nfa.connections@ =~= conns0 + alternatives_edges(
                subelems@,
                alphabet@,
                base,
                0,
            ));
            let mut i: usize = 0;
            while i < subelems.len()
                invariant
                    i <= subelems.len(),
                    nfa@.wf(),
                    nfa@.over(alphabet@),
                    covers(alphabet@, *element),
                    element is Alternatives,
                    element->Alternatives_subelems == *subelems,
                    first_defect(subelems@, subelems@.len()) is None,
                    nfa.entry == old(nfa).entry,
                    nfa.labels() == labels0 + blank(2 + sizes(subelems@, i as nat)),
                    nfa.states@.len() == base + 2 + sizes(subelems@, i as nat),
                    nfa.connections@ == conns0 + alternatives_edges(
                        subelems@,
                        alphabet@,
                        base,
                        i as nat,
                    ),
                    entry == base,
                    exit == base + 1,
                decreases subelems.len() - i,
            {
                proof {
                    lemma_members_valid(subelems@, subelems@.len(), i as int);
                    assert(decreases_to!(*subelems => subelems[i as int]));
                }
                let (elem_start, elem_end) = build_fragment(nfa, alphabet, &subelems[i]);
                nfa.connect_epsilon(entry, elem_start);
                nfa.connect_epsilon(elem_end, exit);
                i += 1;
                assert(nfa.labels() =~= labels0 + blank(2 + sizes(subelems@, i as nat)));
                assert(nfa.connections@ =~= conns0 + alternatives_edges(
                    subelems@,
                    alphabet@,
                    base,
                    i as nat,
                ));
            }
            (entry, exit)
        },
        Element::OneOrMore { inner } => {
            let (entry, exit) = build_fragment(nfa, alphabet, inner);
            nfa.connect_epsilon(exit, entry);
            assert(nfa.connections@ =~= conns0 + element.edges(alphabet@, base));
            (entry, exit)
        },
        Element::ZeroOrMore { inner } => {
            let entry = nfa.add_empty();
            let exit = nfa.add_empty();
            let (inner_entry, inner_exit) = build_fragment(nfa, alphabet, inner);
            nfa.connect_epsilon(entry, inner_entry);
            nfa.connect_epsilon(inner_exit, exit);
            nfa.connect_epsilon(entry, exit);
            nfa.connect_epsilon(inner_exit, inner_entry);
            assert(nfa.labels() =~= labels0 + blank(element.size()));
            assert(nfa.connections@ =~= conns0 + element.edges(alphabet@, base));
            (entry, exit)
        },
        Element::Rule { .. } => {
            (nfa.entry, nfa.entry)
        },
        Element::NegatedSet { chars, ranges } => connect_class(nfa, alphabet, chars, ranges, true),
        Element::Literal { lit } => connect_literal(nfa, alphabet, lit),
        Element::Optional { inner } => {
            let entry = nfa.add_empty();
            let exit = nfa.add_empty();
            let (inner_entry, inner_exit) = build_fragment(nfa, alphabet, inner);
            nfa.connect_epsilon(entry, inner_entry);
            nfa.connect_epsilon(inner_exit, exit);
            nfa.connect_epsilon(entry, exit);
            assert(nfa.labels() =~= labels0 + blank(element.size()));
            assert(nfa.connections@ =~= conns0 + element.edges(alphabet@, base));
            (entry, exit)
        },
    }
}

/// The code points that the element names.
pub open spec fn named(element: Element) -> Set<u32> {
    Set::new(|p: u32| element.mentions(p))
}

/// The alphabet tells apart what the element tells apart: each of its
/// intervals is a code point that the element names, or holds none.
pub open spec fn suits(alphabet: Seq<(u32, u32)>, element: Element) -> bool {
    fits(alphabet, named(element))
}

/// The moves of the fragment of `element`, as an automaton of their own.
pub open spec fn fragment(element: Element, alphabet: Seq<(u32, u32)>, base: int) -> Automaton {
    Automaton {
        labels: blank(element.size()),
        entry: element.entry(base),
        connections: element.edges(alphabet, base),
    }
}

/// The moves of the fragment of `element` read the word `w` on a way from
/// the fragment's entry to its exit.
pub open spec fn fragment_reads(
    element: Element,
    alphabet: Seq<(u32, u32)>,
    base: int,
    w: Seq<u32>,
) -> bool {
    exists|path: Seq<int>|
        #[trigger] fragment(element, alphabet, base).walk(
            path,
            element.entry(base),
            element.exit(base),
            w,
        )
}

/// Adds the fragment of `element` to `nfa` and gives the states at which
/// the fragment is entered and left.
///
/// The new moves read, from the entry to the exit, exactly the words that
/// the element matches. The fragment's states accept nothing. What is in
/// `nfa` before stays as it is.
pub fn connect_element(nfa: &mut NFA, alphabet: &Vec<(u32, u32)>, element: &Element) -> (ends: (
    usize,
    usize,
))
    requires
        element.valid(),
        suits(alphabet@, *element),
        old(nfa)@.wf(),
        old(nfa)@.over(alphabet@),
    ensures
        final(nfa)@.wf(),
        final(nfa)@.over(alphabet@),
        ends.0 < final(nfa).states@.len(),
        ends.1 < final(nfa).states@.len(),
        final(nfa).entry == old(nfa).entry,
        final(nfa).labels() == old(nfa).labels() + blank(element.size()),
        final(nfa).connections@ == old(nfa).connections@ + element.edges(
            alphabet@,
            old(nfa).states@.len() as int,
        ),
        ends.0 == element.entry(old(nfa).states@.len() as int),
        ends.1 == element.exit(old(nfa).states@.len() as int),
        forall|w: Seq<u32>|
            #![trigger fragment_reads(*element, alphabet@, old(nfa).states@.len() as int, w)]
            #![trigger element.matches(w)]
            fragment_reads(*element, alphabet@, old(nfa).states@.len() as int, w)
                <==> element.matches(w),
{
    let ghost base = nfa.states@.len() as int;
    proof {
        crate::exact::lemma_suits_covers(alphabet@, *element);
    }
    let ghost before = nfa.labels();
    let ends = build_fragment(nfa, alphabet, element);
    let states = nfa.states.len();
    proof {
        assert(nfa.labels().len() == states);
        assert(before.len() == base);
        assert((before + blank(element.size())).len() == base + element.size());
        assert forall|w: Seq<u32>|
            fragment_reads(*element, alphabet@, base, w) <==> element.matches(w) by {
            crate::exact::lemma_fragment_exact(*element, alphabet@, base, w);
        }
    }
    ends
}

/// The labels of the automaton for the first `n` of `rules`: the entry,
/// and for each terminal rule its accepting state and the states of its
/// fragment.
pub open spec fn rules_labels(rules: Seq<Rule>, n: nat) -> Seq<Option<Seq<char>>>
    decreases n,
{
    if n == 0 || n > rules.len() {
        seq![None]
    } else {
        let before = rules_labels(rules, (n - 1) as nat);
        if rules[n - 1].is_terminal {
            before.push(Some(rules[n - 1].name@)) + blank(rules[n - 1].element.size())
        } else {
            before
        }
    }
}

/// The moves of the automaton for the first `n` of `rules`: for each
/// terminal rule its fragment, an empty move from the entry into the
/// fragment and one from the fragment to the rule's accepting state.
pub open spec fn rules_edges(rules: Seq<Rule>, alphabet: Seq<(u32, u32)>, n: nat) -> Seq<
    EpsilonConnection,
>
    decreases n,
{
    if n == 0 || n > rules.len() {
        Seq::empty()
    } else {
        let before = rules_edges(rules, alphabet, (n - 1) as nat);
        if rules[n - 1].is_terminal {
            let accept = rules_labels(rules, (n - 1) as nat).len() as int;
            let element = rules[n - 1].element;
            before + element.edges(alphabet, accept + 1) + seq![
                eps(0, element.entry(accept + 1)),
                eps(element.exit(accept + 1), accept),
            ]
        } else {
            before
        }
    }
}

/// The automaton with empty moves for the terminal rules among `rules`.
pub open spec fn rules_automaton(rules: Seq<Rule>, alphabet: Seq<(u32, u32)>) -> Automaton {
    Automaton {
        labels: rules_labels(rules, rules.len()),
        entry: 0,
        connections: rules_edges(rules, alphabet, rules.len()),
    }
}

/// Every terminal rule among `rules` has an element without defect.
pub open spec fn rules_valid(rules: Seq<Rule>) -> bool {
    forall|i: int| 0 <= i < rules.len() && (#[trigger] rules[i]).is_terminal ==> rules[i].element.valid()
}

/// The alphabet has an interval of its own for each code point that a
/// terminal rule names.
pub open spec fn rules_covered(alphabet: Seq<(u32, u32)>, rules: Seq<Rule>) -> bool {
    forall|i: int|
        0 <= i < rules.len() && (#[trigger] rules[i]).is_terminal ==> suits(
            alphabet,
            rules[i].element,
        )
}

/// Builds the automaton with empty moves for the terminal rules among
/// `rules`.
///
/// The automaton accepts a word for a name exactly where a terminal rule of
/// that name has an element that matches the word.
pub fn construct_nfa(rules: &Vec<Rule>, alphabet: &Vec<(u32, u32)>) -> (nfa: NFA)
    requires
        rules_valid(rules@),
        rules_covered(alphabet@, rules@),
    ensures
        forall|w: Seq<u32>, name: Seq<char>|
            #![trigger nfa@.accepts(w, name)]
            #![trigger rule_matches(rules@, w, name)]
            nfa@.accepts(w, name) <==> rule_matches(rules@, w, name),
        nfa@ == rules_automaton(rules@, alphabet@),
        nfa@.wf(),
        nfa@.over(alphabet@),
{
    let mut nfa = NFA::new();
    let mut i: usize = 0;
    assert(nfa.connections@ =~= rules_edges(rules@, alphabet@, 0));
    while i < rules.len()
        invariant
            i <= rules.len(),
            rules_valid(rules@),
            rules_covered(alphabet@, rules@),
            nfa@.wf(),
            nfa@.over(alphabet@),
            nfa.entry == 0,
            nfa.labels() == rules_labels(rules@, i as nat),
            nfa.connections@ == rules_edges(rules@, alphabet@, i as nat),
        decreases rules.len() - i,
    {
        let rule = &rules[i];
        if rule.is_terminal {
            let exit = nfa.add(State { accepting: Some(rule.name.clone()) });
            let (elem_entry, elem_exit) = connect_element(&mut nfa, alphabet, &rule.element);
            nfa.connect_epsilon(nfa.entry, elem_entry);
            nfa.connect_epsilon(elem_exit, exit);
            assert(nfa.connections@ =~= rules_edges(rules@, alphabet@, (i + 1) as nat));
        }
        i += 1;
    }
    let states = nfa.states.len();
    proof {
        assert(nfa.labels().len() == states);
        assert forall|w: Seq<u32>, name: Seq<char>|
            nfa@.accepts(w, name) <==> rule_matches(rules@, w, name) by {
            crate::exact::lemma_rules_exact(rules@, alphabet@, w, name);
        }
    }
    nfa
}

} // verus!
