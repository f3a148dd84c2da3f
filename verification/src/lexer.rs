//! The lexer: the deterministic automaton of a set of rules, with the
//! alphabet over which it moves.
use crate::alphabet::alphabet_for;
use crate::alphabet::break_points;
use crate::alphabet::construct_alphabet;
use crate::alphabet::contiguous;
use crate::alphabet::is_alphabet_of;
use crate::dfa::accepting_state;
use crate::dfa::complete;
use crate::dfa::construction;
use crate::dfa::determinized;
use crate::dfa::found_from_earlier;
use crate::dfa::known;
use crate::dfa::lemma_trap_added;
use crate::dfa::loops;
use crate::dfa::tied;
use crate::dfa::with_trap;
use crate::nfa::State;
use crate::nfa::NFA;
use crate::dfa::state_sets;
use crate::dfa::epsilon_closure;
use crate::dfa::found_in_order;
use crate::dfa::leaving;
use crate::dfa::lemma_construction_complete;
use crate::dfa::lemma_run_tracks;
use crate::dfa::powerset_construction;
use crate::dfa::reachable;
use crate::dfa::row;
use crate::dfa::run;
use crate::dfa::subsets;
use crate::dfa::Connection;
use crate::dfa::DFA;
use crate::error::LexerError;
use crate::flags::members;
use crate::flags::no_states;
use crate::language::is_word;
use crate::language::trap_name;
use crate::language::Automaton;
use crate::nfa::construct_nfa;
use crate::nfa::rules_automaton;
use crate::meaning::rule_matches;
use crate::rules::Rule;
use vstd::prelude::*;

verus! {

/// The first defect among the terminal rules of the first `n` of `rules`.
pub open spec fn rules_defect(rules: Seq<Rule>, n: nat) -> Option<LexerError>
    decreases n,
{
    if n == 0 || n > rules.len() {
        None
    } else {
        match rules_defect(rules, (n - 1) as nat) {
            Some(e) => Some(e),
            None => if !rules[n - 1].is_terminal {
                None
            } else if rules[n - 1].name@ == trap_name() {
                Some(LexerError::ReservedName)
            } else {
                rules[n - 1].element.defect()
            },
        }
    }
}

/// A defect found among the first `n` rules is the one found among the
/// first `k`, for `k` from `n` on.
pub proof fn lemma_rules_defect_stays(rules: Seq<Rule>, n: nat, k: nat)
    requires
        n <= k <= rules.len(),
        rules_defect(rules, n) is Some,
    ensures
        rules_defect(rules, k) == rules_defect(rules, n),
    decreases k,
{
    if n < k {
        lemma_rules_defect_stays(rules, n, (k - 1) as nat);
    }
}

/// Where the first `n` rules have no defect, each terminal rule among them
/// has a valid element and a name that is not the reserved one.
pub proof fn lemma_rules_without_defect(rules: Seq<Rule>, n: nat, i: int)
    requires
        n <= rules.len(),
        rules_defect(rules, n) is None,
        0 <= i < n,
        rules[i].is_terminal,
    ensures
        rules[i].element.valid(),
        rules[i].name@ != trap_name(),
    decreases n,
{
    if i < n - 1 {
        lemma_rules_without_defect(rules, (n - 1) as nat, i);
    }
}

/// The automaton with empty moves that the terminal rules among `rules`
/// stand for, over their alphabet.
pub open spec fn automaton_of(rules: Seq<Rule>) -> Automaton {
    rules_automaton(rules, alphabet_for(break_points(rules)))
}

/// After the word `w` the deterministic automaton is in a state that
/// carries what the automaton `m` accepts after `w`: `m` accepts no two
/// names, and the state's label is the verdict on the states in which `m`
/// can be.
pub open spec fn decides(
    m: Automaton,
    connections: Seq<Connection>,
    labels: Seq<Option<Seq<char>>>,
    w: Seq<u32>,
) -> bool {
    let s = run(connections, w);
    &&& 0 <= s < labels.len()
    &&& !m.ambiguous(m.reach(w))
    &&& m.verdict(m.reach(w), labels[s])
}

/// Each of the first `n` labels is the verdict on the set of states that
/// its state stands for, and none of these sets accepts two names.
pub open spec fn labelled(
    m: Automaton,
    sets: Seq<Seq<bool>>,
    labels: Seq<Option<Seq<char>>>,
    n: int,
) -> bool {
    forall|s: int|
        0 <= s < n ==> !m.ambiguous(members(#[trigger] sets[s])) && m.verdict(
            members(sets[s]),
            labels[s],
        )
}

/// The moves and labels are those of the deterministic automaton of `m`
/// over `alphabet`, with a trap: the moves are the moves that the search
/// finds, and those of the trap where the search did not find it; each
/// state carries the verdict on the set of states for which it stands,
/// none of which accepts two names.
pub open spec fn built(
    m: Automaton,
    alphabet: Seq<(u32, u32)>,
    connections: Seq<Connection>,
    labels: Seq<Option<Seq<char>>>,
) -> bool {
    let found = determinized(m, alphabet);
    let (sets, moves) = with_trap(found.0, found.1, alphabet);
    &&& moves == connections
    &&& sets.len() == labels.len()
    &&& forall|s: int|
        0 <= s < sets.len() ==> !m.ambiguous(#[trigger] sets[s]) && m.verdict(sets[s], labels[s])
}

/// The number of states that the search finds.
pub open spec fn found_states(m: Automaton, alphabet: Seq<(u32, u32)>) -> int {
    determinized(m, alphabet).0.len() as int
}

/// No state but `t` carries the reserved name.
pub open spec fn only_trap(labels: Seq<Option<Seq<char>>>, t: int) -> bool {
    forall|s: int| 0 <= s < labels.len() && s != t ==> #[trigger] labels[s] != Some(trap_name())
}

/// Two terminal rules with different names have elements that match `w`.
pub open spec fn both_match(rules: Seq<Rule>, i: int, j: int, w: Seq<u32>) -> bool {
    &&& 0 <= i < rules.len()
    &&& 0 <= j < rules.len()
    &&& rules[i].is_terminal
    &&& rules[j].is_terminal
    &&& rules[i].name@ != rules[j].name@
    &&& rules[i].element.matches(w)
    &&& rules[j].element.matches(w)
}

/// Two terminal rules with different names match one word.
pub open spec fn clash(rules: Seq<Rule>) -> bool {
    exists|i: int, j: int, w: Seq<u32>| #[trigger] both_match(rules, i, j, w)
}

/// The deterministic automaton is in the state `s` after some word.
pub open spec fn visited(connections: Seq<Connection>, s: int) -> bool {
    exists|w: Seq<u32>| is_word(w) && #[trigger] run(connections, w) == s
}

/// The state `s` accepts for a rule: it carries a name, and not the
/// reserved one.
pub open spec fn accepting(labels: Seq<Option<Seq<char>>>, s: int) -> bool {
    0 <= s < labels.len() && labels[s] is Some && labels[s] != Some(trap_name())
}

/// The deterministic automaton accepts the word `w` for the rule `name`.
pub open spec fn accepts(
    connections: Seq<Connection>,
    labels: Seq<Option<Seq<char>>>,
    w: Seq<u32>,
    name: Seq<char>,
) -> bool {
    let s = run(connections, w);
    0 <= s < labels.len() && labels[s] == Some(name) && name != trap_name()
}

/// The deterministic automaton and the automaton with empty moves accept
/// the same words for the same rules: the first is, after a word, in a
/// state that carries a rule's name exactly if in the second a path from
/// the entry reads the word and ends in a state that accepts for that rule.
/// This holds where no rule bears the reserved name.
pub proof fn lemma_equivalent(
    m: Automaton,
    connections: Seq<Connection>,
    labels: Seq<Option<Seq<char>>>,
    w: Seq<u32>,
    name: Seq<char>,
)
    requires
        decides(m, connections, labels, w),
        forall|q: int| 0 <= q < m.labels.len() ==> #[trigger] m.labels[q] != Some(trap_name()),
    ensures
        accepts(connections, labels, w, name) <==> m.accepts_along(w, name),
        accepts(connections, labels, w, name) <==> m.accepts(w, name),
{
    crate::language::lemma_accepts_along(m, w, name);
    let s = run(connections, w);
    let set = m.reach(w);
    if m.accepts(w, name) {
        let q = choose|q: int|
            set.contains(q) && 0 <= q < m.labels.len() && #[trigger] m.labels[q] == Some(name);
        assert(set.contains(q));
        assert(set != Set::<int>::empty());
        assert(m.has_label(set, name));
        if labels[s] is Some {
            let other = labels[s]->0;
            assert(m.has_label(set, other));
        }
    }
    if accepts(connections, labels, w, name) {
        if set == Set::<int>::empty() {
            assert(labels[s] == Some(trap_name()));
        }
    }
}

/// The state `trap` is the state in which the deterministic automaton is
/// after the words after which the automaton `m` is in no state.
pub open spec fn traps(m: Automaton, connections: Seq<Connection>, trap: usize, w: Seq<u32>) -> bool {
    run(connections, w) == trap <==> m.reach(w) == Set::<int>::empty()
}

/// Every move that leaves the state `t` leads back to it.
pub open spec fn absorbing(connections: Seq<Connection>, t: int) -> bool {
    forall|i: int|
        0 <= i < connections.len() && (#[trigger] connections[i]).start == t ==> connections[i].end
            == t
}

/// A name is not the reserved name.
pub proof fn lemma_name_not_reserved(text: Seq<char>)
    requires
        crate::grammar::is_rule_name(text),
    ensures
        text != trap_name(),
{
    reveal_strlit("_TRAP");
    if text == trap_name() {
        assert(trap_name()[0] == '_');
    }
}

/// A label of the automaton for the first `n` rules is the name of a
/// terminal rule among them.
pub proof fn lemma_labels_are_names(rules: Seq<Rule>, n: nat, q: int) -> (i: int)
    requires
        n <= rules.len(),
        0 <= q < crate::nfa::rules_labels(rules, n).len(),
        crate::nfa::rules_labels(rules, n)[q] is Some,
    ensures
        0 <= i < n,
        rules[i].is_terminal,
        crate::nfa::rules_labels(rules, n)[q] == Some(rules[i].name@),
    decreases n,
{
    let before = crate::nfa::rules_labels(rules, (n - 1) as nat);
    if n == 0 {
        0
    } else if rules[n - 1].is_terminal && q >= before.len() {
        n - 1
    } else {
        lemma_labels_are_names(rules, (n - 1) as nat, q)
    }
}

/// Where no terminal rule bears the reserved name, no state of the rules'
/// automaton accepts for it.
pub proof fn lemma_labels_not_reserved(rules: Seq<Rule>)
    requires
        forall|i: int|
            0 <= i < rules.len() && (#[trigger] rules[i]).is_terminal ==> rules[i].name@
                != trap_name(),
    ensures
        forall|q: int|
            0 <= q < automaton_of(rules).labels.len() ==> #[trigger] automaton_of(rules).labels[q]
                != Some(trap_name()),
{
    let labels = automaton_of(rules).labels;
    assert forall|q: int| 0 <= q < labels.len() implies #[trigger] labels[q] != Some(
        trap_name(),
    ) by {
        if labels[q] is Some {
            let i = lemma_labels_are_names(rules, rules.len(), q);
        }
    }
}

/// Where the terminal rules have names as the grammar reads them, no state
/// of their automaton accepts for the reserved name.
pub proof fn lemma_rule_names_not_reserved(rules: Seq<Rule>)
    requires
        forall|i: int|
            0 <= i < rules.len() && (#[trigger] rules[i]).is_terminal
                ==> crate::grammar::is_rule_name(rules[i].name@),
    ensures
        forall|q: int|
            0 <= q < automaton_of(rules).labels.len() ==> #[trigger] automaton_of(rules).labels[q]
                != Some(trap_name()),
{
    assert forall|i: int| 0 <= i < rules.len() && (#[trigger] rules[i]).is_terminal implies rules[i].name@
        != trap_name() by {
        lemma_name_not_reserved(rules[i].name@);
    }
    lemma_labels_not_reserved(rules);
}

/// Only the trap carries the reserved name, where no rule bears it: a
/// state that carries it is the state in which no rule can match any more.
pub proof fn lemma_one_trap(
    m: Automaton,
    connections: Seq<Connection>,
    labels: Seq<Option<Seq<char>>>,
    trap: usize,
    w: Seq<u32>,
)
    requires
        decides(m, connections, labels, w),
        traps(m, connections, trap, w),
        forall|q: int| 0 <= q < m.labels.len() ==> #[trigger] m.labels[q] != Some(trap_name()),
        labels[run(connections, w)] == Some(trap_name()),
    ensures
        trap == run(connections, w),
{
    let set = m.reach(w);
    if set != Set::<int>::empty() {
        assert(m.has_label(set, trap_name()));
        let q = choose|q: int|
            set.contains(q) && 0 <= q < m.labels.len() && #[trigger] m.labels[q] == Some(
                trap_name(),
            );
        assert(false);
    }
}

/// No state accepts for two rules: after a word that the deterministic
/// automaton follows, the automaton with empty moves accepts for one name
/// at most.
pub proof fn lemma_one_name(
    m: Automaton,
    connections: Seq<Connection>,
    labels: Seq<Option<Seq<char>>>,
    w: Seq<u32>,
    x: Seq<char>,
    y: Seq<char>,
)
    requires
        decides(m, connections, labels, w),
        m.accepts(w, x),
        m.accepts(w, y),
    ensures
        x == y,
        labels[run(connections, w)] == Some(x),
{
    let set = m.reach(w);
    let q = choose|q: int|
        set.contains(q) && 0 <= q < m.labels.len() && #[trigger] m.labels[q] == Some(x);
    assert(set.contains(q));
    assert(set != Set::<int>::empty());
    let s = run(connections, w);
    if labels[s] is Some {
        let other = labels[s]->0;
        assert(m.has_label(set, other));
    }
}

/// The lexer is exact: the deterministic automaton accepts a word for a
/// name exactly where a terminal rule of that name has an element that
/// matches the word.
pub proof fn lemma_exact(
    rules: Seq<Rule>,
    connections: Seq<Connection>,
    labels: Seq<Option<Seq<char>>>,
    w: Seq<u32>,
    name: Seq<char>,
)
    requires
        rules_defect(rules, rules.len()) is None,
        is_alphabet_of(alphabet_for(break_points(rules)), break_points(rules)),
        automaton_of(rules).labels.len() <= usize::MAX,
        decides(automaton_of(rules), connections, labels, w),
    ensures
        accepts(connections, labels, w, name) <==> rule_matches(rules, w, name),
{
    let m = automaton_of(rules);
    let alphabet = alphabet_for(break_points(rules));
    assert forall|j: int| 0 <= j < rules.len() && (#[trigger] rules[j]).is_terminal implies rules[j].element.valid()
        && rules[j].name@ != trap_name() by {
        lemma_rules_without_defect(rules, rules.len(), j);
    }
    lemma_labels_not_reserved(rules);
    lemma_equivalent(m, connections, labels, w, name);
    crate::exact::lemma_rules_covered(rules, alphabet);
    crate::exact::lemma_rules_exact(rules, alphabet, w, name);
}

/// Two rules that clash make the rules' automaton accept one word for two
/// names, and the other way round.
pub proof fn lemma_clash(rules: Seq<Rule>)
    requires
        rules_defect(rules, rules.len()) is None,
        is_alphabet_of(alphabet_for(break_points(rules)), break_points(rules)),
        automaton_of(rules).labels.len() <= usize::MAX,
    ensures
        clash(rules) <==> exists|w: Seq<u32>|
            is_word(w) && automaton_of(rules).ambiguous(#[trigger] automaton_of(rules).reach(w)),
{
    let m = automaton_of(rules);
    let alphabet = alphabet_for(break_points(rules));
    assert forall|j: int| 0 <= j < rules.len() && (#[trigger] rules[j]).is_terminal implies rules[j].element.valid() by {
        lemma_rules_without_defect(rules, rules.len(), j);
    }
    crate::exact::lemma_rules_covered(rules, alphabet);
    if clash(rules) {
        let (i, j, w) = choose|i: int, j: int, w: Seq<u32>| #[trigger] both_match(rules, i, j, w);
        crate::meaning::lemma_matches_word(rules[i].element, w);
        crate::meaning::lemma_rule_accepts(rules, alphabet, i, w);
        crate::meaning::lemma_rule_accepts(rules, alphabet, j, w);
        crate::language::lemma_accepts_along(m, w, rules[i].name@);
        crate::language::lemma_accepts_along(m, w, rules[j].name@);
        assert(m.has_label(m.reach(w), rules[i].name@));
        assert(m.has_label(m.reach(w), rules[j].name@));
        assert(m.ambiguous(m.reach(w)));
    }
    if exists|w: Seq<u32>| is_word(w) && m.ambiguous(#[trigger] m.reach(w)) {
        let w = choose|w: Seq<u32>| is_word(w) && m.ambiguous(#[trigger] m.reach(w));
        let (x, y) = choose|x: Seq<char>, y: Seq<char>|
            x != y && #[trigger] m.has_label(m.reach(w), x) && #[trigger] m.has_label(
                m.reach(w),
                y,
            );
        crate::language::lemma_accepts_along(m, w, x);
        crate::language::lemma_accepts_along(m, w, y);
        let i = crate::exact::lemma_accepted_matches(rules, alphabet, w, x);
        let j = crate::exact::lemma_accepted_matches(rules, alphabet, w, y);
        assert(both_match(rules, i, j, w));
    }
}

/// A lexer: a deterministic automaton over an alphabet, with a trap.
pub struct Lexer {
    dfa: DFA,
    alphabet: Vec<(u32, u32)>,
    trap: usize,
    reserved: String,
}

impl Lexer {
    /// What holds of every lexer: its alphabet is one, its automaton is
    /// complete over it, and its trap is the one state that carries the
    /// reserved name, which no move leaves for another state.
    #[verifier::type_invariant]
    spec fn inv(self) -> bool {
        &&& contiguous(self.alphabet@)
        &&& self.dfa.states@.len() > 0
        &&& complete(self.dfa.connections@, self.alphabet@, self.dfa.states@.len() as int)
        &&& self.trap < self.dfa.states@.len()
        &&& self.dfa.labels()[self.trap as int] == Some(trap_name())
        &&& absorbing(self.dfa.connections@, self.trap as int)
        &&& only_trap(self.dfa.labels(), self.trap as int)
        &&& self.reserved@ == trap_name()
    }

    /// The state in which no rule can match any more.
    pub closed spec fn trap(self) -> usize {
        self.trap
    }

    /// The labels of the automaton's states, in order.
    pub closed spec fn states(self) -> Seq<Option<Seq<char>>> {
        self.dfa.labels()
    }

    /// The automaton's moves, in the order in which they are held.
    pub closed spec fn connections(self) -> Seq<Connection> {
        self.dfa.connections@
    }

    /// The alphabet over which the automaton moves.
    pub closed spec fn alphabet(self) -> Seq<(u32, u32)> {
        self.alphabet@
    }

    /// The lexer is the deterministic automaton of `m` over its alphabet,
    /// with a trap.
    pub open spec fn stands_for(self, m: Automaton) -> bool {
        &&& built(m, self.alphabet(), self.connections(), self.states())
        &&& self.states().len() > 0
        &&& complete(self.connections(), self.alphabet(), self.states().len() as int)
        &&& forall|w: Seq<u32>|
            is_word(w) ==> #[trigger] decides(m, self.connections(), self.states(), w)
        &&& forall|w: Seq<u32>|
            is_word(w) ==> #[trigger] traps(m, self.connections(), self.trap(), w)
        &&& forall|s: int|
            0 <= s < found_states(m, self.alphabet()) ==> #[trigger] visited(self.connections(), s)
        &&& found_in_order(self.connections(), 1, found_states(m, self.alphabet()))
        &&& found_states(m, self.alphabet()) <= self.states().len()
        &&& self.trap() < self.states().len()
        &&& self.states()[self.trap() as int] == Some(trap_name())
        &&& absorbing(self.connections(), self.trap() as int)
        &&& only_trap(self.states(), self.trap() as int)
    }

    /// Builds the lexer for the terminal rules among `rules`.
    ///
    /// A terminal rule with the reserved name or with a defect in its
    /// element gives that as the error. Two terminal rules with different
    /// names that match one word give `AmbiguousAccept`. Else the lexer
    /// accepts a word for a name exactly where a terminal rule of that
    /// name matches the word. Its automaton is the deterministic automaton
    /// of the rules' automaton over the rules' alphabet, with a trap.
    pub fn from_rules(rules: &Vec<Rule>) -> (res: Result<Lexer, LexerError>)
        ensures
            match res {
                Ok(lexer) => {
                    &&& rules_defect(rules@, rules@.len()) is None
                    &&& !clash(rules@)
                    &&& forall|w: Seq<u32>, name: Seq<char>|
                        #![trigger accepts(lexer.connections(), lexer.states(), w, name)]
                        #![trigger rule_matches(rules@, w, name)]
                        is_word(w) ==> (accepts(lexer.connections(), lexer.states(), w, name)
                            <==> rule_matches(rules@, w, name))
                    &&& lexer.alphabet() == alphabet_for(break_points(rules@))
                    &&& is_alphabet_of(lexer.alphabet(), break_points(rules@))
                    &&& contiguous(lexer.alphabet())
                    &&& automaton_of(rules@).labels.len() <= usize::MAX
                    &&& lexer.stands_for(automaton_of(rules@))
                },
                Err(e) => match rules_defect(rules@, rules@.len()) {
                    Some(defect) => e == defect,
                    None => e == LexerError::AmbiguousAccept && clash(rules@),
                },
            },
    {
        let reserved = "_TRAP".to_owned();
        let mut i: usize = 0;
        while i < rules.len()
            invariant
                i <= rules@.len(),
                reserved@ == trap_name(),
                rules_defect(rules@, i as nat) is None,
            decreases rules@.len() - i,
        {
            if rules[i].is_terminal {
                if rules[i].name == reserved {
                    proof {
                        lemma_rules_defect_stays(rules@, (i + 1) as nat, rules@.len());
                    }
                    return Err(LexerError::ReservedName);
                }
                match rules[i].element.check() {
                    Err(e) => {
                        proof {
                            lemma_rules_defect_stays(rules@, (i + 1) as nat, rules@.len());
                        }
                        return Err(e);
                    },
                    Ok(()) => {},
                }
            }
            i += 1;
        }
        let alphabet = construct_alphabet(rules);
        proof {
            assert forall|j: int| 0 <= j < rules@.len() && (#[trigger] rules@[j]).is_terminal implies {
                &&& rules@[j].element.valid()
                &&& rules@[j].name@ != trap_name()
            } by {
                lemma_rules_without_defect(rules@, rules@.len(), j);
            }
            crate::exact::lemma_rules_covered(rules@, alphabet@);
            lemma_labels_not_reserved(rules@);
        }
        let nfa = construct_nfa(rules, &alphabet);
        let ghost m = nfa@;
        let states = nfa.states.len();
        proof {
            assert(m == automaton_of(rules@));
            assert(m.labels.len() == states);
            lemma_clash(rules@);
        }
        match Lexer::determinize(&nfa, alphabet) {
            Ok(lexer) => {
                proof {
                    assert forall|w: Seq<u32>, name: Seq<char>| is_word(w) implies (accepts(
                        lexer.connections(),
                        lexer.states(),
                        w,
                        name,
                    ) <==> rule_matches(rules@, w, name)) by {
                        lemma_exact(rules@, lexer.connections(), lexer.states(), w, name);
                    }
                    if clash(rules@) {
                        let w = choose|w: Seq<u32>| is_word(w) && m.ambiguous(#[trigger] m.reach(w));
                        assert(decides(m, lexer.connections(), lexer.states(), w));
                    }
                }
                Ok(lexer)
            },
            Err(e) => Err(e),
        }
    }

    /// Builds the lexer for the automaton `nfa` over `alphabet`: the sets
    /// of states in which `nfa` can be become the states, and a trap joins
    /// them where the empty set is not among them.
    fn determinize(nfa: &NFA, alphabet: Vec<(u32, u32)>) -> (res: Result<Lexer, LexerError>)
        requires
            nfa@.wf(),
            nfa@.over(alphabet@),
            contiguous(alphabet@),
            nfa@.entry == nfa.entry,
            forall|q: int| 0 <= q < nfa@.labels.len() ==> #[trigger] nfa@.labels[q] != Some(trap_name()),
        ensures
            match res {
                Ok(lexer) => lexer.alphabet() == alphabet@ && lexer.stands_for(nfa@),
                Err(e) => e == LexerError::AmbiguousAccept && exists|w: Seq<u32>|
                    is_word(w) && nfa@.ambiguous(#[trigger] nfa@.reach(w)),
            },
    {
        let ghost m = nfa@;
        let mut closure = no_states(nfa.states.len());
        closure.set(nfa.entry, true);
        assert(members(closure@) =~= set![m.entry]);
        epsilon_closure(nfa, &mut closure);
        let mut powersets: Vec<Vec<bool>> = Vec::new();
        let mut connections: Vec<Connection> = Vec::new();
        powersets.push(closure);
        let ghost first = state_sets(subsets(powersets@));
        proof {
            assert(first =~= seq![m.closure(set![m.entry])]);
            let sets = subsets(powersets@);
            let empty: Seq<u32> = Seq::empty();
            assert(is_word(empty));
            assert(members(sets[0]) == m.reach(empty));
            assert(reachable(m, members(sets[0])));
        }
        powerset_construction(nfa, 0, &mut powersets, &mut connections, &alphabet);
        let ghost sets = subsets(powersets@);
        proof {
            assert(sets[0] == closure@);
            assert forall|s: int| 0 <= s < sets.len() implies #[trigger] row(
                connections@,
                alphabet@,
                s,
                alphabet@.len() as int,
            ) by {}
        }
        let mut dfa = DFA::new();
        let mut j: usize = 0;
        while j < powersets.len()
            invariant
                j <= powersets@.len(),
                m == nfa@,
                sets == subsets(powersets@),
                construction(m, alphabet@, sets, connections@),
                dfa.states@.len() == j,
                dfa.connections@.len() == 0,
                labelled(m, sets, dfa.labels(), j as int),
            decreases powersets@.len() - j,
        {
            assert(sets[j as int] == powersets@[j as int]@);
            assert(sets[j as int].len() == m.labels.len());
            let ghost labels = dfa.labels();
            match accepting_state(nfa, &powersets[j]) {
                Ok(state) => {
                    dfa.add(state);
                    proof {
                        let now = dfa.labels();
                        assert forall|s: int| 0 <= s < j + 1 implies !m.ambiguous(
                            members(#[trigger] sets[s]),
                        ) && m.verdict(members(sets[s]), now[s]) by {
                            if s < j {
                                assert(now[s] == labels[s]);
                            }
                        }
                    }
                },
                Err(e) => {
                    proof {
                        assert(reachable(m, members(sets[j as int])));
                        let w = choose|w: Seq<u32>|
                            is_word(w) && members(sets[j as int]) == #[trigger] m.reach(w);
                        assert(m.ambiguous(m.reach(w)));
                    }
                    return Err(e);
                },
            }
            j += 1;
        }
        let mut k: usize = 0;
        while k < connections.len()
            invariant
                k <= connections@.len(),
                dfa.states@.len() == powersets@.len(),
                dfa.connections@ == connections@.take(k as int),
                labelled(m, sets, dfa.labels(), sets.len() as int),
                sets.len() == powersets@.len(),
            decreases connections@.len() - k,
        {
            let c = connections[k];
            dfa.connect_range(c.start, c.end, c.range);
            k += 1;
            assert(dfa.connections@ =~= connections@.take(k as int));
        }
        assert(dfa.connections@ =~= connections@);
        let nothing = no_states(nfa.states.len());
        let ghost labels0 = dfa.labels();
        let trap = match crate::dfa::find_subset(&powersets, &nothing) {
            Some(t) => t,
            None => {
                let t = dfa.add(State { accepting: Some("_TRAP".to_owned()) });
                let mut a: usize = 0;
                assert(dfa.connections@ =~= connections@ + loops(alphabet@, t as int, 0));
                while a < alphabet.len()
                    invariant
                        a <= alphabet@.len(),
                        t == powersets@.len(),
                        dfa.labels() == labels0.push(Some(trap_name())),
                        dfa.connections@ == connections@ + loops(alphabet@, t as int, a as nat),
                    decreases alphabet@.len() - a,
                {
                    dfa.connect_range(t, t, alphabet[a]);
                    a += 1;
                    assert(dfa.connections@ =~= connections@ + loops(
                        alphabet@,
                        t as int,
                        a as nat,
                    ));
                }
                t
            },
        };
        let total = dfa.states.len();
        let ghost added = trap >= sets.len();
        let ghost all = if added {
            sets.push(nothing@)
        } else {
            sets
        };
        proof {
            let conns = dfa.connections@;
            let labels = dfa.labels();
            if added {
                assert forall|x: int| 0 <= x < sets.len() implies #[trigger] sets[x]
                    != nothing@ by {
                    assert(powersets@[x]@ != nothing@);
                }
                lemma_trap_added(m, alphabet@, sets, connections@, nothing@);
                assert forall|s: int| 0 <= s < all.len() implies !m.ambiguous(
                    members(#[trigger] all[s]),
                ) && m.verdict(members(all[s]), labels[s]) by {
                    if s < sets.len() {
                        assert(all[s] == sets[s]);
                        assert(labels[s] == labels0[s]);
                    } else {
                        assert(members(all[s]) == Set::<int>::empty());
                        assert forall|x: Seq<char>, y: Seq<char>|
                            x != y && #[trigger] m.has_label(members(all[s]), x)
                                && #[trigger] m.has_label(members(all[s]), y) implies false by {}
                    }
                }
            }
            assert(all[trap as int] == nothing@);
            assert(labelled(m, all, labels, all.len() as int));
            assert(tied(m, alphabet@, all, conns));
            lemma_construction_complete(m, alphabet@, all, conns);
            assert(m.verdict(members(all[trap as int]), labels[trap as int]));
            assert forall|i: int|
                0 <= i < conns.len() && (#[trigger] conns[i]).start == trap implies conns[i].end
                == trap by {
                assert(crate::dfa::linked(m, all, conns[i]));
                crate::language::lemma_step_from_nothing(m, conns[i].range.0);
                let e = conns[i].end as int;
                crate::flags::lemma_members_equal(all[e], all[trap as int]);
            }
        }
        let ghost conns = dfa.connections@;
        let ghost labels = dfa.labels();
        proof {
            assert forall|w: Seq<u32>| is_word(w) implies #[trigger] decides(m, conns, labels, w) by {
                lemma_run_tracks(m, alphabet@, all, conns, w);
                let s = run(conns, w);
                assert(!m.ambiguous(members(all[s])));
            }
            assert forall|w: Seq<u32>| is_word(w) implies #[trigger] traps(m, conns, trap, w) by {
                lemma_run_tracks(m, alphabet@, all, conns, w);
                let s = run(conns, w);
                if m.reach(w) == Set::<int>::empty() {
                    crate::flags::lemma_members_equal(all[s], all[trap as int]);
                }
            }
            assert forall|s: int| 0 <= s < sets.len() implies #[trigger] visited(conns, s) by {
                assert(reachable(m, members(sets[s])));
                let w = choose|w: Seq<u32>| is_word(w) && members(sets[s]) == #[trigger] m.reach(w);
                lemma_run_tracks(m, alphabet@, all, conns, w);
                let t = run(conns, w);
                assert(all[s] == sets[s]);
                crate::flags::lemma_members_equal(all[t], all[s]);
            }
            assert forall|s: int| 1 <= s < sets.len() implies #[trigger] found_from_earlier(
                conns,
                s,
            ) by {
                crate::dfa::lemma_found_stays(connections@, conns, s);
            }
            assert forall|s: int| 0 <= s < labels.len() && s != trap implies #[trigger] labels[s]
                != Some(trap_name()) by {
                if labels[s] == Some(trap_name()) {
                    assert(labels.len() == all.len());
                    assert(s < sets.len());
                    assert(visited(conns, s));
                    let w = choose|w: Seq<u32>| is_word(w) && #[trigger] run(conns, w) == s;
                    assert(decides(m, conns, labels, w));
                    assert(traps(m, conns, trap, w));
                    lemma_one_trap(m, conns, labels, trap, w);
                }
            }
            let found = determinized(m, alphabet@);
            assert(found.0 == state_sets(sets));
            assert(found.1 == connections@);
            let with = with_trap(found.0, found.1, alphabet@);
            if added {
                assert(!known(found.0, Set::<int>::empty())) by {
                    if known(found.0, Set::<int>::empty()) {
                        let x = choose|x: int|
                            0 <= x < found.0.len() && #[trigger] found.0[x] == Set::<int>::empty();
                        crate::flags::lemma_members_equal(sets[x], nothing@);
                    }
                }
                assert(with.0 =~= state_sets(all));
            } else {
                assert(found.0[trap as int] == Set::<int>::empty());
                assert(known(found.0, Set::<int>::empty()));
                assert(with.0 =~= state_sets(all));
            }
            assert(with.1 == conns);
            assert forall|s: int| 0 <= s < with.0.len() implies !m.ambiguous(#[trigger] with.0[s])
                && m.verdict(with.0[s], labels[s]) by {
                assert(with.0[s] == members(all[s]));
            }
            assert(built(m, alphabet@, conns, labels));
        }
        let lexer = Lexer { dfa, alphabet, trap, reserved: "_TRAP".to_owned() };
        proof {
            assert(found_states(m, lexer.alphabet()) == sets.len());
            assert(found_in_order(conns, 1, sets.len() as int));
        }
        Ok(lexer)
    }

    /// The labels of the states, in order. State 0 is the start.
    pub fn get_states(&self) -> (states: Vec<Option<&String>>)
        ensures
            states@.len() == self.states().len(),
            forall|i: int|
                0 <= i < states@.len() ==> match #[trigger] states@[i] {
                    Some(name) => self.states()[i] == Some(name@),
                    None => self.states()[i] is None,
                },
    {
        let mut states: Vec<Option<&String>> = Vec::new();
        let mut i: usize = 0;
        while i < self.dfa.states.len()
            invariant
                i <= self.dfa.states@.len(),
                states@.len() == i,
                forall|j: int|
                    0 <= j < i ==> match #[trigger] states@[j] {
                        Some(name) => self.dfa.labels()[j] == Some(name@),
                        None => self.dfa.labels()[j] is None,
                    },
            decreases self.dfa.states@.len() - i,
        {
            match &self.dfa.states[i].accepting {
                Some(name) => states.push(Some(name)),
                None => states.push(None),
            }
            i += 1;
        }
        states
    }

    /// The moves that leave the state `start`, each as the two ends of its
    /// interval and its target: one for each interval of the alphabet, in
    /// the alphabet's order.
    pub fn get_connections(&self, start: usize) -> (moves: Vec<(u32, u32, usize)>)
        ensures
            moves@ == leaving(self.connections(), start as int).map_values(
                |c: Connection| (c.range.0, c.range.1, c.end),
            ),
            start < self.states().len() ==> moves@.len() == self.alphabet().len(),
            forall|k: int|
                0 <= k < moves@.len() ==> {
                    &&& (#[trigger] moves@[k]).0 == self.alphabet()[k].0
                    &&& moves@[k].1 == self.alphabet()[k].1
                    &&& moves@[k].2 < self.states().len()
                },
    {
        proof {
            use_type_invariant(self);
        }
        let ghost project = |c: Connection| (c.range.0, c.range.1, c.end);
        let mut moves: Vec<(u32, u32, usize)> = Vec::new();
        let mut i: usize = 0;
        assert(self.dfa.connections@.take(0) =~= Seq::<Connection>::empty());
        assert(moves@ =~= leaving(self.dfa.connections@.take(0), start as int).map_values(project));
        while i < self.dfa.connections.len()
            invariant
                i <= self.dfa.connections@.len(),
                project == |c: Connection| (c.range.0, c.range.1, c.end),
                moves@ == leaving(self.dfa.connections@.take(i as int), start as int).map_values(
                    project,
                ),
            decreases self.dfa.connections@.len() - i,
        {
            let c = &self.dfa.connections[i];
            proof {
                let before = self.dfa.connections@.take(i as int);
                assert(self.dfa.connections@.take(i + 1) =~= before.push(*c));
                crate::dfa::lemma_leaving_push(before, *c, start as int);
            }
            if c.start == start {
                moves.push((c.range.0, c.range.1, c.end));
            }
            i += 1;
            assert(moves@ =~= leaving(self.dfa.connections@.take(i as int), start as int).map_values(
                project,
            ));
        }
        proof {
            let conns = self.dfa.connections@;
            assert(conns.take(conns.len() as int) =~= conns);
            let row_of = leaving(conns, start as int);
            if start < self.dfa.states@.len() {
                assert(row(conns, self.alphabet@, start as int, self.alphabet@.len() as int));
            }
            assert forall|k: int| 0 <= k < moves@.len() implies {
                &&& (#[trigger] moves@[k]).0 == self.alphabet@[k].0
                &&& moves@[k].1 == self.alphabet@[k].1
                &&& moves@[k].2 < self.dfa.states@.len()
            } by {
                crate::dfa::lemma_leaving_from(conns, start as int, k);
                assert(row(conns, self.alphabet@, start as int, self.alphabet@.len() as int));
                assert(row_of[k].range == self.alphabet@[k]);
            }
        }
        moves
    }

    /// The state in which no rule can match any more: the one state that
    /// carries the reserved name. Every move that leaves it leads back to
    /// it.
    pub fn get_trap(&self) -> (trap: usize)
        ensures
            trap == self.trap(),
            trap < self.states().len(),
            self.states()[trap as int] == Some(trap_name()),
            absorbing(self.connections(), trap as int),
            only_trap(self.states(), trap as int),
    {
        proof {
            use_type_invariant(self);
        }
        self.trap
    }

    /// The automaton's moves, in the order in which they are held. Every
    /// state has one for each interval of the alphabet.
    pub fn transitions(&self) -> (connections: &Vec<Connection>)
        ensures
            connections@ == self.connections(),
            contiguous(self.alphabet()),
            self.states().len() > 0,
            complete(self.connections(), self.alphabet(), self.states().len() as int),
    {
        proof {
            use_type_invariant(self);
        }
        &self.dfa.connections
    }

    /// The name of the rule for which the state `state` accepts, if it
    /// accepts for one. The reserved name is no rule's name.
    pub fn accepted(&self, state: usize) -> (name: Option<&String>)
        ensures
            match name {
                Some(n) => accepting(self.states(), state as int) && self.states()[state as int]
                    == Some(n@),
                None => !accepting(self.states(), state as int),
            },
    {
        proof {
            use_type_invariant(self);
        }
        if state >= self.dfa.states.len() {
            return None;
        }
        match &self.dfa.states[state].accepting {
            Some(name) => {
                if *name == self.reserved {
                    None
                } else {
                    Some(name)
                }
            },
            None => None,
        }
    }

    /// The alphabet over which the automaton moves: the intervals of code
    /// points, in ascending order.
    pub fn get_alphabet(&self) -> (alphabet: &Vec<(u32, u32)>)
        ensures
            alphabet@ == self.alphabet(),
    {
        &self.alphabet
    }
}

} // verus!
