//! What the writers of lexer source need from a lexer: the names of its
//! tokens in order, and the moves of a state gathered by their target.
use crate::dfa::leaving;
use crate::dfa::Connection;
use crate::lexer::Lexer;
use crate::text::to_chars;
use vstd::prelude::*;

verus! {

/// `a` stands before `b` in the order of texts: at the first place where
/// they differ `a` has the smaller character, or `a` ends there and `b`
/// goes on.
pub open spec fn precedes(a: Seq<char>, b: Seq<char>) -> bool
    decreases a.len(),
{
    if b.len() == 0 {
        false
    } else if a.len() == 0 {
        true
    } else if a[0] != b[0] {
        a[0] < b[0]
    } else {
        precedes(a.drop_first(), b.drop_first())
    }
}

/// Of two different texts one stands before the other.
pub proof fn lemma_precedes_total(a: Seq<char>, b: Seq<char>)
    ensures
        precedes(a, b) || precedes(b, a) || a == b,
        !(precedes(a, b) && precedes(b, a)),
        !precedes(a, a),
    decreases a.len(),
{
    lemma_irreflexive(a);
    if a.len() > 0 && b.len() > 0 {
        if a[0] == b[0] {
            lemma_precedes_total(a.drop_first(), b.drop_first());
            if a.drop_first() == b.drop_first() {
                assert(a =~= seq![a[0]] + a.drop_first());
                assert(b =~= seq![b[0]] + b.drop_first());
            }
        }
    } else if a.len() == 0 && b.len() == 0 {
        assert(a =~= b);
    }
}

/// No text stands before itself.
pub proof fn lemma_irreflexive(a: Seq<char>)
    ensures
        !precedes(a, a),
    decreases a.len(),
{
    if a.len() > 0 {
        lemma_irreflexive(a.drop_first());
    }
}

/// The order of texts is transitive.
pub proof fn lemma_precedes_transitive(a: Seq<char>, b: Seq<char>, c: Seq<char>)
    requires
        precedes(a, b),
        precedes(b, c),
    ensures
        precedes(a, c),
    decreases a.len(),
{
    if a.len() > 0 && b.len() > 0 && c.len() > 0 {
        if a[0] == b[0] && b[0] == c[0] {
            lemma_precedes_transitive(a.drop_first(), b.drop_first(), c.drop_first());
        }
    }
}

/// Whether `a` stands before `b` in the order of texts.
pub fn stands_before(a: &Vec<char>, b: &Vec<char>) -> (before: bool)
    ensures
        before == precedes(a@, b@),
{
    let mut i: usize = 0;
    assert(a@.skip(0) =~= a@);
    assert(b@.skip(0) =~= b@);
    while i < a.len() && i < b.len()
        invariant
            i <= a@.len(),
            i <= b@.len(),
            precedes(a@, b@) == precedes(a@.skip(i as int), b@.skip(i as int)),
        decreases a@.len() - i,
    {
        let ghost x = a@.skip(i as int);
        let ghost y = b@.skip(i as int);
        assert(x[0] == a@[i as int] && y[0] == b@[i as int]);
        if a[i] != b[i] {
            return a[i] < b[i];
        }
        assert(x.drop_first() =~= a@.skip(i + 1));
        assert(y.drop_first() =~= b@.skip(i + 1));
        i += 1;
    }
    assert(a@.skip(i as int).len() == a@.len() - i);
    assert(b@.skip(i as int).len() == b@.len() - i);
    i < b.len()
}

/// Whether the text of `a` stands before the characters `b`.
fn name_before(a: &String, b: &Vec<char>) -> (before: bool)
    ensures
        before == precedes(a@, b@),
{
    let chars = to_chars(a.as_str());
    stands_before(&chars, b)
}

/// The texts stand in ascending order, none of them twice.
pub open spec fn names_ascending(names: Seq<Seq<char>>) -> bool {
    forall|i: int, j: int| 0 <= i < j < names.len() ==> precedes(#[trigger] names[i], #[trigger] names[j])
}

/// The texts of the strings.
pub open spec fn texts(names: Seq<String>) -> Seq<Seq<char>> {
    Seq::new(names.len(), |i: int| names[i]@)
}

/// Puts `name` into the ascending list `names`, unless it is there.
pub fn insert_name(names: &mut Vec<String>, name: &String)
    requires
        names_ascending(texts(old(names)@)),
    ensures
        names_ascending(texts(final(names)@)),
        forall|x: Seq<char>|
            #[trigger] texts(final(names)@).contains(x) <==> texts(old(names)@).contains(x) || x
                == name@,
{
    let key = to_chars(name.as_str());
    let ghost before = texts(names@);
    let mut i: usize = 0;
    while i < names.len() && name_before(&names[i], &key)
        invariant
            i <= names@.len(),
            names@ == old(names)@,
            before == texts(names@),
            key@ == name@,
            forall|j: int| 0 <= j < i ==> precedes(#[trigger] before[j], name@),
        decreases names@.len() - i,
    {
        assert(names@[i as int]@ == before[i as int]);
        i += 1;
    }
    if i < names.len() && names[i] == *name {
        assert(before[i as int] == name@);
        assert(before.contains(name@));
        return ;
    }
    proof {
        if i < names@.len() {
            assert(names@[i as int]@ == before[i as int]);
            lemma_precedes_total(before[i as int], name@);
        }
    }
    names.insert(i, name.clone());
    proof {
        let after = texts(names@);
        assert(after[i as int] == name@);
        assert forall|x: Seq<char>| #[trigger] after.contains(x) <==> before.contains(x) || x
            == name@ by {
            if after.contains(x) {
                let k = choose|k: int| 0 <= k < after.len() && after[k] == x;
                if k < i {
                    assert(before[k] == x);
                } else if k > i {
                    assert(before[k - 1] == x);
                }
            }
            if before.contains(x) {
                let k = choose|k: int| 0 <= k < before.len() && before[k] == x;
                if k < i {
                    assert(after[k] == x);
                } else {
                    assert(after[k + 1] == x);
                }
            }
        }
        assert forall|a: int, b: int| 0 <= a < b < after.len() implies precedes(
            #[trigger] after[a],
            #[trigger] after[b],
        ) by {
            if a < i && b == i {
                assert(after[a] == before[a]);
            } else if a == i {
                assert(after[b] == before[b - 1]);
                if b - 1 > i {
                    assert(precedes(before[i as int], before[b - 1]));
                    lemma_precedes_transitive(name@, before[i as int], before[b - 1]);
                }
            } else if a < i && b > i {
                assert(after[a] == before[a] && after[b] == before[b - 1]);
            } else if a < i {
                assert(after[a] == before[a] && after[b] == before[b]);
            } else {
                assert(after[a] == before[a - 1] && after[b] == before[b - 1]);
            }
        }
    }
}

/// The places among `moves` of the moves that lead to `target`, in
/// ascending order.
pub open spec fn places_to(moves: Seq<Connection>, target: usize) -> Seq<usize>
    decreases moves.len(),
{
    if moves.len() == 0 {
        Seq::empty()
    } else {
        let before = places_to(moves.drop_last(), target);
        if moves.last().end == target {
            before.push((moves.len() - 1) as usize)
        } else {
            before
        }
    }
}

/// One of the moves leads to `target`.
pub open spec fn is_target(moves: Seq<Connection>, target: usize) -> bool {
    exists|k: int| 0 <= k < moves.len() && (#[trigger] moves[k]).end == target
}

/// The values are in strictly ascending order.
pub open spec fn targets_ascending(groups: Seq<(usize, Vec<usize>)>) -> bool {
    forall|i: int, j: int| 0 <= i < j < groups.len() ==> (#[trigger] groups[i]).0 < (#[trigger] groups[j]).0
}

/// The moves that lead to `target` have places exactly where one of the
/// moves leads to it.
pub proof fn lemma_places_of_target(moves: Seq<Connection>, target: usize)
    ensures
        places_to(moves, target).len() > 0 <==> is_target(moves, target),
    decreases moves.len(),
{
    if moves.len() > 0 {
        let before = moves.drop_last();
        lemma_places_of_target(before, target);
        if is_target(before, target) {
            let k = choose|k: int| 0 <= k < before.len() && (#[trigger] before[k]).end == target;
            assert(moves[k].end == target);
        }
        if is_target(moves, target) && moves.last().end != target {
            let k = choose|k: int| 0 <= k < moves.len() && (#[trigger] moves[k]).end == target;
            assert(before[k].end == target);
        }
    }
}

impl Lexer {
    /// The names that the states carry, the reserved one among them where
    /// a state carries it: each once, in the order of texts.
    pub fn token_names(&self) -> (names: Vec<String>)
        ensures
            names_ascending(texts(names@)),
            forall|x: Seq<char>|
                #[trigger] texts(names@).contains(x) <==> self.states().contains(Some(x)),
    {
        let states = self.get_states();
        let ghost labels = self.states();
        let mut names: Vec<String> = Vec::new();
        let mut i: usize = 0;
        while i < states.len()
            invariant
                i <= states@.len(),
                labels == self.states(),
                states@.len() == labels.len(),
                forall|k: int|
                    0 <= k < states@.len() ==> match #[trigger] states@[k] {
                        Some(name) => labels[k] == Some(name@),
                        None => labels[k] is None,
                    },
                names_ascending(texts(names@)),
                forall|x: Seq<char>|
                    #[trigger] texts(names@).contains(x) <==> exists|k: int|
                        0 <= k < i && #[trigger] labels[k] == Some(x),
            decreases states@.len() - i,
        {
            let ghost before = texts(names@);
            match states[i] {
                Some(name) => {
                    insert_name(&mut names, name);
                },
                None => {},
            }
            i += 1;
            proof {
                let after = texts(names@);
                assert forall|x: Seq<char>| #[trigger] after.contains(x) <==> exists|k: int|
                    0 <= k < i && #[trigger] labels[k] == Some(x) by {
                    if exists|k: int| 0 <= k < i && #[trigger] labels[k] == Some(x) {
                        let k = choose|k: int| 0 <= k < i && #[trigger] labels[k] == Some(x);
                        if k < i - 1 {
                            assert(before.contains(x));
                        }
                    }
                    if before.contains(x) {
                        let k = choose|k: int| 0 <= k < i - 1 && #[trigger] labels[k] == Some(x);
                        assert(labels[k] == Some(x));
                    }
                    if after.contains(x) && !before.contains(x) {
                        assert(labels[i - 1] == Some(x));
                    }
                }
            }
        }
        proof {
            assert forall|x: Seq<char>| #[trigger] texts(names@).contains(x) <==> labels.contains(
                Some(x),
            ) by {
                if labels.contains(Some(x)) {
                    let k = choose|k: int| 0 <= k < labels.len() && labels[k] == Some(x);
                    assert(labels[k] == Some(x));
                }
            }
        }
        names
    }

    /// The moves that leave the state `start`, gathered by their target:
    /// for each state to which one of them leads, in ascending order, the
    /// places of the moves that lead to it among the moves that leave
    /// `start`, in ascending order. The place of a move is the index of its
    /// interval in the alphabet.
    pub fn get_targets(&self, start: usize) -> (groups: Vec<(usize, Vec<usize>)>)
        ensures
            targets_ascending(groups@),
            forall|i: int|
                0 <= i < groups@.len() ==> is_target(
                    leaving(self.connections(), start as int),
                    (#[trigger] groups@[i]).0,
                ) && groups@[i].1@ == places_to(
                    leaving(self.connections(), start as int),
                    groups@[i].0,
                ),
            forall|t: usize|
                is_target(leaving(self.connections(), start as int), t) ==> exists|i: int|
                    0 <= i < groups@.len() && (#[trigger] groups@[i]).0 == t,
    {
        let moves = self.get_connections(start);
        let count = self.get_states().len();
        let ghost row = leaving(self.connections(), start as int);
        let ghost project = |c: Connection| (c.range.0, c.range.1, c.end);
        let mut groups: Vec<(usize, Vec<usize>)> = Vec::new();
        let mut target: usize = 0;
        while target < count
            invariant
                target <= count,
                moves@ == row.map_values(project),
                project == |c: Connection| (c.range.0, c.range.1, c.end),
                targets_ascending(groups@),
                forall|x: int|
                    0 <= x < groups@.len() ==> (#[trigger] groups@[x]).0 < target && is_target(
                        row,
                        groups@[x].0,
                    ) && groups@[x].1@ == places_to(row, groups@[x].0),
                forall|t: usize|
                    t < target && is_target(row, t) ==> exists|x: int|
                        0 <= x < groups@.len() && (#[trigger] groups@[x]).0 == t,
            decreases count - target,
        {
            let mut places: Vec<usize> = Vec::new();
            let mut k: usize = 0;
            assert(row.take(0) =~= Seq::<Connection>::empty());
            while k < moves.len()
                invariant
                    k <= moves@.len(),
                    moves@ == row.map_values(project),
                    project == |c: Connection| (c.range.0, c.range.1, c.end),
                    places@ == places_to(row.take(k as int), target),
                decreases moves@.len() - k,
            {
                let m = moves[k];
                assert(m == project(row[k as int]));
                assert(row.take(k + 1).drop_last() =~= row.take(k as int));
                if m.2 == target {
                    places.push(k);
                }
                k += 1;
            }
            proof {
                assert(row.take(row.len() as int) =~= row);
                lemma_places_of_target(row, target);
            }
            let ghost before = groups@;
            if places.len() > 0 {
                groups.push((target, places));
                assert(forall|x: int| 0 <= x < before.len() ==> groups@[x] == before[x]);
                assert forall|t: usize| t < target + 1 && is_target(row, t) implies exists|x: int|
                    0 <= x < groups@.len() && (#[trigger] groups@[x]).0 == t by {
                    if t < target {
                        let x = choose|x: int| 0 <= x < before.len() && (#[trigger] before[x]).0 == t;
                        assert(groups@[x].0 == t);
                    } else {
                        assert(groups@[before.len() as int].0 == t);
                    }
                }
            }
            target += 1;
        }
        proof {
            assert forall|t: usize| is_target(row, t) implies exists|x: int|
                0 <= x < groups@.len() && (#[trigger] groups@[x]).0 == t by {
                let k = choose|k: int| 0 <= k < row.len() && (#[trigger] row[k]).end == t;
                assert(moves@[k] == project(row[k]));
                assert(t < count);
            }
        }
        groups
    }
}

} // verus!
