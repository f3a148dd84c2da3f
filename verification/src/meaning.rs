//! What an element matches, and that its fragment reads what it matches.
//!
//! What is shown here is that a fragment reads no less than its element
//! matches: no match is missed. That it reads no more is shown apart.
use crate::alphabet::fits;
use crate::alphabet::is_gap;
use crate::alphabet::is_point;
use crate::alphabet::lemma_contiguous_partitions;
use crate::alphabet::within;
use crate::language::is_word;
use crate::language::lemma_walk_joins;
use crate::language::Automaton;
use crate::nfa::alternatives_edges;
use crate::nfa::class_edges;
use crate::nfa::eps;
use crate::nfa::group_edges;
use crate::nfa::literal_edges;
use crate::nfa::ranged;
use crate::nfa::rules_automaton;
use crate::nfa::rules_covered;
use crate::nfa::rules_edges;
use crate::nfa::rules_labels;
use crate::nfa::rules_valid;
use crate::rules::Rule;
use crate::nfa::sizes;
use crate::nfa::EpsilonConnection;
use crate::rules::class_contains;
use crate::rules::class_mentions;
use crate::rules::first_defect;
use crate::rules::Element;
use crate::rules::MAX_CODEPOINT;
use vstd::prelude::*;

verus! {

/// The code points of a text.
pub open spec fn codes(text: Seq<char>) -> Seq<u32> {
    Seq::new(text.len(), |i: int| text[i] as u32)
}

/// The word `w` is one word or several words, one after the other, each
/// of which `e` matches.
pub open spec fn repeats(e: Element, w: Seq<u32>) -> bool
    decreases e, w.len() + 1,
{
    e.matches(w) || exists|k: int|
        0 < k < w.len() && e.matches(#[trigger] w.take(k)) && repeats(e, w.skip(k))
}

/// The word `w` is `n` words, one after the other, which the first `n`
/// elements of `subs` match in their order.
pub open spec fn all_match(subs: Seq<Element>, w: Seq<u32>, n: nat) -> bool
    decreases subs, n,
{
    if n == 0 || n > subs.len() {
        w.len() == 0
    } else {
        exists|k: int|
            0 <= k <= w.len() && all_match(subs, #[trigger] w.take(k), (n - 1) as nat) && subs[n
                - 1].matches(w.skip(k))
    }
}

impl Element {
    /// Whether the element matches the word `w`.
    pub open spec fn matches(self, w: Seq<u32>) -> bool
        decreases self, 0nat,
    {
        match self {
            Element::Rule { .. } => false,
            Element::CharSet { chars, ranges } => w.len() == 1 && class_contains(
                chars@,
                ranges@,
                w[0],
            ),
            Element::NegatedSet { chars, ranges } => w.len() == 1 && w[0] <= MAX_CODEPOINT
                && !class_contains(chars@, ranges@, w[0]),
            Element::Literal { lit } => w == codes(lit@),
            Element::OneOrMore { inner } => repeats(*inner, w),
            Element::ZeroOrMore { inner } => w.len() == 0 || repeats(*inner, w),
            Element::Optional { inner } => w.len() == 0 || inner.matches(w),
            Element::Alternatives { subelems } => exists|i: int|
                0 <= i < subelems.len() && (#[trigger] subelems[i]).matches(w),
            Element::Group { subelems } => all_match(subelems@, w, subelems@.len()),
        }
    }
}

/// The automaton holds the move `c`.
pub open spec fn holds_move(m: Automaton, c: EpsilonConnection) -> bool {
    exists|i: int| 0 <= i < m.connections.len() && #[trigger] m.connections[i] == c
}

/// The automaton holds each of the moves.
pub open spec fn includes(m: Automaton, edges: Seq<EpsilonConnection>) -> bool {
    forall|j: int| 0 <= j < edges.len() ==> holds_move(m, #[trigger] edges[j])
}

/// An automaton that holds the moves of two lists holds the first list's
/// and the second list's.
pub proof fn lemma_includes_parts(m: Automaton, a: Seq<EpsilonConnection>, b: Seq<EpsilonConnection>)
    requires
        includes(m, a + b),
    ensures
        includes(m, a),
        includes(m, b),
{
    assert forall|j: int| 0 <= j < a.len() implies holds_move(m, #[trigger] a[j]) by {
        assert((a + b)[j] == a[j]);
    }
    assert forall|j: int| 0 <= j < b.len() implies holds_move(m, #[trigger] b[j]) by {
        assert((a + b)[a.len() + j] == b[j]);
    }
}

/// The states of the fragments of the first elements are among those of
/// more elements.
pub proof fn lemma_sizes_grow(subs: Seq<Element>, i: nat, j: nat)
    requires
        i <= j <= subs.len(),
    ensures
        sizes(subs, i) <= sizes(subs, j),
    decreases j,
{
    if i < j {
        lemma_sizes_grow(subs, i, (j - 1) as nat);
    }
}

/// The fragment of an element without defect has a state at least, and is
/// entered and left at states of its own.
pub proof fn lemma_fragment_bounds(e: Element, base: int)
    requires
        e.valid(),
    ensures
        e.size() >= 1,
        base <= e.entry(base) < base + e.size(),
        base <= e.exit(base) < base + e.size(),
    decreases e,
{
    match e {
        Element::OneOrMore { inner } => lemma_fragment_bounds(*inner, base),
        Element::Group { subelems } => {
            let n = subelems@.len();
            crate::nfa::lemma_members_valid(subelems@, n, 0);
            crate::nfa::lemma_members_valid(subelems@, n, n - 1);
            lemma_fragment_bounds(subelems[0], base);
            lemma_fragment_bounds(subelems[n - 1], base + sizes(subelems@, (n - 1) as nat));
            lemma_sizes_grow(subelems@, 1, n);
            assert(sizes(subelems@, 1) == sizes(subelems@, 0) + subelems[0].size());
            assert(sizes(subelems@, 0) == 0);
        },
        _ => {},
    }
}

/// The index at which the automaton holds a move that it holds.
pub proof fn lemma_move_index(m: Automaton, edges: Seq<EpsilonConnection>, j: int) -> (i: int)
    requires
        includes(m, edges),
        0 <= j < edges.len(),
    ensures
        0 <= i < m.connections.len(),
        m.connections[i] == edges[j],
{
    assert(holds_move(m, edges[j]));
    choose|i: int| 0 <= i < m.connections.len() && #[trigger] m.connections[i] == edges[j]
}

/// An empty move is a walk that reads nothing.
pub proof fn lemma_empty_step(m: Automaton, i: int, a: int, b: int)
    requires
        0 <= i < m.connections.len(),
        m.connections[i] == eps(a, b),
        0 <= a <= usize::MAX,
        0 <= b <= usize::MAX,
    ensures
        m.walk(seq![i], a, b, Seq::<u32>::empty()),
{
    let path = seq![i];
    assert(path.drop_last() =~= Seq::<int>::empty());
    assert(m.walk(path.drop_last(), a, a, Seq::<u32>::empty()));
}

/// A move over an interval is a walk that reads a code point of the
/// interval.
pub proof fn lemma_ranged_step(m: Automaton, i: int, range: (u32, u32), a: int, b: int, c: u32)
    requires
        0 <= i < m.connections.len(),
        m.connections[i] == ranged(range, a, b),
        0 <= a <= usize::MAX,
        0 <= b <= usize::MAX,
        range.0 <= c <= range.1,
    ensures
        m.walk(seq![i], a, b, seq![c]),
{
    let path = seq![i];
    let w = seq![c];
    assert(path.drop_last() =~= Seq::<int>::empty());
    assert(w.drop_last() =~= Seq::<u32>::empty());
    assert(m.walk(path.drop_last(), a, a, w.drop_last()));
}

/// The chain of a literal reads the literal's code points.
pub proof fn lemma_literal_walk(m: Automaton, lit: Seq<char>, base: int, n: nat) -> (path: Seq<int>)
    requires
        includes(m, literal_edges(lit, base, lit.len())),
        n <= lit.len(),
        0 <= base,
        base + lit.len() <= usize::MAX,
    ensures
        m.walk(path, base, base + n, codes(lit).take(n as int)),
    decreases n,
{
    let read = codes(lit).take(n as int);
    if n == 0 {
        assert(read =~= Seq::<u32>::empty());
        Seq::empty()
    } else {
        let before = lemma_literal_walk(m, lit, base, (n - 1) as nat);
        let i = lemma_move_index(m, literal_edges(lit, base, lit.len()), n - 1);
        let c = lit[n - 1] as u32;
        lemma_ranged_step(m, i, (c, c), base + n - 1, base + n, c);
        lemma_walk_joins(
            m,
            before,
            seq![i],
            base,
            base + n - 1,
            base + n,
            codes(lit).take(n - 1),
            seq![c],
        );
        assert(codes(lit).take(n - 1) + seq![c] =~= read);
        before + seq![i]
    }
}

/// The moves of a class hold a move for each interval that the class
/// selects.
pub proof fn lemma_class_selects(
    alphabet: Seq<(u32, u32)>,
    chars: Seq<char>,
    ranges: Seq<(char, char)>,
    negated: bool,
    entry: int,
    exit: int,
    n: nat,
    k: int,
) -> (j: int)
    requires
        0 <= k < n <= alphabet.len(),
        class_contains(chars, ranges, alphabet[k].0) != negated,
    ensures
        0 <= j < class_edges(alphabet, chars, ranges, negated, entry, exit, n).len(),
        class_edges(alphabet, chars, ranges, negated, entry, exit, n)[j] == ranged(
            alphabet[k],
            entry,
            exit,
        ),
    decreases n,
{
    let before = class_edges(alphabet, chars, ranges, negated, entry, exit, (n - 1) as nat);
    if k == n - 1 {
        before.len() as int
    } else {
        lemma_class_selects(alphabet, chars, ranges, negated, entry, exit, (n - 1) as nat, k)
    }
}

/// A class holds all code points of an interval of its alphabet or none.
pub proof fn lemma_class_uniform(
    alphabet: Seq<(u32, u32)>,
    points: Set<u32>,
    chars: Seq<char>,
    ranges: Seq<(char, char)>,
    k: int,
    c: u32,
)
    requires
        fits(alphabet, points),
        forall|p: u32| class_mentions(chars, ranges, p) ==> points.contains(p),
        0 <= k < alphabet.len(),
        within(alphabet[k], c),
    ensures
        class_contains(chars, ranges, c) == class_contains(chars, ranges, alphabet[k].0),
{
    let range = alphabet[k];
    assert(is_point(range, points) || is_gap(range, points));
    assert(range.0 <= range.1);
    if is_gap(range, points) {
        if class_contains(chars, ranges, c) {
            lemma_gap_in_range(points, chars, ranges, range, c, range.0);
        }
        if class_contains(chars, ranges, range.0) {
            lemma_gap_in_range(points, chars, ranges, range, range.0, c);
        }
    }
}

/// Where a class holds one code point of a stretch that holds none of the
/// points, it holds every code point of the stretch.
pub proof fn lemma_gap_in_range(
    points: Set<u32>,
    chars: Seq<char>,
    ranges: Seq<(char, char)>,
    range: (u32, u32),
    c: u32,
    d: u32,
)
    requires
        forall|p: u32| class_mentions(chars, ranges, p) ==> points.contains(p),
        is_gap(range, points),
        within(range, c),
        within(range, d),
        class_contains(chars, ranges, c),
    ensures
        class_contains(chars, ranges, d),
{
    if exists|i: int| 0 <= i < chars.len() && #[trigger] chars[i] as u32 == c {
        let i = choose|i: int| 0 <= i < chars.len() && #[trigger] chars[i] as u32 == c;
        assert(class_mentions(chars, ranges, c));
        assert(points.contains(c));
    } else {
        let i = choose|i: int|
            0 <= i < ranges.len() && (#[trigger] ranges[i]).0 as u32 <= c <= ranges[i].1 as u32;
        let lo = ranges[i].0 as u32;
        let hi = ranges[i].1 as u32;
        assert(class_mentions(chars, ranges, lo));
        assert(class_mentions(chars, ranges, hi));
        assert(points.contains(lo) && points.contains(hi));
        assert(ranges[i].0 as u32 <= d <= ranges[i].1 as u32);
    }
}

/// The fragment of a class reads each code point that the class holds (or,
/// negated, does not hold).
pub proof fn lemma_class_walk(
    m: Automaton,
    alphabet: Seq<(u32, u32)>,
    points: Set<u32>,
    chars: Seq<char>,
    ranges: Seq<(char, char)>,
    negated: bool,
    base: int,
    c: u32,
) -> (path: Seq<int>)
    requires
        fits(alphabet, points),
        forall|p: u32| class_mentions(chars, ranges, p) ==> points.contains(p),
        includes(m, class_edges(alphabet, chars, ranges, negated, base, base + 1, alphabet.len())),
        0 <= base,
        base + 2 <= usize::MAX,
        c <= MAX_CODEPOINT,
        class_contains(chars, ranges, c) != negated,
    ensures
        m.walk(path, base, base + 1, seq![c]),
{
    lemma_contiguous_partitions(alphabet);
    assert(crate::alphabet::covered(alphabet, c));
    let k = choose|k: int| 0 <= k < alphabet.len() && #[trigger] within(alphabet[k], c);
    lemma_class_uniform(alphabet, points, chars, ranges, k, c);
    let edges = class_edges(alphabet, chars, ranges, negated, base, base + 1, alphabet.len());
    let j = lemma_class_selects(alphabet, chars, ranges, negated, base, base + 1, alphabet.len(), k);
    let i = lemma_move_index(m, edges, j);
    lemma_ranged_step(m, i, alphabet[k], base, base + 1, c);
    seq![i]
}

/// What a class holds is a code point.
pub proof fn lemma_class_holds_code_points(chars: Seq<char>, ranges: Seq<(char, char)>, c: u32)
    requires
        class_contains(chars, ranges, c),
    ensures
        c <= MAX_CODEPOINT,
{
    if exists|i: int| 0 <= i < chars.len() && #[trigger] chars[i] as u32 == c {
        let i = choose|i: int| 0 <= i < chars.len() && #[trigger] chars[i] as u32 == c;
        crate::alphabet::lemma_char_is_code_point(chars[i]);
    } else {
        let i = choose|i: int|
            0 <= i < ranges.len() && (#[trigger] ranges[i]).0 as u32 <= c <= ranges[i].1 as u32;
        crate::alphabet::lemma_char_is_code_point(ranges[i].1);
    }
}

/// An automaton that holds the moves of a group holds the moves of each
/// member, and the empty move from the member before it.
pub proof fn lemma_group_parts(
    m: Automaton,
    subs: Seq<Element>,
    alphabet: Seq<(u32, u32)>,
    base: int,
    n: nat,
    j: int,
)
    requires
        includes(m, group_edges(subs, alphabet, base, n)),
        0 <= j < n <= subs.len(),
    ensures
        includes(m, subs[j].edges(alphabet, base + sizes(subs, j as nat))),
        j >= 1 ==> holds_move(
            m,
            eps(
                subs[j - 1].exit(base + sizes(subs, (j - 1) as nat)),
                subs[j].entry(base + sizes(subs, j as nat)),
            ),
        ),
    decreases n,
{
    if n == 1 {
        assert(sizes(subs, 0) == 0);
    } else {
        let at = base + sizes(subs, (n - 1) as nat);
        let before = base + sizes(subs, (n - 2) as nat);
        let first = group_edges(subs, alphabet, base, (n - 1) as nat);
        let middle = subs[n - 1].edges(alphabet, at);
        let last = seq![eps(subs[n - 2].exit(before), subs[n - 1].entry(at))];
        lemma_includes_parts(m, first + middle, last);
        lemma_includes_parts(m, first, middle);
        if j == n - 1 {
            assert(holds_move(m, last[0]));
        } else {
            lemma_group_parts(m, subs, alphabet, base, (n - 1) as nat, j);
        }
    }
}

/// An automaton that holds the moves of an alternation holds the moves of
/// each branch, the empty move into it and the empty move out of it.
pub proof fn lemma_alternatives_parts(
    m: Automaton,
    subs: Seq<Element>,
    alphabet: Seq<(u32, u32)>,
    base: int,
    n: nat,
    j: int,
)
    requires
        includes(m, alternatives_edges(subs, alphabet, base, n)),
        0 <= j < n <= subs.len(),
    ensures
        includes(m, subs[j].edges(alphabet, base + 2 + sizes(subs, j as nat))),
        holds_move(m, eps(base, subs[j].entry(base + 2 + sizes(subs, j as nat)))),
        holds_move(m, eps(subs[j].exit(base + 2 + sizes(subs, j as nat)), base + 1)),
    decreases n,
{
    let at = base + 2 + sizes(subs, (n - 1) as nat);
    let first = alternatives_edges(subs, alphabet, base, (n - 1) as nat);
    let middle = subs[n - 1].edges(alphabet, at);
    let last = seq![eps(base, subs[n - 1].entry(at)), eps(subs[n - 1].exit(at), base + 1)];
    lemma_includes_parts(m, first + middle, last);
    lemma_includes_parts(m, first, middle);
    if j == n - 1 {
        assert(holds_move(m, last[0]));
        assert(holds_move(m, last[1]));
    } else {
        lemma_alternatives_parts(m, subs, alphabet, base, (n - 1) as nat, j);
    }
}

/// The index at which the automaton holds a move that it holds.
pub proof fn lemma_held_index(m: Automaton, c: EpsilonConnection) -> (i: int)
    requires
        holds_move(m, c),
    ensures
        0 <= i < m.connections.len(),
        m.connections[i] == c,
{
    choose|i: int| 0 <= i < m.connections.len() && #[trigger] m.connections[i] == c
}

/// The fragment of an element reads each word that the element matches:
/// an automaton that holds the fragment's moves has a walk from the
/// fragment's entry to its exit that reads the word.
pub proof fn lemma_matches_walk(
    m: Automaton,
    alphabet: Seq<(u32, u32)>,
    points: Set<u32>,
    e: Element,
    base: int,
    w: Seq<u32>,
) -> (path: Seq<int>)
    requires
        fits(alphabet, points),
        forall|p: u32| e.mentions(p) ==> points.contains(p),
        e.valid(),
        0 <= base,
        base + e.size() <= usize::MAX,
        includes(m, e.edges(alphabet, base)),
        e.matches(w),
    ensures
        m.walk(path, e.entry(base), e.exit(base), w),
    decreases e, 0nat,
{
    lemma_fragment_bounds(e, base);
    match e {
        Element::Rule { .. } => Seq::empty(),
        Element::CharSet { chars, ranges } => {
            lemma_class_holds_code_points(chars@, ranges@, w[0]);
            assert(w =~= seq![w[0]]);
            lemma_class_walk(m, alphabet, points, chars@, ranges@, false, base, w[0])
        },
        Element::NegatedSet { chars, ranges } => {
            assert(w =~= seq![w[0]]);
            lemma_class_walk(m, alphabet, points, chars@, ranges@, true, base, w[0])
        },
        Element::Literal { lit } => {
            assert(codes(lit@).take(lit@.len() as int) =~= w);
            lemma_literal_walk(m, lit@, base, lit@.len())
        },
        Element::OneOrMore { inner } => {
            let back = eps(inner.exit(base), inner.entry(base));
            assert(e.edges(alphabet, base) =~= inner.edges(alphabet, base) + seq![back]);
            lemma_includes_parts(m, inner.edges(alphabet, base), seq![back]);
            assert(holds_move(m, seq![back][0]));
            let i = lemma_held_index(m, back);
            lemma_repeats_walk(m, alphabet, points, *inner, base, w, i)
        },
        Element::ZeroOrMore { inner } => {
            let at = base + 2;
            let into = eps(base, inner.entry(at));
            let out = eps(inner.exit(at), base + 1);
            let skip = eps(base, base + 1);
            let back = eps(inner.exit(at), inner.entry(at));
            let extra = seq![into, out, skip, back];
            lemma_includes_parts(m, inner.edges(alphabet, at), extra);
            assert(holds_move(m, extra[0]));
            assert(holds_move(m, extra[1]));
            assert(holds_move(m, extra[2]));
            assert(holds_move(m, extra[3]));
            lemma_fragment_bounds(*inner, at);
            let nothing = Seq::<u32>::empty();
            if repeats(*inner, w) {
                let a = lemma_held_index(m, into);
                let b = lemma_held_index(m, out);
                let i = lemma_held_index(m, back);
                let inside = lemma_repeats_walk(m, alphabet, points, *inner, at, w, i);
                lemma_empty_step(m, a, base, inner.entry(at));
                lemma_empty_step(m, b, inner.exit(at), base + 1);
                lemma_walk_joins(m, seq![a], inside, base, inner.entry(at), inner.exit(at), nothing, w);
                lemma_walk_joins(
                    m,
                    seq![a] + inside,
                    seq![b],
                    base,
                    inner.exit(at),
                    base + 1,
                    nothing + w,
                    nothing,
                );
                assert(nothing + w + nothing =~= w);
                seq![a] + inside + seq![b]
            } else {
                let i = lemma_held_index(m, skip);
                lemma_empty_step(m, i, base, base + 1);
                assert(w =~= nothing);
                seq![i]
            }
        },
        Element::Optional { inner } => {
            let at = base + 2;
            let into = eps(base, inner.entry(at));
            let out = eps(inner.exit(at), base + 1);
            let skip = eps(base, base + 1);
            let extra = seq![into, out, skip];
            lemma_includes_parts(m, inner.edges(alphabet, at), extra);
            assert(holds_move(m, extra[0]));
            assert(holds_move(m, extra[1]));
            assert(holds_move(m, extra[2]));
            lemma_fragment_bounds(*inner, at);
            let nothing = Seq::<u32>::empty();
            if inner.matches(w) {
                let a = lemma_held_index(m, into);
                let b = lemma_held_index(m, out);
                let inside = lemma_matches_walk(m, alphabet, points, *inner, at, w);
                lemma_empty_step(m, a, base, inner.entry(at));
                lemma_empty_step(m, b, inner.exit(at), base + 1);
                lemma_walk_joins(m, seq![a], inside, base, inner.entry(at), inner.exit(at), nothing, w);
                lemma_walk_joins(
                    m,
                    seq![a] + inside,
                    seq![b],
                    base,
                    inner.exit(at),
                    base + 1,
                    nothing + w,
                    nothing,
                );
                assert(nothing + w + nothing =~= w);
                seq![a] + inside + seq![b]
            } else {
                let i = lemma_held_index(m, skip);
                lemma_empty_step(m, i, base, base + 1);
                assert(w =~= nothing);
                seq![i]
            }
        },
        Element::Alternatives { subelems } => {
            let subs = subelems@;
            let j = choose|j: int| 0 <= j < subelems.len() && (#[trigger] subelems[j]).matches(w);
            let at = base + 2 + sizes(subs, j as nat);
            lemma_alternatives_parts(m, subs, alphabet, base, subs.len(), j);
            crate::nfa::lemma_members_valid(subs, subs.len(), j);
            lemma_sizes_grow(subs, (j + 1) as nat, subs.len());
            lemma_fragment_bounds(subs[j], at);
            let inside = lemma_matches_walk(m, alphabet, points, subs[j], at, w);
            let into = lemma_held_index(m, eps(base, subs[j].entry(at)));
            let out = lemma_held_index(m, eps(subs[j].exit(at), base + 1));
            lemma_empty_step(m, into, base, subs[j].entry(at));
            lemma_empty_step(m, out, subs[j].exit(at), base + 1);
            let nothing = Seq::<u32>::empty();
            lemma_walk_joins(m, seq![into], inside, base, subs[j].entry(at), subs[j].exit(at), nothing, w);
            lemma_walk_joins(
                m,
                seq![into] + inside,
                seq![out],
                base,
                subs[j].exit(at),
                base + 1,
                nothing + w,
                nothing,
            );
            assert(nothing + w + nothing =~= w);
            seq![into] + inside + seq![out]
        },
        Element::Group { subelems } => lemma_group_walk(
            m,
            alphabet,
            points,
            subelems@,
            base,
            w,
            subelems@.len(),
        ),
    }
}

/// The fragment of a repeated element reads one or more words that the
/// element matches, one after the other: the empty move `back` leads from
/// the fragment's exit to its entry.
pub proof fn lemma_repeats_walk(
    m: Automaton,
    alphabet: Seq<(u32, u32)>,
    points: Set<u32>,
    e: Element,
    base: int,
    w: Seq<u32>,
    back: int,
) -> (path: Seq<int>)
    requires
        fits(alphabet, points),
        forall|p: u32| e.mentions(p) ==> points.contains(p),
        e.valid(),
        0 <= base,
        base + e.size() <= usize::MAX,
        includes(m, e.edges(alphabet, base)),
        repeats(e, w),
        0 <= back < m.connections.len(),
        m.connections[back] == eps(e.exit(base), e.entry(base)),
    ensures
        m.walk(path, e.entry(base), e.exit(base), w),
    decreases e, w.len() + 1,
{
    lemma_fragment_bounds(e, base);
    if e.matches(w) {
        lemma_matches_walk(m, alphabet, points, e, base, w)
    } else {
        let k = choose|k: int|
            0 < k < w.len() && e.matches(#[trigger] w.take(k)) && repeats(e, w.skip(k));
        let first = lemma_matches_walk(m, alphabet, points, e, base, w.take(k));
        let rest = lemma_repeats_walk(m, alphabet, points, e, base, w.skip(k), back);
        lemma_empty_step(m, back, e.exit(base), e.entry(base));
        let nothing = Seq::<u32>::empty();
        lemma_walk_joins(
            m,
            first,
            seq![back],
            e.entry(base),
            e.exit(base),
            e.entry(base),
            w.take(k),
            nothing,
        );
        lemma_walk_joins(
            m,
            first + seq![back],
            rest,
            e.entry(base),
            e.entry(base),
            e.exit(base),
            w.take(k) + nothing,
            w.skip(k),
        );
        assert(w.take(k) + nothing + w.skip(k) =~= w);
        first + seq![back] + rest
    }
}

/// The fragments of the first members of a group read words that the
/// members match, one after the other.
pub proof fn lemma_group_walk(
    m: Automaton,
    alphabet: Seq<(u32, u32)>,
    points: Set<u32>,
    subs: Seq<Element>,
    base: int,
    w: Seq<u32>,
    n: nat,
) -> (path: Seq<int>)
    requires
        fits(alphabet, points),
        forall|p: u32, j: int|
            0 <= j < subs.len() && #[trigger] subs[j].mentions(p) ==> points.contains(p),
        first_defect(subs, subs.len()) is None,
        1 <= n <= subs.len(),
        0 <= base,
        base + sizes(subs, subs.len()) <= usize::MAX,
        includes(m, group_edges(subs, alphabet, base, subs.len())),
        all_match(subs, w, n),
    ensures
        m.walk(
            path,
            subs[0].entry(base),
            subs[n - 1].exit(base + sizes(subs, (n - 1) as nat)),
            w,
        ),
    decreases subs, n,
{
    let at = base + sizes(subs, (n - 1) as nat);
    let k = choose|k: int|
        0 <= k <= w.len() && all_match(subs, #[trigger] w.take(k), (n - 1) as nat) && subs[n
            - 1].matches(w.skip(k));
    lemma_group_parts(m, subs, alphabet, base, subs.len(), n - 1);
    crate::nfa::lemma_members_valid(subs, subs.len(), n - 1);
    lemma_sizes_grow(subs, n, subs.len());
    lemma_fragment_bounds(subs[n - 1], at);
    let last = lemma_matches_walk(m, alphabet, points, subs[n - 1], at, w.skip(k));
    if n == 1 {
        assert(sizes(subs, 0) == 0);
        assert(w.skip(k) =~= w);
        last
    } else {
        let before = base + sizes(subs, (n - 2) as nat);
        let first = lemma_group_walk(m, alphabet, points, subs, base, w.take(k), (n - 1) as nat);
        crate::nfa::lemma_members_valid(subs, subs.len(), n - 2);
        lemma_fragment_bounds(subs[n - 2], before);
        lemma_sizes_grow(subs, (n - 1) as nat, subs.len());
        let link = lemma_held_index(m, eps(subs[n - 2].exit(before), subs[n - 1].entry(at)));
        lemma_empty_step(m, link, subs[n - 2].exit(before), subs[n - 1].entry(at));
        let nothing = Seq::<u32>::empty();
        lemma_walk_joins(
            m,
            first,
            seq![link],
            subs[0].entry(base),
            subs[n - 2].exit(before),
            subs[n - 1].entry(at),
            w.take(k),
            nothing,
        );
        lemma_walk_joins(
            m,
            first + seq![link],
            last,
            subs[0].entry(base),
            subs[n - 1].entry(at),
            subs[n - 1].exit(at),
            w.take(k) + nothing,
            w.skip(k),
        );
        assert(w.take(k) + nothing + w.skip(k) =~= w);
        first + seq![link] + last
    }
}

/// The labels of the automaton for the first rules stay when more rules
/// join.
pub proof fn lemma_labels_stay(rules: Seq<Rule>, i: nat, n: nat, q: int)
    requires
        i <= n <= rules.len(),
        0 <= q < rules_labels(rules, i).len(),
    ensures
        q < rules_labels(rules, n).len(),
        rules_labels(rules, n)[q] == rules_labels(rules, i)[q],
    decreases n,
{
    if i < n {
        lemma_labels_stay(rules, i, (n - 1) as nat, q);
    }
}

/// In the automaton for the first `n` rules a terminal rule among them has
/// its accepting state, with the rule's name, and behind it the states of
/// its fragment.
pub proof fn lemma_rule_states(rules: Seq<Rule>, n: nat, i: int)
    requires
        0 <= i < n <= rules.len(),
        rules[i].is_terminal,
    ensures
        rules_labels(rules, i as nat).len() + 1 + rules[i].element.size() <= rules_labels(
            rules,
            n,
        ).len(),
        rules_labels(rules, n)[rules_labels(rules, i as nat).len() as int] == Some(rules[i].name@),
{
    let accept = rules_labels(rules, i as nat).len() as int;
    let after = rules_labels(rules, (i + 1) as nat);
    assert(after[accept] == Some(rules[i].name@));
    lemma_labels_stay(rules, (i + 1) as nat, n, accept);
    lemma_labels_stay(rules, (i + 1) as nat, n, after.len() - 1);
}

/// An automaton that holds the moves for the first `n` rules holds, for a
/// terminal rule among them, the moves of its fragment, the empty move from
/// the entry into the fragment and the empty move from the fragment to the
/// rule's accepting state.
pub proof fn lemma_rule_parts(
    m: Automaton,
    rules: Seq<Rule>,
    alphabet: Seq<(u32, u32)>,
    n: nat,
    i: int,
)
    requires
        includes(m, rules_edges(rules, alphabet, n)),
        0 <= i < n <= rules.len(),
        rules[i].is_terminal,
    ensures
        includes(
            m,
            rules[i].element.edges(alphabet, rules_labels(rules, i as nat).len() as int + 1),
        ),
        holds_move(
            m,
            eps(0, rules[i].element.entry(rules_labels(rules, i as nat).len() as int + 1)),
        ),
        holds_move(
            m,
            eps(
                rules[i].element.exit(rules_labels(rules, i as nat).len() as int + 1),
                rules_labels(rules, i as nat).len() as int,
            ),
        ),
    decreases n,
{
    let before = rules_edges(rules, alphabet, (n - 1) as nat);
    if rules[n - 1].is_terminal {
        let accept = rules_labels(rules, (n - 1) as nat).len() as int;
        let element = rules[n - 1].element;
        let middle = element.edges(alphabet, accept + 1);
        let last = seq![eps(0, element.entry(accept + 1)), eps(element.exit(accept + 1), accept)];
        lemma_includes_parts(m, before + middle, last);
        lemma_includes_parts(m, before, middle);
        if i == n - 1 {
            assert(holds_move(m, last[0]));
            assert(holds_move(m, last[1]));
        } else {
            lemma_rule_parts(m, rules, alphabet, (n - 1) as nat, i);
        }
    } else {
        lemma_rule_parts(m, rules, alphabet, (n - 1) as nat, i);
    }
}

/// The automaton of a set of rules accepts for a terminal rule each word
/// that the rule's element matches.
pub proof fn lemma_rule_accepts(rules: Seq<Rule>, alphabet: Seq<(u32, u32)>, i: int, w: Seq<u32>)
    requires
        rules_covered(alphabet, rules),
        rules_valid(rules),
        rules_automaton(rules, alphabet).labels.len() <= usize::MAX,
        0 <= i < rules.len(),
        rules[i].is_terminal,
        rules[i].element.matches(w),
    ensures
        rules_automaton(rules, alphabet).accepts_along(w, rules[i].name@),
{
    let m = rules_automaton(rules, alphabet);
    let e = rules[i].element;
    let accept = rules_labels(rules, i as nat).len() as int;
    let base = accept + 1;
    assert(includes(m, rules_edges(rules, alphabet, rules.len()))) by {
        assert forall|j: int| 0 <= j < m.connections.len() implies holds_move(
            m,
            #[trigger] m.connections[j],
        ) by {}
    }
    lemma_rule_parts(m, rules, alphabet, rules.len(), i);
    lemma_rule_states(rules, rules.len(), i);
    lemma_fragment_bounds(e, base);
    let inside = lemma_matches_walk(m, alphabet, crate::nfa::named(e), e, base, w);
    let into = lemma_held_index(m, eps(0, e.entry(base)));
    let out = lemma_held_index(m, eps(e.exit(base), accept));
    lemma_empty_step(m, into, 0, e.entry(base));
    lemma_empty_step(m, out, e.exit(base), accept);
    let nothing = Seq::<u32>::empty();
    lemma_walk_joins(m, seq![into], inside, 0, e.entry(base), e.exit(base), nothing, w);
    lemma_walk_joins(
        m,
        seq![into] + inside,
        seq![out],
        0,
        e.exit(base),
        accept,
        nothing + w,
        nothing,
    );
    assert(nothing + w + nothing =~= w);
    let path = seq![into] + inside + seq![out];
    assert(m.walk(path, m.entry, accept, w));
}

/// A terminal rule called `name` has an element that matches the word `w`.
pub open spec fn rule_matches(rules: Seq<Rule>, w: Seq<u32>, name: Seq<char>) -> bool {
    exists|i: int|
        0 <= i < rules.len() && (#[trigger] rules[i]).is_terminal && rules[i].name@ == name
            && rules[i].element.matches(w)
}

/// Two words, one after the other, are a word.
pub proof fn lemma_word_parts(w: Seq<u32>, k: int)
    requires
        0 <= k <= w.len(),
        is_word(w.take(k)),
        is_word(w.skip(k)),
    ensures
        is_word(w),
{
    assert forall|i: int| 0 <= i < w.len() implies #[trigger] w[i] <= MAX_CODEPOINT by {
        if i < k {
            assert(w.take(k)[i] == w[i]);
        } else {
            assert(w.skip(k)[i - k] == w[i]);
        }
    }
}

/// What an element matches is a word of code points.
pub proof fn lemma_matches_word(e: Element, w: Seq<u32>)
    requires
        e.matches(w),
    ensures
        is_word(w),
    decreases e, 0nat,
{
    match e {
        Element::Rule { .. } => {},
        Element::CharSet { chars, ranges } => {
            lemma_class_holds_code_points(chars@, ranges@, w[0]);
        },
        Element::NegatedSet { .. } => {},
        Element::Literal { lit } => {
            assert forall|i: int| 0 <= i < w.len() implies #[trigger] w[i] <= MAX_CODEPOINT by {
                crate::alphabet::lemma_char_is_code_point(lit@[i]);
            }
        },
        Element::OneOrMore { inner } => lemma_repeats_word(*inner, w),
        Element::ZeroOrMore { inner } => {
            if w.len() > 0 {
                lemma_repeats_word(*inner, w);
            }
        },
        Element::Optional { inner } => {
            if w.len() > 0 {
                lemma_matches_word(*inner, w);
            }
        },
        Element::Alternatives { subelems } => {
            let i = choose|i: int| 0 <= i < subelems.len() && (#[trigger] subelems[i]).matches(w);
            lemma_matches_word(subelems[i], w);
        },
        Element::Group { subelems } => lemma_all_match_word(subelems@, w, subelems@.len()),
    }
}

/// Words that an element matches, one after the other, are a word of code
/// points.
pub proof fn lemma_repeats_word(e: Element, w: Seq<u32>)
    requires
        repeats(e, w),
    ensures
        is_word(w),
    decreases e, w.len() + 1,
{
    if e.matches(w) {
        lemma_matches_word(e, w);
    } else {
        let k = choose|k: int|
            0 < k < w.len() && e.matches(#[trigger] w.take(k)) && repeats(e, w.skip(k));
        lemma_matches_word(e, w.take(k));
        lemma_repeats_word(e, w.skip(k));
        lemma_word_parts(w, k);
    }
}

/// Words that the members of a group match, one after the other, are a
/// word of code points.
pub proof fn lemma_all_match_word(subs: Seq<Element>, w: Seq<u32>, n: nat)
    requires
        all_match(subs, w, n),
    ensures
        is_word(w),
    decreases subs, n,
{
    if n == 0 || n > subs.len() {
    } else {
        let k = choose|k: int|
            0 <= k <= w.len() && all_match(subs, #[trigger] w.take(k), (n - 1) as nat) && subs[n
                - 1].matches(w.skip(k));
        lemma_all_match_word(subs, w.take(k), (n - 1) as nat);
        lemma_matches_word(subs[n - 1], w.skip(k));
        lemma_word_parts(w, k);
    }
}

} // verus!
