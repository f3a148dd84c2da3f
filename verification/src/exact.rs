//! The fragments read exactly what the elements match: what has been read
//! on the way to a state of a fragment is told state by state, and no move
//! leads out of what is told.
use crate::alphabet::fits;
use crate::alphabet::is_alphabet_of;
use crate::alphabet::break_points;
use crate::meaning::all_match;
use crate::meaning::lemma_labels_stay;
use crate::meaning::lemma_rule_states;
use crate::meaning::rule_matches;
use crate::nfa::rules_automaton;
use crate::nfa::rules_covered;
use crate::nfa::rules_edges;
use crate::nfa::rules_labels;
use crate::nfa::rules_valid;
use crate::rules::Rule;
use crate::alphabet::is_gap;
use crate::alphabet::is_point;
use crate::alphabet::lemma_contiguous_partitions;
use crate::nfa::covers;
use crate::nfa::fragment;
use crate::nfa::fragment_reads;
use crate::nfa::named;
use crate::nfa::suits;
use crate::meaning::lemma_class_uniform;
use crate::nfa::alternatives_edges;
use crate::nfa::class_edges;
use crate::nfa::eps;
use crate::nfa::group_edges;
use crate::nfa::literal_edges;
use crate::nfa::ranged;
use crate::nfa::EpsilonConnection;
use crate::rules::class_mentions;
use crate::meaning::lemma_fragment_bounds;
use crate::meaning::lemma_sizes_grow;
use crate::nfa::lemma_members_valid;
use crate::rules::first_defect;
use crate::meaning::codes;
use crate::meaning::repeats;
use crate::nfa::sizes;
use crate::rules::class_contains;
use crate::rules::Element;
use crate::rules::MAX_CODEPOINT;
use vstd::prelude::*;

verus! {

/// The word is no word, or words that `e` matches, one after the other.
pub open spec fn stars(e: Element, w: Seq<u32>) -> bool {
    w.len() == 0 || repeats(e, w)
}

impl Element {
    /// What has been read when the fragment, entered with nothing read, is
    /// in the state `q`: `w` is a word that leads there.
    pub open spec fn partial(self, base: int, q: int, w: Seq<u32>) -> bool
        decreases self, 0nat,
    {
        match self {
            Element::Rule { .. } => false,
            Element::CharSet { chars, ranges } => (q == base && w.len() == 0) || (q == base + 1
                && w.len() == 1 && class_contains(chars@, ranges@, w[0])),
            Element::NegatedSet { chars, ranges } => (q == base && w.len() == 0) || (q == base + 1
                && w.len() == 1 && w[0] <= MAX_CODEPOINT && !class_contains(
                chars@,
                ranges@,
                w[0],
            )),
            Element::Literal { lit } => base <= q <= base + lit@.len() && w == codes(lit@).take(
                q - base,
            ),
            Element::OneOrMore { inner } => exists|k: int|
                0 <= k <= w.len() && stars(*inner, #[trigger] w.take(k)) && inner.partial(
                    base,
                    q,
                    w.skip(k),
                ),
            Element::ZeroOrMore { inner } => (q == base && w.len() == 0) || (q == base + 1
                && self.matches(w)) || exists|k: int|
                0 <= k <= w.len() && stars(*inner, #[trigger] w.take(k)) && inner.partial(
                    base + 2,
                    q,
                    w.skip(k),
                ),
            Element::Optional { inner } => (q == base && w.len() == 0) || (q == base + 1
                && self.matches(w)) || inner.partial(base + 2, q, w),
            Element::Alternatives { subelems } => (q == base && w.len() == 0) || (q == base + 1
                && self.matches(w)) || exists|i: int|
                0 <= i < subelems@.len() && (#[trigger] subelems@[i]).partial(
                    base + 2 + sizes(subelems@, i as nat),
                    q,
                    w,
                ),
            Element::Group { subelems } => exists|i: int, k: int|
                #![trigger subelems@[i], w.take(k)]
                0 <= i < subelems@.len() && 0 <= k <= w.len() && all_match(
                    subelems@,
                    w.take(k),
                    i as nat,
                ) && subelems@[i].partial(base + sizes(subelems@, i as nat), q, w.skip(k)),
        }
    }
}

/// What has been read when the fragment of a group is in the state `q` of
/// its member `i`: words that the members before it match, and a word that
/// leads to `q` in the member.
pub open spec fn member_partial(subs: Seq<Element>, base: int, i: int, q: int, w: Seq<u32>) -> bool {
    0 <= i < subs.len() && exists|k: int|
        0 <= k <= w.len() && all_match(subs, #[trigger] w.take(k), i as nat) && subs[i].partial(
            base + sizes(subs, i as nat),
            q,
            w.skip(k),
        )
}

/// The member of a group in whose fragment a word leads to the state `q`.
pub proof fn lemma_group_member(subs: Seq<Element>, group: Element, base: int, q: int, w: Seq<u32>) -> (i: int)
    requires
        group is Group,
        group->Group_subelems@ == subs,
        group.partial(base, q, w),
    ensures
        member_partial(subs, base, i, q, w),
{
    let (i, k) = choose|i: int, k: int|
        #![trigger subs[i], w.take(k)]
        0 <= i < subs.len() && 0 <= k <= w.len() && all_match(subs, w.take(k), i as nat)
            && subs[i].partial(base + sizes(subs, i as nat), q, w.skip(k));
    assert(all_match(subs, w.take(k), i as nat));
    i
}

/// A word that leads to a state in a member of a group leads there in the
/// group.
pub proof fn lemma_member_group(subs: Seq<Element>, group: Element, base: int, i: int, q: int, w: Seq<u32>)
    requires
        group is Group,
        group->Group_subelems@ == subs,
        member_partial(subs, base, i, q, w),
    ensures
        group.partial(base, q, w),
{
    let k = choose|k: int|
        0 <= k <= w.len() && all_match(subs, #[trigger] w.take(k), i as nat) && subs[i].partial(
            base + sizes(subs, i as nat),
            q,
            w.skip(k),
        );
    assert(subs[i].partial(base + sizes(subs, i as nat), q, w.skip(k)));
}

/// The states of the fragments of two members of a group are apart: those
/// of the earlier member come before those of the later one.
pub proof fn lemma_members_apart(subs: Seq<Element>, i: int, j: int)
    requires
        first_defect(subs, subs.len()) is None,
        0 <= i < j < subs.len(),
    ensures
        sizes(subs, i as nat) + subs[i].size() <= sizes(subs, j as nat),
{
    lemma_sizes_grow(subs, (i + 1) as nat, j as nat);
}

/// A state to which a word leads in a fragment is a state of the fragment.
pub proof fn lemma_partial_in_range(e: Element, base: int, q: int, w: Seq<u32>)
    requires
        e.valid(),
        e.partial(base, q, w),
    ensures
        base <= q < base + e.size(),
    decreases e, 0nat,
{
    match e {
        Element::OneOrMore { inner } => {
            let k = choose|k: int|
                0 <= k <= w.len() && stars(*inner, #[trigger] w.take(k)) && inner.partial(
                    base,
                    q,
                    w.skip(k),
                );
            lemma_partial_in_range(*inner, base, q, w.skip(k));
        },
        Element::ZeroOrMore { inner } => {
            if exists|k: int|
                0 <= k <= w.len() && stars(*inner, #[trigger] w.take(k)) && inner.partial(
                    base + 2,
                    q,
                    w.skip(k),
                ) {
                let k = choose|k: int|
                    0 <= k <= w.len() && stars(*inner, #[trigger] w.take(k)) && inner.partial(
                        base + 2,
                        q,
                        w.skip(k),
                    );
                lemma_partial_in_range(*inner, base + 2, q, w.skip(k));
            }
        },
        Element::Optional { inner } => {
            if inner.partial(base + 2, q, w) {
                lemma_partial_in_range(*inner, base + 2, q, w);
            }
        },
        Element::Alternatives { subelems } => {
            let subs = subelems@;
            if exists|i: int|
                0 <= i < subs.len() && (#[trigger] subs[i]).partial(
                    base + 2 + sizes(subs, i as nat),
                    q,
                    w,
                ) {
                let i = choose|i: int|
                    0 <= i < subs.len() && (#[trigger] subs[i]).partial(
                        base + 2 + sizes(subs, i as nat),
                        q,
                        w,
                    );
                lemma_members_valid(subs, subs.len(), i);
                lemma_partial_in_range(subs[i], base + 2 + sizes(subs, i as nat), q, w);
                lemma_sizes_grow(subs, (i + 1) as nat, subs.len());
            }
        },
        Element::Group { subelems } => {
            let subs = subelems@;
            let i = lemma_group_member(subs, e, base, q, w);
            lemma_member_in_range(subs, base, i, q, w);
        },
        _ => {},
    }
}

/// A state to which a word leads in a member of a group is a state of that
/// member.
pub proof fn lemma_member_in_range(subs: Seq<Element>, base: int, i: int, q: int, w: Seq<u32>)
    requires
        first_defect(subs, subs.len()) is None,
        member_partial(subs, base, i, q, w),
    ensures
        0 <= i < subs.len(),
        base + sizes(subs, i as nat) <= q < base + sizes(subs, i as nat) + subs[i].size(),
        base + sizes(subs, i as nat) + subs[i].size() <= base + sizes(subs, subs.len()),
    decreases subs, 1nat,
{
    let k = choose|k: int|
        0 <= k <= w.len() && all_match(subs, #[trigger] w.take(k), i as nat) && subs[i].partial(
            base + sizes(subs, i as nat),
            q,
            w.skip(k),
        );
    lemma_members_valid(subs, subs.len(), i);
    lemma_partial_in_range(subs[i], base + sizes(subs, i as nat), q, w.skip(k));
    lemma_sizes_grow(subs, (i + 1) as nat, subs.len());
}

/// No word leads to the entry of a fragment when nothing is read yet: the
/// empty word does.
pub proof fn lemma_partial_start(e: Element, base: int)
    requires
        e.valid(),
    ensures
        e.partial(base, e.entry(base), Seq::<u32>::empty()),
    decreases e,
{
    let nothing = Seq::<u32>::empty();
    match e {
        Element::Literal { lit } => {
            assert(codes(lit@).take(0) =~= nothing);
        },
        Element::OneOrMore { inner } => {
            lemma_partial_start(*inner, base);
            assert(nothing.take(0) =~= nothing);
            assert(nothing.skip(0) =~= nothing);
            assert(stars(*inner, nothing.take(0)));
        },
        Element::Group { subelems } => {
            let subs = subelems@;
            lemma_members_valid(subs, subs.len(), 0);
            lemma_partial_start(subs[0], base);
            assert(nothing.take(0) =~= nothing);
            assert(nothing.skip(0) =~= nothing);
            assert(sizes(subs, 0) == 0);
            assert(all_match(subs, nothing.take(0), 0));
            assert(member_partial(subs, base, 0, subs[0].entry(base), nothing));
            lemma_member_group(subs, e, base, 0, subs[0].entry(base), nothing);
        },
        _ => {},
    }
}

/// A fragment is entered and left at different states.
pub proof fn lemma_entry_not_exit(e: Element, base: int)
    requires
        e.valid(),
    ensures
        e.entry(base) != e.exit(base),
    decreases e,
{
    match e {
        Element::OneOrMore { inner } => lemma_entry_not_exit(*inner, base),
        Element::Group { subelems } => {
            let subs = subelems@;
            let n = subs.len();
            lemma_members_valid(subs, n, 0);
            lemma_members_valid(subs, n, n - 1);
            assert(sizes(subs, 0) == 0);
            if n == 1 {
                lemma_entry_not_exit(subs[0], base);
            } else {
                lemma_fragment_bounds(subs[0], base);
                lemma_fragment_bounds(subs[n - 1], base + sizes(subs, (n - 1) as nat));
                lemma_members_apart(subs, 0, n - 1);
            }
        },
        _ => {},
    }
}

/// One more word that `e` matches, behind words that `e` matches, gives
/// words that `e` matches.
pub proof fn lemma_repeats_append(e: Element, u: Seq<u32>, v: Seq<u32>)
    requires
        stars(e, u),
        e.matches(v),
    ensures
        repeats(e, u + v),
    decreases u.len(),
{
    if u.len() == 0 {
        assert(u + v =~= v);
    } else if v.len() == 0 {
        assert(u + v =~= u);
    } else if e.matches(u) {
        let k = u.len() as int;
        assert((u + v).take(k) =~= u);
        assert((u + v).skip(k) =~= v);
        assert(e.matches((u + v).take(k)));
        assert(repeats(e, (u + v).skip(k)));
    } else {
        let k = choose|k: int|
            0 < k < u.len() && e.matches(#[trigger] u.take(k)) && repeats(e, u.skip(k));
        lemma_repeats_append(e, u.skip(k), v);
        assert((u + v).take(k) =~= u.take(k));
        assert((u + v).skip(k) =~= u.skip(k) + v);
        assert(e.matches((u + v).take(k)));
        assert(repeats(e, (u + v).skip(k)));
    }
}

/// A word that leads to the exit of a fragment is a word that the element
/// matches.
pub proof fn lemma_partial_end(e: Element, base: int, w: Seq<u32>)
    requires
        e.valid(),
        e.partial(base, e.exit(base), w),
    ensures
        e.matches(w),
    decreases e, 0nat,
{
    match e {
        Element::Literal { lit } => {
            assert(codes(lit@).take(lit@.len() as int) =~= codes(lit@));
            assert(e.matches(w));
        },
        Element::OneOrMore { inner } => {
            let k = choose|k: int|
                0 <= k <= w.len() && stars(*inner, #[trigger] w.take(k)) && inner.partial(
                    base,
                    inner.exit(base),
                    w.skip(k),
                );
            lemma_partial_end(*inner, base, w.skip(k));
            lemma_repeats_append(*inner, w.take(k), w.skip(k));
            assert(w.take(k) + w.skip(k) =~= w);
            assert(e.matches(w));
        },
        Element::ZeroOrMore { inner } => {
            if exists|k: int|
                0 <= k <= w.len() && stars(*inner, #[trigger] w.take(k)) && inner.partial(
                    base + 2,
                    base + 1,
                    w.skip(k),
                ) {
                let k = choose|k: int|
                    0 <= k <= w.len() && stars(*inner, #[trigger] w.take(k)) && inner.partial(
                        base + 2,
                        base + 1,
                        w.skip(k),
                    );
                lemma_partial_in_range(*inner, base + 2, base + 1, w.skip(k));
            }
            assert(e.matches(w));
        },
        Element::Optional { inner } => {
            if inner.partial(base + 2, base + 1, w) {
                lemma_partial_in_range(*inner, base + 2, base + 1, w);
            }
            assert(e.matches(w));
        },
        Element::Alternatives { subelems } => {
            let subs = subelems@;
            if exists|i: int|
                0 <= i < subs.len() && (#[trigger] subs[i]).partial(
                    base + 2 + sizes(subs, i as nat),
                    base + 1,
                    w,
                ) {
                let i = choose|i: int|
                    0 <= i < subs.len() && (#[trigger] subs[i]).partial(
                        base + 2 + sizes(subs, i as nat),
                        base + 1,
                        w,
                    );
                lemma_members_valid(subs, subs.len(), i);
                lemma_partial_in_range(subs[i], base + 2 + sizes(subs, i as nat), base + 1, w);
            }
            assert(e.matches(w));
        },
        Element::Group { subelems } => {
            let subs = subelems@;
            let n = subs.len();
            let q = e.exit(base);
            let i = lemma_group_member(subs, e, base, q, w);
            lemma_member_in_range(subs, base, i, q, w);
            lemma_members_valid(subs, n, n - 1);
            lemma_fragment_bounds(subs[n - 1], base + sizes(subs, (n - 1) as nat));
            if i < n - 1 {
                lemma_members_apart(subs, i, n - 1);
            }
            let k = choose|k: int|
                0 <= k <= w.len() && all_match(subs, #[trigger] w.take(k), i as nat)
                    && subs[i].partial(base + sizes(subs, i as nat), q, w.skip(k));
            lemma_partial_end(subs[n - 1], base + sizes(subs, (n - 1) as nat), w.skip(k));
            assert(all_match(subs, w.take(k), (n - 1) as nat));
            assert(all_match(subs, w, n));
            assert(e.matches(w));
        },
        _ => {},
    }
}

/// Where a move of a group stands: the member `0` in whose fragment it is
/// and its place `1` there; or, with the place -1, the empty move that
/// leads to the member `0` from the member before it.
pub proof fn lemma_group_locate(
    subs: Seq<Element>,
    alphabet: Seq<(u32, u32)>,
    base: int,
    n: nat,
    j: int,
) -> (at: (int, int))
    requires
        n <= subs.len(),
        0 <= j < group_edges(subs, alphabet, base, n).len(),
    ensures
        0 <= at.0 < n,
        at.1 >= -1,
        at.1 >= 0 ==> at.1 < subs[at.0].edges(alphabet, base + sizes(subs, at.0 as nat)).len()
            && group_edges(subs, alphabet, base, n)[j] == subs[at.0].edges(
            alphabet,
            base + sizes(subs, at.0 as nat),
        )[at.1],
        at.1 == -1 ==> at.0 >= 1 && group_edges(subs, alphabet, base, n)[j] == eps(
            subs[at.0 - 1].exit(base + sizes(subs, (at.0 - 1) as nat)),
            subs[at.0].entry(base + sizes(subs, at.0 as nat)),
        ),
    decreases n,
{
    if n == 1 {
        assert(sizes(subs, 0) == 0);
        (0, j)
    } else {
        let first = group_edges(subs, alphabet, base, (n - 1) as nat);
        let middle = subs[n - 1].edges(alphabet, base + sizes(subs, (n - 1) as nat));
        if j < first.len() {
            lemma_group_locate(subs, alphabet, base, (n - 1) as nat, j)
        } else if j < first.len() + middle.len() {
            (n - 1, j - first.len())
        } else {
            (n - 1, -1)
        }
    }
}

/// Where a move of an alternation stands: the branch `0` in whose fragment
/// it is and its place `1` there; or, with the place -1, the empty move
/// into the branch `0`; or, with the place -2, the empty move out of it.
pub proof fn lemma_alternatives_locate(
    subs: Seq<Element>,
    alphabet: Seq<(u32, u32)>,
    base: int,
    n: nat,
    j: int,
) -> (at: (int, int))
    requires
        n <= subs.len(),
        0 <= j < alternatives_edges(subs, alphabet, base, n).len(),
    ensures
        0 <= at.0 < n,
        at.1 >= -2,
        at.1 >= 0 ==> at.1 < subs[at.0].edges(alphabet, base + 2 + sizes(subs, at.0 as nat)).len()
            && alternatives_edges(subs, alphabet, base, n)[j] == subs[at.0].edges(
            alphabet,
            base + 2 + sizes(subs, at.0 as nat),
        )[at.1],
        at.1 == -1 ==> alternatives_edges(subs, alphabet, base, n)[j] == eps(
            base,
            subs[at.0].entry(base + 2 + sizes(subs, at.0 as nat)),
        ),
        at.1 == -2 ==> alternatives_edges(subs, alphabet, base, n)[j] == eps(
            subs[at.0].exit(base + 2 + sizes(subs, at.0 as nat)),
            base + 1,
        ),
    decreases n,
{
    let first = alternatives_edges(subs, alphabet, base, (n - 1) as nat);
    let middle = subs[n - 1].edges(alphabet, base + 2 + sizes(subs, (n - 1) as nat));
    if j < first.len() {
        lemma_alternatives_locate(subs, alphabet, base, (n - 1) as nat, j)
    } else if j < first.len() + middle.len() {
        (n - 1, j - first.len())
    } else if j == first.len() + middle.len() {
        (n - 1, -1)
    } else {
        (n - 1, -2)
    }
}

/// The interval of a move of a class: one that the class selects.
pub proof fn lemma_class_locate(
    alphabet: Seq<(u32, u32)>,
    chars: Seq<char>,
    ranges: Seq<(char, char)>,
    negated: bool,
    entry: int,
    exit: int,
    n: nat,
    j: int,
) -> (k: int)
    requires
        n <= alphabet.len(),
        0 <= j < class_edges(alphabet, chars, ranges, negated, entry, exit, n).len(),
    ensures
        0 <= k < n,
        class_contains(chars, ranges, alphabet[k].0) != negated,
        class_edges(alphabet, chars, ranges, negated, entry, exit, n)[j] == ranged(
            alphabet[k],
            entry,
            exit,
        ),
    decreases n,
{
    let before = class_edges(alphabet, chars, ranges, negated, entry, exit, (n - 1) as nat);
    if j < before.len() {
        lemma_class_locate(alphabet, chars, ranges, negated, entry, exit, (n - 1) as nat, j)
    } else {
        n - 1
    }
}

/// The moves of a fragment lead from states of the fragment to states of
/// the fragment.
pub proof fn lemma_edges_within(e: Element, alphabet: Seq<(u32, u32)>, base: int, j: int)
    requires
        e.valid(),
        0 <= base,
        base + e.size() <= usize::MAX,
        0 <= j < e.edges(alphabet, base).len(),
    ensures
        base <= e.edges(alphabet, base)[j].source() < base + e.size(),
        base <= e.edges(alphabet, base)[j].target() < base + e.size(),
    decreases e,
{
    lemma_fragment_bounds(e, base);
    match e {
        Element::CharSet { chars, ranges } => {
            lemma_class_locate(alphabet, chars@, ranges@, false, base, base + 1, alphabet.len(), j);
        },
        Element::NegatedSet { chars, ranges } => {
            lemma_class_locate(alphabet, chars@, ranges@, true, base, base + 1, alphabet.len(), j);
        },
        Element::OneOrMore { inner } => {
            lemma_fragment_bounds(*inner, base);
            if j < inner.edges(alphabet, base).len() {
                lemma_edges_within(*inner, alphabet, base, j);
            }
        },
        Element::ZeroOrMore { inner } => {
            lemma_fragment_bounds(*inner, base + 2);
            if j < inner.edges(alphabet, base + 2).len() {
                lemma_edges_within(*inner, alphabet, base + 2, j);
            }
        },
        Element::Optional { inner } => {
            lemma_fragment_bounds(*inner, base + 2);
            if j < inner.edges(alphabet, base + 2).len() {
                lemma_edges_within(*inner, alphabet, base + 2, j);
            }
        },
        Element::Alternatives { subelems } => {
            let subs = subelems@;
            let at = lemma_alternatives_locate(subs, alphabet, base, subs.len(), j);
            let i = at.0;
            let from = base + 2 + sizes(subs, i as nat);
            lemma_members_valid(subs, subs.len(), i);
            lemma_sizes_grow(subs, (i + 1) as nat, subs.len());
            lemma_fragment_bounds(subs[i], from);
            if at.1 >= 0 {
                lemma_edges_within(subs[i], alphabet, from, at.1);
            }
        },
        Element::Group { subelems } => {
            let subs = subelems@;
            let at = lemma_group_locate(subs, alphabet, base, subs.len(), j);
            let i = at.0;
            let from = base + sizes(subs, i as nat);
            lemma_members_valid(subs, subs.len(), i);
            lemma_sizes_grow(subs, (i + 1) as nat, subs.len());
            lemma_fragment_bounds(subs[i], from);
            if at.1 >= 0 {
                lemma_edges_within(subs[i], alphabet, from, at.1);
            } else {
                lemma_members_valid(subs, subs.len(), i - 1);
                lemma_fragment_bounds(subs[i - 1], base + sizes(subs, (i - 1) as nat));
                lemma_sizes_grow(subs, i as nat, subs.len());
            }
        },
        _ => {},
    }
}

/// What a move reads: an empty move nothing, a move over an interval one
/// code point of the interval, put behind what was read before.
pub open spec fn reads(edge: EpsilonConnection, before: Seq<u32>, after: Seq<u32>) -> bool {
    match edge {
        EpsilonConnection::Epsilon(_, _) => after == before,
        EpsilonConnection::Connection(range, _, _) => after.len() > 0 && after.drop_last()
            == before && range.0 <= after.last() <= range.1,
    }
}

/// What a move reads behind a word, it reads behind the end of the word.
pub proof fn lemma_reads_behind(edge: EpsilonConnection, before: Seq<u32>, after: Seq<u32>, k: int)
    requires
        reads(edge, before, after),
        0 <= k <= before.len(),
    ensures
        reads(edge, before.skip(k), after.skip(k)),
        after.take(k) == before.take(k),
        k <= after.len(),
{
    match edge {
        EpsilonConnection::Epsilon(_, _) => {},
        EpsilonConnection::Connection(_, _, _) => {
            assert(after.skip(k).drop_last() =~= after.drop_last().skip(k));
            assert(after.take(k) =~= after.drop_last().take(k));
        },
    }
}

/// In the chain of a literal each move leads from a state with what was
/// read to a state with what is read then.
proof fn lemma_literal_move(e: Element, alphabet: Seq<(u32, u32)>, base: int, j: int, before: Seq<u32>, after: Seq<u32>)
    requires
        e is Literal,
        e.valid(),
        0 <= base,
        base + e.size() <= usize::MAX,
        0 <= j < e.edges(alphabet, base).len(),
        e.partial(base, e.edges(alphabet, base)[j].source() as int, before),
        reads(e.edges(alphabet, base)[j], before, after),
    ensures
        e.partial(base, e.edges(alphabet, base)[j].target() as int, after),
{
    let lit = e->lit@;
    assert(e.edges(alphabet, base)[j] == literal_edges(lit, base, lit.len())[j]);
    assert(before == codes(lit).take(j));
    assert(after =~= codes(lit).take(j + 1));
}

/// In the fragment of a class each move leads from the entry, with nothing
/// read, to the exit, with a code point that the class holds (or, negated,
/// does not hold).
proof fn lemma_class_move(
    e: Element,
    alphabet: Seq<(u32, u32)>,
    points: Set<u32>,
    base: int,
    j: int,
    before: Seq<u32>,
    after: Seq<u32>,
)
    requires
        e is CharSet || e is NegatedSet,
        fits(alphabet, points),
        forall|p: u32| e.mentions(p) ==> points.contains(p),
        0 <= base,
        base + e.size() <= usize::MAX,
        0 <= j < e.edges(alphabet, base).len(),
        e.partial(base, e.edges(alphabet, base)[j].source() as int, before),
        reads(e.edges(alphabet, base)[j], before, after),
    ensures
        e.partial(base, e.edges(alphabet, base)[j].target() as int, after),
{
    match e {
        Element::CharSet { chars, ranges } => {
            let k = lemma_class_locate(
                alphabet,
                chars@,
                ranges@,
                false,
                base,
                base + 1,
                alphabet.len(),
                j,
            );
            assert forall|p: u32| class_mentions(chars@, ranges@, p) implies points.contains(p) by {
                assert(e.mentions(p));
            }
            lemma_class_uniform(alphabet, points, chars@, ranges@, k, after.last());
            assert(after.len() == 1);
            assert(after[0] == after.last());
        },
        Element::NegatedSet { chars, ranges } => {
            let k = lemma_class_locate(
                alphabet,
                chars@,
                ranges@,
                true,
                base,
                base + 1,
                alphabet.len(),
                j,
            );
            assert forall|p: u32| class_mentions(chars@, ranges@, p) implies points.contains(p) by {
                assert(e.mentions(p));
            }
            lemma_class_uniform(alphabet, points, chars@, ranges@, k, after.last());
            lemma_contiguous_partitions(alphabet);
            assert(alphabet[k].1 <= MAX_CODEPOINT);
            assert(after.len() == 1);
            assert(after[0] == after.last());
        },
        _ => {},
    }
}

/// In the fragment of a alternation each move leads from a state
/// with what was read to a state with what is read then.
proof fn lemma_alternatives_move(
    e: Element,
    alphabet: Seq<(u32, u32)>,
    points: Set<u32>,
    base: int,
    j: int,
    before: Seq<u32>,
    after: Seq<u32>,
)
    requires
        e is Alternatives,
        fits(alphabet, points),
        forall|p: u32| e.mentions(p) ==> points.contains(p),
        e.valid(),
        0 <= base,
        base + e.size() <= usize::MAX,
        0 <= j < e.edges(alphabet, base).len(),
        e.partial(base, e.edges(alphabet, base)[j].source() as int, before),
        reads(e.edges(alphabet, base)[j], before, after),
    ensures
        e.partial(base, e.edges(alphabet, base)[j].target() as int, after),
    decreases e, 0nat,
{
    let edge = e.edges(alphabet, base)[j];
    let src = edge.source() as int;
    let tgt = edge.target() as int;
    let subs = e->Alternatives_subelems@;
    let at = lemma_alternatives_locate(subs, alphabet, base, subs.len(), j);
    let i = at.0;
    let from = base + 2 + sizes(subs, i as nat);
    lemma_members_valid(subs, subs.len(), i);
    lemma_sizes_grow(subs, (i + 1) as nat, subs.len());
    lemma_fragment_bounds(subs[i], from);
    if at.1 == -1 {
        lemma_branch_of(subs, e, base, src, before, -1);
        lemma_partial_start(subs[i], from);
        assert(after =~= Seq::<u32>::empty());
        assert(subs[i].partial(from, tgt, after));
    } else if at.1 >= 0 {
        lemma_edges_within(subs[i], alphabet, from, at.1);
        lemma_branch_of(subs, e, base, src, before, i);
        assert forall|p: u32| subs[i].mentions(p) implies points.contains(p) by {
            assert(e.mentions(p));
        }
        lemma_move_keeps(subs[i], alphabet, points, from, at.1, before, after);
        assert(subs[i].partial(from, tgt, after));
    } else {
        lemma_branch_of(subs, e, base, src, before, i);
        lemma_partial_end(subs[i], from, before);
        assert(subs[i].matches(after));
        assert(e.matches(after));
    }
}

/// In the fragment of a group each move leads from a state with what
/// was read to a state with what is read then.
proof fn lemma_group_move(
    e: Element,
    alphabet: Seq<(u32, u32)>,
    points: Set<u32>,
    base: int,
    j: int,
    before: Seq<u32>,
    after: Seq<u32>,
)
    requires
        e is Group,
        fits(alphabet, points),
        forall|p: u32| e.mentions(p) ==> points.contains(p),
        e.valid(),
        0 <= base,
        base + e.size() <= usize::MAX,
        0 <= j < e.edges(alphabet, base).len(),
        e.partial(base, e.edges(alphabet, base)[j].source() as int, before),
        reads(e.edges(alphabet, base)[j], before, after),
    ensures
        e.partial(base, e.edges(alphabet, base)[j].target() as int, after),
    decreases e, 0nat,
{
    let edge = e.edges(alphabet, base)[j];
    let src = edge.source() as int;
    let tgt = edge.target() as int;
    let nothing = Seq::<u32>::empty();
    let subs = e->Group_subelems@;
    let n = subs.len();
    let at = lemma_group_locate(subs, alphabet, base, n, j);
    let i = at.0;
    let from = base + sizes(subs, i as nat);
    lemma_members_valid(subs, n, i);
    lemma_sizes_grow(subs, (i + 1) as nat, n);
    lemma_fragment_bounds(subs[i], from);
    let found = lemma_group_member(subs, e, base, src, before);
    lemma_member_in_range(subs, base, found, src, before);
    if at.1 >= 0 {
        lemma_edges_within(subs[i], alphabet, from, at.1);
        if found < i {
            lemma_members_apart(subs, found, i);
        } else if i < found {
            lemma_members_apart(subs, i, found);
        }
        let k = choose|k: int|
            0 <= k <= before.len() && all_match(subs, #[trigger] before.take(k), i as nat)
                && subs[i].partial(from, src, before.skip(k));
        lemma_reads_behind(edge, before, after, k);
        assert forall|p: u32| subs[i].mentions(p) implies points.contains(p) by {
            assert(e.mentions(p));
        }
        lemma_move_keeps(subs[i], alphabet, points, from, at.1, before.skip(k), after.skip(k));
        assert(all_match(subs, after.take(k), i as nat));
        assert(member_partial(subs, base, i, tgt, after));
        lemma_member_group(subs, e, base, i, tgt, after);
    } else {
        let behind = base + sizes(subs, (i - 1) as nat);
        lemma_members_valid(subs, n, i - 1);
        lemma_fragment_bounds(subs[i - 1], behind);
        lemma_sizes_grow(subs, i as nat, n);
        if found < i - 1 {
            lemma_members_apart(subs, found, i - 1);
        } else if i - 1 < found {
            lemma_members_apart(subs, i - 1, found);
        }
        let k = choose|k: int|
            0 <= k <= before.len() && all_match(subs, #[trigger] before.take(k), (i - 1) as nat)
                && subs[i - 1].partial(behind, src, before.skip(k));
        lemma_partial_end(subs[i - 1], behind, before.skip(k));
        assert(all_match(subs, before, i as nat));
        lemma_partial_start(subs[i], from);
        let all = before.len() as int;
        assert(after.take(all) =~= before);
        assert(after.skip(all) =~= nothing);
        assert(all_match(subs, after.take(all), i as nat));
        assert(member_partial(subs, base, i, tgt, after));
        lemma_member_group(subs, e, base, i, tgt, after);
    }
}

/// In the fragment of a repetition each move leads from a state with what
/// was read to a state with what is read then.
proof fn lemma_plus_move(
    e: Element,
    alphabet: Seq<(u32, u32)>,
    points: Set<u32>,
    base: int,
    j: int,
    before: Seq<u32>,
    after: Seq<u32>,
)
    requires
        e is OneOrMore,
        fits(alphabet, points),
        forall|p: u32| e.mentions(p) ==> points.contains(p),
        e.valid(),
        0 <= base,
        base + e.size() <= usize::MAX,
        0 <= j < e.edges(alphabet, base).len(),
        e.partial(base, e.edges(alphabet, base)[j].source() as int, before),
        reads(e.edges(alphabet, base)[j], before, after),
    ensures
        e.partial(base, e.edges(alphabet, base)[j].target() as int, after),
    decreases e, 0nat,
{
    let edge = e.edges(alphabet, base)[j];
    let tgt = edge.target() as int;
    let nothing = Seq::<u32>::empty();
    let inner = *e->OneOrMore_inner;
    lemma_fragment_bounds(e, base);
    let inside = inner.edges(alphabet, base);
    if j < inside.len() {
        lemma_repeated_move(inner, alphabet, points, base, j, before, after);
    } else {
        lemma_partial_end(e, base, before);
        lemma_partial_start(inner, base);
        let k = before.len() as int;
        assert(before.take(k) =~= before);
        assert(before.skip(k) =~= nothing);
        assert(stars(inner, after.take(k)));
        assert(inner.partial(base, tgt, after.skip(k)));
    }
}

/// In the fragment of an option each move leads from a state with what was
/// read to a state with what is read then.
proof fn lemma_option_move(
    e: Element,
    alphabet: Seq<(u32, u32)>,
    points: Set<u32>,
    base: int,
    j: int,
    before: Seq<u32>,
    after: Seq<u32>,
)
    requires
        e is Optional,
        fits(alphabet, points),
        forall|p: u32| e.mentions(p) ==> points.contains(p),
        e.valid(),
        0 <= base,
        base + e.size() <= usize::MAX,
        0 <= j < e.edges(alphabet, base).len(),
        e.partial(base, e.edges(alphabet, base)[j].source() as int, before),
        reads(e.edges(alphabet, base)[j], before, after),
    ensures
        e.partial(base, e.edges(alphabet, base)[j].target() as int, after),
    decreases e, 0nat,
{
    let edge = e.edges(alphabet, base)[j];
    let src = edge.source() as int;
    let tgt = edge.target() as int;
    let inner = *e->Optional_inner;
    let at = base + 2;
    let inside = inner.edges(alphabet, at);
    lemma_fragment_bounds(inner, at);
    if inner.partial(at, src, before) {
        lemma_partial_in_range(inner, at, src, before);
    }
    if j < inside.len() {
        lemma_edges_within(inner, alphabet, at, j);
        lemma_move_keeps(inner, alphabet, points, at, j, before, after);
    } else if j == inside.len() {
        lemma_partial_start(inner, at);
        assert(after =~= Seq::<u32>::empty());
    } else if j == inside.len() + 1 {
        lemma_partial_end(inner, at, before);
        assert(e.matches(after));
    } else {
        assert(after =~= Seq::<u32>::empty());
        assert(e.matches(after));
    }
}

/// In the fragment of a repetition that may be left out each move leads
/// from a state with what was read to a state with what is read then.
proof fn lemma_star_move(
    e: Element,
    alphabet: Seq<(u32, u32)>,
    points: Set<u32>,
    base: int,
    j: int,
    before: Seq<u32>,
    after: Seq<u32>,
)
    requires
        e is ZeroOrMore,
        fits(alphabet, points),
        forall|p: u32| e.mentions(p) ==> points.contains(p),
        e.valid(),
        0 <= base,
        base + e.size() <= usize::MAX,
        0 <= j < e.edges(alphabet, base).len(),
        e.partial(base, e.edges(alphabet, base)[j].source() as int, before),
        reads(e.edges(alphabet, base)[j], before, after),
    ensures
        e.partial(base, e.edges(alphabet, base)[j].target() as int, after),
    decreases e, 0nat,
{
    let edge = e.edges(alphabet, base)[j];
    let src = edge.source() as int;
    let tgt = edge.target() as int;
    let nothing = Seq::<u32>::empty();
    let inner = *e->ZeroOrMore_inner;
    let at = base + 2;
    let inside = inner.edges(alphabet, at);
    lemma_fragment_bounds(inner, at);
    if j < inside.len() {
        lemma_edges_within(inner, alphabet, at, j);
        lemma_repeated_move(inner, alphabet, points, at, j, before, after);
    } else if j == inside.len() || j == inside.len() + 2 {
        if exists|k: int|
            0 <= k <= before.len() && stars(inner, #[trigger] before.take(k)) && inner.partial(
                at,
                src,
                before.skip(k),
            ) {
            let k = choose|k: int|
                0 <= k <= before.len() && stars(inner, #[trigger] before.take(k)) && inner.partial(
                    at,
                    src,
                    before.skip(k),
                );
            lemma_partial_in_range(inner, at, src, before.skip(k));
        }
        assert(after =~= nothing);
        if j == inside.len() {
            lemma_partial_start(inner, at);
            assert(after.take(0) =~= nothing);
            assert(after.skip(0) =~= nothing);
            assert(stars(inner, after.take(0)));
            assert(inner.partial(at, tgt, after.skip(0)));
        } else {
            assert(e.matches(after));
        }
    } else {
        let k = choose|k: int|
            0 <= k <= before.len() && stars(inner, #[trigger] before.take(k)) && inner.partial(
                at,
                src,
                before.skip(k),
            );
        lemma_partial_end(inner, at, before.skip(k));
        lemma_repeats_append(inner, before.take(k), before.skip(k));
        assert(before.take(k) + before.skip(k) =~= before);
        assert(repeats(inner, before));
        if j == inside.len() + 1 {
            assert(e.matches(after));
        } else {
            lemma_partial_start(inner, at);
            let all = before.len() as int;
            assert(before.take(all) =~= before);
            assert(before.skip(all) =~= nothing);
            assert(stars(inner, after.take(all)));
            assert(inner.partial(at, tgt, after.skip(all)));
        }
    }
}

/// In the fragment of a element each move leads from a state with
/// what was read to a state with what is read then.
pub proof fn lemma_move_keeps(
    e: Element,
    alphabet: Seq<(u32, u32)>,
    points: Set<u32>,
    base: int,
    j: int,
    before: Seq<u32>,
    after: Seq<u32>,
)
    requires
        fits(alphabet, points),
        forall|p: u32| e.mentions(p) ==> points.contains(p),
        e.valid(),
        0 <= base,
        base + e.size() <= usize::MAX,
        0 <= j < e.edges(alphabet, base).len(),
        e.partial(base, e.edges(alphabet, base)[j].source() as int, before),
        reads(e.edges(alphabet, base)[j], before, after),
    ensures
        e.partial(base, e.edges(alphabet, base)[j].target() as int, after),
    decreases e, 1nat,
{
    match e {
        Element::Rule { .. } => {},
        Element::Literal { .. } => lemma_literal_move(e, alphabet, base, j, before, after),
        Element::CharSet { .. } => lemma_class_move(e, alphabet, points, base, j, before, after),
        Element::NegatedSet { .. } => lemma_class_move(e, alphabet, points, base, j, before, after),
        Element::OneOrMore { .. } => lemma_plus_move(e, alphabet, points, base, j, before, after),
        Element::ZeroOrMore { .. } => lemma_star_move(e, alphabet, points, base, j, before, after),
        Element::Optional { .. } => lemma_option_move(e, alphabet, points, base, j, before, after),
        Element::Alternatives { .. } => lemma_alternatives_move(
            e,
            alphabet,
            points,
            base,
            j,
            before,
            after,
        ),
        Element::Group { .. } => lemma_group_move(e, alphabet, points, base, j, before, after),
    }
}

/// In the fragment of a repeated element each move of the element
/// leads from a state with what was read, after words that the element
/// matches, to a state with what is read then.
pub proof fn lemma_repeated_move(
    inner: Element,
    alphabet: Seq<(u32, u32)>,
    points: Set<u32>,
    base: int,
    j: int,
    before: Seq<u32>,
    after: Seq<u32>,
)
    requires
        fits(alphabet, points),
        forall|p: u32| inner.mentions(p) ==> points.contains(p),
        inner.valid(),
        0 <= base,
        base + inner.size() <= usize::MAX,
        0 <= j < inner.edges(alphabet, base).len(),
        exists|k: int|
            0 <= k <= before.len() && stars(inner, #[trigger] before.take(k)) && inner.partial(
                base,
                inner.edges(alphabet, base)[j].source() as int,
                before.skip(k),
            ),
        reads(inner.edges(alphabet, base)[j], before, after),
    ensures
        exists|k: int|
            0 <= k <= after.len() && stars(inner, #[trigger] after.take(k)) && inner.partial(
                base,
                inner.edges(alphabet, base)[j].target() as int,
                after.skip(k),
            ),
    decreases inner, 2nat,
{
    let edge = inner.edges(alphabet, base)[j];
    let k = choose|k: int|
        0 <= k <= before.len() && stars(inner, #[trigger] before.take(k)) && inner.partial(
            base,
            edge.source() as int,
            before.skip(k),
        );
    lemma_reads_behind(edge, before, after, k);
    lemma_move_keeps(inner, alphabet, points, base, j, before.skip(k), after.skip(k));
    assert(stars(inner, after.take(k)));
}

/// The branch of an alternation in whose fragment a word leads to a state:
/// to the alternation's own entry only the empty word leads.
pub proof fn lemma_branch_of(
    subs: Seq<Element>,
    e: Element,
    base: int,
    q: int,
    w: Seq<u32>,
    i: int,
)
    requires
        e is Alternatives,
        e->Alternatives_subelems@ == subs,
        e.valid(),
        e.partial(base, q, w),
        i == -1 ==> q == base,
        i >= 0 ==> i < subs.len() && base + 2 + sizes(subs, i as nat) <= q < base + 2 + sizes(
            subs,
            i as nat,
        ) + subs[i].size(),
    ensures
        i == -1 ==> w.len() == 0,
        i >= 0 ==> subs[i].partial(base + 2 + sizes(subs, i as nat), q, w),
{
    if exists|x: int|
        0 <= x < subs.len() && (#[trigger] subs[x]).partial(base + 2 + sizes(subs, x as nat), q, w) {
        let x = choose|x: int|
            0 <= x < subs.len() && (#[trigger] subs[x]).partial(
                base + 2 + sizes(subs, x as nat),
                q,
                w,
            );
        lemma_members_valid(subs, subs.len(), x);
        lemma_partial_in_range(subs[x], base + 2 + sizes(subs, x as nat), q, w);
        if i >= 0 {
            if x < i {
                lemma_members_apart(subs, x, i);
            } else if i < x {
                lemma_members_apart(subs, i, x);
            }
        }
    }
}

/// What has been read when the automaton of the rules is in the state `q`
/// of the rule `i`: a word that the rule's element matches, in the rule's
/// accepting state; a word that leads to `q`, in the rule's fragment.
pub open spec fn rule_partial(rules: Seq<Rule>, i: int, q: int, w: Seq<u32>) -> bool {
    let accept = rules_labels(rules, i as nat).len() as int;
    (q == accept && rules[i].element.matches(w)) || rules[i].element.partial(accept + 1, q, w)
}

/// What has been read when the automaton of the rules is in the state `q`:
/// nothing, in the entry; else what has been read in a terminal rule.
pub open spec fn rules_partial(rules: Seq<Rule>, q: int, w: Seq<u32>) -> bool {
    (q == 0 && w.len() == 0) || exists|i: int|
        0 <= i < rules.len() && (#[trigger] rules[i]).is_terminal && rule_partial(rules, i, q, w)
}

/// The automaton for more rules has no fewer states.
pub proof fn lemma_labels_grow(rules: Seq<Rule>, i: nat, n: nat)
    requires
        i <= n <= rules.len(),
    ensures
        1 <= rules_labels(rules, i).len() <= rules_labels(rules, n).len(),
    decreases n,
{
    if i < n {
        lemma_labels_grow(rules, i, (n - 1) as nat);
    } else if i > 0 {
        lemma_labels_grow(rules, (i - 1) as nat, (i - 1) as nat);
    }
}

/// The states of a terminal rule: its accepting state and the states of
/// its fragment, all before the states of the rules behind it.
pub proof fn lemma_rule_region(rules: Seq<Rule>, i: int)
    requires
        0 <= i < rules.len(),
        rules[i].is_terminal,
    ensures
        1 <= rules_labels(rules, i as nat).len(),
        rules_labels(rules, (i + 1) as nat).len() == rules_labels(rules, i as nat).len() + 1
            + rules[i].element.size(),
        rules_labels(rules, (i + 1) as nat).len() <= rules_labels(rules, rules.len()).len(),
{
    lemma_labels_grow(rules, i as nat, i as nat);
    lemma_labels_grow(rules, (i + 1) as nat, rules.len());
}

/// The states of the fragment of a terminal rule accept nothing.
pub proof fn lemma_fragment_blank(rules: Seq<Rule>, i: int, q: int)
    requires
        0 <= i < rules.len(),
        rules[i].is_terminal,
        rules_labels(rules, i as nat).len() + 1 <= q < rules_labels(rules, (i + 1) as nat).len(),
    ensures
        q < rules_labels(rules, rules.len()).len(),
        rules_labels(rules, rules.len())[q] is None,
{
    let after = rules_labels(rules, (i + 1) as nat);
    assert(after[q] is None);
    lemma_labels_stay(rules, (i + 1) as nat, rules.len(), q);
}

/// Where a move of the automaton of the rules stands: the terminal rule
/// `0` in whose fragment it is and its place `1` there; or, with the place
/// -1, the empty move from the entry into the fragment; or, with the place
/// -2, the empty move from the fragment to the rule's accepting state.
pub proof fn lemma_rules_locate(rules: Seq<Rule>, alphabet: Seq<(u32, u32)>, n: nat, j: int) -> (at: (
    int,
    int,
))
    requires
        n <= rules.len(),
        0 <= j < rules_edges(rules, alphabet, n).len(),
    ensures
        0 <= at.0 < n,
        rules[at.0].is_terminal,
        at.1 >= -2,
        at.1 >= 0 ==> at.1 < rules[at.0].element.edges(
            alphabet,
            rules_labels(rules, at.0 as nat).len() as int + 1,
        ).len() && rules_edges(rules, alphabet, n)[j] == rules[at.0].element.edges(
            alphabet,
            rules_labels(rules, at.0 as nat).len() as int + 1,
        )[at.1],
        at.1 == -1 ==> rules_edges(rules, alphabet, n)[j] == eps(
            0,
            rules[at.0].element.entry(rules_labels(rules, at.0 as nat).len() as int + 1),
        ),
        at.1 == -2 ==> rules_edges(rules, alphabet, n)[j] == eps(
            rules[at.0].element.exit(rules_labels(rules, at.0 as nat).len() as int + 1),
            rules_labels(rules, at.0 as nat).len() as int,
        ),
    decreases n,
{
    let first = rules_edges(rules, alphabet, (n - 1) as nat);
    if !rules[n - 1].is_terminal {
        lemma_rules_locate(rules, alphabet, (n - 1) as nat, j)
    } else {
        let accept = rules_labels(rules, (n - 1) as nat).len() as int;
        let middle = rules[n - 1].element.edges(alphabet, accept + 1);
        if j < first.len() {
            lemma_rules_locate(rules, alphabet, (n - 1) as nat, j)
        } else if j < first.len() + middle.len() {
            (n - 1, j - first.len())
        } else if j == first.len() + middle.len() {
            (n - 1, -1)
        } else {
            (n - 1, -2)
        }
    }
}

/// The terminal rule in whose fragment a word leads to a state of that
/// fragment.
pub proof fn lemma_rule_of(rules: Seq<Rule>, q: int, w: Seq<u32>, i: int)
    requires
        rules_valid(rules),
        rules_partial(rules, q, w),
        0 <= i < rules.len(),
        rules[i].is_terminal,
        rules_labels(rules, i as nat).len() + 1 <= q < rules_labels(rules, (i + 1) as nat).len(),
    ensures
        rules[i].element.partial(rules_labels(rules, i as nat).len() as int + 1, q, w),
{
    lemma_rule_region(rules, i);
    let x = choose|x: int|
        0 <= x < rules.len() && (#[trigger] rules[x]).is_terminal && rule_partial(rules, x, q, w);
    lemma_rule_region(rules, x);
    let there = rules_labels(rules, x as nat).len() as int;
    if q != there {
        lemma_partial_in_range(rules[x].element, there + 1, q, w);
    }
    if x < i {
        lemma_labels_grow(rules, (x + 1) as nat, i as nat);
    } else if i < x {
        lemma_labels_grow(rules, (i + 1) as nat, x as nat);
    }
}

/// In the automaton of rules each move leads from a state with what
/// was read to a state with what is read then.
pub proof fn lemma_rules_move(
    rules: Seq<Rule>,
    alphabet: Seq<(u32, u32)>,
    j: int,
    before: Seq<u32>,
    after: Seq<u32>,
)
    requires
        rules_covered(alphabet, rules),
        rules_valid(rules),
        rules_labels(rules, rules.len()).len() <= usize::MAX,
        0 <= j < rules_edges(rules, alphabet, rules.len()).len(),
        rules_partial(
            rules,
            rules_edges(rules, alphabet, rules.len())[j].source() as int,
            before,
        ),
        reads(rules_edges(rules, alphabet, rules.len())[j], before, after),
    ensures
        rules_partial(rules, rules_edges(rules, alphabet, rules.len())[j].target() as int, after),
{
    let edge = rules_edges(rules, alphabet, rules.len())[j];
    let src = edge.source() as int;
    let tgt = edge.target() as int;
    let at = lemma_rules_locate(rules, alphabet, rules.len(), j);
    let i = at.0;
    let e = rules[i].element;
    let accept = rules_labels(rules, i as nat).len() as int;
    lemma_rule_region(rules, i);
    lemma_fragment_bounds(e, accept + 1);
    if at.1 >= 0 {
        lemma_edges_within(e, alphabet, accept + 1, at.1);
        lemma_rule_of(rules, src, before, i);
        lemma_move_keeps(e, alphabet, named(e), accept + 1, at.1, before, after);
        assert(rule_partial(rules, i, tgt, after));
    } else if at.1 == -1 {
        if before.len() != 0 {
            let x = choose|x: int|
                0 <= x < rules.len() && (#[trigger] rules[x]).is_terminal && rule_partial(
                    rules,
                    x,
                    src,
                    before,
                );
            lemma_rule_region(rules, x);
            let there = rules_labels(rules, x as nat).len() as int;
            if src != there {
                lemma_partial_in_range(rules[x].element, there + 1, src, before);
            }
        }
        lemma_partial_start(e, accept + 1);
        assert(after =~= Seq::<u32>::empty());
        assert(rule_partial(rules, i, tgt, after));
    } else {
        lemma_rule_of(rules, src, before, i);
        lemma_partial_end(e, accept + 1, before);
        assert(rule_partial(rules, i, tgt, after));
    }
}

/// A walk from the entry of the automaton of rules ends in a state
/// with what the walk has read.
pub proof fn lemma_walk_partial(
    rules: Seq<Rule>,
    alphabet: Seq<(u32, u32)>,
    path: Seq<int>,
    q: int,
    w: Seq<u32>,
)
    requires
        rules_covered(alphabet, rules),
        rules_valid(rules),
        rules_labels(rules, rules.len()).len() <= usize::MAX,
        rules_automaton(rules, alphabet).walk(path, 0, q, w),
    ensures
        rules_partial(rules, q, w),
    decreases path.len(),
{
    let m = rules_automaton(rules, alphabet);
    if path.len() > 0 {
        let j = path.last();
        let edge = m.connections[j];
        match edge {
            EpsilonConnection::Epsilon(a, _) => {
                lemma_walk_partial(rules, alphabet, path.drop_last(), a as int, w);
                lemma_rules_move(rules, alphabet, j, w, w);
            },
            EpsilonConnection::Connection(_, a, _) => {
                lemma_walk_partial(rules, alphabet, path.drop_last(), a as int, w.drop_last());
                lemma_rules_move(rules, alphabet, j, w.drop_last(), w);
            },
        }
    }
}

/// The automaton of rules accepts a word for a name only where a
/// terminal rule of that name has an element that matches the word.
pub proof fn lemma_accepted_matches(
    rules: Seq<Rule>,
    alphabet: Seq<(u32, u32)>,
    w: Seq<u32>,
    name: Seq<char>,
) -> (i: int)
    requires
        rules_covered(alphabet, rules),
        rules_valid(rules),
        rules_labels(rules, rules.len()).len() <= usize::MAX,
        rules_automaton(rules, alphabet).accepts_along(w, name),
    ensures
        0 <= i < rules.len(),
        rules[i].is_terminal,
        rules[i].name@ == name,
        rules[i].element.matches(w),
{
    let m = rules_automaton(rules, alphabet);
    let (path, q) = choose|path: Seq<int>, q: int|
        #[trigger] m.walk(path, m.entry, q, w) && 0 <= q < m.labels.len() && m.labels[q] == Some(
            name,
        );
    lemma_walk_partial(rules, alphabet, path, q, w);
    lemma_labels_grow(rules, 0, rules.len());
    assert(rules_labels(rules, 0)[0] is None);
    lemma_labels_stay(rules, 0, rules.len(), 0);
    let i = choose|i: int|
        0 <= i < rules.len() && (#[trigger] rules[i]).is_terminal && rule_partial(rules, i, q, w);
    lemma_rule_region(rules, i);
    lemma_rule_states(rules, rules.len(), i);
    let accept = rules_labels(rules, i as nat).len() as int;
    if rules[i].element.partial(accept + 1, q, w) {
        lemma_partial_in_range(rules[i].element, accept + 1, q, w);
        lemma_fragment_blank(rules, i, q);
    }
    i
}

/// An alphabet that suits an element has an interval of its own for each
/// code point that the element names.
pub proof fn lemma_suits_covers(alphabet: Seq<(u32, u32)>, e: Element)
    requires
        suits(alphabet, e),
    ensures
        covers(alphabet, e),
{
    assert forall|p: u32| e.mentions(p) implies #[trigger] alphabet.contains((p, p)) by {
        crate::alphabet::lemma_mentions_code_point(e, p);
        let i = crate::alphabet::lemma_contiguous_find(alphabet, p, alphabet.len() - 1);
        assert(named(e).contains(p));
        assert(is_point(alphabet[i], named(e)) || is_gap(alphabet[i], named(e)));
        assert(alphabet[i] == (p, p));
    }
}

/// The alphabet of a set of points suits each element that names only
/// points of the set.
pub proof fn lemma_alphabet_suits(alphabet: Seq<(u32, u32)>, points: Set<u32>, e: Element)
    requires
        fits(alphabet, points),
        forall|p: u32| e.mentions(p) ==> points.contains(p),
    ensures
        suits(alphabet, e),
{
    assert forall|i: int| 0 <= i < alphabet.len() implies is_point(
        #[trigger] alphabet[i],
        named(e),
    ) || is_gap(alphabet[i], named(e)) by {
        assert(is_point(alphabet[i], points) || is_gap(alphabet[i], points));
        if is_gap(alphabet[i], points) || !e.mentions(alphabet[i].0) {
            assert forall|c: u32| alphabet[i].0 <= c <= alphabet[i].1 implies !#[trigger] named(
                e,
            ).contains(c) by {
                if e.mentions(c) {
                    assert(points.contains(c));
                }
            }
        }
    }
}

/// The alphabet of the code points that rules name suits each terminal
/// rule.
pub proof fn lemma_rules_covered(rules: Seq<Rule>, alphabet: Seq<(u32, u32)>)
    requires
        is_alphabet_of(alphabet, break_points(rules)),
    ensures
        rules_covered(alphabet, rules),
{
    assert forall|i: int| 0 <= i < rules.len() && (#[trigger] rules[i]).is_terminal implies suits(
        alphabet,
        rules[i].element,
    ) by {
        assert forall|p: u32| rules[i].element.mentions(p) implies break_points(rules).contains(
            p,
        ) by {
            assert(rules[i].is_terminal && rules[i].element.mentions(p));
        }
        lemma_alphabet_suits(alphabet, break_points(rules), rules[i].element);
    }
}

/// The automaton of rules accepts a word for a name exactly where a
/// terminal rule of that name has an element that matches the word.
pub proof fn lemma_rules_exact(
    rules: Seq<Rule>,
    alphabet: Seq<(u32, u32)>,
    w: Seq<u32>,
    name: Seq<char>,
)
    requires
        rules_covered(alphabet, rules),
        rules_valid(rules),
        rules_labels(rules, rules.len()).len() <= usize::MAX,
    ensures
        rules_automaton(rules, alphabet).accepts(w, name) <==> rule_matches(rules, w, name),
{
    let m = rules_automaton(rules, alphabet);
    crate::language::lemma_accepts_along(m, w, name);
    if m.accepts(w, name) {
        let i = lemma_accepted_matches(rules, alphabet, w, name);
        assert(rules[i].is_terminal && rules[i].name@ == name && rules[i].element.matches(w));
    }
    if rule_matches(rules, w, name) {
        let i = choose|i: int|
            0 <= i < rules.len() && (#[trigger] rules[i]).is_terminal && rules[i].name@ == name
                && rules[i].element.matches(w);
        crate::meaning::lemma_rule_accepts(rules, alphabet, i, w);
    }
}

/// A walk through the moves of a fragment, from its entry, ends in a state
/// with what the walk has read.
pub proof fn lemma_fragment_walk(
    e: Element,
    alphabet: Seq<(u32, u32)>,
    base: int,
    path: Seq<int>,
    q: int,
    w: Seq<u32>,
)
    requires
        e.valid(),
        suits(alphabet, e),
        0 <= base,
        base + e.size() <= usize::MAX,
        fragment(e, alphabet, base).walk(path, e.entry(base), q, w),
    ensures
        e.partial(base, q, w),
    decreases path.len(),
{
    let m = fragment(e, alphabet, base);
    if path.len() == 0 {
        lemma_partial_start(e, base);
        assert(w =~= Seq::<u32>::empty());
    } else {
        let j = path.last();
        match m.connections[j] {
            EpsilonConnection::Epsilon(a, _) => {
                lemma_fragment_walk(e, alphabet, base, path.drop_last(), a as int, w);
                lemma_move_keeps(e, alphabet, named(e), base, j, w, w);
            },
            EpsilonConnection::Connection(_, a, _) => {
                lemma_fragment_walk(e, alphabet, base, path.drop_last(), a as int, w.drop_last());
                lemma_move_keeps(e, alphabet, named(e), base, j, w.drop_last(), w);
            },
        }
    }
}

/// The moves of a fragment read, from its entry to its exit, exactly the
/// words that the element matches.
pub proof fn lemma_fragment_exact(e: Element, alphabet: Seq<(u32, u32)>, base: int, w: Seq<u32>)
    requires
        e.valid(),
        suits(alphabet, e),
        0 <= base,
        base + e.size() <= usize::MAX,
    ensures
        fragment_reads(e, alphabet, base, w) <==> e.matches(w),
{
    let m = fragment(e, alphabet, base);
    if fragment_reads(e, alphabet, base, w) {
        let path = choose|path: Seq<int>| #[trigger] m.walk(path, e.entry(base), e.exit(base), w);
        lemma_fragment_walk(e, alphabet, base, path, e.exit(base), w);
        lemma_partial_end(e, base, w);
    }
    if e.matches(w) {
        let moves = e.edges(alphabet, base);
        assert forall|j: int| 0 <= j < moves.len() implies crate::meaning::holds_move(
            m,
            #[trigger] moves[j],
        ) by {
            assert(m.connections[j] == moves[j]);
        }
        let path = crate::meaning::lemma_matches_walk(m, alphabet, named(e), e, base, w);
        assert(m.walk(path, e.entry(base), e.exit(base), w));
    }
}

} // verus!
