//! The input alphabet: the code point range cut into intervals at every
//! code point that a terminal rule names.
use crate::rules::Element;
use crate::rules::Rule;
use crate::rules::MAX_CODEPOINT;
use vstd::prelude::*;

verus! {

/// The code points that the terminal rules among `rules` name.
pub open spec fn break_points(rules: Seq<Rule>) -> Set<u32> {
    Set::new(
        |p: u32|
            exists|i: int|
                0 <= i < rules.len() && (#[trigger] rules[i]).is_terminal
                    && rules[i].element.mentions(p),
    )
}

/// The intervals are well formed, start at 0, end at the largest code
/// point, and each starts right after the one before it.
pub open spec fn contiguous(a: Seq<(u32, u32)>) -> bool {
    &&& a.len() > 0
    &&& a[0].0 == 0
    &&& a[a.len() - 1].1 == MAX_CODEPOINT
    &&& forall|i: int| 0 <= i < a.len() ==> (#[trigger] a[i]).0 <= a[i].1
    &&& forall|i: int, j: int|
        0 <= i && j == i + 1 && j < a.len() ==> (#[trigger] a[i]).1 + 1 == (#[trigger] a[j]).0
}

/// No code point lies in two of the intervals.
pub open spec fn pairwise_disjoint(a: Seq<(u32, u32)>) -> bool {
    forall|i: int, j: int|
        0 <= i < a.len() && 0 <= j < a.len() && i != j ==> (#[trigger] a[i]).1 < (#[trigger] a[j]).0
            || a[j].1 < a[i].0
}

/// Every code point lies in one of the intervals, and the intervals hold
/// nothing else.
pub open spec fn covers_code_points(a: Seq<(u32, u32)>) -> bool {
    &&& forall|c: u32| c <= MAX_CODEPOINT ==> #[trigger] covered(a, c)
    &&& forall|i: int| 0 <= i < a.len() ==> (#[trigger] a[i]).1 <= MAX_CODEPOINT
}

/// Whether the code point `c` lies in one of the intervals.
pub open spec fn covered(a: Seq<(u32, u32)>, c: u32) -> bool {
    exists|i: int| 0 <= i < a.len() && #[trigger] within(a[i], c)
}

/// Whether the code point `c` lies in `range`.
pub open spec fn within(range: (u32, u32), c: u32) -> bool {
    range.0 <= c <= range.1
}

/// The interval holds none of `points`.
pub open spec fn is_gap(range: (u32, u32), points: Set<u32>) -> bool {
    forall|c: u32| range.0 <= c <= range.1 ==> !#[trigger] points.contains(c)
}

/// The interval is one of `points` alone.
pub open spec fn is_point(range: (u32, u32), points: Set<u32>) -> bool {
    range.0 == range.1 && points.contains(range.0)
}

/// `a` cuts the code point range so that each interval is one of `points`
/// or holds none of them.
pub open spec fn fits(a: Seq<(u32, u32)>, points: Set<u32>) -> bool {
    &&& contiguous(a)
    &&& forall|i: int| 0 <= i < a.len() ==> is_point(#[trigger] a[i], points) || is_gap(a[i], points)
}

/// `a` is the alphabet for `points`: it cuts the code point range into one
/// interval for each of the points and one for each stretch between them.
/// There is one such sequence for a set of points.
pub open spec fn is_alphabet_of(a: Seq<(u32, u32)>, points: Set<u32>) -> bool {
    &&& contiguous(a)
    &&& forall|i: int| 0 <= i < a.len() ==> is_point(#[trigger] a[i], points) || is_gap(a[i], points)
    &&& forall|i: int, j: int|
        0 <= i && j == i + 1 && j < a.len() ==> is_point(#[trigger] a[i], points) || is_point(
            #[trigger] a[j],
            points,
        )
}

/// The alphabet for `points`.
pub open spec fn alphabet_for(points: Set<u32>) -> Seq<(u32, u32)> {
    choose|a: Seq<(u32, u32)>| is_alphabet_of(a, points)
}

/// Two alphabets for one set of points agree on each interval that both
/// have.
pub proof fn lemma_alphabet_agrees(a: Seq<(u32, u32)>, b: Seq<(u32, u32)>, points: Set<u32>, i: int)
    requires
        is_alphabet_of(a, points),
        is_alphabet_of(b, points),
        0 <= i < a.len(),
        i < b.len(),
    ensures
        a[i] == b[i],
    decreases i,
{
    if i > 0 {
        lemma_alphabet_agrees(a, b, points, i - 1);
        assert(a[i - 1].1 + 1 == a[i].0);
        assert(b[i - 1].1 + 1 == b[i].0);
    }
    let s = a[i].0;
    assert(is_point(a[i], points) || is_gap(a[i], points));
    assert(is_point(b[i], points) || is_gap(b[i], points));
    assert(a[i].0 <= a[i].1);
    assert(b[i].0 <= b[i].1);
    if points.contains(s) {
    } else {
        lemma_contiguous_partitions(a);
        lemma_contiguous_partitions(b);
        if a[i].1 < b[i].1 {
            assert(i + 1 < a.len());
            assert(a[i].1 + 1 == a[i + 1].0);
            assert(!points.contains(a[i + 1].0));
            assert(is_point(a[i], points) || is_point(a[i + 1], points));
        } else if b[i].1 < a[i].1 {
            assert(i + 1 < b.len());
            assert(b[i].1 + 1 == b[i + 1].0);
            assert(!points.contains(b[i + 1].0));
            assert(is_point(b[i], points) || is_point(b[i + 1], points));
        }
    }
}

/// A set of points has one alphabet.
pub proof fn lemma_alphabet_unique(a: Seq<(u32, u32)>, points: Set<u32>)
    requires
        is_alphabet_of(a, points),
    ensures
        a == alphabet_for(points),
{
    let b = alphabet_for(points);
    lemma_contiguous_partitions(a);
    lemma_contiguous_partitions(b);
    if a.len() < b.len() {
        lemma_alphabet_agrees(a, b, points, a.len() - 1);
        assert(b[a.len() - 1].1 + 1 == b[a.len() as int].0);
        assert(b[a.len() as int].0 <= b[a.len() as int].1);
    } else if b.len() < a.len() {
        lemma_alphabet_agrees(a, b, points, b.len() - 1);
        assert(a[b.len() - 1].1 + 1 == a[b.len() as int].0);
        assert(a[b.len() as int].0 <= a[b.len() as int].1);
    }
    assert forall|i: int| 0 <= i < a.len() implies a[i] == b[i] by {
        lemma_alphabet_agrees(a, b, points, i);
    }
    assert(a =~= b);
}

/// In a contiguous sequence the intervals come in ascending order.
pub proof fn lemma_contiguous_ordered(a: Seq<(u32, u32)>, i: int, j: int)
    requires
        contiguous(a),
        0 <= i < j < a.len(),
    ensures
        a[i].1 < a[j].0,
    decreases j - i,
{
    if i + 1 < j {
        lemma_contiguous_ordered(a, i, j - 1);
        assert(a[j - 1].1 + 1 == a[j].0);
    } else {
        assert(a[i].1 + 1 == a[j].0);
    }
}

/// The interval of a contiguous sequence in which a code point lies.
pub proof fn lemma_contiguous_find(a: Seq<(u32, u32)>, c: u32, n: int) -> (i: int)
    requires
        contiguous(a),
        0 <= n < a.len(),
        c <= a[n].1,
    ensures
        0 <= i <= n,
        within(a[i], c),
    decreases n,
{
    if a[n].0 <= c {
        n
    } else {
        assert(a[n - 1].1 + 1 == a[n].0);
        lemma_contiguous_find(a, c, n - 1)
    }
}

/// A contiguous sequence of intervals is a partition of the code point
/// range: its intervals are pairwise disjoint and their union is the range
/// from 0 to the largest code point.
pub proof fn lemma_contiguous_partitions(a: Seq<(u32, u32)>)
    requires
        contiguous(a),
    ensures
        pairwise_disjoint(a),
        covers_code_points(a),
{
    assert forall|i: int, j: int| 0 <= i < a.len() && 0 <= j < a.len() && i != j implies (
    #[trigger] a[i]).1 < (#[trigger] a[j]).0 || a[j].1 < a[i].0 by {
        if i < j {
            lemma_contiguous_ordered(a, i, j);
        } else {
            lemma_contiguous_ordered(a, j, i);
        }
    }
    assert forall|c: u32| c <= MAX_CODEPOINT implies #[trigger] covered(a, c) by {
        let i = lemma_contiguous_find(a, c, a.len() - 1);
        assert(within(a[i], c));
    }
    assert forall|i: int| 0 <= i < a.len() implies (#[trigger] a[i]).1 <= MAX_CODEPOINT by {
        if i < a.len() - 1 {
            lemma_contiguous_ordered(a, i, a.len() - 1);
        }
    }
}

/// In the alphabet for `points`, each of the points is an interval of its
/// own.
pub proof fn lemma_alphabet_holds_points(a: Seq<(u32, u32)>, points: Set<u32>, p: u32)
    requires
        is_alphabet_of(a, points),
        points.contains(p),
        p <= MAX_CODEPOINT,
    ensures
        a.contains((p, p)),
{
    let i = lemma_contiguous_find(a, p, a.len() - 1);
    assert(is_point(a[i], points) || is_gap(a[i], points));
    assert(a[i] == (p, p));
}

/// The values are in strictly ascending order.
pub open spec fn ascending(v: Seq<u32>) -> bool {
    forall|i: int, j: int| 0 <= i < j < v.len() ==> v[i] < v[j]
}

/// Puts `p` into the ascending sequence `points`, unless it is there.
pub fn insert_point(points: &mut Vec<u32>, p: u32)
    requires
        ascending(old(points)@),
    ensures
        ascending(final(points)@),
        forall|q: u32| #[trigger] final(points)@.contains(q) <==> old(points)@.contains(q) || q == p,
{
    let mut i: usize = 0;
    while i < points.len() && points[i] < p
        invariant
            i <= points.len(),
            points@ == old(points)@,
            forall|j: int| 0 <= j < i ==> points@[j] < p,
        decreases points.len() - i,
    {
        i += 1;
    }
    if i < points.len() && points[i] == p {
        assert(points@.contains(p));
        return ;
    }
    points.insert(i, p);
    proof {
        let before = old(points)@;
        let after = points@;
        assert(after[i as int] == p);
        assert forall|q: u32| #[trigger] after.contains(q) <==> before.contains(q) || q == p by {
            if after.contains(q) {
                let k = choose|k: int| 0 <= k < after.len() && after[k] == q;
                if k < i {
                    assert(before[k] == q);
                } else if k > i {
                    assert(before[k - 1] == q);
                }
            }
            if before.contains(q) {
                let k = choose|k: int| 0 <= k < before.len() && before[k] == q;
                if k < i {
                    assert(after[k] == q);
                } else {
                    assert(after[k + 1] == q);
                }
            }
        }
        assert forall|a: int, b: int| 0 <= a < b < after.len() implies after[a] < after[b] by {
            let x = if a < i { a } else { a - 1 };
            let y = if b < i { b } else { b - 1 };
            if a != i && b != i {
                assert(before[x] < before[y]);
            }
        }
    }
}

/// Whether one of the first `n` elements of `subs` names the code point `p`.
pub open spec fn members_mention(subs: Seq<Element>, n: int, p: u32) -> bool {
    exists|i: int| 0 <= i < n && i < subs.len() && (#[trigger] subs[i]).mentions(p)
}

/// Puts the code points that `element` names into the ascending sequence
/// `points`: the characters of its literals and classes and the ends of its
/// ranges.
pub fn get_ranges_from_element(element: &Element, points: &mut Vec<u32>)
    requires
        ascending(old(points)@),
    ensures
        ascending(final(points)@),
        forall|q: u32| #[trigger] final(points)@.contains(q) <==> old(points)@.contains(q) || element.mentions(q),
    decreases element,
{
    match element {
        Element::CharSet { chars, ranges } => {
            class_points(chars, ranges, points);
        },
        Element::NegatedSet { chars, ranges } => {
            class_points(chars, ranges, points);
        },
        Element::Literal { lit } => {
            for c in it: lit.as_str().chars()
                invariant
                    it.seq() == lit@,
                    ascending(points@),
                    forall|q: u32|
                        #[trigger] points@.contains(q) <==> old(points)@.contains(q) || exists|i: int|
                            0 <= i < it.index() && #[trigger] lit@[i] as u32 == q,
            {
                insert_point(points, c as u32);
            }
            proof {
                assert forall|q: u32|
                    #[trigger] points@.contains(q) <==> old(points)@.contains(q) || element.mentions(q) by {
                    if element.mentions(q) {
                        let i = choose|i: int| 0 <= i < lit@.len() && #[trigger] lit@[i] as u32 == q;
                        assert(lit@[i] as u32 == q);
                    }
                }
            }
        },
        Element::OneOrMore { inner } => get_ranges_from_element(inner, points),
        Element::ZeroOrMore { inner } => get_ranges_from_element(inner, points),
        Element::Optional { inner } => get_ranges_from_element(inner, points),
        Element::Alternatives { subelems } => members_points(subelems, points),
        Element::Group { subelems } => members_points(subelems, points),
        Element::Rule { .. } => {},
    }
}

/// Puts the code points that the elements of `subs` name into the ascending
/// sequence `points`.
fn members_points(subs: &Vec<Element>, points: &mut Vec<u32>)
    requires
        ascending(old(points)@),
    ensures
        ascending(final(points)@),
        forall|q: u32|
            #[trigger] final(points)@.contains(q) <==> old(points)@.contains(q) || members_mention(
                subs@,
                subs@.len() as int,
                q,
            ),
    decreases subs,
{
    let mut i: usize = 0;
    assert(forall|q: u32| !members_mention(subs@, 0, q));
    while i < subs.len()
        invariant
            i <= subs.len(),
            ascending(points@),
            forall|q: u32|
                #[trigger] points@.contains(q) <==> old(points)@.contains(q) || members_mention(
                    subs@,
                    i as int,
                    q,
                ),
        decreases subs.len() - i,
    {
        get_ranges_from_element(&subs[i], points);
        i += 1;
        proof {
            assert forall|q: u32|
                #[trigger] points@.contains(q) <==> old(points)@.contains(q) || members_mention(
                    subs@,
                    i as int,
                    q,
                ) by {
                lemma_members_mention_next(subs@, i - 1, q);
            }
        }
    }
}

/// Among the first `n + 1` elements a code point is named by one of the
/// first `n` or by the next.
proof fn lemma_members_mention_next(subs: Seq<Element>, n: int, q: u32)
    requires
        0 <= n < subs.len(),
    ensures
        members_mention(subs, n + 1, q) <==> members_mention(subs, n, q) || subs[n].mentions(q),
{
    if members_mention(subs, n + 1, q) {
        let j = choose|j: int| 0 <= j < n + 1 && j < subs.len() && (#[trigger] subs[j]).mentions(q);
        if j < n {
            assert(members_mention(subs, n, q));
        }
    }
    if subs[n].mentions(q) {
        assert(members_mention(subs, n + 1, q));
    }
    if members_mention(subs, n, q) {
        let j = choose|j: int| 0 <= j < n && j < subs.len() && (#[trigger] subs[j]).mentions(q);
        assert(members_mention(subs, n + 1, q));
    }
}

/// Puts the characters and the ends of the ranges of a character class into
/// the ascending sequence `points`.
fn class_points(chars: &Vec<char>, ranges: &Vec<(char, char)>, points: &mut Vec<u32>)
    requires
        ascending(old(points)@),
    ensures
        ascending(final(points)@),
        forall|q: u32|
            #[trigger] final(points)@.contains(q) <==> old(points)@.contains(q) || crate::rules::class_mentions(
                chars@,
                ranges@,
                q,
            ),
{
    let mut i: usize = 0;
    while i < chars.len()
        invariant
            i <= chars.len(),
            ascending(points@),
            forall|q: u32|
                #[trigger] points@.contains(q) <==> old(points)@.contains(q) || exists|j: int|
                    0 <= j < i && #[trigger] chars@[j] as u32 == q,
        decreases chars.len() - i,
    {
        insert_point(points, chars[i] as u32);
        i += 1;
    }
    let mut k: usize = 0;
    while k < ranges.len()
        invariant
            k <= ranges.len(),
            ascending(points@),
            forall|q: u32|
                #[trigger] points@.contains(q) <==> old(points)@.contains(q) || (exists|j: int|
                    0 <= j < chars.len() && #[trigger] chars@[j] as u32 == q) || (exists|j: int|
                    0 <= j < k && (#[trigger] ranges@[j]).0 as u32 == q) || (exists|j: int|
                    0 <= j < k && (#[trigger] ranges@[j]).1 as u32 == q),
        decreases ranges.len() - k,
    {
        insert_point(points, ranges[k].0 as u32);
        insert_point(points, ranges[k].1 as u32);
        k += 1;
    }
}

/// The first `n` of `rules` name the code point `p` in a terminal rule.
pub open spec fn rules_mention(rules: Seq<Rule>, n: int, p: u32) -> bool {
    exists|i: int|
        0 <= i < n && i < rules.len() && (#[trigger] rules[i]).is_terminal
            && rules[i].element.mentions(p)
}

/// The code points that the terminal rules among `rules` name, in
/// ascending order.
pub fn collect_points(rules: &Vec<Rule>) -> (points: Vec<u32>)
    ensures
        ascending(points@),
        forall|q: u32| #[trigger] points@.contains(q) <==> break_points(rules@).contains(q),
{
    let mut points: Vec<u32> = Vec::new();
    let mut i: usize = 0;
    assert(forall|q: u32| !rules_mention(rules@, 0, q));
    while i < rules.len()
        invariant
            i <= rules.len(),
            ascending(points@),
            forall|q: u32| #[trigger] points@.contains(q) <==> rules_mention(rules@, i as int, q),
        decreases rules.len() - i,
    {
        let ghost before = points@;
        if rules[i].is_terminal {
            get_ranges_from_element(&rules[i].element, &mut points);
        }
        i += 1;
        proof {
            assert forall|q: u32| #[trigger] points@.contains(q) <==> rules_mention(
                rules@,
                i as int,
                q,
            ) by {
                if rules_mention(rules@, i as int, q) {
                    let j = choose|j: int|
                        0 <= j < i && j < rules@.len() && (#[trigger] rules@[j]).is_terminal
                            && rules@[j].element.mentions(q);
                    if j < i - 1 {
                        assert(rules_mention(rules@, i - 1, q));
                    }
                }
                if rules@[i - 1].is_terminal && rules@[i - 1].element.mentions(q) {
                    assert(rules_mention(rules@, i as int, q));
                }
                if rules_mention(rules@, i - 1, q) {
                    let j = choose|j: int|
                        0 <= j < i - 1 && j < rules@.len() && (#[trigger] rules@[j]).is_terminal
                            && rules@[j].element.mentions(q);
                    assert(rules_mention(rules@, i as int, q));
                }
            }
        }
    }
    proof {
        assert forall|q: u32| #[trigger] points@.contains(q) <==> break_points(rules@).contains(
            q,
        ) by {
            if rules_mention(rules@, rules@.len() as int, q) {
                let j = choose|j: int|
                    0 <= j < rules@.len() && j < rules@.len() && (#[trigger] rules@[j]).is_terminal
                        && rules@[j].element.mentions(q);
                assert(break_points(rules@).contains(q));
            }
            if break_points(rules@).contains(q) {
                let j = choose|j: int|
                    0 <= j < rules@.len() && (#[trigger] rules@[j]).is_terminal
                        && rules@[j].element.mentions(q);
                assert(rules_mention(rules@, rules@.len() as int, q));
            }
        }
    }
    points
}

/// What the alphabet holds once the code points below `next` are dealt
/// out: the intervals are in order and without holes from 0 up to `next`,
/// each is a point or holds no point, and no two that hold no point are
/// neighbours.
pub open spec fn alphabet_up_to(a: Seq<(u32, u32)>, points: Set<u32>, next: int) -> bool {
    &&& a.len() == 0 <==> next == 0
    &&& a.len() > 0 ==> a[0].0 == 0 && a[a.len() - 1].1 + 1 == next
    &&& forall|i: int| 0 <= i < a.len() ==> (#[trigger] a[i]).0 <= a[i].1
    &&& forall|i: int, j: int|
        0 <= i && j == i + 1 && j < a.len() ==> (#[trigger] a[i]).1 + 1 == (#[trigger] a[j]).0
    &&& forall|i: int| 0 <= i < a.len() ==> is_point(#[trigger] a[i], points) || is_gap(a[i], points)
    &&& forall|i: int, j: int|
        0 <= i && j == i + 1 && j < a.len() ==> is_point(#[trigger] a[i], points) || is_point(
            #[trigger] a[j],
            points,
        )
}

/// The stretch between two neighbours of an ascending sequence of points,
/// or before the first or behind the last, holds no point.
proof fn lemma_stretch_is_gap(points: Seq<u32>, set: Set<u32>, i: int, range: (u32, u32))
    requires
        ascending(points),
        forall|q: u32| #[trigger] points.contains(q) <==> set.contains(q),
        0 <= i <= points.len(),
        i > 0 ==> points[i - 1] < range.0,
        i < points.len() ==> range.1 < points[i],
    ensures
        is_gap(range, set),
{
    assert forall|c: u32| range.0 <= c <= range.1 implies !#[trigger] set.contains(c) by {
        if set.contains(c) {
            assert(points.contains(c));
            let k = choose|k: int| 0 <= k < points.len() && points[k] == c;
            if k < i - 1 {
                assert(points[k] < points[i - 1]);
            } else if k > i {
                assert(points[i] < points[k]);
            }
        }
    }
}

/// An alphabet dealt out up to `next` is, with one more interval that
/// starts at `next`, dealt out up to the end of that interval.
proof fn lemma_alphabet_grows(a: Seq<(u32, u32)>, set: Set<u32>, next: int, range: (u32, u32))
    requires
        alphabet_up_to(a, set, next),
        range.0 == next,
        range.0 <= range.1,
        is_point(range, set) || is_gap(range, set),
        a.len() > 0 ==> is_point(a[a.len() - 1], set) || is_point(range, set),
    ensures
        alphabet_up_to(a.push(range), set, range.1 + 1),
{
    let b = a.push(range);
    assert forall|x: int| 0 <= x < b.len() implies (#[trigger] b[x]).0 <= b[x].1 && (is_point(
        b[x],
        set,
    ) || is_gap(b[x], set)) by {
        if x < a.len() {
            assert(b[x] == a[x]);
        }
    }
    assert forall|x: int, y: int| 0 <= x && y == x + 1 && y < b.len() implies (#[trigger] b[x]).1
        + 1 == (#[trigger] b[y]).0 && (is_point(b[x], set) || is_point(b[y], set)) by {
        assert(b[x] == a[x]);
        if y < a.len() {
            assert(b[y] == a[y]);
        }
    }
}

/// The alphabet of the terminal rules among `rules`: the code point range
/// cut into one interval for each code point that they name and one for
/// each stretch between two of those, in ascending order.
pub fn construct_alphabet(rules: &Vec<Rule>) -> (alphabet: Vec<(u32, u32)>)
    ensures
        alphabet@ == alphabet_for(break_points(rules@)),
        is_alphabet_of(alphabet@, break_points(rules@)),
        pairwise_disjoint(alphabet@),
        covers_code_points(alphabet@),
        forall|p: u32| break_points(rules@).contains(p) ==> #[trigger] alphabet@.contains((p, p)),
{
    let points = collect_points(rules);
    let ghost set = break_points(rules@);
    proof {
        assert forall|p: u32| set.contains(p) implies p <= MAX_CODEPOINT by {
            let j = choose|j: int|
                0 <= j < rules@.len() && (#[trigger] rules@[j]).is_terminal
                    && rules@[j].element.mentions(p);
            lemma_mentions_code_point(rules@[j].element, p);
        }
    }
    let mut ranges: Vec<(u32, u32)> = Vec::new();
    let mut next: u32 = 0;
    let mut i: usize = 0;
    while i < points.len()
        invariant
            i <= points.len(),
            ascending(points@),
            forall|q: u32| #[trigger] points@.contains(q) <==> set.contains(q),
            forall|p: u32| set.contains(p) ==> p <= MAX_CODEPOINT,
            i == 0 ==> next == 0,
            i > 0 ==> next == points@[i - 1] + 1,
            next <= MAX_CODEPOINT + 1,
            alphabet_up_to(ranges@, set, next as int),
            i > 0 ==> ranges@.len() > 0 && is_point(ranges@[ranges@.len() - 1], set),
        decreases points.len() - i,
    {
        let p = points[i];
        assert(points@.contains(p));
        assert(next <= p) by {
            if i > 0 {
                assert(points@[i - 1] < points@[i as int]);
            }
        }
        if next < p {
            proof {
                lemma_stretch_is_gap(points@, set, i as int, (next, (p - 1) as u32));
                lemma_alphabet_grows(ranges@, set, next as int, (next, (p - 1) as u32));
            }
            ranges.push((next, p - 1));
        }
        proof {
            lemma_alphabet_grows(ranges@, set, p as int, (p, p));
        }
        ranges.push((p, p));
        next = p + 1;
        i += 1;
    }
    if next <= MAX_CODEPOINT {
        proof {
            lemma_stretch_is_gap(points@, set, i as int, (next, MAX_CODEPOINT));
            lemma_alphabet_grows(ranges@, set, next as int, (next, MAX_CODEPOINT));
        }
        ranges.push((next, MAX_CODEPOINT));
    }
    proof {
        lemma_contiguous_partitions(ranges@);
        lemma_alphabet_unique(ranges@, set);
        assert forall|p: u32| set.contains(p) implies #[trigger] ranges@.contains((p, p)) by {
            lemma_alphabet_holds_points(ranges@, set, p);
        }
    }
    ranges
}

/// What an element names is a code point.
pub proof fn lemma_mentions_code_point(element: Element, p: u32)
    requires
        element.mentions(p),
    ensures
        p <= MAX_CODEPOINT,
    decreases element,
{
    match element {
        Element::OneOrMore { inner } => lemma_mentions_code_point(*inner, p),
        Element::ZeroOrMore { inner } => lemma_mentions_code_point(*inner, p),
        Element::Optional { inner } => lemma_mentions_code_point(*inner, p),
        Element::Alternatives { subelems } => {
            let i = choose|i: int| 0 <= i < subelems.len() && (#[trigger] subelems[i]).mentions(p);
            lemma_mentions_code_point(subelems[i], p);
        },
        Element::Group { subelems } => {
            let i = choose|i: int| 0 <= i < subelems.len() && (#[trigger] subelems[i]).mentions(p);
            lemma_mentions_code_point(subelems[i], p);
        },
        Element::Literal { lit } => {
            let i = choose|i: int| 0 <= i < lit@.len() && #[trigger] lit@[i] as u32 == p;
            lemma_char_is_code_point(lit@[i]);
        },
        Element::CharSet { chars, ranges } => lemma_class_mentions_code_point(chars@, ranges@, p),
        Element::NegatedSet { chars, ranges } => lemma_class_mentions_code_point(
            chars@,
            ranges@,
            p,
        ),
        Element::Rule { .. } => {},
    }
}

/// A character is a code point.
pub proof fn lemma_char_is_code_point(c: char)
    ensures
        c as u32 <= MAX_CODEPOINT,
{
}

/// What a character class names is a code point.
pub proof fn lemma_class_mentions_code_point(chars: Seq<char>, ranges: Seq<(char, char)>, p: u32)
    requires
        crate::rules::class_mentions(chars, ranges, p),
    ensures
        p <= MAX_CODEPOINT,
{
    if exists|i: int| 0 <= i < chars.len() && #[trigger] chars[i] as u32 == p {
        let i = choose|i: int| 0 <= i < chars.len() && #[trigger] chars[i] as u32 == p;
        lemma_char_is_code_point(chars[i]);
    } else if exists|i: int| 0 <= i < ranges.len() && (#[trigger] ranges[i]).0 as u32 == p {
        let i = choose|i: int| 0 <= i < ranges.len() && (#[trigger] ranges[i]).0 as u32 == p;
        lemma_char_is_code_point(ranges[i].0);
    } else {
        let i = choose|i: int| 0 <= i < ranges.len() && (#[trigger] ranges[i]).1 as u32 == p;
        lemma_char_is_code_point(ranges[i].1);
    }
}

} // verus!
