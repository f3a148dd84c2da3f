//! Sets of states, held as one flag for each state.
use vstd::prelude::*;

verus! {

/// The states that a vector of flags marks.
pub open spec fn members(flags: Seq<bool>) -> Set<int> {
    Set::new(|q: int| 0 <= q < flags.len() && flags[q])
}

/// How many of the flags are not set.
pub open spec fn unset(flags: Seq<bool>) -> nat
    decreases flags.len(),
{
    if flags.len() == 0 {
        0
    } else {
        unset(flags.drop_last()) + if flags.last() {
            0nat
        } else {
            1nat
        }
    }
}

/// Setting a flag that is not set leaves one flag less unset.
pub proof fn lemma_unset_update(flags: Seq<bool>, i: int)
    requires
        0 <= i < flags.len(),
        !flags[i],
    ensures
        unset(flags.update(i, true)) + 1 == unset(flags),
    decreases flags.len(),
{
    let after = flags.update(i, true);
    if i == flags.len() - 1 {
        assert(after.drop_last() =~= flags.drop_last());
    } else {
        assert(after.drop_last() =~= flags.drop_last().update(i, true));
        lemma_unset_update(flags.drop_last(), i);
    }
}

/// Vectors of one length that mark the same states are equal.
pub proof fn lemma_members_equal(a: Seq<bool>, b: Seq<bool>)
    requires
        a.len() == b.len(),
        members(a) == members(b),
    ensures
        a == b,
{
    assert forall|i: int| 0 <= i < a.len() implies a[i] == b[i] by {
        assert(members(a).contains(i) == a[i]);
        assert(members(b).contains(i) == b[i]);
    }
    assert(a =~= b);
}

/// The number of sets of states among `n` states.
pub open spec fn subsets_of(n: nat) -> nat
    decreases n,
{
    if n == 0 {
        1
    } else {
        2 * subsets_of((n - 1) as nat)
    }
}

/// The flags read as a number in base two, the last flag counting least.
pub open spec fn code(flags: Seq<bool>) -> nat
    decreases flags.len(),
{
    if flags.len() == 0 {
        0
    } else {
        2 * code(flags.drop_last()) + if flags.last() {
            1nat
        } else {
            0nat
        }
    }
}

/// The code of `n` flags is below the number of sets among `n` states.
pub proof fn lemma_code_bound(flags: Seq<bool>)
    ensures
        code(flags) < subsets_of(flags.len()),
    decreases flags.len(),
{
    if flags.len() > 0 {
        lemma_code_bound(flags.drop_last());
    }
}

/// Vectors of one length with one code are equal.
pub proof fn lemma_code_injective(a: Seq<bool>, b: Seq<bool>)
    requires
        a.len() == b.len(),
        code(a) == code(b),
    ensures
        a == b,
    decreases a.len(),
{
    if a.len() > 0 {
        lemma_code_injective(a.drop_last(), b.drop_last());
        assert(a =~= a.drop_last().push(a.last()));
        assert(b =~= b.drop_last().push(b.last()));
    } else {
        assert(a =~= b);
    }
}

/// The vectors are of length `n` and no two of them are equal.
pub open spec fn distinct_subsets(subsets: Seq<Seq<bool>>, n: nat) -> bool {
    &&& forall|i: int| 0 <= i < subsets.len() ==> (#[trigger] subsets[i]).len() == n
    &&& forall|i: int, j: int|
        0 <= i < subsets.len() && 0 <= j < subsets.len() && i != j ==> #[trigger] subsets[i]
            != #[trigger] subsets[j]
}

/// There are no more distinct sets of states than there are sets.
pub proof fn lemma_subsets_bound(subsets: Seq<Seq<bool>>, n: nat)
    requires
        distinct_subsets(subsets, n),
    ensures
        subsets.len() <= subsets_of(n),
{
    let codes = Seq::new(subsets.len(), |i: int| code(subsets[i]) as int);
    assert forall|i: int, j: int|
        0 <= i < codes.len() && 0 <= j < codes.len() && i != j implies codes[i] != codes[j] by {
        if codes[i] == codes[j] {
            lemma_code_injective(subsets[i], subsets[j]);
        }
    }
    codes.unique_seq_to_set();
    let bound = subsets_of(n) as int;
    vstd::set_lib::lemma_int_range(0, bound);
    assert forall|c: int| codes.to_set().contains(c) implies vstd::set_lib::set_int_range(
        0,
        bound,
    ).contains(c) by {
        let i = choose|i: int| 0 <= i < codes.len() && codes[i] == c;
        lemma_code_bound(subsets[i]);
    }
    vstd::set_lib::lemma_len_subset(codes.to_set(), vstd::set_lib::set_int_range(0, bound));
}

/// A vector of `n` flags that marks no state.
pub fn no_states(n: usize) -> (flags: Vec<bool>)
    ensures
        flags@.len() == n,
        members(flags@) == Set::<int>::empty(),
{
    let mut flags: Vec<bool> = Vec::new();
    while flags.len() < n
        invariant
            flags@.len() <= n,
            forall|i: int| 0 <= i < flags@.len() ==> !flags@[i],
        decreases n - flags@.len(),
    {
        flags.push(false);
    }
    assert(members(flags@) =~= Set::<int>::empty());
    flags
}

/// Whether two vectors of flags are equal.
pub fn same_flags(a: &Vec<bool>, b: &Vec<bool>) -> (same: bool)
    ensures
        same == (a@ == b@),
{
    if a.len() != b.len() {
        return false;
    }
    let mut i: usize = 0;
    while i < a.len()
        invariant
            i <= a.len(),
            a@.len() == b@.len(),
            forall|j: int| 0 <= j < i ==> a@[j] == b@[j],
        decreases a.len() - i,
    {
        if a[i] != b[i] {
            return false;
        }
        i += 1;
    }
    assert(a@ =~= b@);
    true
}

/// Whether the vector marks no state.
pub fn is_empty_flags(flags: &Vec<bool>) -> (empty: bool)
    ensures
        empty == (members(flags@) == Set::<int>::empty()),
{
    let mut i: usize = 0;
    while i < flags.len()
        invariant
            i <= flags.len(),
            forall|j: int| 0 <= j < i ==> !flags@[j],
        decreases flags.len() - i,
    {
        if flags[i] {
            assert(members(flags@).contains(i as int));
            return false;
        }
        i += 1;
    }
    assert(members(flags@) =~= Set::<int>::empty());
    true
}

} // verus!
