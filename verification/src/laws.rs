//! Algebraic laws of the set operations, stated over the views that the
//! operations' contracts use.  Together with `Bitset::lemma_view_injective`
//! (equal views of well-formed sets mean equal values), each law about
//! views carries over to the values the operations return.

use vstd::prelude::*;

use crate::bits::lemma_members_from_facts;
use crate::natbitset::Bitset;

verus! {

/// Uniting or intersecting a set with itself changes nothing, and the
/// difference of a set with itself is empty.
pub proof fn lemma_self_algebra<const N: usize>(s: Bitset<N>)
    requires
        s.wf(),
    ensures
        s@.union(s@) == s@,
        s@.intersect(s@) == s@,
        s@.difference(s@) == Set::<usize>::empty(),
{
    assert(s@.union(s@) =~= s@);
    assert(s@.intersect(s@) =~= s@);
    assert(s@.difference(s@) =~= Set::<usize>::empty());
}

/// Removing the intersection from the union leaves exactly the members
/// of one side or the other but not both: the symmetric difference.
pub proof fn lemma_symmetric_difference<const N: usize>(a: Bitset<N>, b: Bitset<N>)
    requires
        a.wf(),
        b.wf(),
    ensures
        a@.union(b@).difference(a@.intersect(b@)) == a@.difference(b@).union(b@.difference(a@)),
{
    assert(a@.union(b@).difference(a@.intersect(b@)) =~= a@.difference(b@).union(
        b@.difference(a@),
    ));
}

/// The intersection is a subset of both operands, and two sets that are
/// subsets of each other are the same set — the same value, since
/// well-formed sets with equal members are equal.
pub proof fn lemma_subset_order<const N: usize>(a: Bitset<N>, b: Bitset<N>)
    requires
        a.wf(),
        b.wf(),
    ensures
        a@.intersect(b@).subset_of(a@),
        a@.intersect(b@).subset_of(b@),
        (a@.subset_of(b@) && b@.subset_of(a@)) ==> a == b,
{
    if a@.subset_of(b@) && b@.subset_of(a@) {
        assert(a@ =~= b@);
        Bitset::<N>::lemma_view_injective(a, b);
    }
}

/// Enumeration is faithful: the descending member sequence — what
/// `members_desc` returns and `iter` walks — has exactly as many
/// entries as the set has members, in strictly descending order.
pub proof fn lemma_member_order<const N: usize>(s: Bitset<N>)
    requires
        s.wf(),
    ensures
        s.members_ordered().len() == s@.len(),
        forall|a: int, b: int|
            0 <= a < b < s.members_ordered().len() ==> s.members_ordered()[a]
                > s.members_ordered()[b],
{
    s.lemma_view_model();
    lemma_members_from_facts(s.0, N as nat);
}

} // verus!
