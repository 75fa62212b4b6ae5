//! The set type itself: a single storage word with a capacity `N`.

use std::collections::HashSet;

use vstd::prelude::*;
use vstd::seq_lib::seq_to_set_is_finite;

use crate::errors::ConversionError;
use crate::errors::EmptiedBitsetError;
use crate::errors::RemoveError;
use crate::render::{decimal_digits, push_decimal, rendered_members};
use vstd::pervasive::unreached;
use vstd::std_specs::cmp::PartialOrdSpec;
use vstd::string::StringExecFns;

use crate::bits::{
    lemma_add_bit,
    lemma_all_clear_zero,
    lemma_and_bits,
    lemma_and_mask,
    lemma_bit_absent,
    lemma_bit_present,
    lemma_clear_bit,
    lemma_diff_bits,
    lemma_diff_mask,
    lemma_low_bits_eq,
    lemma_mask_bits,
    lemma_mask_idem,
    lemma_members_from_facts,
    lemma_members_from_full,
    lemma_members_from_same,
    lemma_nth_bit_zero,
    lemma_one_hot,
    lemma_or_bits,
    lemma_or_mask,
    lemma_scan_step,
    lemma_set_bit,
    lemma_set_bit_noop,
    lemma_setbit_mask,
    low_mask,
    members_from,
    nth_bit,
};

verus! {

broadcast use seq_to_set_is_finite, vstd::std_specs::hash::group_hash_axioms;

/// An unordered set of integers in the range `1..=N`, stored as bit
/// flags in a single `u64`: bit `i - 1` is set exactly when `i` is a
/// member.
///
/// The capacity `N` must fit the storage word: `1 <= N <= 63`.  The raw
/// constructor accepts any word verbatim; it is the caller's
/// responsibility that no bit at or above position `N` is set.  Every
/// other constructor and operation establishes and preserves that
/// invariant (`wf`).
#[derive(Clone, Copy, PartialEq, Eq, Hash, Debug)]
pub struct Bitset<const N: usize>(
    /// The underlying storage word.
    pub u64,
);

impl<const N: usize> View for Bitset<N> {
    type V = Set<usize>;

    /// A `Bitset` denotes the mathematical set of its members.
    open spec fn view(&self) -> Set<usize> {
        Set::new(|i: usize| self.spec_has(i))
    }
}

/// The view contains an integer exactly when its bit is set.
pub proof fn lemma_view_has<const N: usize>(s: Bitset<N>, i: usize)
    ensures
        s@.contains(i) <==> s.spec_has(i),
{
    assert(Set::new(|t: usize| s.spec_has(t)).contains(i) == s.spec_has(i));
}

impl<const N: usize> Bitset<N> {
    /// The capacity fits the 64-bit storage word, with one position to
    /// spare so that `2^N` itself is representable.
    pub open spec fn capacity_ok() -> bool {
        1 <= N <= 63
    }

    /// Integer `i` is a member: it is in range and its bit is set.
    pub open spec fn spec_has(self, i: usize) -> bool {
        1 <= i <= N && nth_bit(self.0, (i - 1) as u64)
    }

    /// Well-formed: the capacity is valid and no bit at or above
    /// position `N` is set.
    pub open spec fn wf(self) -> bool {
        Self::capacity_ok() && self.0 == self.0 & low_mask(N as u64)
    }

    /// The set of every representable integer, `{1, ..., N}`.
    pub open spec fn all_members() -> Set<usize> {
        Set::new(|i: usize| 1 <= i <= N)
    }

    /// The members as a sequence in descending order.
    pub open spec fn members_ordered(self) -> Seq<usize> {
        members_from(self.0, N as nat)
    }

    /// The view is the members as a mathematical set; it equals the
    /// descending member sequence seen as a set, so it is finite and its
    /// cardinality is that sequence's length.
    pub proof fn lemma_view_model(self)
        requires
            self.wf(),
        ensures
            self@ == self.members_ordered().to_set(),
            self@.finite(),
            self@.len() == self.members_ordered().len(),
            self@.len() <= N,
    {
        lemma_members_from_facts(self.0, N as nat);
        let ms = self.members_ordered();
        assert(self@ =~= ms.to_set());
        ms.unique_seq_to_set();
    }

    /// Construct the empty set.
    pub fn none() -> (r: Self)
        requires
            Self::capacity_ok(),
        ensures
            r.wf(),
            r.0 == 0,
            r@ == Set::<usize>::empty(),
            r@.len() == 0,
    {
        let r = Bitset::<N>(0);
        proof {
            assert(0u64 == 0u64 & low_mask(N as u64)) by (bit_vector);
            assert forall|i: usize| !r.spec_has(i) by {
                if 1 <= i <= N {
                    lemma_nth_bit_zero((i - 1) as u64);
                }
            }
            assert(r@ =~= Set::<usize>::empty());
        }
        r
    }

    /// Construct the full set `{1, ..., N}`: exactly the low `N` bits
    /// set, i.e. the storage value `2^N - 1`.
    pub fn all() -> (r: Self)
        requires
            Self::capacity_ok(),
        ensures
            r.wf(),
            r.0 == low_mask(N as u64),
            r@ == Self::all_members(),
            r@.len() == N,
    {
        let n = N as u64;
        proof {
            assert(1u64 <= (1u64 << n)) by (bit_vector)
                requires
                    n <= 63,
            ;
        }
        let z = (1u64 << n) - 1;
        let r = Bitset::<N>(z);
        proof {
            assert(z == low_mask(n));
            assert(z == z & z) by (bit_vector);
            assert forall|i: usize| r.spec_has(i) <==> 1 <= i <= N by {
                if 1 <= i <= N {
                    lemma_mask_bits(n, (i - 1) as u64);
                }
            }
            assert(r@ =~= Self::all_members());
            r.lemma_view_model();
            lemma_members_from_full(n, N as nat);
        }
        r
    }

    /// Two well-formed sets with the same members hold the same storage
    /// word, so they are equal.  Rebuilding a set from its members
    /// therefore yields the set itself.
    pub proof fn lemma_view_injective(a: Self, b: Self)
        requires
            a.wf(),
            b.wf(),
            a@ == b@,
        ensures
            a == b,
    {
        let n = N as u64;
        assert forall|j: u64| j < n implies nth_bit(a.0, j) == nth_bit(b.0, j) by {
            let i = (j + 1) as usize;
            assert(1 <= i <= N && (i - 1) as u64 == j);
            lemma_view_has(a, i);
            lemma_view_has(b, i);
            assert(a@.contains(i) == b@.contains(i));
            assert(a.spec_has(i) == b.spec_has(i));
        }
        lemma_low_bits_eq(a.0, b.0, n);
    }

    /// The word-level difference test reads as the subset relation:
    /// removing the intersection with `b` from `a` leaves nothing
    /// exactly when every member of `a` is a member of `b`.
    pub proof fn lemma_diff_zero(a: Self, b: Self)
        requires
            a.wf(),
            b.wf(),
        ensures
            (a.0 - (a.0 & b.0) == 0) <==> a@.subset_of(b@),
    {
        let n = N as u64;
        lemma_diff_mask(a.0, b.0, n);
        let d = (a.0 - (a.0 & b.0)) as u64;
        if d == 0 {
            assert forall|i: usize| a@.contains(i) implies b@.contains(i) by {
                lemma_view_has(a, i);
                lemma_view_has(b, i);
                assert(1 <= i <= N);
                lemma_diff_bits(a.0, b.0, (i - 1) as u64);
                lemma_nth_bit_zero((i - 1) as u64);
            }
        } else {
            if forall|j: u64| j < n ==> !nth_bit(d, j) {
                lemma_all_clear_zero(d, n);
                assert(false);
            }
            let j = choose|j: u64| j < n && nth_bit(d, j);
            lemma_diff_bits(a.0, b.0, j);
            lemma_view_has(a, (j + 1) as usize);
            lemma_view_has(b, (j + 1) as usize);
            assert(a@.contains((j + 1) as usize) && !b@.contains((j + 1) as usize));
        }
    }

    /// The hand-written comparison is the subset partial order: `Less`
    /// means strict subset, `Greater` strict superset, `Equal` the same
    /// set, and `None` that neither contains the other.
    pub proof fn lemma_partial_cmp_subset(a: Self, b: Self)
        requires
            a.wf(),
            b.wf(),
        ensures
            a.partial_cmp_spec(&b) == Some(core::cmp::Ordering::Equal) <==> a == b,
            a.partial_cmp_spec(&b) == Some(core::cmp::Ordering::Less) <==> (a@.subset_of(b@) && a
                != b),
            a.partial_cmp_spec(&b) == Some(core::cmp::Ordering::Greater) <==> (b@.subset_of(a@)
                && a != b),
            a.partial_cmp_spec(&b) is None <==> (!a@.subset_of(b@) && !b@.subset_of(a@)),
    {
        Self::lemma_diff_zero(a, b);
        Self::lemma_diff_zero(b, a);
        if a@.subset_of(b@) && b@.subset_of(a@) {
            assert(a@ =~= b@);
            Self::lemma_view_injective(a, b);
        }
    }

    /// Construct the singleton set `{val}`.
    pub fn single(val: i64) -> (r: Self)
        requires
            Self::capacity_ok(),
            1 <= val <= N,
        ensures
            r.wf(),
            r@ == Set::<usize>::empty().insert(val as usize),
    {
        let b = (val - 1) as u64;
        let r = Bitset::<N>(1u64 << b);
        proof {
            let n = N as u64;
            assert forall|i: usize| r.spec_has(i) <==> i == val as usize by {
                if 1 <= i <= N {
                    lemma_one_hot(b, n, (i - 1) as u64);
                }
            }
            lemma_one_hot(b, n, 0);
            assert(r@ =~= Set::<usize>::empty().insert(val as usize));
        }
        r
    }

    /// Return the union of `self` and `other`: the members of either set.
    pub fn union(self, other: &Self) -> (r: Self)
        requires
            self.wf(),
            other.wf(),
        ensures
            r.wf(),
            r@ == self@.union(other@),
    {
        let r = Bitset::<N>(self.0 | other.0);
        proof {
            let n = N as u64;
            lemma_or_mask(self.0, other.0, n);
            assert forall|i: usize|
                r.spec_has(i) <==> (self.spec_has(i) || other.spec_has(i)) by {
                if 1 <= i <= N {
                    lemma_or_bits(self.0, other.0, (i - 1) as u64);
                }
            }
            assert(r@ =~= self@.union(other@));
        }
        r
    }

    /// Return the intersection of `self` and `other`: the members of
    /// both sets.
    pub fn intersection(self, other: &Self) -> (r: Self)
        requires
            self.wf(),
            other.wf(),
        ensures
            r.wf(),
            r@ == self@.intersect(other@),
    {
        let r = Bitset::<N>(self.0 & other.0);
        proof {
            let n = N as u64;
            lemma_and_mask(self.0, other.0, n);
            assert forall|i: usize|
                r.spec_has(i) <==> (self.spec_has(i) && other.spec_has(i)) by {
                if 1 <= i <= N {
                    lemma_and_bits(self.0, other.0, (i - 1) as u64);
                }
            }
            assert(r@ =~= self@.intersect(other@));
        }
        r
    }

    /// Return the difference of `self` and `other`: the members of
    /// `self` that are not members of `other`.  Computed by removing the
    /// intersection from `self`.
    pub fn difference(self, other: &Self) -> (r: Self)
        requires
            self.wf(),
            other.wf(),
        ensures
            r.wf(),
            r@ == self@.difference(other@),
    {
        proof {
            lemma_diff_mask(self.0, other.0, N as u64);
        }
        let r = Bitset::<N>(self.0 - (self.0 & other.0));
        proof {
            assert forall|i: usize|
                r.spec_has(i) <==> (self.spec_has(i) && !other.spec_has(i)) by {
                if 1 <= i <= N {
                    lemma_diff_bits(self.0, other.0, (i - 1) as u64);
                }
            }
            assert(r@ =~= self@.difference(other@));
        }
        r
    }

    /// Return the symmetric difference of `self` and `other`: the
    /// members of either set but not of both, i.e. the union minus the
    /// intersection.
    pub fn symmetric_difference(self, other: &Self) -> (r: Self)
        requires
            self.wf(),
            other.wf(),
        ensures
            r.wf(),
            r@ == self@.union(other@).difference(self@.intersect(other@)),
    {
        let u = self.union(other);
        let i = self.intersection(other);
        u.difference(&i)
    }

    /// Unite `self` with `other` in place.
    pub fn union_in_place(&mut self, other: &Self)
        requires
            old(self).wf(),
            other.wf(),
        ensures
            final(self).wf(),
            final(self)@ == old(self)@.union(other@),
    {
        *self = self.union(other);
    }

    /// Intersect `self` with `other` in place.
    pub fn intersect_in_place(&mut self, other: &Self)
        requires
            old(self).wf(),
            other.wf(),
        ensures
            final(self).wf(),
            final(self)@ == old(self)@.intersect(other@),
    {
        *self = self.intersection(other);
    }

    /// Remove the members of `other` from `self` in place.
    pub fn difference_in_place(&mut self, other: &Self)
        requires
            old(self).wf(),
            other.wf(),
        ensures
            final(self).wf(),
            final(self)@ == old(self)@.difference(other@),
    {
        *self = self.difference(other);
    }

    /// Do `self` and `other` have no members in common?
    pub fn is_disjoint(self, other: &Self) -> (r: bool)
        requires
            self.wf(),
            other.wf(),
        ensures
            r == self@.disjoint(other@),
    {
        let z = self.0 & other.0;
        let r = z == 0;
        proof {
            let n = N as u64;
            if z == 0 {
                assert forall|i: usize| !(self.spec_has(i) && other.spec_has(i)) by {
                    if 1 <= i <= N {
                        lemma_and_bits(self.0, other.0, (i - 1) as u64);
                        lemma_nth_bit_zero((i - 1) as u64);
                    }
                }
            } else {
                lemma_and_mask(self.0, other.0, n);
                assert forall|j: u64| j < n && nth_bit(z, j) implies (self.spec_has(
                    (j + 1) as usize,
                ) && other.spec_has((j + 1) as usize)) by {
                    lemma_and_bits(self.0, other.0, j);
                }
                if forall|j: u64| j < n ==> !nth_bit(z, j) {
                    lemma_all_clear_zero(z, n);
                    assert(false);
                }
                let j = choose|j: u64| j < n && nth_bit(z, j);
                assert(self@.contains((j + 1) as usize) && other@.contains((j + 1) as usize));
            }
        }
        r
    }

    /// Is every member of `self` a member of `other`?
    pub fn is_subset(self, other: &Self) -> (r: bool)
        requires
            self.wf(),
            other.wf(),
        ensures
            r == self@.subset_of(other@),
    {
        let d = self.difference(other);
        let r = d.0 == 0;
        proof {
            let n = N as u64;
            if d.0 == 0 {
                assert forall|i: usize| self@.contains(i) implies other@.contains(i) by {
                    assert(self.spec_has(i));
                    assert(1 <= i <= N);
                    lemma_nth_bit_zero((i - 1) as u64);
                    assert(!d.spec_has(i));
                    assert(!d@.contains(i));
                    assert(!self@.difference(other@).contains(i));
                }
            } else {
                if forall|j: u64| j < n ==> !nth_bit(d.0, j) {
                    lemma_all_clear_zero(d.0, n);
                    assert(false);
                }
                let j = choose|j: u64| j < n && nth_bit(d.0, j);
                assert(d@.contains((j + 1) as usize));
            }
        }
        r
    }

    /// Is every member of `other` a member of `self`?
    pub fn is_superset(self, other: &Self) -> (r: bool)
        requires
            self.wf(),
            other.wf(),
        ensures
            r == other@.subset_of(self@),
    {
        (*other).is_subset(&self)
    }

    /// Return `self` with `val` added.  A candidate outside `1..=N` is
    /// ignored: the set is returned unchanged.
    pub fn with(self, val: i64) -> (r: Self)
        requires
            self.wf(),
        ensures
            r.wf(),
            (1 <= val <= N) ==> r@ == self@.insert(val as usize),
            !(1 <= val <= N) ==> r == self,
            (1 <= val <= N && self@.contains(val as usize)) ==> r == self,
            (1 <= val <= N && !self@.contains(val as usize)) ==> r.0 != self.0,
    {
        if 1 <= val && val <= N as i64 {
            let b = (val - 1) as u64;
            let r = Bitset::<N>(self.0 | (1u64 << b));
            proof {
                let n = N as u64;
                lemma_setbit_mask(self.0, b, n);
                assert forall|i: usize|
                    r.spec_has(i) <==> (self.spec_has(i) || i == val as usize) by {
                    if 1 <= i <= N {
                        lemma_set_bit(self.0, b, (i - 1) as u64);
                    }
                }
                assert(r@ =~= self@.insert(val as usize));
                if self@.contains(val as usize) {
                    lemma_set_bit_noop(self.0, b);
                } else {
                    lemma_bit_absent(self.0, b);
                }
            }
            r
        } else {
            self
        }
    }

    /// Return `self` with `val` removed.  A candidate outside `1..=N`
    /// is ignored: the set is returned unchanged.
    pub fn without(self, val: i64) -> (r: Self)
        requires
            self.wf(),
        ensures
            r.wf(),
            (1 <= val <= N) ==> r@ == self@.remove(val as usize),
            !(1 <= val <= N) ==> r == self,
            (1 <= val <= N && !self@.contains(val as usize)) ==> r == self,
            (1 <= val <= N && self@.contains(val as usize)) ==> r.0 != self.0,
    {
        if 1 <= val && val <= N as i64 {
            let b = (val - 1) as u64;
            proof {
                lemma_diff_mask(self.0, 1u64 << b, N as u64);
            }
            let r = Bitset::<N>(self.0 - (self.0 & (1u64 << b)));
            proof {
                let n = N as u64;
                assert forall|i: usize|
                    r.spec_has(i) <==> (self.spec_has(i) && i != val as usize) by {
                    if 1 <= i <= N {
                        lemma_clear_bit(self.0, b, (i - 1) as u64);
                    }
                }
                assert(r@ =~= self@.remove(val as usize));
                if self@.contains(val as usize) {
                    lemma_bit_present(self.0, b);
                } else {
                    lemma_bit_absent(self.0, b);
                    assert(r.0 == self.0);
                }
            }
            r
        } else {
            self
        }
    }

    /// Add `val` to the set in place.  Returns whether the integer was
    /// newly inserted; a candidate outside `1..=N` changes nothing and
    /// reports no change.
    pub fn insert(&mut self, val: i64) -> (newly: bool)
        requires
            old(self).wf(),
        ensures
            final(self).wf(),
            (1 <= val <= N) ==> final(self)@ == old(self)@.insert(val as usize),
            !(1 <= val <= N) ==> *final(self) == *old(self),
            newly == (1 <= val <= N && !old(self)@.contains(val as usize)),
    {
        let before = self.0;
        *self = self.with(val);
        self.0 != before
    }

    /// Remove `val` from the set in place.  Returns whether the integer
    /// was a member; a candidate outside `1..=N` changes nothing and
    /// reports no change.
    pub fn remove(&mut self, val: &i64) -> (was_member: bool)
        requires
            old(self).wf(),
        ensures
            final(self).wf(),
            (1 <= *val <= N) ==> final(self)@ == old(self)@.remove(*val as usize),
            !(1 <= *val <= N) ==> *final(self) == *old(self),
            was_member == (1 <= *val <= N && old(self)@.contains(*val as usize)),
    {
        let before = self.0;
        *self = self.without(*val);
        self.0 != before
    }

    /// Add `val` to the set in place, reporting a conversion error for a
    /// candidate that cannot name an index (a negative one).  On success
    /// returns whether the integer was newly inserted; a non-negative
    /// candidate outside `1..=N` changes nothing and reports no change.
    pub fn try_insert(&mut self, val: i64) -> (r: Result<bool, ConversionError>)
        requires
            old(self).wf(),
        ensures
            final(self).wf(),
            val < 0 ==> r == Err::<bool, ConversionError>(ConversionError) && *final(self) == *old(
                self,
            ),
            val >= 0 ==> r == Ok::<bool, ConversionError>(
                1 <= val <= N && !old(self)@.contains(val as usize),
            ),
            (1 <= val <= N) ==> final(self)@ == old(self)@.insert(val as usize),
            !(1 <= val <= N) ==> *final(self) == *old(self),
    {
        if val < 0 {
            Err(ConversionError)
        } else {
            Ok(self.insert(val))
        }
    }

    /// Remove `val` from the set in place, reporting a conversion error
    /// for a candidate that cannot name an index (a negative one).  On
    /// success returns whether the integer was a member; a non-negative
    /// candidate outside `1..=N` changes nothing and reports no change.
    pub fn try_remove(&mut self, val: &i64) -> (r: Result<bool, ConversionError>)
        requires
            old(self).wf(),
        ensures
            final(self).wf(),
            *val < 0 ==> r == Err::<bool, ConversionError>(ConversionError) && *final(self) == *old(
                self,
            ),
            *val >= 0 ==> r == Ok::<bool, ConversionError>(
                1 <= *val <= N && old(self)@.contains(*val as usize),
            ),
            (1 <= *val <= N) ==> final(self)@ == old(self)@.remove(*val as usize),
            !(1 <= *val <= N) ==> *final(self) == *old(self),
    {
        if *val < 0 {
            Err(ConversionError)
        } else {
            Ok(self.remove(val))
        }
    }

    /// Clear the set, removing every member.
    pub fn clear(&mut self)
        requires
            old(self).wf(),
        ensures
            final(self).wf(),
            final(self).0 == 0,
            final(self)@ == Set::<usize>::empty(),
    {
        *self = Bitset::<N>(0);
        proof {
            assert(0u64 == 0u64 & low_mask(N as u64)) by (bit_vector);
            assert forall|i: usize| !self.spec_has(i) by {
                if 1 <= i <= N {
                    lemma_nth_bit_zero((i - 1) as u64);
                }
            }
            assert(self@ =~= Set::<usize>::empty());
        }
    }

    /// Is the set empty?
    pub fn is_empty(self) -> (r: bool)
        requires
            self.wf(),
        ensures
            r == (self@ == Set::<usize>::empty()),
            r == (self@.len() == 0),
    {
        let r = self.0 == 0;
        proof {
            let n = N as u64;
            self.lemma_view_model();
            if self.0 == 0 {
                assert forall|i: usize| !self.spec_has(i) by {
                    if 1 <= i <= N {
                        lemma_nth_bit_zero((i - 1) as u64);
                    }
                }
                assert(self@ =~= Set::<usize>::empty());
            } else {
                if forall|j: u64| j < n ==> !nth_bit(self.0, j) {
                    lemma_all_clear_zero(self.0, n);
                    assert(false);
                }
                let j = choose|j: u64| j < n && nth_bit(self.0, j);
                assert(self@.contains((j + 1) as usize));
                assert(self@ != Set::<usize>::empty());
                if self@.len() == 0 {
                    self@.lemma_len0_is_empty();
                }
            }
        }
        r
    }

    /// Is the set full, containing every integer in `1..=N`?
    pub fn is_full(self) -> (r: bool)
        requires
            self.wf(),
        ensures
            r == (self@ == Self::all_members()),
    {
        let a = Self::all();
        let r = self.0 == a.0;
        proof {
            if self.0 == a.0 {
                assert(self@ =~= a@);
            }
            if self@ == Self::all_members() {
                Self::lemma_view_injective(self, a);
            }
        }
        r
    }

    /// Does the set contain `val`?  A candidate outside `1..=N` (in
    /// particular a non-positive one) is never a member.
    pub fn has(self, val: i64) -> (r: bool)
        requires
            self.wf(),
        ensures
            r == (1 <= val <= N && self@.contains(val as usize)),
    {
        if 1 <= val && val <= N as i64 {
            let b = (val - 1) as u64;
            (self.0 >> b) & 1 == 1
        } else {
            false
        }
    }

    /// Does the set contain `val`?  Borrowing form of `has`.
    pub fn contains(self, val: &i64) -> (r: bool)
        requires
            self.wf(),
        ensures
            r == (1 <= *val <= N && self@.contains(*val as usize)),
    {
        self.has(*val)
    }

    /// The members named by a list of candidates: those in `1..=N`.
    pub open spec fn from_members(elems: Seq<i64>) -> Set<usize> {
        Set::new(|m: usize| 1 <= m <= N && elems.contains(m as i64))
    }

    /// The members of the inclusive range `lo..=hi` clamped to `1..=N`.
    pub open spec fn range_members(lo: i64, hi: i64) -> Set<usize> {
        Set::new(|m: usize| 1 <= m <= N && lo <= m <= hi)
    }

    /// Construct a set from a list of candidate elements, keeping those
    /// in `1..=N` and silently dropping the rest.
    pub fn from(elems: &[i64]) -> (r: Self)
        requires
            Self::capacity_ok(),
        ensures
            r.wf(),
            r@ == Self::from_members(elems@),
    {
        let mut r = Self::none();
        proof {
            assert(r@ =~= Self::from_members(elems@.take(0)));
        }
        let mut t: usize = 0;
        while t < elems.len()
            invariant
                Self::capacity_ok(),
                r.wf(),
                t <= elems@.len(),
                r@ == Self::from_members(elems@.take(t as int)),
            decreases elems@.len() - t,
        {
            let e = elems[t];
            let ghost prev = r@;
            r = r.with(e);
            proof {
                let s0 = elems@.take(t as int);
                let s1 = elems@.take(t as int + 1);
                assert forall|v: i64| #[trigger]
                    s1.contains(v) <==> (s0.contains(v) || v == elems@[t as int]) by {
                    if s1.contains(v) {
                        let idx = choose|idx: int| 0 <= idx < s1.len() && s1[idx] == v;
                        if idx < t as int {
                            assert(s0[idx] == v);
                        }
                    }
                    if s0.contains(v) {
                        let idx = choose|idx: int| 0 <= idx < s0.len() && s0[idx] == v;
                        assert(s1[idx] == v);
                    }
                    if v == elems@[t as int] {
                        assert(s1[t as int] == v);
                    }
                }
                assert(r@ =~= Self::from_members(s1));
            }
            t = t + 1;
        }
        proof {
            assert(elems@.take(elems@.len() as int) == elems@);
        }
        r
    }

    /// Construct a set from the inclusive range `lo..=hi`, keeping the
    /// part of the range that lies in `1..=N` and silently dropping the
    /// rest.
    pub fn from_range(lo: i64, hi: i64) -> (r: Self)
        requires
            Self::capacity_ok(),
        ensures
            r.wf(),
            r@ == Self::range_members(lo, hi),
    {
        let mut r = Self::none();
        let mut e: i64 = if lo < 1 {
            1
        } else {
            lo
        };
        let top: i64 = if hi > N as i64 {
            N as i64
        } else {
            hi
        };
        proof {
            assert(r@ =~= Set::new(
                |m: usize| 1 <= m <= N && lo <= m <= hi && (m as i64) < e,
            ));
        }
        while e <= top
            invariant
                Self::capacity_ok(),
                r.wf(),
                1 <= e,
                e >= lo,
                top <= N,
                top <= hi,
                r@ == Set::new(|m: usize| 1 <= m <= N && lo <= m <= hi && (m as i64) < e),
            decreases top + 1 - e,
        {
            r = r.with(e);
            proof {
                assert(r@ =~= Set::new(
                    |m: usize| 1 <= m <= N && lo <= m <= hi && (m as i64) < e + 1,
                ));
            }
            e = e + 1;
        }
        proof {
            assert(r@ =~= Self::range_members(lo, hi));
        }
        r
    }

    /// How many integers are in the set?  Counts the set bits by
    /// scanning from the highest position down.
    pub fn len(self) -> (r: usize)
        requires
            self.wf(),
        ensures
            r == self@.len(),
    {
        let mut out: usize = 0;
        let mut residue: u64 = self.0;
        let mut power_of_2: u64 = 1u64 << ((N - 1) as u64);
        let mut i: usize = N;
        proof {
            lemma_members_from_facts(self.0, N as nat);
        }
        while i >= 1
            invariant
                self.wf(),
                i <= N,
                residue == self.0 & low_mask(i as u64),
                power_of_2 == if i >= 1 {
                    1u64 << ((i - 1) as u64)
                } else {
                    0u64
                },
                out + members_from(self.0, i as nat).len() == self.members_ordered().len(),
                self.members_ordered().len() <= N,
            decreases i,
        {
            proof {
                lemma_scan_step(self.0, i as u64);
            }
            if residue >= power_of_2 {
                residue = residue - power_of_2;
                out = out + 1;
            }
            power_of_2 = power_of_2 >> 1u64;
            i = i - 1;
        }
        proof {
            self.lemma_view_model();
        }
        out
    }

    /// Does the set contain exactly one integer?
    pub fn is_single(self) -> (r: bool)
        requires
            self.wf(),
        ensures
            r == (self@.len() == 1),
    {
        self.len() == 1
    }

    /// The smallest member, or `None` if the set is empty.
    pub fn minimum(self) -> (r: Option<usize>)
        requires
            self.wf(),
        ensures
            self@.len() == 0 ==> r is None,
            self@.len() != 0 ==> (r matches Some(m) && self@.contains(m) && forall|j: usize|
                self@.contains(j) ==> m <= j),
    {
        let mut i: usize = 1;
        while i <= N
            invariant
                self.wf(),
                1 <= i <= N + 1,
                forall|j: usize| j < i ==> !self@.contains(j),
            decreases N + 1 - i,
        {
            if (self.0 >> ((i - 1) as u64)) & 1 == 1 {
                proof {
                    assert(self@.contains(i));
                    self.lemma_view_model();
                    if self@.len() == 0 {
                        self@.lemma_len0_is_empty();
                    }
                }
                return Some(i);
            }
            i = i + 1;
        }
        proof {
            assert forall|j: usize| !self@.contains(j) by {
                if 1 <= j <= N {
                    assert(j < i);
                }
            }
            assert(self@ =~= Set::<usize>::empty());
        }
        None
    }

    /// The largest member, or `None` if the set is empty.
    pub fn maximum(self) -> (r: Option<usize>)
        requires
            self.wf(),
        ensures
            self@.len() == 0 ==> r is None,
            self@.len() != 0 ==> (r matches Some(m) && self@.contains(m) && forall|j: usize|
                self@.contains(j) ==> j <= m),
    {
        let mut i: usize = N;
        while i >= 1
            invariant
                self.wf(),
                i <= N,
                forall|j: usize| j > i ==> !self@.contains(j),
            decreases i,
        {
            if (self.0 >> ((i - 1) as u64)) & 1 == 1 {
                proof {
                    assert(self@.contains(i));
                    self.lemma_view_model();
                    if self@.len() == 0 {
                        self@.lemma_len0_is_empty();
                    }
                }
                return Some(i);
            }
            i = i - 1;
        }
        proof {
            assert forall|j: usize| !self@.contains(j) by {
                if 1 <= j <= N {
                    assert(j > i);
                }
            }
            assert(self@ =~= Set::<usize>::empty());
        }
        None
    }

    /// The sole member of a singleton set, or `None` for an empty or
    /// multi-member set.
    pub fn only(self) -> (r: Option<usize>)
        requires
            self.wf(),
        ensures
            self@.len() == 1 ==> (r matches Some(m) && self@.contains(m)),
            self@.len() != 1 ==> r is None,
    {
        if self.is_single() {
            self.minimum()
        } else {
            None
        }
    }

    /// The members as a vector in descending numeric order.
    pub fn members_desc(self) -> (r: Vec<usize>)
        requires
            self.wf(),
        ensures
            r@ == self.members_ordered(),
            r@.len() == self@.len(),
            forall|x: usize| #[trigger] r@.contains(x) <==> self@.contains(x),
            forall|a: int, b: int| 0 <= a < b < r@.len() ==> r@[a] > r@[b],
    {
        let mut out: Vec<usize> = Vec::new();
        let mut residue: u64 = self.0;
        let mut power_of_2: u64 = 1u64 << ((N - 1) as u64);
        let mut i: usize = N;
        while i >= 1
            invariant
                self.wf(),
                i <= N,
                residue == self.0 & low_mask(i as u64),
                power_of_2 == if i >= 1 {
                    1u64 << ((i - 1) as u64)
                } else {
                    0u64
                },
                out@ + members_from(self.0, i as nat) == self.members_ordered(),
            decreases i,
        {
            proof {
                lemma_scan_step(self.0, i as u64);
            }
            if residue >= power_of_2 {
                residue = residue - power_of_2;
                out.push(i);
                proof {
                    assert((out@ + members_from(self.0, (i - 1) as nat)) =~= (out@.drop_last()
                        + (seq![i] + members_from(self.0, (i - 1) as nat))));
                }
            }
            power_of_2 = power_of_2 >> 1u64;
            i = i - 1;
        }
        proof {
            assert(out@ + members_from(self.0, 0) =~= out@);
            lemma_members_from_facts(self.0, N as nat);
            self.lemma_view_model();
            assert forall|x: usize| #[trigger] out@.contains(x) <==> self@.contains(x) by {
                lemma_view_has(self, x);
            }
        }
        out
    }

    /// The members as a vector in ascending numeric order: the reverse
    /// of the descending order.
    pub fn members_asc(self) -> (r: Vec<usize>)
        requires
            self.wf(),
        ensures
            r@ == self.members_ordered().reverse(),
            r@.len() == self@.len(),
            forall|x: usize| #[trigger] r@.contains(x) <==> self@.contains(x),
            forall|a: int, b: int| 0 <= a < b < r@.len() ==> r@[a] < r@[b],
    {
        let mut out: Vec<usize> = Vec::new();
        let mut i: usize = 1;
        proof {
            assert(out@ =~= members_from(self.0, 0).reverse());
        }
        while i <= N
            invariant
                self.wf(),
                1 <= i <= N + 1,
                out@ == members_from(self.0, (i - 1) as nat).reverse(),
            decreases N + 1 - i,
        {
            if (self.0 >> ((i - 1) as u64)) & 1 == 1 {
                out.push(i);
                proof {
                    assert(members_from(self.0, i as nat) == seq![i] + members_from(
                        self.0,
                        (i - 1) as nat,
                    ));
                    assert(out@ =~= members_from(self.0, i as nat).reverse());
                }
            } else {
                proof {
                    assert(members_from(self.0, i as nat) == members_from(self.0, (i - 1) as nat));
                }
            }
            i = i + 1;
        }
        proof {
            lemma_members_from_facts(self.0, N as nat);
            self.lemma_view_model();
            let ms = self.members_ordered();
            assert forall|x: usize| #[trigger] out@.contains(x) <==> self@.contains(x) by {
                lemma_view_has(self, x);
                assert(out@.contains(x) <==> ms.reverse().contains(x));
                assert forall|v: usize| #[trigger] ms.reverse().contains(v) <==> ms.contains(v) by {
                    if ms.reverse().contains(v) {
                        let idx = choose|idx: int| 0 <= idx < ms.reverse().len() && ms.reverse()[idx]
                            == v;
                        assert(ms[ms.len() - 1 - idx] == v);
                    }
                    if ms.contains(v) {
                        let idx = choose|idx: int| 0 <= idx < ms.len() && ms[idx] == v;
                        assert(ms.reverse()[ms.len() - 1 - idx] == v);
                    }
                }
            }
            assert forall|a: int, b: int| 0 <= a < b < out@.len() implies out@[a] < out@[b] by {
                let la = ms.len() - 1 - a;
                let lb = ms.len() - 1 - b;
                assert(ms[lb] > ms[la]);
            }
        }
        out
    }

    /// The members as an unordered hash set.
    pub fn members(self) -> (r: HashSet<usize>)
        requires
            self.wf(),
        ensures
            r@ == self@,
    {
        let mut out: HashSet<usize> = HashSet::new();
        let mut i: usize = N;
        proof {
            assert(out@ =~= Set::new(|j: usize| self.spec_has(j) && i < j));
        }
        while i >= 1
            invariant
                self.wf(),
                i <= N,
                out@ == Set::new(|j: usize| self.spec_has(j) && i < j),
            decreases i,
        {
            if (self.0 >> ((i - 1) as u64)) & 1 == 1 {
                out.insert(i);
                proof {
                    assert(out@ =~= Set::new(|j: usize| self.spec_has(j) && i - 1 < j));
                }
            } else {
                proof {
                    assert(out@ =~= Set::new(|j: usize| self.spec_has(j) && i - 1 < j));
                }
            }
            i = i - 1;
        }
        proof {
            assert(out@ =~= self@);
        }
        out
    }

    /// Keep only the members satisfying `predicate`, in place: scan the
    /// set bits from the high end down and rebuild the word from the
    /// members the predicate accepts.
    ///
    /// Every member the result keeps was accepted by the predicate, and
    /// every member it drops was rejected by it.
    pub fn retain<F: Fn(usize) -> bool>(&mut self, predicate: F)
        requires
            old(self).wf(),
            forall|j: usize| old(self)@.contains(j) ==> call_requires(predicate, (j,)),
        ensures
            final(self).wf(),
            final(self)@.subset_of(old(self)@),
            forall|j: usize| #[trigger]
                final(self)@.contains(j) ==> old(self)@.contains(j) && call_ensures(
                    predicate,
                    (j,),
                    true,
                ),
            forall|j: usize|
                old(self)@.contains(j) && !final(self)@.contains(j) ==> call_ensures(
                    predicate,
                    (j,),
                    false,
                ),
    {
        let ghost s0 = *self;
        let bits = self.0;
        let mut res: u64 = 0;
        let mut residue: u64 = bits;
        let mut power_of_2: u64 = 1u64 << ((N - 1) as u64);
        let mut i: usize = N;
        proof {
            assert(0u64 == 0u64 & low_mask(N as u64)) by (bit_vector);
            assert forall|k: u64| !nth_bit(0u64, k) by {
                lemma_nth_bit_zero(k);
            }
        }
        while i >= 1
            invariant
                s0.wf(),
                s0.0 == bits,
                forall|j: usize| s0@.contains(j) ==> call_requires(predicate, (j,)),
                i <= N,
                residue == bits & low_mask(i as u64),
                power_of_2 == if i >= 1 {
                    1u64 << ((i - 1) as u64)
                } else {
                    0u64
                },
                res == res & low_mask(N as u64),
                forall|k: u64|
                    k < 64 && #[trigger] nth_bit(res, k) ==> (i <= k < N && nth_bit(bits, k)
                        && call_ensures(predicate, ((k + 1) as usize,), true)),
                forall|j: usize|
                    i < j <= N && nth_bit(bits, (j - 1) as u64) && !nth_bit(res, (j - 1) as u64)
                        ==> call_ensures(predicate, (j,), false),
            decreases i,
        {
            proof {
                lemma_scan_step(bits, i as u64);
            }
            if residue >= power_of_2 {
                residue = residue - power_of_2;
                proof {
                    lemma_view_has(s0, i);
                    assert(s0@.contains(i));
                }
                if predicate(i) {
                    proof {
                        assert(!nth_bit(res, (i - 1) as u64));
                        lemma_add_bit(res, (i - 1) as u64);
                        lemma_setbit_mask(res, (i - 1) as u64, N as u64);
                    }
                    let ghost res_old = res;
                    res = res + power_of_2;
                    proof {
                        assert(res == res_old | (1u64 << ((i - 1) as u64)));
                        assert forall|k: u64| k < 64 implies #[trigger] nth_bit(res, k) == (
                        nth_bit(res_old, k) || k == (i - 1) as u64) by {
                            lemma_set_bit(res_old, (i - 1) as u64, k);
                        }
                    }
                }
            }
            power_of_2 = power_of_2 >> 1u64;
            i = i - 1;
        }
        *self = Bitset::<N>(res);
        proof {
            assert forall|j: usize| #[trigger]
                self@.contains(j) implies s0@.contains(j) && call_ensures(
                predicate,
                (j,),
                true,
            ) by {
                lemma_view_has(*self, j);
                lemma_view_has(s0, j);
                assert(nth_bit(res, (j - 1) as u64));
                assert((((j - 1) as u64) + 1) as usize == j);
            }
            assert forall|j: usize|
                s0@.contains(j) && !self@.contains(j) implies call_ensures(
                predicate,
                (j,),
                false,
            ) by {
                lemma_view_has(*self, j);
                lemma_view_has(s0, j);
            }
        }
    }

    /// The set rendered as text: its members in ascending order,
    /// between braces.
    pub open spec fn rendered(self) -> Seq<char> {
        "Bitset {"@ + rendered_members(self.members_ordered().reverse()) + "}"@
    }

    /// Render the set for humans: its members in ascending order,
    /// between braces.
    pub fn render(self) -> (r: String)
        requires
            self.wf(),
        ensures
            r@ == self.rendered(),
    {
        let ms = self.members_asc();
        let mut out = String::new();
        out.append("Bitset {");
        let mut t: usize = 0;
        proof {
            assert(out@ =~= "Bitset {"@ + rendered_members(ms@.take(0)));
        }
        while t < ms.len()
            invariant
                t <= ms@.len(),
                out@ == "Bitset {"@ + rendered_members(ms@.take(t as int)),
            decreases ms@.len() - t,
        {
            if t > 0 {
                out.append(", ");
            }
            push_decimal(&mut out, ms[t] as u64);
            proof {
                reveal_strlit(", ");
                let s1 = ms@.take(t as int + 1);
                assert(s1.drop_last() =~= ms@.take(t as int));
                assert(s1.last() == ms@[t as int]);
                assert((ms@[t as int] as u64) as nat == ms@[t as int] as nat);
                if t == 0 {
                    assert(rendered_members(s1) == decimal_digits(ms@[0] as nat));
                } else {
                    assert(", "@ =~= seq![',', ' ']);
                    assert(rendered_members(s1) == rendered_members(ms@.take(t as int)) + seq![
                        ',',
                        ' ',
                    ] + decimal_digits(ms@[t as int] as nat));
                }
                assert(out@ =~= "Bitset {"@ + rendered_members(s1));
            }
            t = t + 1;
        }
        out.append("}");
        proof {
            assert(ms@.take(ms@.len() as int) == ms@);
            assert(out@ =~= self.rendered());
        }
        out
    }

    /// Intersect `self` with `other` in place, guarding against an
    /// empty result: if the intersection would be empty, leave `self`
    /// unchanged and return a descriptive error instead of committing.
    pub fn intersect_nonempty(&mut self, other: Self) -> (r: Result<(), EmptiedBitsetError>)
        requires
            old(self).wf(),
            other.wf(),
        ensures
            final(self).wf(),
            r is Err <==> old(self)@.intersect(other@) == Set::<usize>::empty(),
            r is Err ==> *final(self) == *old(self),
            r is Ok ==> final(self)@ == old(self)@.intersect(other@),
            r matches Err(e) ==> e.0@ == "intersecting `"@ + old(self).rendered() + "` and `"@
                + other.rendered() + "` resulted in empty bitset"@,
    {
        let intersect = self.intersection(&other);
        if intersect.is_empty() {
            let cur = *self;
            let mut msg = String::new();
            msg.append("intersecting `");
            msg.append(cur.render().as_str());
            msg.append("` and `");
            msg.append(other.render().as_str());
            msg.append("` resulted in empty bitset");
            proof {
                assert(msg@ =~= "intersecting `"@ + cur.rendered() + "` and `"@ + other.rendered()
                    + "` resulted in empty bitset"@);
            }
            Err(EmptiedBitsetError(msg))
        } else {
            *self = intersect;
            Ok(())
        }
    }

    /// Intersect `self` with `other` in place, for call sites that
    /// treat an emptied set as a programming error: the caller must
    /// show the intersection is non-empty.
    pub fn intersect_nonempty_panicking(&mut self, other: Self)
        requires
            old(self).wf(),
            other.wf(),
            old(self)@.intersect(other@) != Set::<usize>::empty(),
        ensures
            final(self).wf(),
            final(self)@ == old(self)@.intersect(other@),
    {
        let r = self.intersect_nonempty(other);
        match r {
            Ok(u) => u,
            Err(_) => unreached(),
        }
    }

    /// What removing `val` leaves: the set without `val` when `val` is
    /// in range, the set unchanged otherwise.
    pub open spec fn removed_members(self, val: i64) -> Set<usize> {
        if 1 <= val <= N {
            self@.remove(val as usize)
        } else {
            self@
        }
    }

    /// Remove `val` from the set in place, guarding against an empty
    /// result: report a conversion error for a negative candidate, and
    /// if the removal would leave the set empty, leave `self` unchanged
    /// and return a descriptive error instead of committing.
    pub fn remove_nonempty(&mut self, val: i64) -> (r: Result<(), RemoveError>)
        requires
            old(self).wf(),
        ensures
            final(self).wf(),
            val < 0 ==> (r matches Err(RemoveError::Conversion(_)) && *final(self) == *old(self)),
            (val >= 0 && old(self).removed_members(val) == Set::<usize>::empty()) ==> (r matches Err(
                RemoveError::Emptied(_),
            ) && *final(self) == *old(self)),
            (val >= 0 && old(self).removed_members(val) != Set::<usize>::empty()) ==> (r is Ok
                && final(self)@ == old(self).removed_members(val)),
            r matches Err(RemoveError::Emptied(e)) ==> e.0@ == "removing `"@ + decimal_digits(
                val as nat,
            ) + "` from `"@ + old(self).rendered() + "` resulted in empty bitset"@,
    {
        if val < 0 {
            return Err(RemoveError::Conversion(ConversionError));
        }
        let diff = self.without(val);
        if diff.is_empty() {
            let cur = *self;
            let mut msg = String::new();
            msg.append("removing `");
            push_decimal(&mut msg, val as u64);
            msg.append("` from `");
            msg.append(cur.render().as_str());
            msg.append("` resulted in empty bitset");
            proof {
                assert(val as nat == (val as u64) as nat);
                assert(msg@ =~= "removing `"@ + decimal_digits(val as nat) + "` from `"@
                    + cur.rendered() + "` resulted in empty bitset"@);
            }
            Err(RemoveError::Emptied(EmptiedBitsetError(msg)))
        } else {
            *self = diff;
            Ok(())
        }
    }

    /// Remove `val` from the set in place, for call sites that treat an
    /// emptied set or an unconvertible candidate as a programming
    /// error: the caller must show the candidate is an index and that
    /// something remains after the removal.
    pub fn remove_nonempty_panicking(&mut self, val: i64)
        requires
            old(self).wf(),
            val >= 0,
            old(self).removed_members(val) != Set::<usize>::empty(),
        ensures
            final(self).wf(),
            final(self)@ == old(self).removed_members(val),
    {
        let r = self.remove_nonempty(val);
        match r {
            Ok(u) => u,
            Err(_) => unreached(),
        }
    }

    /// Keep only the members satisfying `predicate`, guarding against
    /// an empty result: if nothing would remain, leave `self` unchanged
    /// and return a descriptive error instead of committing.
    pub fn retain_nonempty<F: Fn(usize) -> bool>(&mut self, predicate: F) -> (r: Result<
        (),
        EmptiedBitsetError,
    >)
        requires
            old(self).wf(),
            forall|j: usize| old(self)@.contains(j) ==> call_requires(predicate, (j,)),
        ensures
            final(self).wf(),
            r is Err ==> *final(self) == *old(self),
            r is Err ==> forall|j: usize|
                old(self)@.contains(j) ==> call_ensures(predicate, (j,), false),
            r is Ok ==> (final(self)@.subset_of(old(self)@) && final(self)@
                != Set::<usize>::empty() && (forall|j: usize| #[trigger]
                final(self)@.contains(j) ==> old(self)@.contains(j) && call_ensures(
                    predicate,
                    (j,),
                    true,
                )) && (forall|j: usize|
                old(self)@.contains(j) && !final(self)@.contains(j) ==> call_ensures(
                    predicate,
                    (j,),
                    false,
                ))),
    {
        let mut copy = *self;
        copy.retain(predicate);
        if copy.is_empty() {
            let mut msg = String::new();
            msg.append("matching elements of `");
            msg.append(copy.render().as_str());
            msg.append("` against predicate resulted in empty bitset");
            Err(EmptiedBitsetError(msg))
        } else {
            *self = copy;
            Ok(())
        }
    }

    /// Keep only the members satisfying `predicate`, for call sites
    /// that treat an emptied set as a programming error: the caller
    /// must show that the predicate keeps at least one member.
    pub fn retain_nonempty_panicking<F: Fn(usize) -> bool>(&mut self, predicate: F)
        requires
            old(self).wf(),
            forall|j: usize| old(self)@.contains(j) ==> call_requires(predicate, (j,)),
            exists|j: usize|
                old(self)@.contains(j) && !call_ensures(predicate, (j,), false),
        ensures
            final(self).wf(),
            final(self)@.subset_of(old(self)@),
            final(self)@ != Set::<usize>::empty(),
            forall|j: usize| #[trigger]
                final(self)@.contains(j) ==> old(self)@.contains(j) && call_ensures(
                    predicate,
                    (j,),
                    true,
                ),
            forall|j: usize|
                old(self)@.contains(j) && !final(self)@.contains(j) ==> call_ensures(
                    predicate,
                    (j,),
                    false,
                ),
    {
        let r = self.retain_nonempty(predicate);
        match r {
            Ok(u) => u,
            Err(_) => {
                proof {
                    let j = choose|j: usize|
                        old(self)@.contains(j) && !call_ensures(predicate, (j,), false);
                    assert(call_ensures(predicate, (j,), false));
                }
                unreached()
            },
        }
    }

    /// An iterator over the members in descending order.
    pub fn iter(self) -> (it: BitsetIterator<N>)
        requires
            self.wf(),
        ensures
            it.wf(),
            it.remaining() == self.members_ordered(),
    {
        BitsetIterator { i: N + 1, residue: self.0, power_of_2: 1u64 << ((N - 1) as u64) }
    }
}

impl<const N: usize> vstd::std_specs::cmp::PartialOrdSpecImpl for Bitset<N> {
    open spec fn obeys_partial_cmp_spec() -> bool {
        true
    }

    /// Comparison means subset ordering: `Less` when `self` is a strict
    /// subset of `other` (no bit of `self` outside `other`), `Greater`
    /// for the converse, `Equal` for the same word, and `None` when the
    /// sets are incomparable.
    open spec fn partial_cmp_spec(&self, other: &Self) -> Option<core::cmp::Ordering> {
        if self.0 == other.0 {
            Some(core::cmp::Ordering::Equal)
        } else if self.0 - (self.0 & other.0) == 0 {
            Some(core::cmp::Ordering::Less)
        } else if other.0 - (other.0 & self.0) == 0 {
            Some(core::cmp::Ordering::Greater)
        } else {
            None
        }
    }
}

impl<const N: usize> PartialOrd for Bitset<N> {
    /// Compare by the subset relation: `self <= other` exactly when
    /// every member of `self` is a member of `other`.
    fn partial_cmp(&self, other: &Self) -> (r: Option<core::cmp::Ordering>) {
        proof {
            lemma_diff_bits(self.0, other.0, 0);
            lemma_diff_bits(other.0, self.0, 0);
        }
        if self.0 == other.0 {
            Some(core::cmp::Ordering::Equal)
        } else if self.0 - (self.0 & other.0) == 0 {
            Some(core::cmp::Ordering::Less)
        } else if other.0 - (other.0 & self.0) == 0 {
            Some(core::cmp::Ordering::Greater)
        } else {
            None
        }
    }
}

impl<const N: usize> Default for Bitset<N> {
    /// The default value is the empty set.
    fn default() -> (r: Self)
        ensures
            r.0 == 0,
            r@ == Set::<usize>::empty(),
    {
        let r = Bitset::<N>(0);
        proof {
            assert forall|i: usize| !r.spec_has(i) by {
                if 1 <= i <= N {
                    lemma_nth_bit_zero((i - 1) as u64);
                }
            }
            assert(r@ =~= Set::<usize>::empty());
        }
        r
    }
}

/// Transient iteration state over a snapshot of a `Bitset`'s word: a
/// descending cursor, the residual bits not yet reported, and the
/// power-of-two probe for the bit under the cursor.
#[derive(Clone, Copy)]
pub struct BitsetIterator<const N: usize> {
    i: usize,
    residue: u64,
    power_of_2: u64,
}

impl<const N: usize> BitsetIterator<N> {
    /// Well-formed iteration state: the cursor is in range, the residue
    /// holds only bits below the cursor, and the probe is the
    /// power-of-two for the bit just under the cursor.
    pub closed spec fn wf(self) -> bool {
        &&& 1 <= N <= 63
        &&& 1 <= self.i <= N + 1
        &&& self.residue == self.residue & low_mask((self.i - 1) as u64)
        &&& self.power_of_2 == if self.i >= 2 {
            1u64 << ((self.i - 2) as u64)
        } else {
            0u64
        }
    }

    /// The members not yet produced, in the order they will come:
    /// descending.
    pub closed spec fn remaining(self) -> Seq<usize> {
        members_from(self.residue, (self.i - 1) as nat)
    }

    /// Produce the next member: the largest not yet produced, or `None`
    /// once every member has been reported.
    pub fn next(&mut self) -> (r: Option<usize>)
        requires
            old(self).wf(),
        ensures
            final(self).wf(),
            old(self).remaining().len() == 0 ==> (r is None && final(self).remaining().len() == 0),
            old(self).remaining().len() > 0 ==> (r == Some(old(self).remaining()[0])
                && final(self).remaining() == old(self).remaining().drop_first()),
    {
        let ghost it0 = *self;
        while self.i > 1
            invariant
                self.wf(),
                it0.wf(),
                it0 == *old(self),
                self.remaining() == it0.remaining(),
            decreases self.i,
        {
            proof {
                lemma_scan_step(self.residue, (self.i - 1) as u64);
                lemma_mask_idem(self.residue, (self.i - 2) as u64);
            }
            let idx = self.i - 1;
            if self.residue >= self.power_of_2 {
                let ghost rold = self.residue;
                self.residue = self.residue - self.power_of_2;
                self.power_of_2 = self.power_of_2 >> 1u64;
                self.i = idx;
                proof {
                    lemma_members_from_same(self.residue, rold, (idx - 1) as nat);
                    assert(it0 == *old(self));
                    assert(it0.remaining() == seq![idx] + self.remaining());
                    assert(it0.remaining().len() > 0);
                    assert(it0.remaining()[0] == idx);
                    assert((seq![idx] + self.remaining()).drop_first() =~= self.remaining());
                    assert(it0.remaining().drop_first() == self.remaining());
                }
                return Some(idx);
            }
            self.power_of_2 = self.power_of_2 >> 1u64;
            self.i = idx;
        }
        None
    }
}

} // verus!
