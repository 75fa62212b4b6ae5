//! Bit-level model of the set representation.
//!
//! A storage word `x: u64` encodes a subset of `1..=N`: bit `i - 1`
//! flags membership of the integer `i`.  This module defines the spec
//! functions that read that encoding and the lemmas that connect the
//! word-level operations to it.

use vstd::prelude::*;

verus! {

/// True when bit `k` of `x` is set.
pub open spec fn nth_bit(x: u64, k: u64) -> bool {
    (x >> k) & 1u64 == 1u64
}

/// The word whose low `k` bits are set and all others clear, for `k <= 63`.
pub open spec fn low_mask(k: u64) -> u64 {
    ((1u64 << k) - 1) as u64
}

/// The members encoded by the low `k` bits of `x`, largest first.
pub open spec fn members_from(x: u64, k: nat) -> Seq<usize>
    decreases k,
{
    if k == 0 {
        Seq::empty()
    } else if nth_bit(x, (k - 1) as u64) {
        seq![k as usize] + members_from(x, (k - 1) as nat)
    } else {
        members_from(x, (k - 1) as nat)
    }
}

/// The zero word has no bit set.
pub proof fn lemma_nth_bit_zero(k: u64)
    ensures
        !nth_bit(0, k),
{
    assert((0u64 >> k) & 1u64 != 1u64) by (bit_vector);
}

/// The low mask has exactly the bits below `n` set.
pub proof fn lemma_mask_bits(n: u64, k: u64)
    requires
        n <= 63,
        k < 64,
    ensures
        nth_bit(low_mask(n), k) <==> k < n,
{
    assert(((((1u64 << n) - 1) as u64 >> k) & 1u64 == 1u64) <==> k < n) by (bit_vector)
        requires
            n <= 63,
            k < 64,
    ;
}

/// A word with no bit below `k` set vanishes under the low-`k` mask.
pub proof fn lemma_all_clear_zero(x: u64, k: u64)
    requires
        k <= 63,
        forall|j: u64| j < k ==> !nth_bit(x, j),
    ensures
        x & low_mask(k) == 0,
    decreases k,
{
    if k == 0 {
        assert(x & ((1u64 << 0u64) - 1) as u64 == 0) by (bit_vector);
    } else {
        assert(!nth_bit(x, (k - 1) as u64));
        lemma_scan_step(x, k);
        lemma_all_clear_zero(x, (k - 1) as u64);
    }
}

/// Bitwise or sets exactly the bits set on either side.
pub proof fn lemma_or_bits(x: u64, y: u64, k: u64)
    requires
        k < 64,
    ensures
        nth_bit(x | y, k) <==> (nth_bit(x, k) || nth_bit(y, k)),
{
    assert((((x | y) >> k) & 1u64 == 1u64) <==> ((x >> k) & 1u64 == 1u64 || (y >> k) & 1u64
        == 1u64)) by (bit_vector);
}

/// Bitwise and sets exactly the bits set on both sides.
pub proof fn lemma_and_bits(x: u64, y: u64, k: u64)
    requires
        k < 64,
    ensures
        nth_bit(x & y, k) <==> (nth_bit(x, k) && nth_bit(y, k)),
{
    assert((((x & y) >> k) & 1u64 == 1u64) <==> ((x >> k) & 1u64 == 1u64 && (y >> k) & 1u64
        == 1u64)) by (bit_vector);
}

/// Subtracting the intersection `x & y` out of `x` never underflows and
/// clears exactly the bits shared with `y`.
pub proof fn lemma_diff_bits(x: u64, y: u64, k: u64)
    requires
        k < 64,
    ensures
        x & y <= x,
        nth_bit((x - (x & y)) as u64, k) <==> (nth_bit(x, k) && !nth_bit(y, k)),
{
    assert(x & y <= x) by (bit_vector);
    assert(((((x - (x & y)) as u64) >> k) & 1u64 == 1u64) <==> ((x >> k) & 1u64 == 1u64 && !((y
        >> k) & 1u64 == 1u64))) by (bit_vector);
}

/// Setting one bit with `|` leaves every other bit as it was.
pub proof fn lemma_set_bit(x: u64, b: u64, k: u64)
    requires
        b < 64,
        k < 64,
    ensures
        nth_bit(x | (1u64 << b), k) <==> (nth_bit(x, k) || k == b),
{
    assert((((x | (1u64 << b)) >> k) & 1u64 == 1u64) <==> ((x >> k) & 1u64 == 1u64 || k == b))
        by (bit_vector)
        requires
            b < 64,
            k < 64,
    ;
}

/// Clearing one bit by subtracting the intersection with its one-hot word
/// never underflows and leaves every other bit as it was.
pub proof fn lemma_clear_bit(x: u64, b: u64, k: u64)
    requires
        b < 64,
        k < 64,
    ensures
        x & (1u64 << b) <= x,
        nth_bit((x - (x & (1u64 << b))) as u64, k) <==> (nth_bit(x, k) && k != b),
{
    assert(x & (1u64 << b) <= x) by (bit_vector);
    assert(((((x - (x & (1u64 << b))) as u64) >> k) & 1u64 == 1u64) <==> ((x >> k) & 1u64 == 1u64
        && k != b)) by (bit_vector)
        requires
            b < 64,
            k < 64,
    ;
}

/// Bitwise or of two words with no stray high bits has none either.
pub proof fn lemma_or_mask(x: u64, y: u64, n: u64)
    requires
        n <= 63,
        x == x & low_mask(n),
        y == y & low_mask(n),
    ensures
        (x | y) == (x | y) & low_mask(n),
{
    assert((x == x & ((1u64 << n) - 1) as u64 && y == y & ((1u64 << n) - 1) as u64) ==> (x | y) == (
    x | y) & ((1u64 << n) - 1) as u64) by (bit_vector)
        requires
            n <= 63,
    ;
}

/// Bitwise and with a word with no stray high bits leaves none either.
pub proof fn lemma_and_mask(x: u64, y: u64, n: u64)
    requires
        n <= 63,
        x == x & low_mask(n),
    ensures
        (x & y) == (x & y) & low_mask(n),
{
    assert((x == x & ((1u64 << n) - 1) as u64) ==> (x & y) == (x & y) & ((1u64 << n)
        - 1) as u64) by (bit_vector)
        requires
            n <= 63,
    ;
}

/// Set difference on words keeps the left operand's mask.
pub proof fn lemma_diff_mask(x: u64, y: u64, n: u64)
    requires
        n <= 63,
        x == x & low_mask(n),
    ensures
        x & y <= x,
        ((x - (x & y)) as u64) == ((x - (x & y)) as u64) & low_mask(n),
{
    assert(x & y <= x) by (bit_vector);
    assert((x == x & ((1u64 << n) - 1) as u64) ==> ((x - (x & y)) as u64) == ((x - (x
        & y)) as u64) & ((1u64 << n) - 1) as u64) by (bit_vector)
        requires
            n <= 63,
    ;
}

/// The one-hot word for position `b < n` has exactly bit `b` set and no
/// stray high bits.
pub proof fn lemma_one_hot(b: u64, n: u64, k: u64)
    requires
        b < n <= 63,
        k < 64,
    ensures
        nth_bit(1u64 << b, k) <==> k == b,
        (1u64 << b) == (1u64 << b) & low_mask(n),
{
    assert((((1u64 << b) >> k) & 1u64 == 1u64) <==> k == b) by (bit_vector)
        requires
            b < 64,
            k < 64,
    ;
    assert((1u64 << b) == (1u64 << b) & ((1u64 << n) - 1) as u64) by (bit_vector)
        requires
            b < n <= 63,
    ;
}

/// Setting a bit below `n` keeps the mask invariant.
pub proof fn lemma_setbit_mask(x: u64, b: u64, n: u64)
    requires
        b < n <= 63,
        x == x & low_mask(n),
    ensures
        (x | (1u64 << b)) == (x | (1u64 << b)) & low_mask(n),
{
    assert((x == x & ((1u64 << n) - 1) as u64) ==> (x | (1u64 << b)) == (x | (1u64 << b)) & ((1u64
        << n) - 1) as u64) by (bit_vector)
        requires
            b < n <= 63,
    ;
}

/// Setting a bit that is already set changes nothing.
pub proof fn lemma_set_bit_noop(x: u64, b: u64)
    requires
        b < 64,
        nth_bit(x, b),
    ensures
        x | (1u64 << b) == x,
{
    assert(((x >> b) & 1u64 == 1u64) ==> (x | (1u64 << b) == x)) by (bit_vector)
        requires
            b < 64,
    ;
}

/// Setting a bit that is clear yields a different word, and clearing it
/// is a no-op.
pub proof fn lemma_bit_absent(x: u64, b: u64)
    requires
        b < 64,
        !nth_bit(x, b),
    ensures
        x | (1u64 << b) != x,
        x & (1u64 << b) == 0,
{
    assert(((x >> b) & 1u64 != 1u64) ==> (x | (1u64 << b) != x && x & (1u64 << b) == 0))
        by (bit_vector)
        requires
            b < 64,
    ;
}

/// Clearing a bit that is set yields a different word.
pub proof fn lemma_bit_present(x: u64, b: u64)
    requires
        b < 64,
        nth_bit(x, b),
    ensures
        ((x - (x & (1u64 << b))) as u64) != x,
{
    assert(((x >> b) & 1u64 == 1u64) ==> ((x - (x & (1u64 << b))) as u64) != x) by (bit_vector)
        requires
            b < 64,
    ;
}

/// Adding a one-hot word whose bit is clear in `x` neither overflows nor
/// differs from bitwise or.
pub proof fn lemma_add_bit(x: u64, b: u64)
    requires
        b < 64,
        !nth_bit(x, b),
    ensures
        x + (1u64 << b) == x | (1u64 << b),
{
    assert(((x >> b) & 1u64 != 1u64) ==> x + (1u64 << b) == (x | (1u64 << b))) by (bit_vector)
        requires
            b < 64,
    ;
}

/// Masking is idempotent.
pub proof fn lemma_mask_idem(x: u64, k: u64)
    requires
        k <= 63,
    ensures
        (x & low_mask(k)) == (x & low_mask(k)) & low_mask(k),
{
    assert((x & ((1u64 << k) - 1) as u64) == (x & ((1u64 << k) - 1) as u64) & ((1u64 << k)
        - 1) as u64) by (bit_vector)
        requires
            k <= 63,
    ;
}

/// Two words that agree on every bit below `k` agree under the low-`k`
/// mask.
pub proof fn lemma_low_bits_eq(x: u64, y: u64, k: u64)
    requires
        k <= 63,
        forall|j: u64| j < k ==> nth_bit(x, j) == nth_bit(y, j),
    ensures
        x & low_mask(k) == y & low_mask(k),
    decreases k,
{
    if k == 0 {
        assert(x & ((1u64 << 0u64) - 1) as u64 == y & ((1u64 << 0u64) - 1) as u64) by (bit_vector);
    } else {
        lemma_scan_step(x, k);
        lemma_scan_step(y, k);
        lemma_low_bits_eq(x, y, (k - 1) as u64);
        assert(nth_bit(x, (k - 1) as u64) == nth_bit(y, (k - 1) as u64));
    }
}

/// One scan step: on a residue holding only the low `i` bits of `x`, the
/// comparison against the probe `2^(i-1)` reads bit `i - 1`, and
/// subtracting the probe on a hit leaves the low `i - 1` bits of `x`.
pub proof fn lemma_scan_step(x: u64, i: u64)
    requires
        1 <= i <= 63,
    ensures
        ((x & low_mask(i)) >= (1u64 << ((i - 1) as u64))) <==> nth_bit(x, (i - 1) as u64),
        nth_bit(x, (i - 1) as u64) ==> ((x & low_mask(i)) - (1u64 << ((i - 1) as u64))) as u64 == x
            & low_mask((i - 1) as u64),
        !nth_bit(x, (i - 1) as u64) ==> x & low_mask(i) == x & low_mask((i - 1) as u64),
        (1u64 << ((i - 1) as u64)) >> 1u64 == if i >= 2 {
            1u64 << ((i - 2) as u64)
        } else {
            0u64
        },
{
    let j = (i - 1) as u64;
    assert(((x & ((1u64 << i) - 1) as u64) >= (1u64 << j)) <==> ((x >> j) & 1u64 == 1u64))
        by (bit_vector)
        requires
            1 <= i <= 63,
            j == i - 1,
    ;
    assert(((x >> j) & 1u64 == 1u64) ==> ((x & ((1u64 << i) - 1) as u64) - (1u64 << j)) as u64 == (
    x & ((1u64 << j) - 1) as u64)) by (bit_vector)
        requires
            1 <= i <= 63,
            j == i - 1,
    ;
    assert(!((x >> j) & 1u64 == 1u64) ==> (x & ((1u64 << i) - 1) as u64) == (x & ((1u64 << j)
        - 1) as u64)) by (bit_vector)
        requires
            1 <= i <= 63,
            j == i - 1,
    ;
    assert((1u64 << j) >> 1u64 == if j >= 1 {
        1u64 << ((j - 1) as u64)
    } else {
        0u64
    }) by (bit_vector)
        requires
            j <= 62,
    ;
}

/// The member list reads only the low `k` bits of the word.
pub proof fn lemma_members_from_same(x: u64, y: u64, k: nat)
    requires
        k <= 63,
        x & low_mask(k as u64) == y & low_mask(k as u64),
    ensures
        members_from(x, k) == members_from(y, k),
    decreases k,
{
    if k > 0 {
        let ku = k as u64;
        let j = (ku - 1) as u64;
        assert((x & ((1u64 << ku) - 1) as u64 == y & ((1u64 << ku) - 1) as u64) ==> ((x >> j)
            & 1u64 == (y >> j) & 1u64)) by (bit_vector)
            requires
                ku <= 63,
                j == ku - 1,
        ;
        assert((x & ((1u64 << ku) - 1) as u64 == y & ((1u64 << ku) - 1) as u64) ==> (x & ((1u64
            << j) - 1) as u64 == y & ((1u64 << j) - 1) as u64)) by (bit_vector)
            requires
                ku <= 63,
                j == ku - 1,
        ;
        lemma_members_from_same(x, y, (k - 1) as nat);
    }
}

/// What the member list holds: exactly the in-range integers whose bit is
/// set, in strictly descending order and without repetition.
pub proof fn lemma_members_from_facts(x: u64, k: nat)
    requires
        k <= 63,
    ensures
        forall|j: usize| #[trigger]
            members_from(x, k).contains(j) <==> (1 <= j <= k && nth_bit(x, (j - 1) as u64)),
        forall|a: int, b: int|
            0 <= a < b < members_from(x, k).len() ==> members_from(x, k)[a] > members_from(x, k)[b],
        members_from(x, k).no_duplicates(),
        members_from(x, k).len() <= k,
    decreases k,
{
    if k > 0 {
        lemma_members_from_facts(x, (k - 1) as nat);
        let rest = members_from(x, (k - 1) as nat);
        if nth_bit(x, (k - 1) as u64) {
            let s = members_from(x, k);
            assert(s == seq![k as usize] + rest);
            assert(s[0] == k as usize);
            assert forall|j: usize| #[trigger] s.contains(j) implies (1 <= j <= k && nth_bit(
                x,
                (j - 1) as u64,
            )) by {
                let idx = choose|idx: int| 0 <= idx < s.len() && s[idx] == j;
                if idx > 0 {
                    assert(rest[idx - 1] == j);
                    assert(rest.contains(j));
                }
            }
            assert forall|j: usize| (1 <= j <= k && nth_bit(x, (j - 1) as u64)) implies #[trigger]
                s.contains(j) by {
                if j == k as usize {
                    assert(s[0] == j);
                } else {
                    assert(rest.contains(j));
                    let idx = choose|idx: int| 0 <= idx < rest.len() && rest[idx] == j;
                    assert(s[idx + 1] == j);
                }
            }
            assert forall|a: int, b: int| 0 <= a < b < s.len() implies s[a] > s[b] by {
                if a == 0 {
                    assert(rest.contains(rest[b - 1]));
                } else {
                    assert(rest[a - 1] > rest[b - 1]);
                }
            }
            assert(s.no_duplicates()) by {
                assert forall|a: int, b: int|
                    0 <= a < s.len() && 0 <= b < s.len() && a != b implies s[a] != s[b] by {
                    if a < b {
                        assert(s[a] > s[b]);
                    } else {
                        assert(s[b] > s[a]);
                    }
                }
            }
        }
    }
}

/// Under the full mask the member list is the whole range: `k` members.
pub proof fn lemma_members_from_full(n: u64, k: nat)
    requires
        k <= n <= 63,
    ensures
        members_from(low_mask(n), k).len() == k,
    decreases k,
{
    if k > 0 {
        let j = (k - 1) as u64;
        assert(((((1u64 << n) - 1) as u64 >> j) & 1u64 == 1u64)) by (bit_vector)
            requires
                j < n <= 63,
        ;
        lemma_members_from_full(n, (k - 1) as nat);
    }
}

} // verus!
