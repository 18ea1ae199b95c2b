//! Candidate sets as 16-bit masks: bit `d` set means digit `d` is allowed.
use vstd::prelude::*;

verus! {

/// Bit `d` of `m` is set.
pub open spec fn has_bit(m: u16, d: u16) -> bool {
    (m >> d) & 1u16 == 1u16
}

/// `m` with bit `d` cleared.
pub open spec fn without(m: u16, d: u16) -> u16 {
    m & !(1u16 << d)
}

/// Every bit of `a` is also set in `b`.
pub open spec fn subset_mask(a: u16, b: u16) -> bool {
    forall|d: u16| d < 16 && #[trigger] has_bit(a, d) ==> has_bit(b, d)
}

/// The only set bit of `m` is `d`.
pub open spec fn exact_one(m: u16, d: u16) -> bool {
    forall|e: u16| e < 16 ==> (#[trigger] has_bit(m, e) <==> e == d)
}

/// The set bits of `m` are exactly `x` and `y`.
pub open spec fn exact_two(m: u16, x: u16, y: u16) -> bool {
    forall|e: u16| e < 16 ==> (#[trigger] has_bit(m, e) <==> (e == x || e == y))
}

/// Number of set bits among the lowest `n` bits of `m`.
pub open spec fn bits_below(m: u16, n: nat) -> nat
    decreases n,
{
    if n == 0 {
        0
    } else {
        bits_below(m, (n - 1) as nat) + if has_bit(m, (n - 1) as u16) { 1nat } else { 0nat }
    }
}

/// Number of set bits of `m`.
pub open spec fn popcount(m: u16) -> nat {
    bits_below(m, 16)
}

/// The mask with bits 1..=9 set: every digit allowed.
pub open spec fn full_mask() -> u16 {
    1022u16
}

pub proof fn lemma_without(m: u16, e: u16, d: u16)
    requires
        e < 16,
        d < 16,
    ensures
        has_bit(without(m, e), d) == (has_bit(m, d) && d != e),
{
    assert(((m & !(1u16 << e)) >> d) & 1u16 == 1u16 <==> (((m >> d) & 1u16 == 1u16) && d != e))
        by (bit_vector)
        requires
            e < 16,
            d < 16,
    ;
}

pub proof fn lemma_without_all(m: u16, e: u16)
    requires
        e < 16,
    ensures
        forall|d: u16| d < 16 ==> (#[trigger] has_bit(without(m, e), d) == (has_bit(m, d) && d != e)),
{
    assert forall|d: u16| d < 16 implies (#[trigger] has_bit(without(m, e), d) == (has_bit(m, d) && d
        != e)) by {
        lemma_without(m, e, d);
    }
}

pub proof fn lemma_without_zero(e: u16)
    requires
        e < 16,
    ensures
        without(0u16, e) == 0u16,
{
    assert(0u16 & !(1u16 << e) == 0u16) by (bit_vector);
}

pub proof fn lemma_full_mask(d: u16)
    requires
        d < 16,
    ensures
        has_bit(full_mask(), d) == (1 <= d <= 9),
{
    assert(((1022u16 >> d) & 1u16 == 1u16) == (1 <= d && d <= 9)) by (bit_vector)
        requires
            d < 16,
    ;
}

pub proof fn lemma_zero_mask(d: u16)
    requires
        d < 16,
    ensures
        !has_bit(0u16, d),
{
    assert(!((0u16 >> d) & 1u16 == 1u16)) by (bit_vector)
        requires
            d < 16,
    ;
}

/// Setting bit `v` adds exactly that bit.
pub proof fn lemma_with_bit(m: u16, v: u16, e: u16)
    requires
        v < 16,
        e < 16,
    ensures
        has_bit(m | (1u16 << v), e) == (has_bit(m, e) || e == v),
{
    assert((((m | (1u16 << v)) >> e) & 1u16 == 1u16) == (((m >> e) & 1u16 == 1u16) || e == v)) by (bit_vector)
        requires
            v < 16,
            e < 16,
    ;
}

/// Clearing the bits of `p` keeps exactly the bits of `m` outside `p`.
pub proof fn lemma_and_not(m: u16, p: u16, e: u16)
    requires
        e < 16,
    ensures
        has_bit(m & !p, e) == (has_bit(m, e) && !has_bit(p, e)),
{
    assert((((m & !p) >> e) & 1u16 == 1u16) == (((m >> e) & 1u16 == 1u16) && !((p >> e) & 1u16 == 1u16))) by (bit_vector)
        requires
            e < 16,
    ;
}

/// Two masks with the same bits are equal.
pub proof fn lemma_mask_ext(a: u16, b: u16)
    requires
        forall|d: u16| d < 16 ==> #[trigger] has_bit(a, d) == has_bit(b, d),
    ensures
        a == b,
{
    assert(has_bit(a, 0) == has_bit(b, 0));
    assert(has_bit(a, 1) == has_bit(b, 1));
    assert(has_bit(a, 2) == has_bit(b, 2));
    assert(has_bit(a, 3) == has_bit(b, 3));
    assert(has_bit(a, 4) == has_bit(b, 4));
    assert(has_bit(a, 5) == has_bit(b, 5));
    assert(has_bit(a, 6) == has_bit(b, 6));
    assert(has_bit(a, 7) == has_bit(b, 7));
    assert(has_bit(a, 8) == has_bit(b, 8));
    assert(has_bit(a, 9) == has_bit(b, 9));
    assert(has_bit(a, 10) == has_bit(b, 10));
    assert(has_bit(a, 11) == has_bit(b, 11));
    assert(has_bit(a, 12) == has_bit(b, 12));
    assert(has_bit(a, 13) == has_bit(b, 13));
    assert(has_bit(a, 14) == has_bit(b, 14));
    assert(has_bit(a, 15) == has_bit(b, 15));
    assert(a == b) by (bit_vector)
        requires
            ((a >> 0u16) & 1u16 == 1u16) == ((b >> 0u16) & 1u16 == 1u16),
            ((a >> 1u16) & 1u16 == 1u16) == ((b >> 1u16) & 1u16 == 1u16),
            ((a >> 2u16) & 1u16 == 1u16) == ((b >> 2u16) & 1u16 == 1u16),
            ((a >> 3u16) & 1u16 == 1u16) == ((b >> 3u16) & 1u16 == 1u16),
            ((a >> 4u16) & 1u16 == 1u16) == ((b >> 4u16) & 1u16 == 1u16),
            ((a >> 5u16) & 1u16 == 1u16) == ((b >> 5u16) & 1u16 == 1u16),
            ((a >> 6u16) & 1u16 == 1u16) == ((b >> 6u16) & 1u16 == 1u16),
            ((a >> 7u16) & 1u16 == 1u16) == ((b >> 7u16) & 1u16 == 1u16),
            ((a >> 8u16) & 1u16 == 1u16) == ((b >> 8u16) & 1u16 == 1u16),
            ((a >> 9u16) & 1u16 == 1u16) == ((b >> 9u16) & 1u16 == 1u16),
            ((a >> 10u16) & 1u16 == 1u16) == ((b >> 10u16) & 1u16 == 1u16),
            ((a >> 11u16) & 1u16 == 1u16) == ((b >> 11u16) & 1u16 == 1u16),
            ((a >> 12u16) & 1u16 == 1u16) == ((b >> 12u16) & 1u16 == 1u16),
            ((a >> 13u16) & 1u16 == 1u16) == ((b >> 13u16) & 1u16 == 1u16),
            ((a >> 14u16) & 1u16 == 1u16) == ((b >> 14u16) & 1u16 == 1u16),
            ((a >> 15u16) & 1u16 == 1u16) == ((b >> 15u16) & 1u16 == 1u16),
    ;
}

/// A mask with no bit among the lowest sixteen set is zero.
pub proof fn lemma_no_bits_zero(a: u16)
    requires
        forall|d: u16| d < 16 ==> !#[trigger] has_bit(a, d),
    ensures
        a == 0,
{
    assert forall|d: u16| d < 16 implies #[trigger] has_bit(a, d) == has_bit(0u16, d) by {
        lemma_zero_mask(d);
    }
    lemma_mask_ext(a, 0u16);
}

proof fn lemma_bits_below_mono(a: u16, b: u16, n: nat)
    requires
        n <= 16,
        subset_mask(a, b),
    ensures
        bits_below(a, n) <= bits_below(b, n),
    decreases n,
{
    if n > 0 {
        lemma_bits_below_mono(a, b, (n - 1) as nat);
        if has_bit(a, (n - 1) as u16) {
            assert(has_bit(b, (n - 1) as u16));
        }
    }
}

/// A mask contained in another has no more set bits.
pub proof fn lemma_subset_popcount(a: u16, b: u16)
    requires
        subset_mask(a, b),
    ensures
        popcount(a) <= popcount(b),
{
    lemma_bits_below_mono(a, b, 16);
}

proof fn lemma_bits_below_strict(a: u16, b: u16, e: u16, n: nat)
    requires
        n <= 16,
        e < 16,
        subset_mask(a, b),
        has_bit(b, e),
        !has_bit(a, e),
    ensures
        bits_below(a, n) + (if (e as nat) < n { 1nat } else { 0nat }) <= bits_below(b, n),
    decreases n,
{
    if n > 0 {
        lemma_bits_below_strict(a, b, e, (n - 1) as nat);
        if has_bit(a, (n - 1) as u16) {
            assert(has_bit(b, (n - 1) as u16));
        }
    }
}

/// A mask contained in another and missing one of its bits has fewer set bits.
pub proof fn lemma_subset_popcount_strict(a: u16, b: u16, e: u16)
    requires
        e < 16,
        subset_mask(a, b),
        has_bit(b, e),
        !has_bit(a, e),
    ensures
        popcount(a) < popcount(b),
{
    lemma_bits_below_strict(a, b, e, 16);
}

/// Total number of candidates in the first `n` masks.
pub open spec fn pop_sum(masks: Seq<u16>, n: int) -> nat
    decreases n,
{
    if n <= 0 {
        0
    } else {
        pop_sum(masks, n - 1) + popcount(masks[n - 1])
    }
}

/// Shrinking masks pointwise, with one bit lost, lowers the total.
pub proof fn lemma_pop_sum_strict(a: Seq<u16>, b: Seq<u16>, n: int, k: int, e: u16)
    requires
        0 <= n <= a.len(),
        a.len() == b.len(),
        forall|i: int| 0 <= i < n ==> subset_mask(#[trigger] a[i], b[i]),
        e < 16,
        0 <= k < a.len(),
        has_bit(b[k], e),
        !has_bit(a[k], e),
    ensures
        pop_sum(a, n) + (if k < n { 1nat } else { 0nat }) <= pop_sum(b, n),
    decreases n,
{
    if n > 0 {
        lemma_pop_sum_strict(a, b, n - 1, k, e);
        lemma_subset_popcount(a[n - 1], b[n - 1]);
        if k == n - 1 {
            lemma_subset_popcount_strict(a[k], b[k], e);
        }
    }
}

/// Number of set bits of `x`.
pub fn bitcount(x: u16) -> (r: u32)
    ensures
        r == popcount(x),
{
    let mut n: u32 = 0;
    let mut i: u16 = 0;
    while i < 16
        invariant
            i <= 16,
            n == bits_below(x, i as nat),
            n <= i,
        decreases 16 - i,
    {
        let b = (x >> i) & 1;
        assert(b == 0 || b == 1) by (bit_vector)
            requires
                b == (x >> i) & 1u16,
        ;
        if b == 1 {
            n = n + 1;
        }
        i = i + 1;
    }
    n
}

/// Index of the lowest set bit of `x`, or `None` when `x` is zero.
pub fn first_bit(x: u16) -> (r: Option<u8>)
    ensures
        x == 0 <==> r is None,
        r matches Some(t) ==> t < 16 && has_bit(x, t as u16) && forall|e: u16|
            e < t ==> !#[trigger] has_bit(x, e),
{
    let mut i: u16 = 0;
    while i < 16
        invariant
            i <= 16,
            forall|e: u16| e < i ==> !#[trigger] has_bit(x, e),
        decreases 16 - i,
    {
        if (x >> i) & 1 == 1 {
            proof {
                if x == 0 {
                    lemma_zero_mask(i);
                }
            }
            return Some(i as u8);
        }
        i = i + 1;
    }
    proof {
        lemma_no_bits_zero(x);
    }
    None
}

/// The mask with every digit 1..=9 allowed.
pub fn all_candidates() -> (r: u16)
    ensures
        r == full_mask(),
        forall|d: u16| d < 16 ==> (#[trigger] has_bit(r, d) <==> 1 <= d <= 9),
{
    proof {
        assert forall|d: u16| d < 16 implies (#[trigger] has_bit(full_mask(), d) <==> 1 <= d <= 9) by {
            lemma_full_mask(d);
        }
    }
    1022
}

/// Whether bit `d` of `m` is set.
pub fn test_bit(m: u16, d: u16) -> (r: bool)
    requires
        d < 16,
    ensures
        r == has_bit(m, d),
{
    (m >> d) & 1 == 1
}

/// `m` with bit `d` cleared.
pub fn clear_bit(m: u16, d: u16) -> (r: u16)
    requires
        d < 16,
    ensures
        r == without(m, d),
        forall|e: u16| e < 16 ==> (#[trigger] has_bit(r, e) == (has_bit(m, e) && e != d)),
{
    proof {
        lemma_without_all(m, d);
    }
    m & !(1u16 << d)
}

} // verus!
