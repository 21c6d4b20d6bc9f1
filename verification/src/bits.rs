//! Bit-level facts about `u64` words, shared by every bit set of the crate.
//!
//! A word is read as the set of bit indices (0..64) whose bit is one.
use vstd::prelude::*;
use vstd::set_lib::*;
use vstd::std_specs::bits::*;

verus! {

/// Bit `i` of `x` is one.
pub open spec fn u64_bit(x: u64, i: int) -> bool {
    0 <= i < 64 && (x >> (i as u64)) & 1u64 == 1u64
}

/// The set of indices of the one bits of `x`.
pub open spec fn u64_set(x: u64) -> Set<int> {
    Set::new(|i: int| u64_bit(x, i))
}

/// The word with exactly bit `i` set (`i < 64`).
pub open spec fn single_bit(i: int) -> u64 {
    1u64 << (i as u64)
}

pub proof fn lemma_bit_or(a: u64, b: u64, i: u64)
    requires
        i < 64,
    ensures
        ((a | b) >> i) & 1u64 == 1u64 <==> (((a >> i) & 1u64 == 1u64) || ((b >> i) & 1u64 == 1u64)),
{
    assert(i < 64 ==> (((a | b) >> i) & 1u64 == 1u64 <==> (((a >> i) & 1u64 == 1u64) || ((b >> i)
        & 1u64 == 1u64)))) by (bit_vector);
}

pub proof fn lemma_bit_and(a: u64, b: u64, i: u64)
    requires
        i < 64,
    ensures
        ((a & b) >> i) & 1u64 == 1u64 <==> (((a >> i) & 1u64 == 1u64) && ((b >> i) & 1u64 == 1u64)),
{
    assert(i < 64 ==> (((a & b) >> i) & 1u64 == 1u64 <==> (((a >> i) & 1u64 == 1u64) && ((b >> i)
        & 1u64 == 1u64)))) by (bit_vector);
}

pub proof fn lemma_bit_not(a: u64, i: u64)
    requires
        i < 64,
    ensures
        ((!a) >> i) & 1u64 == 1u64 <==> !((a >> i) & 1u64 == 1u64),
{
    assert(i < 64 ==> (((!a) >> i) & 1u64 == 1u64 <==> !((a >> i) & 1u64 == 1u64))) by (bit_vector);
}

pub proof fn lemma_bit_single(j: u64, i: u64)
    requires
        i < 64,
        j < 64,
    ensures
        ((1u64 << j) >> i) & 1u64 == 1u64 <==> i == j,
{
    assert(i < 64 && j < 64 ==> (((1u64 << j) >> i) & 1u64 == 1u64 <==> i == j)) by (bit_vector);
}

pub proof fn lemma_bit_xor(a: u64, b: u64, i: u64)
    requires
        i < 64,
    ensures
        (a ^ b) == 0 ==> a == b,
        ((a ^ b) >> i) & 1u64 == 1u64 <==> (((a >> i) & 1u64 == 1u64) != ((b >> i) & 1u64 == 1u64)),
{
    assert((a ^ b) == 0 ==> a == b) by (bit_vector);
    assert(i < 64 ==> (((a ^ b) >> i) & 1u64 == 1u64 <==> (((a >> i) & 1u64 == 1u64) != ((b >> i)
        & 1u64 == 1u64)))) by (bit_vector);
}

pub proof fn lemma_bit_consts(i: u64)
    requires
        i < 64,
    ensures
        !((0u64 >> i) & 1u64 == 1u64),
        ((!0u64) >> i) & 1u64 == 1u64,
{
    assert(i < 64 ==> !((0u64 >> i) & 1u64 == 1u64)) by (bit_vector);
    assert(i < 64 ==> ((!0u64) >> i) & 1u64 == 1u64) by (bit_vector);
}

/// The set view of a word of bits.
pub proof fn lemma_u64_set_or(a: u64, b: u64)
    ensures
        u64_set(a | b) == u64_set(a).union(u64_set(b)),
{
    assert forall|i: int| u64_set(a | b).contains(i) == u64_set(a).union(u64_set(b)).contains(i) by {
        if 0 <= i < 64 {
            lemma_bit_or(a, b, i as u64);
        }
    }
    assert(u64_set(a | b) =~= u64_set(a).union(u64_set(b)));
}

pub proof fn lemma_u64_set_and(a: u64, b: u64)
    ensures
        u64_set(a & b) == u64_set(a).intersect(u64_set(b)),
{
    assert forall|i: int| u64_set(a & b).contains(i) == u64_set(a).intersect(u64_set(b)).contains(
        i,
    ) by {
        if 0 <= i < 64 {
            lemma_bit_and(a, b, i as u64);
        }
    }
    assert(u64_set(a & b) =~= u64_set(a).intersect(u64_set(b)));
}

/// Indices 0..64.
pub open spec fn word_range() -> Set<int> {
    Set::new(|i: int| 0 <= i < 64)
}

pub proof fn lemma_u64_set_not(a: u64)
    ensures
        u64_set(!a) == word_range().difference(u64_set(a)),
{
    assert forall|i: int| u64_set(!a).contains(i) == word_range().difference(u64_set(a)).contains(
        i,
    ) by {
        if 0 <= i < 64 {
            lemma_bit_not(a, i as u64);
        }
    }
    assert(u64_set(!a) =~= word_range().difference(u64_set(a)));
}

pub proof fn lemma_u64_set_single(j: int)
    requires
        0 <= j < 64,
    ensures
        u64_set(single_bit(j)) == set![j],
{
    assert forall|i: int| u64_set(single_bit(j)).contains(i) == set![j].contains(i) by {
        if 0 <= i < 64 {
            lemma_bit_single(j as u64, i as u64);
        }
    }
    assert(u64_set(single_bit(j)) =~= set![j]);
}

pub proof fn lemma_u64_set_consts()
    ensures
        u64_set(0u64) == Set::<int>::empty(),
        u64_set(!0u64) == word_range(),
        u64_set(0xffff_ffff_ffff_ffffu64) == word_range(),
{
    assert(!0u64 == 0xffff_ffff_ffff_ffffu64) by (bit_vector);
    assert forall|i: int| u64_set(0u64).contains(i) == Set::<int>::empty().contains(i) by {
        if 0 <= i < 64 {
            lemma_bit_consts(i as u64);
        }
    }
    assert forall|i: int| u64_set(!0u64).contains(i) == word_range().contains(i) by {
        if 0 <= i < 64 {
            lemma_bit_consts(i as u64);
        }
    }
    assert(u64_set(0u64) =~= Set::<int>::empty());
    assert(u64_set(!0u64) =~= word_range());
}

/// Two words with the same bits are equal.
pub proof fn lemma_u64_set_ext(a: u64, b: u64)
    requires
        u64_set(a) == u64_set(b),
    ensures
        a == b,
{
    let x = a ^ b;
    axiom_u64_trailing_zeros(x);
    if x != 0 {
        let t = u64_trailing_zeros(x) as u64;
        lemma_bit_xor(a, b, t);
        assert((x >> t) & 1u64 == 1u64);
        assert(t < 64);
        assert(u64_set(a).contains(t as int) == u64_bit(a, t as int));
        assert(u64_set(b).contains(t as int) == u64_bit(b, t as int));
        assert(((a >> t) & 1u64 == 1u64) != ((b >> t) & 1u64 == 1u64));
    } else {
        lemma_bit_xor(a, b, 0);
        assert(a == b);
    }
}

/// A word is zero exactly when it has no one bit.
pub proof fn lemma_u64_zero_iff_empty(a: u64)
    ensures
        a == 0 <==> u64_set(a) == Set::<int>::empty(),
{
    lemma_u64_set_consts();
    if u64_set(a) == Set::<int>::empty() {
        lemma_u64_set_ext(a, 0);
    }
}

/// A word is all ones exactly when all 64 bits are one.
pub proof fn lemma_u64_full_iff(a: u64)
    ensures
        a == 0xffff_ffff_ffff_ffffu64 <==> u64_set(a) == word_range(),
{
    lemma_u64_set_consts();
    if u64_set(a) == word_range() {
        lemma_u64_set_ext(a, 0xffff_ffff_ffff_ffffu64);
    }
}

pub proof fn lemma_word_range_finite()
    ensures
        word_range().finite(),
        word_range().len() == 64,
{
    lemma_int_range(0, 64);
    assert(word_range() =~= set_int_range(0, 64));
}

pub proof fn lemma_u64_set_finite(a: u64)
    ensures
        u64_set(a).finite(),
        u64_set(a).subset_of(word_range()),
        u64_set(a).len() <= 64,
{
    lemma_word_range_finite();
    assert(u64_set(a).subset_of(word_range()));
    lemma_len_subset(u64_set(a), word_range());
}

/// Clearing the lowest one bit of a nonzero word removes exactly that index.
pub proof fn lemma_clear_lowest(w: u64)
    requires
        w != 0,
    ensures
        u64_trailing_zeros(w) < 64,
        u64_set(w).contains(u64_trailing_zeros(w) as int),
        forall|j: int| 0 <= j < u64_trailing_zeros(w) ==> !u64_set(w).contains(j),
        u64_set(w & ((w - 1) as u64)) == u64_set(w).remove(u64_trailing_zeros(w) as int),
{
    axiom_u64_trailing_zeros(w);
    let t = u64_trailing_zeros(w) as u64;
    let h = (w >> t) << t;
    assert forall|i: int| u64_set(h).contains(i) == u64_set(w).contains(i) by {
        if 0 <= i < 64 {
            let ii = i as u64;
            assert(t < 64 && ii < 64 ==> ((((w >> t) << t) >> ii) & 1u64 == 1u64 <==> (ii >= t && (w
                >> ii) & 1u64 == 1u64))) by (bit_vector);
        }
    }
    assert(u64_set(h) =~= u64_set(w));
    lemma_u64_set_ext(h, w);
    assert forall|i: int| #![auto]
        u64_set(w & ((w - 1) as u64)).contains(i) == u64_set(w).remove(t as int).contains(i) by {
        if 0 <= i < 64 {
            let ii = i as u64;
            assert(t < 64 && ii < 64 && (w >> t) & 1u64 == 1u64 && (w >> t) << t == w ==> (((w & ((w
                - 1) as u64)) >> ii) & 1u64 == 1u64 <==> (((w >> ii) & 1u64 == 1u64) && ii != t)))
                by (bit_vector);
        }
    }
    assert(u64_set(w & ((w - 1) as u64)) =~= u64_set(w).remove(t as int));
}

} // verus!
