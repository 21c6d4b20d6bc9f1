//! Glushkov construction (position automaton) for Shift-Or.
//!
//! Unlike Thompson's construction, Glushkov produces an epsilon-free NFA where
//! each state is one character position of the pattern, and one transition
//! consumes one byte. This suits the Shift-Or (Bitap) algorithm, where
//! `state = ((state << 1) | 1) & mask[byte]`.
use vstd::prelude::*;
use vstd::std_specs::bits::*;

use crate::hir::{Hir, HirClass, HirExpr, HirRepeat};
use crate::bits::{
    lemma_clear_lowest, lemma_u64_full_iff, lemma_u64_set_and, lemma_u64_set_consts,
    lemma_u64_set_not, lemma_u64_set_or, lemma_u64_set_single, lemma_u64_zero_iff_empty, single_bit,
    u64_bit, u64_set, word_range,
};

verus! {

broadcast use vstd::std_specs::bits::group_bits_axioms;

/// Maximum positions supported by standard Shift-Or (limited by u64 bit width).
pub const MAX_POSITIONS: usize = 64;

/// Maximum positions supported by Wide Shift-Or (using [u64; 4]).
pub const MAX_POSITIONS_WIDE: usize = 256;

/// Whether index `i` is in the 256-bit set stored in four words.
pub open spec fn words_have(parts: [u64; 4], i: int) -> bool {
    0 <= i < 256 && u64_bit(parts@[i / 64], i % 64)
}

/// The set of indices stored in four words.
pub open spec fn words_set(parts: [u64; 4]) -> Set<int> {
    Set::new(|i: int| words_have(parts, i))
}

/// Indices 0..256.
pub open spec fn range256() -> Set<int> {
    Set::new(|i: int| 0 <= i < 256)
}

/// Four words combined word by word with `|`, `&` or `!` give the union,
/// intersection or complement of their sets.
proof fn lemma_words_or(a: [u64; 4], b: [u64; 4], r: [u64; 4])
    requires
        forall|k: int| 0 <= k < 4 ==> r@[k] == (a@[k] | b@[k]),
    ensures
        words_set(r) == words_set(a).union(words_set(b)),
{
    assert forall|i: int| words_set(r).contains(i) == words_set(a).union(words_set(b)).contains(
        i,
    ) by {
        if 0 <= i < 256 {
            let k = i / 64;
            lemma_u64_set_or(a@[k], b@[k]);
            assert(u64_set(r@[k]).contains(i % 64) == u64_bit(r@[k], i % 64));
            assert(u64_set(a@[k]).contains(i % 64) == u64_bit(a@[k], i % 64));
            assert(u64_set(b@[k]).contains(i % 64) == u64_bit(b@[k], i % 64));
        }
    }
    assert(words_set(r) =~= words_set(a).union(words_set(b)));
}

proof fn lemma_words_and(a: [u64; 4], b: [u64; 4], r: [u64; 4])
    requires
        forall|k: int| 0 <= k < 4 ==> r@[k] == (a@[k] & b@[k]),
    ensures
        words_set(r) == words_set(a).intersect(words_set(b)),
{
    assert forall|i: int| words_set(r).contains(i) == words_set(a).intersect(words_set(b)).contains(
        i,
    ) by {
        if 0 <= i < 256 {
            let k = i / 64;
            lemma_u64_set_and(a@[k], b@[k]);
            assert(u64_set(r@[k]).contains(i % 64) == u64_bit(r@[k], i % 64));
            assert(u64_set(a@[k]).contains(i % 64) == u64_bit(a@[k], i % 64));
            assert(u64_set(b@[k]).contains(i % 64) == u64_bit(b@[k], i % 64));
        }
    }
    assert(words_set(r) =~= words_set(a).intersect(words_set(b)));
}

proof fn lemma_words_not(a: [u64; 4], r: [u64; 4])
    requires
        forall|k: int| 0 <= k < 4 ==> r@[k] == !a@[k],
    ensures
        words_set(r) == range256().difference(words_set(a)),
{
    assert forall|i: int| words_set(r).contains(i) == range256().difference(words_set(a)).contains(
        i,
    ) by {
        if 0 <= i < 256 {
            let k = i / 64;
            lemma_u64_set_not(a@[k]);
            assert(u64_set(r@[k]).contains(i % 64) == u64_bit(r@[k], i % 64));
            assert(u64_set(a@[k]).contains(i % 64) == u64_bit(a@[k], i % 64));
        }
    }
    assert(words_set(r) =~= range256().difference(words_set(a)));
}

proof fn lemma_words_const(a: [u64; 4], w: u64)
    requires
        forall|k: int| 0 <= k < 4 ==> a@[k] == w,
        w == 0 || w == 0xffff_ffff_ffff_ffffu64,
    ensures
        w == 0 ==> words_set(a) == Set::<int>::empty(),
        w != 0 ==> words_set(a) == range256(),
{
    lemma_u64_set_consts();
    assert forall|i: int| 0 <= i < 256 implies words_set(a).contains(i) == (w != 0) by {
        let k = i / 64;
        assert(u64_set(a@[k]).contains(i % 64) == u64_bit(a@[k], i % 64));
    }
    if w == 0 {
        assert(words_set(a) =~= Set::<int>::empty());
    } else {
        assert(words_set(a) =~= range256());
    }
}

/// Updating word `k` of four words changes the set only inside 64k..64k+64.
proof fn lemma_words_update(a: [u64; 4], r: [u64; 4], k: int)
    requires
        0 <= k < 4,
        forall|j: int| 0 <= j < 4 && j != k ==> r@[j] == a@[j],
    ensures
        forall|i: int|
            #![trigger words_set(r).contains(i)]
            !(64 * k <= i < 64 * k + 64) ==> (words_set(r).contains(i) == words_set(a).contains(i)),
        forall|i: int|
            #![trigger words_set(r).contains(i)]
            64 * k <= i < 64 * k + 64 ==> (words_set(r).contains(i) == u64_bit(r@[k], i - 64 * k)),
{
    assert forall|i: int| !(64 * k <= i < 64 * k + 64) implies (words_set(r).contains(i)
        == words_set(a).contains(i)) by {
        if 0 <= i < 256 {
            assert(i / 64 != k);
        }
    }
    assert forall|i: int| 64 * k <= i < 64 * k + 64 implies (words_set(r).contains(i) == u64_bit(
        r@[k],
        i - 64 * k,
    )) by {
        assert(i / 64 == k);
        assert(i % 64 == i - 64 * k);
    }
}

/// A 256-bit set for wide state vectors.
///
/// Used by ShiftOrWide to support patterns with 65-256 positions.
#[derive(Debug, Clone, Copy)]
pub struct BitSet256 {
    /// 4 x u64 for 256 bits. parts[0] holds bits 0-63, parts[1] holds bits 64-127, etc.
    pub parts: [u64; 4],
}

impl View for BitSet256 {
    type V = Set<int>;

    open spec fn view(&self) -> Set<int> {
        words_set(self.parts)
    }
}

impl BitSet256 {
    /// Creates a new empty bit set (all zeros).
    pub fn empty() -> (s: Self)
        ensures
            s@ == Set::<int>::empty(),
    {
        let s = Self { parts: [0u64, 0u64, 0u64, 0u64] };
        proof {
            lemma_words_const(s.parts, 0);
        }
        s
    }

    /// Creates a new bit set with all bits set to 1.
    pub fn all_ones() -> (s: Self)
        ensures
            s@ == range256(),
    {
        let w: u64 = 0xffff_ffff_ffff_ffffu64;
        let s = Self { parts: [w, w, w, w] };
        proof {
            lemma_words_const(s.parts, w);
        }
        s
    }

    /// Creates a bit set with a single bit set (an empty set when `pos >= 256`).
    pub fn singleton(pos: usize) -> (s: Self)
        ensures
            pos < 256 ==> s@ == set![pos as int],
            pos >= 256 ==> s@ == Set::<int>::empty(),
    {
        let mut set = Self::empty();
        set.set(pos);
        proof {
            if pos < 256 {
                assert(set@ =~= set![pos as int]);
            } else {
                assert(set@ =~= Set::<int>::empty());
            }
        }
        set
    }

    /// Sets the bit at the given position; positions past 255 are ignored.
    pub fn set(&mut self, pos: usize)
        ensures
            pos < 256 ==> final(self)@ == old(self)@.insert(pos as int),
            pos >= 256 ==> final(self)@ == old(self)@,
    {
        let word = pos / 64;
        let bit = pos % 64;
        if word < 4 {
            let ghost a = self.parts;
            let w = self.parts[word] | (1u64 << (bit as u64));
            self.parts[word] = w;
            proof {
                lemma_words_update(a, self.parts, word as int);
                lemma_u64_set_or(a@[word as int], single_bit(bit as int));
                lemma_u64_set_single(bit as int);
                assert forall|i: int| #![auto] self@.contains(i) == old(self)@.insert(
                    pos as int,
                ).contains(i) by {
                    if 64 * word <= i < 64 * word + 64 {
                        assert(u64_set(w).contains(i - 64 * word) == u64_bit(w, i - 64 * word));
                        assert(u64_set(a@[word as int]).contains(i - 64 * word) == u64_bit(
                            a@[word as int],
                            i - 64 * word,
                        ));
                        assert(old(self)@.contains(i) == u64_bit(a@[word as int], i - 64 * word));
                    }
                }
                assert(self@ =~= old(self)@.insert(pos as int));
            }
        }
    }

    /// Clears the bit at the given position; positions past 255 are ignored.
    pub fn clear(&mut self, pos: usize)
        ensures
            final(self)@ == old(self)@.remove(pos as int),
    {
        let word = pos / 64;
        let bit = pos % 64;
        if word < 4 {
            let ghost a = self.parts;
            let m: u64 = !(1u64 << (bit as u64));
            let w = self.parts[word] & m;
            self.parts[word] = w;
            proof {
                lemma_words_update(a, self.parts, word as int);
                lemma_u64_set_and(a@[word as int], m);
                lemma_u64_set_not(single_bit(bit as int));
                lemma_u64_set_single(bit as int);
                assert forall|i: int| #![auto] self@.contains(i) == old(self)@.remove(
                    pos as int,
                ).contains(i) by {
                    if 64 * word <= i < 64 * word + 64 {
                        assert(u64_set(w).contains(i - 64 * word) == u64_bit(w, i - 64 * word));
                        assert(u64_set(m).contains(i - 64 * word) == u64_bit(m, i - 64 * word));
                        assert(u64_set(a@[word as int]).contains(i - 64 * word) == u64_bit(
                            a@[word as int],
                            i - 64 * word,
                        ));
                        assert(old(self)@.contains(i) == u64_bit(a@[word as int], i - 64 * word));
                    }
                }
                assert(self@ =~= old(self)@.remove(pos as int));
            }
        } else {
            assert(self@ =~= old(self)@.remove(pos as int));
        }
    }

    /// Returns true if the bit at the given position is set.
    pub fn get(&self, pos: usize) -> (b: bool)
        ensures
            b == self@.contains(pos as int),
    {
        let word = pos / 64;
        let bit = pos % 64;
        if word < 4 {
            let r = (self.parts[word] >> (bit as u64)) & 1 != 0;
            proof {
                let x = self.parts@[word as int];
                let bb = bit as u64;
                assert((x >> bb) & 1u64 != 0 <==> (x >> bb) & 1u64 == 1u64) by (bit_vector);
            }
            r
        } else {
            false
        }
    }

    /// Returns true if all bits are zero.
    pub fn is_empty(&self) -> (b: bool)
        ensures
            b == (self@ == Set::<int>::empty()),
    {
        let r = self.parts[0] == 0 && self.parts[1] == 0 && self.parts[2] == 0 && self.parts[3]
            == 0;
        proof {
            if r {
                lemma_words_const(self.parts, 0);
            } else {
                let k: int = if self.parts@[0] != 0 {
                    0
                } else if self.parts@[1] != 0 {
                    1
                } else if self.parts@[2] != 0 {
                    2
                } else {
                    3
                };
                let x = self.parts@[k];
                lemma_u64_zero_iff_empty(x);
                assert(!(u64_set(x) =~= Set::<int>::empty()));
                let j = choose|j: int| u64_set(x).contains(j);
                assert(u64_set(x).contains(j));
                assert(self@.contains(64 * k + j));
            }
        }
        r
    }

    /// Returns true if all bits are one.
    pub fn is_all_ones(&self) -> (b: bool)
        ensures
            b == (self@ == range256()),
    {
        let w: u64 = 0xffff_ffff_ffff_ffffu64;
        let r = self.parts[0] == w && self.parts[1] == w && self.parts[2] == w && self.parts[3]
            == w;
        proof {
            if r {
                lemma_words_const(self.parts, w);
            } else {
                let k: int = if self.parts@[0] != w {
                    0
                } else if self.parts@[1] != w {
                    1
                } else if self.parts@[2] != w {
                    2
                } else {
                    3
                };
                let x = self.parts@[k];
                lemma_u64_full_iff(x);
                assert(!(u64_set(x) =~= word_range()));
                let j = choose|j: int| u64_set(x).contains(j) != word_range().contains(j);
                assert(0 <= j < 64 && !u64_set(x).contains(j));
                assert(!self@.contains(64 * k + j));
                assert(range256().contains(64 * k + j));
            }
        }
        r
    }

    /// Computes the bitwise OR of two bit sets.
    pub fn union(self, other: Self) -> (s: Self)
        ensures
            s@ == self@.union(other@),
    {
        let s = Self {
            parts: [
                self.parts[0] | other.parts[0],
                self.parts[1] | other.parts[1],
                self.parts[2] | other.parts[2],
                self.parts[3] | other.parts[3],
            ],
        };
        proof {
            lemma_words_or(self.parts, other.parts, s.parts);
        }
        s
    }

    /// Computes the bitwise AND of two bit sets.
    pub fn intersection(self, other: Self) -> (s: Self)
        ensures
            s@ == self@.intersect(other@),
    {
        let s = Self {
            parts: [
                self.parts[0] & other.parts[0],
                self.parts[1] & other.parts[1],
                self.parts[2] & other.parts[2],
                self.parts[3] & other.parts[3],
            ],
        };
        proof {
            lemma_words_and(self.parts, other.parts, s.parts);
        }
        s
    }

    /// Computes the bitwise NOT of this bit set.
    pub fn complement(self) -> (s: Self)
        ensures
            s@ == range256().difference(self@),
    {
        let s = Self {
            parts: [!self.parts[0], !self.parts[1], !self.parts[2], !self.parts[3]],
        };
        proof {
            lemma_words_not(self.parts, s.parts);
        }
        s
    }

    /// Computes self OR other, storing result in self.
    pub fn union_assign(&mut self, other: Self)
        ensures
            final(self)@ == old(self)@.union(other@),
    {
        let r = self.union(other);
        *self = r;
    }

    /// Iterator over all set bit positions, in ascending order.
    pub fn iter_ones(&self) -> (it: BitSet256Iter)
        ensures
            it@ == self@,
            it.wf(),
    {
        BitSet256Iter { set: *self, word_idx: 0 }
    }
}

/// Iterator over set bits in a BitSet256.
pub struct BitSet256Iter {
    set: BitSet256,
    word_idx: usize,
}

impl View for BitSet256Iter {
    type V = Set<int>;

    /// The positions not yet returned.
    closed spec fn view(&self) -> Set<int> {
        self.set@
    }
}

impl BitSet256Iter {
    /// Words before `word_idx` are exhausted.
    pub closed spec fn wf(&self) -> bool {
        &&& self.word_idx <= 4
        &&& forall|i: int| self.set@.contains(i) ==> i >= 64 * self.word_idx
    }

    /// Returns the smallest position not yet returned and removes it.
    pub fn next(&mut self) -> (r: Option<usize>)
        requires
            old(self).wf(),
        ensures
            final(self).wf(),
            match r {
                None => old(self)@ == Set::<int>::empty() && final(self)@ == old(self)@,
                Some(p) => {
                    &&& old(self)@.contains(p as int)
                    &&& forall|q: int| old(self)@.contains(q) ==> p <= q
                    &&& final(self)@ == old(self)@.remove(p as int)
                },
            },
    {
        proof {
            crate::bits::lemma_word_range_finite();
        }
        while self.word_idx < 4
            invariant
                self.wf(),
                self@ == old(self)@,
            decreases 4 - self.word_idx,
        {
            let w = self.set.parts[self.word_idx];
            if w != 0 {
                let bit_idx = w.trailing_zeros() as usize;
                let pos = self.word_idx * 64 + bit_idx;
                let ghost a = self.set.parts;
                let k = self.word_idx;
                let nw = w & (w - 1);
                self.set.parts[k] = nw;
                proof {
                    lemma_clear_lowest(w);
                    lemma_words_update(a, self.set.parts, k as int);
                    assert(u64_set(w).contains(bit_idx as int));
                    assert(old(self)@.contains(pos as int)) by {
                        assert(u64_set(w).contains(bit_idx as int) == u64_bit(w, bit_idx as int));
                    }
                    assert forall|q: int| old(self)@.contains(q) implies pos <= q by {
                        if q < pos {
                            assert(q >= 64 * k);
                            assert(u64_set(w).contains(q - 64 * k) == u64_bit(w, q - 64 * k));
                        }
                    }
                    assert forall|i: int| #![auto] self@.contains(i) == old(self)@.remove(
                        pos as int,
                    ).contains(i) by {
                        if 64 * k <= i < 64 * k + 64 {
                            assert(u64_set(nw).contains(i - 64 * k) == u64_bit(nw, i - 64 * k));
                            assert(u64_set(w).contains(i - 64 * k) == u64_bit(w, i - 64 * k));
                        }
                    }
                    assert(self@ =~= old(self)@.remove(pos as int));
                }
                return Some(pos);
            }
            proof {
                let k = self.word_idx as int;
                lemma_u64_zero_iff_empty(w);
                assert forall|i: int| self.set@.contains(i) implies i >= 64 * (k + 1) by {
                    if i < 64 * (k + 1) {
                        assert(i >= 64 * k);
                        assert(i / 64 == k);
                        assert(u64_set(w).contains(i % 64) == u64_bit(w, i % 64));
                    }
                }
            }
            self.word_idx += 1;
        }
        proof {
            assert(self@ =~= Set::<int>::empty());
        }
        None
    }
}

/// The bytes in a set of indices.
pub open spec fn byte_set_of(s: Set<int>) -> Set<u8> {
    Set::new(|b: u8| s.contains(b as int))
}

/// A set of bytes (256 bits).
#[derive(Debug, Clone, Copy)]
pub struct ByteSet {
    /// 4 x u64 for 256 bits.
    bits: [u64; 4],
}

impl View for ByteSet {
    type V = Set<u8>;

    closed spec fn view(&self) -> Set<u8> {
        byte_set_of(words_set(self.bits))
    }
}

impl ByteSet {
    /// Creates an empty byte set.
    pub fn new() -> (s: Self)
        ensures
            s@ == Set::<u8>::empty(),
    {
        let s = Self { bits: [0u64, 0u64, 0u64, 0u64] };
        proof {
            lemma_words_const(s.bits, 0);
            assert(s@ =~= Set::<u8>::empty());
        }
        s
    }

    /// Creates a byte set containing a single byte.
    pub fn singleton(byte: u8) -> (s: Self)
        ensures
            s@ == set![byte],
    {
        let mut set = Self::new();
        set.insert(byte);
        proof {
            assert(set@ =~= set![byte]);
        }
        set
    }

    /// Creates a byte set from a range of bytes (inclusive); empty when `start > end`.
    pub fn from_range(start: u8, end: u8) -> (s: Self)
        ensures
            forall|b: u8| s@.contains(b) <==> start <= b <= end,
    {
        let mut set = Self::new();
        let mut b: u16 = start as u16;
        while b <= end as u16
            invariant
                start <= b <= 256,
                forall|x: u8| set@.contains(x) <==> start <= x < b && x <= end,
            decreases 256 - b,
        {
            set.insert(b as u8);
            b += 1;
        }
        set
    }

    /// Creates a byte set containing all bytes.
    pub fn all() -> (s: Self)
        ensures
            s@ == Set::<u8>::full(),
    {
        let w: u64 = 0xffff_ffff_ffff_ffffu64;
        let s = Self { bits: [w, w, w, w] };
        proof {
            lemma_words_const(s.bits, w);
            assert(s@ =~= Set::<u8>::full());
        }
        s
    }

    /// Inserts a byte into the set.
    pub fn insert(&mut self, byte: u8)
        ensures
            final(self)@ == old(self)@.insert(byte),
    {
        let mut w = BitSet256 { parts: self.bits };
        w.set(byte as usize);
        self.bits = w.parts;
        proof {
            assert(self@ =~= old(self)@.insert(byte));
        }
    }

    /// Checks if the set contains a byte.
    pub fn contains(&self, byte: u8) -> (b: bool)
        ensures
            b == self@.contains(byte),
    {
        let w = BitSet256 { parts: self.bits };
        w.get(byte as usize)
    }

    /// Returns true if the set is empty.
    pub fn is_empty(&self) -> (b: bool)
        ensures
            b == (self@ == Set::<u8>::empty()),
    {
        let w = BitSet256 { parts: self.bits };
        let r = w.is_empty();
        proof {
            if !r {
                assert(!(w@ =~= Set::<int>::empty()));
                let i = choose|i: int| w@.contains(i);
                assert(self@.contains(i as u8));
            } else {
                assert(self@ =~= Set::<u8>::empty());
            }
        }
        r
    }

    /// Computes the union of two byte sets.
    pub fn union(&self, other: &ByteSet) -> (s: ByteSet)
        ensures
            s@ == self@.union(other@),
    {
        let a = BitSet256 { parts: self.bits };
        let b = BitSet256 { parts: other.bits };
        let s = ByteSet { bits: a.union(b).parts };
        proof {
            assert(s@ =~= self@.union(other@));
        }
        s
    }

    /// Computes the complement of the byte set.
    pub fn complement(&self) -> (s: ByteSet)
        ensures
            s@ == self@.complement(),
    {
        let a = BitSet256 { parts: self.bits };
        let s = ByteSet { bits: a.complement().parts };
        proof {
            assert(s@ =~= self@.complement());
        }
        s
    }
}

// ---------------------------------------------------------------------------
// What the Glushkov construction computes, stated over the HIR.
//
// Positions are numbered left to right from `off`; a sub-expression that owns
// `n` positions owns `off..off + n`.
// ---------------------------------------------------------------------------

/// Whether the Glushkov construction handles every node of `e`.
pub open spec fn g_supported(e: HirExpr) -> bool
    decreases e, 1nat,
{
    match e {
        HirExpr::Concat(es) => g_supported_seq(es@),
        HirExpr::Alt(es) => g_supported_seq(es@),
        HirExpr::Repeat(r) => g_supported(r.expr),
        HirExpr::Capture(c) => g_supported(c.expr),
        HirExpr::Lookaround(_) => false,
        HirExpr::Backref(_) => false,
        HirExpr::UnicodeCpClass(_) => false,
        _ => true,
    }
}

pub open spec fn g_supported_seq(es: Seq<HirExpr>) -> bool
    decreases es, 0nat,
{
    if es.len() == 0 {
        true
    } else {
        g_supported_seq(es.drop_last()) && g_supported(es.last())
    }
}

/// Number of positions (one per literal byte and per byte class).
pub open spec fn g_npos(e: HirExpr) -> nat
    decreases e, 1nat,
{
    match e {
        HirExpr::Literal(b) => b@.len(),
        HirExpr::Class(_) => 1,
        HirExpr::Concat(es) => g_npos_seq(es@),
        HirExpr::Alt(es) => g_npos_seq(es@),
        HirExpr::Repeat(r) => g_npos(r.expr),
        HirExpr::Capture(c) => g_npos(c.expr),
        _ => 0,
    }
}

pub open spec fn g_npos_seq(es: Seq<HirExpr>) -> nat
    decreases es, 0nat,
{
    if es.len() == 0 {
        0
    } else {
        g_npos_seq(es.drop_last()) + g_npos(es.last())
    }
}

/// Whether `e` matches the empty string, as the construction counts it.
pub open spec fn g_nullable(e: HirExpr) -> bool
    decreases e, 1nat,
{
    match e {
        HirExpr::Literal(b) => b@.len() == 0,
        HirExpr::Class(_) => false,
        HirExpr::Concat(es) => g_nullable_concat(es@),
        HirExpr::Alt(es) => g_nullable_alt(es@),
        HirExpr::Repeat(r) => r.min == 0 || g_nullable(r.expr),
        HirExpr::Capture(c) => g_nullable(c.expr),
        _ => true,
    }
}

pub open spec fn g_nullable_concat(es: Seq<HirExpr>) -> bool
    decreases es, 0nat,
{
    if es.len() == 0 {
        true
    } else {
        g_nullable_concat(es.drop_last()) && g_nullable(es.last())
    }
}

pub open spec fn g_nullable_alt(es: Seq<HirExpr>) -> bool
    decreases es, 0nat,
{
    if es.len() == 0 {
        true
    } else if es.len() == 1 {
        g_nullable(es[0])
    } else {
        g_nullable_alt(es.drop_last()) || g_nullable(es.last())
    }
}

/// Positions that can start a match of `e`.
pub open spec fn g_first(e: HirExpr, off: int) -> Set<int>
    decreases e, 1nat,
{
    match e {
        HirExpr::Literal(b) => if b@.len() == 0 {
            Set::empty()
        } else {
            set![off]
        },
        HirExpr::Class(_) => set![off],
        HirExpr::Concat(es) => g_first_concat(es@, off),
        HirExpr::Alt(es) => g_first_alt(es@, off),
        HirExpr::Repeat(r) => g_first(r.expr, off),
        HirExpr::Capture(c) => g_first(c.expr, off),
        _ => Set::empty(),
    }
}

pub open spec fn g_first_concat(es: Seq<HirExpr>, off: int) -> Set<int>
    decreases es, 0nat,
{
    if es.len() == 0 {
        Set::empty()
    } else if g_nullable_concat(es.drop_last()) {
        g_first_concat(es.drop_last(), off).union(
            g_first(es.last(), off + g_npos_seq(es.drop_last())),
        )
    } else {
        g_first_concat(es.drop_last(), off)
    }
}

pub open spec fn g_first_alt(es: Seq<HirExpr>, off: int) -> Set<int>
    decreases es, 0nat,
{
    if es.len() == 0 {
        Set::empty()
    } else {
        g_first_alt(es.drop_last(), off).union(g_first(es.last(), off + g_npos_seq(es.drop_last())))
    }
}

/// Positions that can end a match of `e`.
pub open spec fn g_last(e: HirExpr, off: int) -> Set<int>
    decreases e, 1nat,
{
    match e {
        HirExpr::Literal(b) => if b@.len() == 0 {
            Set::empty()
        } else {
            set![off + b@.len() - 1]
        },
        HirExpr::Class(_) => set![off],
        HirExpr::Concat(es) => g_last_concat(es@, off),
        HirExpr::Alt(es) => g_last_alt(es@, off),
        HirExpr::Repeat(r) => g_last(r.expr, off),
        HirExpr::Capture(c) => g_last(c.expr, off),
        _ => Set::empty(),
    }
}

pub open spec fn g_last_concat(es: Seq<HirExpr>, off: int) -> Set<int>
    decreases es, 0nat,
{
    if es.len() == 0 {
        Set::empty()
    } else {
        let l = g_last(es.last(), off + g_npos_seq(es.drop_last()));
        if g_nullable(es.last()) {
            l.union(g_last_concat(es.drop_last(), off))
        } else {
            l
        }
    }
}

pub open spec fn g_last_alt(es: Seq<HirExpr>, off: int) -> Set<int>
    decreases es, 0nat,
{
    if es.len() == 0 {
        Set::empty()
    } else {
        g_last_alt(es.drop_last(), off).union(g_last(es.last(), off + g_npos_seq(es.drop_last())))
    }
}

/// Whether a repetition may repeat its body more than once.
pub open spec fn g_loops(r: HirRepeat) -> bool {
    r.max is None || r.max->0 > 1
}

/// Positions that can follow position `p` inside `e`.
pub open spec fn g_follow(e: HirExpr, off: int, p: int) -> Set<int>
    decreases e, 1nat,
{
    match e {
        HirExpr::Literal(b) => if off <= p < off + b@.len() - 1 {
            set![p + 1]
        } else {
            Set::empty()
        },
        HirExpr::Concat(es) => g_follow_concat(es@, off, p),
        HirExpr::Alt(es) => g_follow_alt(es@, off, p),
        HirExpr::Repeat(r) => if g_loops(*r) && g_last(r.expr, off).contains(p) {
            g_follow(r.expr, off, p).union(g_first(r.expr, off))
        } else {
            g_follow(r.expr, off, p)
        },
        HirExpr::Capture(c) => g_follow(c.expr, off, p),
        _ => Set::empty(),
    }
}

pub open spec fn g_follow_concat(es: Seq<HirExpr>, off: int, p: int) -> Set<int>
    decreases es, 0nat,
{
    if es.len() == 0 {
        Set::empty()
    } else {
        let off2 = off + g_npos_seq(es.drop_last());
        let inner = g_follow_concat(es.drop_last(), off, p).union(g_follow(es.last(), off2, p));
        if g_last_concat(es.drop_last(), off).contains(p) {
            inner.union(g_first(es.last(), off2))
        } else {
            inner
        }
    }
}

pub open spec fn g_follow_alt(es: Seq<HirExpr>, off: int, p: int) -> Set<int>
    decreases es, 0nat,
{
    if es.len() == 0 {
        Set::empty()
    } else {
        g_follow_alt(es.drop_last(), off, p).union(
            g_follow(es.last(), off + g_npos_seq(es.drop_last()), p),
        )
    }
}

/// The bytes of a byte class.
pub open spec fn class_bytes(c: HirClass) -> Set<u8> {
    let s = Set::new(
        |b: u8| exists|i: int| 0 <= i < c.ranges@.len() && (#[trigger] c.ranges@[i]).0 <= b <= c.ranges@[i].1,
    );
    if c.negated {
        s.complement()
    } else {
        s
    }
}

/// The bytes accepted at local position `j` of `e` (`0 <= j < g_npos(e)`).
pub open spec fn g_bytes(e: HirExpr, j: int) -> Set<u8>
    decreases e, 1nat,
{
    match e {
        HirExpr::Literal(b) => set![b@[j]],
        HirExpr::Class(c) => class_bytes(c),
        HirExpr::Concat(es) => g_bytes_seq(es@, j),
        HirExpr::Alt(es) => g_bytes_seq(es@, j),
        HirExpr::Repeat(r) => g_bytes(r.expr, j),
        HirExpr::Capture(c) => g_bytes(c.expr, j),
        _ => Set::empty(),
    }
}

pub open spec fn g_bytes_seq(es: Seq<HirExpr>, j: int) -> Set<u8>
    decreases es, 0nat,
{
    if es.len() == 0 {
        Set::empty()
    } else if j < g_npos_seq(es.drop_last()) {
        g_bytes_seq(es.drop_last(), j)
    } else {
        g_bytes(es.last(), j - g_npos_seq(es.drop_last()))
    }
}

/// The first, last and follow sets of `e` lie inside the positions `e` owns.
pub proof fn lemma_g_ranges(e: HirExpr, off: int)
    ensures
        forall|q: int| #[trigger] g_first(e, off).contains(q) ==> off <= q < off + g_npos(e),
        forall|q: int| #[trigger] g_last(e, off).contains(q) ==> off <= q < off + g_npos(e),
        forall|p: int, q: int| #[trigger]
            g_follow(e, off, p).contains(q) ==> off <= p < off + g_npos(e) && off <= q < off
                + g_npos(e),
    decreases e, 1nat,
{
    match e {
        HirExpr::Concat(es) => {
            lemma_g_ranges_concat(es@, off);
            assert(g_first(e, off) == g_first_concat(es@, off));
            assert(g_last(e, off) == g_last_concat(es@, off));
            assert(g_npos(e) == g_npos_seq(es@));
            assert forall|q: int| g_first(e, off).contains(q) implies off <= q < off + g_npos(e) by {
                assert(g_first_concat(es@, off).contains(q));
            }
            assert forall|p: int| g_follow(e, off, p) == g_follow_concat(es@, off, p) by {}
        },
        HirExpr::Alt(es) => {
            lemma_g_ranges_alt(es@, off);
            assert(g_first(e, off) == g_first_alt(es@, off));
            assert(g_last(e, off) == g_last_alt(es@, off));
            assert(g_npos(e) == g_npos_seq(es@));
            assert forall|p: int| g_follow(e, off, p) == g_follow_alt(es@, off, p) by {}
        },
        HirExpr::Repeat(r) => {
            lemma_g_ranges(r.expr, off);
            assert(g_first(e, off) == g_first(r.expr, off));
            assert(g_last(e, off) == g_last(r.expr, off));
            assert(g_npos(e) == g_npos(r.expr));
            assert forall|p: int, q: int| #[trigger] g_follow(e, off, p).contains(q) implies off
                <= p < off + g_npos(e) && off <= q < off + g_npos(e) by {
                if g_follow(r.expr, off, p).contains(q) {
                } else {
                    assert(g_last(r.expr, off).contains(p));
                    assert(g_first(r.expr, off).contains(q));
                }
            }
        },
        HirExpr::Capture(c) => {
            lemma_g_ranges(c.expr, off);
            assert(g_first(e, off) == g_first(c.expr, off));
            assert(g_last(e, off) == g_last(c.expr, off));
            assert(g_npos(e) == g_npos(c.expr));
            assert forall|p: int| g_follow(e, off, p) == g_follow(c.expr, off, p) by {}
        },
        HirExpr::Class(_) => {
            assert(g_first(e, off) == set![off]);
            assert(g_last(e, off) == set![off]);
            assert(g_npos(e) == 1);
        },
        HirExpr::Literal(b) => {
            if b@.len() > 0 {
                assert(g_first(e, off) == set![off]);
                assert(g_last(e, off) == set![off + b@.len() - 1]);
            }
        },
        _ => {},
    }
}

pub proof fn lemma_g_ranges_concat(es: Seq<HirExpr>, off: int)
    ensures
        forall|q: int| #[trigger]
            g_first_concat(es, off).contains(q) ==> off <= q < off + g_npos_seq(es),
        forall|q: int| #[trigger]
            g_last_concat(es, off).contains(q) ==> off <= q < off + g_npos_seq(es),
        forall|p: int, q: int| #[trigger]
            g_follow_concat(es, off, p).contains(q) ==> off <= p < off + g_npos_seq(es) && off
                <= q < off + g_npos_seq(es),
    decreases es, 0nat,
{
    if es.len() > 0 {
        let off2 = off + g_npos_seq(es.drop_last());
        lemma_g_ranges_concat(es.drop_last(), off);
        lemma_g_ranges(es.last(), off2);
        assert forall|q: int| #[trigger] g_first_concat(es, off).contains(q) implies off <= q < off
            + g_npos_seq(es) by {
            if g_first_concat(es.drop_last(), off).contains(q) {
            } else {
                assert(g_first(es.last(), off2).contains(q));
            }
        }
        assert forall|q: int| #[trigger] g_last_concat(es, off).contains(q) implies off <= q < off
            + g_npos_seq(es) by {
            if g_last_concat(es.drop_last(), off).contains(q) {
            } else {
                assert(g_last(es.last(), off2).contains(q));
            }
        }
        assert forall|p: int, q: int| #[trigger] g_follow_concat(es, off, p).contains(q) implies off
            <= p < off + g_npos_seq(es) && off <= q < off + g_npos_seq(es) by {
            if g_follow_concat(es.drop_last(), off, p).contains(q) {
            } else if g_follow(es.last(), off2, p).contains(q) {
            } else {
            if g_last_concat(es.drop_last(), off).contains(p) {
                lemma_g_ranges_concat(es.drop_last(), off);
            }
                assert(g_first(es.last(), off2).contains(q));
            }
        }
    }
}

pub proof fn lemma_g_ranges_alt(es: Seq<HirExpr>, off: int)
    ensures
        forall|q: int| #[trigger]
            g_first_alt(es, off).contains(q) ==> off <= q < off + g_npos_seq(es),
        forall|q: int| #[trigger]
            g_last_alt(es, off).contains(q) ==> off <= q < off + g_npos_seq(es),
        forall|p: int, q: int| #[trigger]
            g_follow_alt(es, off, p).contains(q) ==> off <= p < off + g_npos_seq(es) && off <= q
                < off + g_npos_seq(es),
    decreases es, 0nat,
{
    if es.len() > 0 {
        let off2 = off + g_npos_seq(es.drop_last());
        lemma_g_ranges_alt(es.drop_last(), off);
        lemma_g_ranges(es.last(), off2);
        assert forall|q: int| #[trigger] g_first_alt(es, off).contains(q) implies off <= q < off
            + g_npos_seq(es) by {
            if g_first_alt(es.drop_last(), off).contains(q) {
            } else {
                assert(g_first(es.last(), off2).contains(q));
            }
        }
        assert forall|q: int| #[trigger] g_last_alt(es, off).contains(q) implies off <= q < off
            + g_npos_seq(es) by {
            if g_last_alt(es.drop_last(), off).contains(q) {
            } else {
                assert(g_last(es.last(), off2).contains(q));
            }
        }
        assert forall|p: int, q: int| #[trigger] g_follow_alt(es, off, p).contains(q) implies off
            <= p < off + g_npos_seq(es) && off <= q < off + g_npos_seq(es) by {
            if g_follow_alt(es.drop_last(), off, p).contains(q) {
            } else if g_follow(es.last(), off2, p).contains(q) {
            } else {
                assert(g_first(es.last(), off2).contains(q));
            }
        }
    }
}

/// Splitting a prefix of a sequence at its last element.
proof fn lemma_take_last<A>(es: Seq<A>, k: int)
    requires
        0 <= k < es.len(),
    ensures
        es.take(k + 1).drop_last() == es.take(k),
        es.take(k + 1).last() == es[k],
        es.take(k + 1).len() == k + 1,
{
    assert(es.take(k + 1).drop_last() =~= es.take(k));
}

/// A prefix owns no more positions than the whole sequence, and every element
/// of a handled sequence is handled.
proof fn lemma_seq_prefix(es: Seq<HirExpr>, k: int)
    requires
        0 <= k <= es.len(),
    ensures
        g_npos_seq(es.take(k)) <= g_npos_seq(es),
        g_supported_seq(es) ==> g_supported_seq(es.take(k)),
        k < es.len() ==> g_npos_seq(es.take(k)) + g_npos(es[k]) <= g_npos_seq(es),
        k < es.len() && g_supported_seq(es) ==> g_supported(es[k]),
    decreases es.len() - k,
{
    if k == es.len() {
        assert(es.take(k) =~= es);
    } else {
        lemma_take_last(es, k);
        lemma_seq_prefix(es, k + 1);
    }
}

/// `1 << i` holds exactly `i`.
proof fn lemma_single_mask(i: int)
    requires
        0 <= i < 64,
    ensures
        u64_set(1u64 << (i as u64)) == set![i],
{
    lemma_u64_set_single(i);
}

/// A Glushkov NFA (Position Automaton).
///
/// Unlike Thompson NFA, this has no epsilon transitions.
/// Each position corresponds to one character in the pattern.
#[derive(Debug, Clone)]
pub struct GlushkovNfa {
    /// What bytes each position accepts.
    pub positions: Vec<ByteSet>,
    /// Follow sets: `follow[i]` contains positions that can follow position i.
    pub follow: Vec<u64>,
    /// Positions that can start a match (First set).
    pub first: u64,
    /// Positions that can end a match (Last set).
    pub last: u64,
    /// Whether the pattern can match the empty string.
    pub nullable: bool,
    /// Number of positions.
    pub position_count: usize,
}

/// Result of analyzing an HIR expression for Glushkov construction.
#[derive(Debug, Clone, Copy)]
struct ExprInfo {
    /// First set: positions that can start matching this expression.
    first: u64,
    /// Last set: positions that can end matching this expression.
    last: u64,
    /// Whether this expression can match the empty string.
    nullable: bool,
}

impl ExprInfo {
    fn empty() -> (r: Self)
        ensures
            u64_set(r.first) == Set::<int>::empty(),
            u64_set(r.last) == Set::<int>::empty(),
            r.nullable,
    {
        proof {
            lemma_u64_set_consts();
        }
        Self { first: 0, last: 0, nullable: true }
    }
}

/// The first, last and nullable of `i` are those of `e` with positions from `off`.
spec fn info_is(i: ExprInfo, first: Set<int>, last: Set<int>, nullable: bool) -> bool {
    &&& u64_set(i.first) == first
    &&& u64_set(i.last) == last
    &&& i.nullable == nullable
}

/// Builds a Glushkov NFA from HIR.
pub struct GlushkovBuilder {
    /// Byte sets for each position.
    positions: Vec<ByteSet>,
    /// Follow sets for each position.
    follow: Vec<u64>,
}

impl GlushkovBuilder {
    /// The builder's two vectors have one entry per position, at most 64.
    pub closed spec fn inv(&self) -> bool {
        &&& self.positions.len() == self.follow.len()
        &&& self.positions.len() <= MAX_POSITIONS
    }

    /// The builder grew from `old` by the positions of one sub-expression of
    /// `n` positions whose bytes and follow sets are given.
    spec fn grew(
        &self,
        old: &Self,
        n: nat,
        bytes: spec_fn(int) -> Set<u8>,
        follow: spec_fn(int) -> Set<int>,
    ) -> bool {
        let off = old.positions.len() as int;
        &&& self.positions.len() == off + n
        &&& forall|j: int| 0 <= j < off ==> self.positions@[j] == old.positions@[j]
        &&& forall|j: int| 0 <= j < off ==> self.follow@[j] == old.follow@[j]
        &&& forall|j: int| #![trigger self.positions@[j]] off <= j < off + n ==> self.positions@[j]@ == bytes(j - off)
        &&& forall|p: int| #![trigger self.follow@[p]] off <= p < off + n ==> u64_set(self.follow@[p]) == follow(p)
    }

    /// Creates a new builder.
    pub fn new() -> (b: Self)
        ensures
            b.inv(),
    {
        Self { positions: Vec::new(), follow: Vec::new() }
    }

    /// Adds one position accepting `bytes`, with an empty follow set.
    fn push_position(&mut self, bytes: ByteSet)
        requires
            old(self).inv(),
            old(self).positions.len() < MAX_POSITIONS,
        ensures
            final(self).inv(),
            final(self).positions@ == old(self).positions@.push(bytes),
            final(self).follow@ == old(self).follow@.push(0u64),
    {
        self.positions.push(bytes);
        self.follow.push(0);
    }

    /// ORs `mask` into the follow set of every position of `from` (a set of
    /// positions below 64).
    fn add_follow(&mut self, from: u64, mask: u64)
        requires
            old(self).inv(),
            forall|q: int| u64_set(from).contains(q) ==> q < old(self).follow.len(),
        ensures
            final(self).inv(),
            final(self).positions@ == old(self).positions@,
            final(self).follow.len() == old(self).follow.len(),
            forall|p: int|
                #![trigger final(self).follow@[p]]
                0 <= p < final(self).follow.len() && !u64_set(from).contains(p)
                    ==> final(self).follow@[p] == old(self).follow@[p],
            forall|p: int|
                #![trigger final(self).follow@[p]]
                0 <= p < final(self).follow.len() ==> u64_set(final(self).follow@[p]) == if u64_set(
                    from,
                ).contains(p) {
                    u64_set(old(self).follow@[p]).union(u64_set(mask))
                } else {
                    u64_set(old(self).follow@[p])
                },
    {
        let mut pos: usize = 0;
        while pos < MAX_POSITIONS
            invariant
                pos <= MAX_POSITIONS,
                self.inv(),
                self.positions@ == old(self).positions@,
                self.follow.len() == old(self).follow.len(),
                forall|q: int| u64_set(from).contains(q) ==> q < old(self).follow.len(),
                forall|p: int|
                    #![trigger self.follow@[p]]
                    0 <= p < self.follow.len() && !(p < pos && u64_set(from).contains(p))
                        ==> self.follow@[p] == old(self).follow@[p],
                forall|p: int|
                    #![trigger self.follow@[p]]
                    0 <= p < self.follow.len() ==> u64_set(self.follow@[p]) == if p < pos
                        && u64_set(from).contains(p) {
                        u64_set(old(self).follow@[p]).union(u64_set(mask))
                    } else {
                        u64_set(old(self).follow@[p])
                    },
            decreases MAX_POSITIONS - pos,
        {
            let bit = (from >> (pos as u64)) & 1 != 0;
            proof {
                let pp = pos as u64;
                assert((from >> pp) & 1u64 != 0 <==> (from >> pp) & 1u64 == 1u64) by (bit_vector);
                assert(u64_set(from).contains(pos as int) == u64_bit(from, pos as int));
            }
            let ghost before = self.follow@;
            if bit && pos < self.follow.len() {
                proof {
                    lemma_u64_set_or(self.follow@[pos as int], mask);
                }
                let w = self.follow[pos] | mask;
                self.follow.set(pos, w);
                assert(self.follow@ == before.update(pos as int, w));
            }
            assert forall|p: int|
                #![trigger self.follow@[p]]
                0 <= p < self.follow.len() && !(p < pos + 1 && u64_set(from).contains(p))
                    implies self.follow@[p] == old(self).follow@[p] by {
                assert(before[p] == old(self).follow@[p]);
                assert(bit == u64_set(from).contains(pos as int));
                if p != pos {
                    assert(self.follow@[p] == before[p]);
                } else {
                    assert(!bit);
                    assert(self.follow@[p] == before[p]);
                }
            }
            pos += 1;
        }
    }

    /// Single-pass construction: allocate positions and compute follow sets.
    fn build_expr(&mut self, expr: &HirExpr) -> (r: Option<ExprInfo>)
        requires
            old(self).inv(),
        ensures
            final(self).inv(),
            r is Some <==> (g_supported(*expr) && old(self).positions.len() + g_npos(*expr)
                <= MAX_POSITIONS),
            r is Some ==> final(self).grew(
                old(self),
                g_npos(*expr),
                |j: int| g_bytes(*expr, j),
                |p: int| g_follow(*expr, old(self).positions.len() as int, p),
            ),
            r is Some ==> info_is(
                r->0,
                g_first(*expr, old(self).positions.len() as int),
                g_last(*expr, old(self).positions.len() as int),
                g_nullable(*expr),
            ),
        decreases expr,
    {
        let ghost off = self.positions.len() as int;
        proof {
            lemma_g_ranges(*expr, off);
        }
        match expr {
            HirExpr::Empty => {
                let r = ExprInfo::empty();
                proof {
                    assert(g_first(*expr, off) =~= Set::<int>::empty());
                }
                Some(r)
            },
            HirExpr::Literal(bytes) => {
                if bytes.len() == 0 {
                    return Some(ExprInfo::empty());
                }
                let first_pos = self.positions.len();
                let mut k: usize = 0;
                while k < bytes.len()
                    invariant
                        self.inv(),
                        k <= bytes.len(),
                        first_pos == off,
                        off == old(self).positions.len(),
                        *expr == HirExpr::Literal(*bytes),
                        self.positions.len() == off + k,
                        forall|j: int| 0 <= j < off ==> self.positions@[j] == old(self).positions@[j],
                        forall|j: int| 0 <= j < off ==> self.follow@[j] == old(self).follow@[j],
                        forall|j: int|
                            #![trigger self.positions@[j]]
                            off <= j < off + k ==> self.positions@[j]@ == set![bytes@[j - off]],
                        forall|j: int|
                            #![trigger self.follow@[j]]
                            off <= j < off + k ==> self.follow@[j] == 0u64,
                    decreases bytes.len() - k,
                {
                    if self.positions.len() >= MAX_POSITIONS {
                        proof {
                            assert(g_supported(*expr));
                            assert(g_npos(*expr) == bytes@.len());
                            assert(old(self).positions.len() == off);
                            assert(off + k >= 64);
                        }
                        return None;
                    }
                    let set = ByteSet::singleton(bytes[k]);
                    self.push_position(set);
                    k += 1;
                }
                let last_pos = self.positions.len() - 1;
                let mut i = first_pos;
                proof {
                    lemma_u64_set_consts();
                }
                while i < last_pos
                    invariant
                        self.inv(),
                        first_pos <= i <= last_pos,
                        last_pos == self.positions.len() - 1,
                        first_pos == off,
                        *expr == HirExpr::Literal(*bytes),
                        self.positions.len() == off + bytes.len(),
                        forall|j: int| 0 <= j < off ==> self.positions@[j] == old(self).positions@[j],
                        forall|j: int| 0 <= j < off ==> self.follow@[j] == old(self).follow@[j],
                        forall|j: int|
                            #![trigger self.positions@[j]]
                            off <= j < off + bytes.len() ==> self.positions@[j]@ == set![
                                bytes@[j - off],
                            ],
                        forall|j: int|
                            #![trigger self.follow@[j]]
                            off <= j < off + bytes.len() ==> u64_set(self.follow@[j]) == if j < i {
                                set![j + 1]
                            } else {
                                Set::<int>::empty()
                            },
                    decreases last_pos - i,
                {
                    proof {
                        lemma_u64_set_consts();
                        lemma_single_mask(i as int + 1);
                        lemma_u64_set_or(self.follow@[i as int], 1u64 << ((i + 1) as u64));
                    }
                    let w = self.follow[i] | (1u64 << ((i + 1) as u64));
                    self.follow.set(i, w);
                    proof {
                        assert(u64_set(w) =~= set![i as int + 1]);
                    }
                    i += 1;
                }
                proof {
                    lemma_single_mask(first_pos as int);
                    lemma_single_mask(last_pos as int);
                    assert forall|p: int| #![trigger self.follow@[p]] off <= p < off + bytes.len()
                        implies u64_set(self.follow@[p]) == g_follow(*expr, off, p) by {
                        lemma_u64_set_consts();
                    }
                }
                Some(
                    ExprInfo {
                        first: 1u64 << (first_pos as u64),
                        last: 1u64 << (last_pos as u64),
                        nullable: false,
                    },
                )
            },
            HirExpr::Class(class) => {
                if self.positions.len() >= MAX_POSITIONS {
                    return None;
                }
                let pos = self.positions.len();
                let mut byte_set = ByteSet::new();
                let mut k: usize = 0;
                while k < class.ranges.len()
                    invariant
                        k <= class.ranges.len(),
                        forall|b: u8|
                            byte_set@.contains(b) <==> exists|i: int|
                                0 <= i < k && (#[trigger] class.ranges@[i]).0 <= b
                                    <= class.ranges@[i].1,
                    decreases class.ranges.len() - k,
                {
                    let (start, end) = class.ranges[k];
                    let mut b: u16 = start as u16;
                    while b <= end as u16
                        invariant
                            start <= b <= 256,
                            forall|x: u8|
                                byte_set@.contains(x) <==> (exists|i: int|
                                    0 <= i < k && (#[trigger] class.ranges@[i]).0 <= x
                                        <= class.ranges@[i].1) || (start <= x < b && x <= end),
                        decreases 256 - b,
                    {
                        byte_set.insert(b as u8);
                        b += 1;
                    }
                    proof {
                        assert forall|x: u8| byte_set@.contains(x) <==> exists|i: int|
                            0 <= i < k + 1 && (#[trigger] class.ranges@[i]).0 <= x
                                <= class.ranges@[i].1 by {
                            if start <= x <= end {
                                assert(class.ranges@[k as int] == (start, end));
                            }
                        }
                    }
                    k += 1;
                }
                if class.negated {
                    byte_set = byte_set.complement();
                }
                proof {
                    assert(byte_set@ =~= class_bytes(*class));
                    lemma_single_mask(pos as int);
                    lemma_u64_set_consts();
                }
                self.push_position(byte_set);
                Some(ExprInfo { first: 1u64 << (pos as u64), last: 1u64 << (pos as u64), nullable: false })
            },
            HirExpr::Concat(exprs) => {
                if exprs.len() == 0 {
                    proof {
                        assert(exprs@.len() == 0);
                        assert(g_supported_seq(exprs@));
                        assert(g_npos_seq(exprs@) == 0);
                        assert(g_first_concat(exprs@, off) == Set::<int>::empty());
                        assert(g_last_concat(exprs@, off) == Set::<int>::empty());
                        assert(g_nullable_concat(exprs@));
                    }
                    return Some(ExprInfo::empty());
                }
                let mut result = match self.build_expr(&exprs[0]) {
                    Some(i) => i,
                    None => {
                        proof {
                            lemma_seq_prefix(exprs@, 0);
                        }
                        return None;
                    },
                };
                proof {
                    lemma_take_last(exprs@, 0);
                    assert(exprs@.take(0) =~= Seq::<HirExpr>::empty());
                    let e0 = exprs@.take(0);
                    assert(g_supported_seq(e0));
                    assert(g_supported_seq(exprs@.take(1)));
                    assert(g_nullable_concat(e0));
                    assert(g_npos_seq(e0) == 0);
                    assert(g_first_concat(e0, off) == Set::<int>::empty());
                    assert(g_last_concat(e0, off) == Set::<int>::empty());
                    assert(forall|p: int| g_follow_concat(e0, off, p) == Set::<int>::empty());
                    assert(g_first_concat(exprs@.take(1), off) =~= g_first(exprs@[0], off));
                    assert(g_last_concat(exprs@.take(1), off) =~= g_last(exprs@[0], off));
                    assert forall|p: int| g_follow_concat(exprs@.take(1), off, p) =~= g_follow(
                        exprs@[0],
                        off,
                        p,
                    ) by {
                        assert(exprs@.take(1).drop_last() == e0);
                        assert(g_follow_concat(e0, off, p) == Set::<int>::empty());
                        assert(g_follow_concat(exprs@.take(1), off, p) =~= g_follow_concat(e0, off, p).union(
                            g_follow(exprs@[0], off, p)));
                    }
                }
                let mut k: usize = 1;
                while k < exprs.len()
                    invariant
                        old(self).inv(),
                        self.inv(),
                        off == old(self).positions.len(),
                        1 <= k <= exprs.len(),
                        *expr == HirExpr::Concat(*exprs),
                        g_supported_seq(exprs@.take(k as int)),
                        self.grew(
                            old(self),
                            g_npos_seq(exprs@.take(k as int)),
                            |j: int| g_bytes_seq(exprs@.take(k as int), j),
                            |p: int| g_follow_concat(exprs@.take(k as int), off, p),
                        ),
                        info_is(
                            result,
                            g_first_concat(exprs@.take(k as int), off),
                            g_last_concat(exprs@.take(k as int), off),
                            g_nullable_concat(exprs@.take(k as int)),
                        ),
                    decreases exprs.len() - k,
                {
                    let ghost off2 = self.positions.len() as int;
                    let ghost before = *self;
                    let ghost pre = exprs@.take(k as int);
                    proof {
                        assert(decreases_to!(*expr => expr->Concat_0));
                        assert(decreases_to!(expr->Concat_0 => expr->Concat_0@));
                        assert(decreases_to!(expr->Concat_0@ => expr->Concat_0@[k as int]));
                    }
                    let next = match self.build_expr(&exprs[k]) {
                        Some(n) => n,
                        None => {
                            proof {
                                lemma_seq_prefix(exprs@, k as int);
                            }
                            return None;
                        },
                    };
                    let ghost mid = *self;
                    proof {
                        lemma_g_ranges_concat(pre, off);
                        lemma_g_ranges(exprs@[k as int], off2);
                    }
                    self.add_follow(result.last, next.first);
                    let new_first = if result.nullable {
                        result.first | next.first
                    } else {
                        result.first
                    };
                    let new_last = if next.nullable {
                        next.last | result.last
                    } else {
                        next.last
                    };
                    proof {
                        lemma_u64_set_or(result.first, next.first);
                        lemma_u64_set_or(next.last, result.last);
                        lemma_take_last(exprs@, k as int);
                        let cur = exprs@.take(k + 1);
                        let e = exprs@[k as int];
                        assert(g_npos_seq(cur) == g_npos_seq(pre) + g_npos(e));
                        assert(u64_set(new_first) =~= g_first_concat(cur, off));
                        assert(u64_set(new_last) =~= g_last_concat(cur, off));
                        assert forall|j: int| #![trigger self.positions@[j]] off <= j < off
                            + g_npos_seq(cur) implies self.positions@[j]@ == g_bytes_seq(
                            cur,
                            j - off,
                        ) by {
                            if j < off2 {
                                assert(before.positions@[j] == self.positions@[j]);
                            }
                        }
                        assert forall|p: int| #![trigger self.follow@[p]] off <= p < off
                            + g_npos_seq(cur) implies u64_set(self.follow@[p]) == g_follow_concat(
                            cur,
                            off,
                            p,
                        ) by {
                            assert(u64_set(result.last).contains(p) == g_last_concat(pre, off).contains(p));
                            if p < off2 {
                                assert(before.follow@[p] == mid.follow@[p]);
                                assert(u64_set(mid.follow@[p]) == g_follow_concat(pre, off, p));
                                assert(g_follow(e, off2, p) =~= Set::<int>::empty());
                            } else {
                                assert(u64_set(mid.follow@[p]) == g_follow(e, off2, p));
                                assert(g_follow_concat(pre, off, p) =~= Set::<int>::empty());
                                assert(!g_last_concat(pre, off).contains(p));
                            }
                            assert(u64_set(self.follow@[p]) =~= g_follow_concat(cur, off, p));
                        }
                        assert(self.positions.len() == off + g_npos_seq(cur));
                        assert(forall|j: int| 0 <= j < off ==> self.positions@[j] == old(self).positions@[j]);
                        assert(forall|j: int| 0 <= j < off ==> self.follow@[j] == old(self).follow@[j]);
                    }
                    result = ExprInfo {
                        first: new_first,
                        last: new_last,
                        nullable: result.nullable && next.nullable,
                    };
                    k += 1;
                }
                proof {
                    assert(exprs@.take(k as int) =~= exprs@);
                }
                Some(result)
            },
            HirExpr::Alt(exprs) => {
                if exprs.len() == 0 {
                    proof {
                        assert(exprs@.len() == 0);
                        assert(g_supported_seq(exprs@));
                        assert(g_npos_seq(exprs@) == 0);
                        assert(g_first_alt(exprs@, off) == Set::<int>::empty());
                        assert(g_last_alt(exprs@, off) == Set::<int>::empty());
                        assert(g_nullable_alt(exprs@));
                    }
                    return Some(ExprInfo::empty());
                }
                let mut result = match self.build_expr(&exprs[0]) {
                    Some(i) => i,
                    None => {
                        proof {
                            lemma_seq_prefix(exprs@, 0);
                        }
                        return None;
                    },
                };
                proof {
                    lemma_take_last(exprs@, 0);
                    assert(exprs@.take(0) =~= Seq::<HirExpr>::empty());
                    let e0 = exprs@.take(0);
                    assert(g_supported_seq(e0));
                    assert(g_supported_seq(exprs@.take(1)));
                    assert(g_nullable_alt(e0));
                    assert(g_npos_seq(e0) == 0);
                    assert(g_first_alt(e0, off) == Set::<int>::empty());
                    assert(g_last_alt(e0, off) == Set::<int>::empty());
                    assert(forall|p: int| g_follow_alt(e0, off, p) == Set::<int>::empty());
                    assert(g_first_alt(exprs@.take(1), off) =~= g_first(exprs@[0], off));
                    assert(g_last_alt(exprs@.take(1), off) =~= g_last(exprs@[0], off));
                    assert forall|p: int| g_follow_alt(exprs@.take(1), off, p) =~= g_follow(
                        exprs@[0],
                        off,
                        p,
                    ) by {
                        assert(exprs@.take(1).drop_last() == e0);
                        assert(g_follow_alt(e0, off, p) == Set::<int>::empty());
                        assert(g_follow_alt(exprs@.take(1), off, p) =~= g_follow_alt(e0, off, p).union(
                            g_follow(exprs@[0], off, p)));
                    }
                }
                let mut k: usize = 1;
                while k < exprs.len()
                    invariant
                        old(self).inv(),
                        self.inv(),
                        off == old(self).positions.len(),
                        1 <= k <= exprs.len(),
                        *expr == HirExpr::Alt(*exprs),
                        g_supported_seq(exprs@.take(k as int)),
                        self.grew(
                            old(self),
                            g_npos_seq(exprs@.take(k as int)),
                            |j: int| g_bytes_seq(exprs@.take(k as int), j),
                            |p: int| g_follow_alt(exprs@.take(k as int), off, p),
                        ),
                        info_is(
                            result,
                            g_first_alt(exprs@.take(k as int), off),
                            g_last_alt(exprs@.take(k as int), off),
                            g_nullable_alt(exprs@.take(k as int)),
                        ),
                    decreases exprs.len() - k,
                {
                    let ghost off2 = self.positions.len() as int;
                    let ghost before = *self;
                    let ghost pre = exprs@.take(k as int);
                    proof {
                        assert(decreases_to!(*expr => expr->Alt_0));
                        assert(decreases_to!(expr->Alt_0 => expr->Alt_0@));
                        assert(decreases_to!(expr->Alt_0@ => expr->Alt_0@[k as int]));
                    }
                    let alt = match self.build_expr(&exprs[k]) {
                        Some(n) => n,
                        None => {
                            proof {
                                lemma_seq_prefix(exprs@, k as int);
                            }
                            return None;
                        },
                    };
                    proof {
                        lemma_g_ranges_alt(pre, off);
                        lemma_g_ranges(exprs@[k as int], off2);
                        lemma_u64_set_or(result.first, alt.first);
                        lemma_u64_set_or(result.last, alt.last);
                        lemma_take_last(exprs@, k as int);
                        let cur = exprs@.take(k + 1);
                        let e = exprs@[k as int];
                        assert(g_npos_seq(cur) == g_npos_seq(pre) + g_npos(e));
                        assert forall|j: int| #![trigger self.positions@[j]] off <= j < off
                            + g_npos_seq(cur) implies self.positions@[j]@ == g_bytes_seq(
                            cur,
                            j - off,
                        ) by {
                            if j < off2 {
                                assert(before.positions@[j] == self.positions@[j]);
                            }
                        }
                        assert forall|p: int| #![trigger self.follow@[p]] off <= p < off
                            + g_npos_seq(cur) implies u64_set(self.follow@[p]) == g_follow_alt(
                            cur,
                            off,
                            p,
                        ) by {
                            if p < off2 {
                                assert(before.follow@[p] == self.follow@[p]);
                                assert(g_follow(e, off2, p) =~= Set::<int>::empty());
                            } else {
                                assert(g_follow_alt(pre, off, p) =~= Set::<int>::empty());
                            }
                            assert(u64_set(self.follow@[p]) =~= g_follow_alt(cur, off, p));
                        }
                    }
                    result = ExprInfo {
                        first: result.first | alt.first,
                        last: result.last | alt.last,
                        nullable: result.nullable || alt.nullable,
                    };
                    k += 1;
                }
                proof {
                    assert(exprs@.take(k as int) =~= exprs@);
                }
                Some(result)
            },
            HirExpr::Repeat(rep) => {
                let inner = match self.build_expr(&rep.expr) {
                    Some(i) => i,
                    None => return None,
                };
                // A repetition with unbounded max (*, +, {n,}) or max above one
                // loops from its Last positions back to its First positions.
                let allows_repetition = match rep.max {
                    None => true,
                    Some(m) => m > 1,
                };
                if allows_repetition {
                    proof {
                        lemma_g_ranges(rep.expr, off);
                    }
                    self.add_follow(inner.last, inner.first);
                }
                proof {
                    assert forall|p: int| #![trigger self.follow@[p]] off <= p < off + g_npos(
                        *expr,
                    ) implies u64_set(self.follow@[p]) == g_follow(*expr, off, p) by {
                        assert(u64_set(self.follow@[p]) =~= g_follow(*expr, off, p));
                    }
                }
                if rep.min == 0 {
                    Some(ExprInfo { first: inner.first, last: inner.last, nullable: true })
                } else {
                    Some(ExprInfo { first: inner.first, last: inner.last, nullable: inner.nullable })
                }
            },
            HirExpr::Capture(cap) => {
                let r = self.build_expr(&cap.expr);
                proof {
                    if r is Some {
                        assert forall|p: int| #![trigger self.follow@[p]] off <= p < off + g_npos(
                            *expr,
                        ) implies u64_set(self.follow@[p]) == g_follow(*expr, off, p) by {}
                    }
                }
                r
            },
            HirExpr::Anchor(_) => Some(ExprInfo::empty()),
            HirExpr::Lookaround(_) => None,
            HirExpr::Backref(_) => None,
            // Unicode code point classes consume variable-length UTF-8
            // sequences, which one position cannot stand for.
            HirExpr::UnicodeCpClass(_) => None,
        }
    }
    /// Builds a Glushkov NFA from HIR.
    ///
    /// A single pass allocates positions and computes follow sets.
    /// Returns `None` for backreferences, lookarounds, Unicode code point
    /// classes and patterns of more than `MAX_POSITIONS` positions.
    pub fn build(&mut self, hir: &Hir) -> (r: Option<GlushkovNfa>)
        requires
            old(self).inv(),
        ensures
            final(self).inv(),
            r is Some <==> glushkov_accepts(*hir, MAX_POSITIONS as nat),
            r matches Some(n) ==> n.describes(hir.expr),
    {
        if hir.props.has_backrefs || hir.props.has_lookaround {
            return None;
        }
        self.positions.clear();
        self.follow.clear();
        let info = match self.build_expr(&hir.expr) {
            Some(i) => i,
            None => return None,
        };
        if self.positions.len() > MAX_POSITIONS {
            return None;
        }
        let positions = copy_positions(&self.positions);
        let follow = self.follow.clone();
        Some(
            GlushkovNfa {
                positions,
                follow,
                first: info.first,
                last: info.last,
                nullable: info.nullable,
                position_count: self.positions.len(),
            },
        )
    }
}

/// Whether the construction succeeds on `hir` within `max` positions.
pub open spec fn glushkov_accepts(hir: Hir, max: nat) -> bool {
    &&& !hir.props.has_backrefs
    &&& !hir.props.has_lookaround
    &&& g_supported(hir.expr)
    &&& g_npos(hir.expr) <= max
}

/// Copies a vector of byte sets.
fn copy_positions(v: &Vec<ByteSet>) -> (r: Vec<ByteSet>)
    ensures
        r@ == v@,
{
    let mut r: Vec<ByteSet> = Vec::new();
    let mut i: usize = 0;
    while i < v.len()
        invariant
            i <= v.len(),
            r@ == v@.take(i as int),
        decreases v.len() - i,
    {
        r.push(v[i]);
        i += 1;
        proof {
            assert(r@ =~= v@.take(i as int));
        }
    }
    proof {
        assert(v@.take(i as int) =~= v@);
    }
    r
}

impl GlushkovNfa {
    /// The automaton is the Glushkov automaton of `e`, positions numbered from 0.
    pub open spec fn describes(&self, e: HirExpr) -> bool {
        &&& self.position_count == g_npos(e)
        &&& self.positions.len() == g_npos(e)
        &&& self.follow.len() == g_npos(e)
        &&& forall|j: int| 0 <= j < g_npos(e) ==> (#[trigger] self.positions@[j])@ == g_bytes(e, j)
        &&& forall|p: int| 0 <= p < g_npos(e) ==> u64_set(#[trigger] self.follow@[p]) == g_follow(e, 0, p)
        &&& u64_set(self.first) == g_first(e, 0)
        &&& u64_set(self.last) == g_last(e, 0)
        &&& self.nullable == g_nullable(e)
    }

    /// Checks if this NFA is compatible with Shift-Or.
    pub fn is_shift_or_compatible(&self) -> (b: bool)
        ensures
            b == (self.position_count <= MAX_POSITIONS),
    {
        self.position_count <= MAX_POSITIONS
    }

    /// Builds the Shift-Or mask table from this Glushkov NFA.
    ///
    /// Returns masks where `mask[byte]` has bit `i` as 0 if position `i` can accept `byte`,
    /// 1 otherwise (Shift-Or uses inverted logic).
    pub fn build_shift_or_masks(&self) -> (masks: [u64; 256])
        requires
            self.positions.len() <= MAX_POSITIONS,
        ensures
            forall|b: u8, i: int|
                0 <= i < 64 ==> (#[trigger] u64_set(masks@[b as int]).contains(i) <==> !(i
                    < self.positions.len() && self.positions@[i]@.contains(b))),
    {
        let mut masks: [u64; 256] = [0xffff_ffff_ffff_ffffu64; 256];
        proof {
            lemma_u64_set_consts();
        }
        let mut pos_idx: usize = 0;
        while pos_idx < self.positions.len()
            invariant
                pos_idx <= self.positions.len() <= MAX_POSITIONS,
                forall|b: u8, i: int|
                    0 <= i < 64 ==> (#[trigger] u64_set(masks@[b as int]).contains(i) <==> !(i
                        < pos_idx && self.positions@[i]@.contains(b))),
            decreases self.positions.len() - pos_idx,
        {
            let mut byte: u16 = 0;
            while byte < 256
                invariant
                    byte <= 256,
                    pos_idx < self.positions.len() <= MAX_POSITIONS,
                    forall|b: u8, i: int|
                        0 <= i < 64 ==> (#[trigger] u64_set(masks@[b as int]).contains(i) <==> !((
                        i < pos_idx || (i == pos_idx && b < byte)) && self.positions@[i]@.contains(
                            b,
                        ))),
                decreases 256 - byte,
            {
                if self.positions[pos_idx].contains(byte as u8) {
                    let old_mask = masks[byte as usize];
                    let m: u64 = !(1u64 << (pos_idx as u64));
                    masks[byte as usize] = old_mask & m;
                    proof {
                        lemma_u64_set_and(old_mask, m);
                        lemma_u64_set_not(single_bit(pos_idx as int));
                        lemma_u64_set_single(pos_idx as int);
                    }
                }
                byte += 1;
            }
            pos_idx += 1;
        }
        masks
    }

    /// Builds the initial state for Shift-Or: every position unreached.
    ///
    /// In Shift-Or, "not yet reached" is a 1 bit; the First set is handled
    /// during matching.
    pub fn build_initial_state(&self) -> (s: u64)
        ensures
            u64_set(s) == word_range(),
    {
        proof {
            lemma_u64_set_consts();
        }
        !0u64
    }

    /// Builds the accept mask for Shift-Or: 0 bits at the Last positions.
    pub fn build_accept_mask(&self) -> (m: u64)
        ensures
            u64_set(m) == word_range().difference(u64_set(self.last)),
    {
        proof {
            lemma_u64_set_not(self.last);
        }
        !self.last
    }
}

/// Compiles an HIR to a Glushkov NFA.
pub fn compile_glushkov(hir: &Hir) -> (r: Option<GlushkovNfa>)
    ensures
        r is Some <==> glushkov_accepts(*hir, MAX_POSITIONS as nat),
        r matches Some(n) ==> n.describes(hir.expr),
{
    let mut builder = GlushkovBuilder::new();
    builder.build(hir)
}


// ============================================================================
// Wide Glushkov NFA (supports up to 256 positions)
// ============================================================================

/// A Wide Glushkov NFA supporting up to 256 positions.
///
/// Uses BitSet256 instead of u64 for state vectors, allowing patterns
/// with 65-256 character positions to use the Shift-Or algorithm.
#[derive(Debug, Clone)]
pub struct GlushkovWideNfa {
    /// What bytes each position accepts.
    pub positions: Vec<ByteSet>,
    /// Follow sets: `follow[i]` contains positions that can follow position i.
    pub follow: Vec<BitSet256>,
    /// Positions that can start a match (First set).
    pub first: BitSet256,
    /// Positions that can end a match (Last set).
    pub last: BitSet256,
    /// Whether the pattern can match the empty string.
    pub nullable: bool,
    /// Number of positions.
    pub position_count: usize,
}

impl GlushkovWideNfa {
    /// The automaton is the Glushkov automaton of `e`, positions numbered from 0.
    pub open spec fn describes(&self, e: HirExpr) -> bool {
        &&& self.position_count == g_npos(e)
        &&& self.positions.len() == g_npos(e)
        &&& self.follow.len() == g_npos(e)
        &&& forall|j: int| 0 <= j < g_npos(e) ==> (#[trigger] self.positions@[j])@ == g_bytes(e, j)
        &&& forall|p: int| 0 <= p < g_npos(e) ==> (#[trigger] self.follow@[p])@ == g_follow(e, 0, p)
        &&& self.first@ == g_first(e, 0)
        &&& self.last@ == g_last(e, 0)
        &&& self.nullable == g_nullable(e)
    }

    /// Checks if this NFA is compatible with Wide Shift-Or.
    pub fn is_shift_or_wide_compatible(&self) -> (b: bool)
        ensures
            b == (self.position_count <= MAX_POSITIONS_WIDE && self.position_count > 0),
    {
        self.position_count <= MAX_POSITIONS_WIDE && self.position_count > 0
    }

    /// Builds the Wide Shift-Or mask table from this Glushkov NFA.
    ///
    /// Returns masks where `mask[byte]` has bit `i` as 0 if position `i` can accept `byte`,
    /// 1 otherwise (Shift-Or uses inverted logic). Positions past 255 are ignored.
    pub fn build_shift_or_masks(&self) -> (masks: [BitSet256; 256])
        ensures
            forall|b: u8, i: int|
                0 <= i < 256 ==> (#[trigger] masks@[b as int]@.contains(i) <==> !(i
                    < self.positions.len() && self.positions@[i]@.contains(b))),
    {
        let all = BitSet256::all_ones();
        let mut masks: [BitSet256; 256] = [all; 256];
        let mut pos_idx: usize = 0;
        while pos_idx < self.positions.len()
            invariant
                pos_idx <= self.positions.len(),
                forall|b: u8, i: int|
                    0 <= i < 256 ==> (#[trigger] masks@[b as int]@.contains(i) <==> !(i < pos_idx
                        && self.positions@[i]@.contains(b))),
            decreases self.positions.len() - pos_idx,
        {
            let mut byte: u16 = 0;
            while byte < 256
                invariant
                    byte <= 256,
                    pos_idx < self.positions.len(),
                    forall|b: u8, i: int|
                        0 <= i < 256 ==> (#[trigger] masks@[b as int]@.contains(i) <==> !((i
                            < pos_idx || (i == pos_idx && b < byte))
                            && self.positions@[i]@.contains(b))),
                decreases 256 - byte,
            {
                if self.positions[pos_idx].contains(byte as u8) {
                    let mut m = masks[byte as usize];
                    m.clear(pos_idx);
                    masks[byte as usize] = m;
                }
                byte += 1;
            }
            pos_idx += 1;
        }
        masks
    }

    /// Builds the accept mask for Wide Shift-Or: 0 bits at the Last positions.
    pub fn build_accept_mask(&self) -> (m: BitSet256)
        ensures
            m@ == range256().difference(self.last@),
    {
        self.last.complement()
    }
}

/// The positions held by a 256-bit set.
spec fn bset(b: BitSet256) -> Set<int> {
    b@
}

proof fn lemma_words_finite(parts: [u64; 4])
    ensures
        words_set(parts).finite(),
{
    vstd::set_lib::lemma_int_range(0, 256);
    assert(words_set(parts).subset_of(vstd::set_lib::set_int_range(0, 256)));
    vstd::set_lib::lemma_len_subset(words_set(parts), vstd::set_lib::set_int_range(0, 256));
}

/// Copies a vector of 256-bit sets.
fn copy_follow_wide(v: &Vec<BitSet256>) -> (r: Vec<BitSet256>)
    ensures
        r@ == v@,
{
    let mut r: Vec<BitSet256> = Vec::new();
    let mut i: usize = 0;
    while i < v.len()
        invariant
            i <= v.len(),
            r@ == v@.take(i as int),
        decreases v.len() - i,
    {
        r.push(v[i]);
        i += 1;
        proof {
            assert(r@ =~= v@.take(i as int));
        }
    }
    proof {
        assert(v@.take(i as int) =~= v@);
    }
    r
}
/// Result of analyzing an HIR expression for Wide Glushkov construction.
#[derive(Debug, Clone, Copy)]
struct WideExprInfo {
    /// First set: positions that can start matching this expression.
    first: BitSet256,
    /// Last set: positions that can end matching this expression.
    last: BitSet256,
    /// Whether this expression can match the empty string.
    nullable: bool,
}

impl WideExprInfo {
    fn empty() -> (r: Self)
        ensures
            bset(r.first) == Set::<int>::empty(),
            bset(r.last) == Set::<int>::empty(),
            r.nullable,
    {
        Self { first: BitSet256::empty(), last: BitSet256::empty(), nullable: true }
    }
}

/// The first, last and nullable of `i` are those of `e` with positions from `off`.
spec fn winfo_is(i: WideExprInfo, first: Set<int>, last: Set<int>, nullable: bool) -> bool {
    &&& bset(i.first) == first
    &&& bset(i.last) == last
    &&& i.nullable == nullable
}

/// Builds a Wide Glushkov NFA from HIR.
pub struct GlushkovWideBuilder {
    /// Byte sets for each position.
    positions: Vec<ByteSet>,
    /// Follow sets for each position.
    follow: Vec<BitSet256>,
}

impl GlushkovWideBuilder {
    /// The builder's two vectors have one entry per position, at most 256.
    pub closed spec fn inv(&self) -> bool {
        &&& self.positions.len() == self.follow.len()
        &&& self.positions.len() <= MAX_POSITIONS_WIDE
    }

    /// The builder grew from `old` by the positions of one sub-expression of
    /// `n` positions whose bytes and follow sets are given.
    spec fn grew(
        &self,
        old: &Self,
        n: nat,
        bytes: spec_fn(int) -> Set<u8>,
        follow: spec_fn(int) -> Set<int>,
    ) -> bool {
        let off = old.positions.len() as int;
        &&& self.positions.len() == off + n
        &&& forall|j: int| 0 <= j < off ==> self.positions@[j] == old.positions@[j]
        &&& forall|j: int| 0 <= j < off ==> self.follow@[j] == old.follow@[j]
        &&& forall|j: int| #![trigger self.positions@[j]] off <= j < off + n ==> self.positions@[j]@ == bytes(j - off)
        &&& forall|p: int| #![trigger self.follow@[p]] off <= p < off + n ==> bset(self.follow@[p]) == follow(p)
    }

    /// Creates a new builder.
    pub fn new() -> (b: Self)
        ensures
            b.inv(),
    {
        Self { positions: Vec::new(), follow: Vec::new() }
    }

    /// Adds one position accepting `bytes`, with an empty follow set.
    fn push_position_wide(&mut self, bytes: ByteSet)
        requires
            old(self).inv(),
            old(self).positions.len() < MAX_POSITIONS_WIDE,
        ensures
            final(self).inv(),
            final(self).positions@ == old(self).positions@.push(bytes),
            final(self).follow@.len() == old(self).follow@.len() + 1,
            forall|j: int| 0 <= j < old(self).follow@.len() ==> final(self).follow@[j] == old(self).follow@[j],
            bset(final(self).follow@[old(self).follow@.len() as int]) == Set::<int>::empty(),
    {
        self.positions.push(bytes);
        self.follow.push(BitSet256::empty());
    }

    /// ORs `mask` into the follow set of every position of `from`.
    fn add_follow_wide(&mut self, from: BitSet256, mask: BitSet256)
        requires
            old(self).inv(),
            forall|q: int| bset(from).contains(q) ==> q < old(self).follow.len(),
        ensures
            final(self).inv(),
            final(self).positions@ == old(self).positions@,
            final(self).follow.len() == old(self).follow.len(),
            forall|p: int|
                #![trigger final(self).follow@[p]]
                0 <= p < final(self).follow.len() && !bset(from).contains(p)
                    ==> final(self).follow@[p] == old(self).follow@[p],
            forall|p: int|
                #![trigger final(self).follow@[p]]
                0 <= p < final(self).follow.len() ==> bset(final(self).follow@[p]) == if bset(
                    from,
                ).contains(p) {
                    bset(old(self).follow@[p]).union(bset(mask))
                } else {
                    bset(old(self).follow@[p])
                },
    {
        let mut it = from.iter_ones();
        proof {
            lemma_words_finite(from.parts);
        }
        loop
            invariant
                it.wf(),
                it@.finite(),
                it@.subset_of(bset(from)),
                self.inv(),
                self.positions@ == old(self).positions@,
                self.follow.len() == old(self).follow.len(),
                forall|q: int| bset(from).contains(q) ==> q < old(self).follow.len(),
                forall|p: int|
                    #![trigger self.follow@[p]]
                    0 <= p < self.follow.len() && !(bset(from).contains(p) && !it@.contains(p))
                        ==> self.follow@[p] == old(self).follow@[p],
                forall|p: int|
                    #![trigger self.follow@[p]]
                    0 <= p < self.follow.len() ==> bset(self.follow@[p]) == if bset(
                        from,
                    ).contains(p) && !it@.contains(p) {
                        bset(old(self).follow@[p]).union(bset(mask))
                    } else {
                        bset(old(self).follow@[p])
                    },
            ensures
                it@ == Set::<int>::empty(),
            decreases it@.len(),
        {
            let ghost before = self.follow@;
            let ghost rest = it@;
            match it.next() {
                None => break,
                Some(pos) => {
                    proof {
                        assert(it@.len() < rest.len());
                    }
                    if pos < self.follow.len() {
                        let mut f = self.follow[pos];
                        f.union_assign(mask);
                        self.follow.set(pos, f);
                        assert(self.follow@ == before.update(pos as int, f));
                    }
                },
            }
        }
    }

    /// Single-pass construction: allocate positions and compute follow sets.
    fn build_expr_wide(&mut self, expr: &HirExpr) -> (r: Option<WideExprInfo>)
        requires
            old(self).inv(),
        ensures
            final(self).inv(),
            r is Some <==> (g_supported(*expr) && old(self).positions.len() + g_npos(*expr)
                <= MAX_POSITIONS_WIDE),
            r is Some ==> final(self).grew(
                old(self),
                g_npos(*expr),
                |j: int| g_bytes(*expr, j),
                |p: int| g_follow(*expr, old(self).positions.len() as int, p),
            ),
            r is Some ==> winfo_is(
                r->0,
                g_first(*expr, old(self).positions.len() as int),
                g_last(*expr, old(self).positions.len() as int),
                g_nullable(*expr),
            ),
        decreases expr,
    {
        let ghost off = self.positions.len() as int;
        proof {
            lemma_g_ranges(*expr, off);
        }
        match expr {
            HirExpr::Empty => {
                let r = WideExprInfo::empty();
                proof {
                    assert(g_first(*expr, off) =~= Set::<int>::empty());
                }
                Some(r)
            },
            HirExpr::Literal(bytes) => {
                if bytes.len() == 0 {
                    return Some(WideExprInfo::empty());
                }
                let first_pos = self.positions.len();
                let mut k: usize = 0;
                while k < bytes.len()
                    invariant
                        self.inv(),
                        k <= bytes.len(),
                        first_pos == off,
                        off == old(self).positions.len(),
                        *expr == HirExpr::Literal(*bytes),
                        self.positions.len() == off + k,
                        forall|j: int| 0 <= j < off ==> self.positions@[j] == old(self).positions@[j],
                        forall|j: int| 0 <= j < off ==> self.follow@[j] == old(self).follow@[j],
                        forall|j: int|
                            #![trigger self.positions@[j]]
                            off <= j < off + k ==> self.positions@[j]@ == set![bytes@[j - off]],
                        forall|j: int|
                            #![trigger self.follow@[j]]
                            off <= j < off + k ==> bset(self.follow@[j]) == Set::<int>::empty(),
                    decreases bytes.len() - k,
                {
                    if self.positions.len() >= MAX_POSITIONS_WIDE {
                        proof {
                            assert(g_supported(*expr));
                            assert(g_npos(*expr) == bytes@.len());
                            assert(old(self).positions.len() == off);
                            assert(off + k >= 64);
                        }
                        return None;
                    }
                    let set = ByteSet::singleton(bytes[k]);
                    self.push_position_wide(set);
                    k += 1;
                }
                let last_pos = self.positions.len() - 1;
                let mut i = first_pos;
                while i < last_pos
                    invariant
                        self.inv(),
                        first_pos <= i <= last_pos,
                        last_pos == self.positions.len() - 1,
                        first_pos == off,
                        *expr == HirExpr::Literal(*bytes),
                        self.positions.len() == off + bytes.len(),
                        forall|j: int| 0 <= j < off ==> self.positions@[j] == old(self).positions@[j],
                        forall|j: int| 0 <= j < off ==> self.follow@[j] == old(self).follow@[j],
                        forall|j: int|
                            #![trigger self.positions@[j]]
                            off <= j < off + bytes.len() ==> self.positions@[j]@ == set![
                                bytes@[j - off],
                            ],
                        forall|j: int|
                            #![trigger self.follow@[j]]
                            off <= j < off + bytes.len() ==> bset(self.follow@[j]) == if j < i {
                                set![j + 1]
                            } else {
                                Set::<int>::empty()
                            },
                    decreases last_pos - i,
                {
                    let mut w = self.follow[i];
                    w.set(i + 1);
                    self.follow.set(i, w);
                    proof {
                        assert(bset(w) =~= set![i as int + 1]);
                    }
                    i += 1;
                }
                proof {

                    assert forall|p: int| #![trigger self.follow@[p]] off <= p < off + bytes.len()
                        implies bset(self.follow@[p]) == g_follow(*expr, off, p) by {
                    }
                }
                Some(
                    WideExprInfo {
                        first: BitSet256::singleton(first_pos),
                        last: BitSet256::singleton(last_pos),
                        nullable: false,
                    },
                )
            },
            HirExpr::Class(class) => {
                if self.positions.len() >= MAX_POSITIONS_WIDE {
                    return None;
                }
                let pos = self.positions.len();
                let mut byte_set = ByteSet::new();
                let mut k: usize = 0;
                while k < class.ranges.len()
                    invariant
                        k <= class.ranges.len(),
                        forall|b: u8|
                            byte_set@.contains(b) <==> exists|i: int|
                                0 <= i < k && (#[trigger] class.ranges@[i]).0 <= b
                                    <= class.ranges@[i].1,
                    decreases class.ranges.len() - k,
                {
                    let (start, end) = class.ranges[k];
                    let mut b: u16 = start as u16;
                    while b <= end as u16
                        invariant
                            start <= b <= 256,
                            forall|x: u8|
                                byte_set@.contains(x) <==> (exists|i: int|
                                    0 <= i < k && (#[trigger] class.ranges@[i]).0 <= x
                                        <= class.ranges@[i].1) || (start <= x < b && x <= end),
                        decreases 256 - b,
                    {
                        byte_set.insert(b as u8);
                        b += 1;
                    }
                    proof {
                        assert forall|x: u8| byte_set@.contains(x) <==> exists|i: int|
                            0 <= i < k + 1 && (#[trigger] class.ranges@[i]).0 <= x
                                <= class.ranges@[i].1 by {
                            if start <= x <= end {
                                assert(class.ranges@[k as int] == (start, end));
                            }
                        }
                    }
                    k += 1;
                }
                if class.negated {
                    byte_set = byte_set.complement();
                }
                proof {
                    assert(byte_set@ =~= class_bytes(*class));

                }
                self.push_position_wide(byte_set);
                Some(
                    WideExprInfo {
                        first: BitSet256::singleton(pos),
                        last: BitSet256::singleton(pos),
                        nullable: false,
                    },
                )
            },
            HirExpr::Concat(exprs) => {
                if exprs.len() == 0 {
                    proof {
                        assert(exprs@.len() == 0);
                        assert(g_supported_seq(exprs@));
                        assert(g_npos_seq(exprs@) == 0);
                        assert(g_first_concat(exprs@, off) == Set::<int>::empty());
                        assert(g_last_concat(exprs@, off) == Set::<int>::empty());
                        assert(g_nullable_concat(exprs@));
                    }
                    return Some(WideExprInfo::empty());
                }
                let mut result = match self.build_expr_wide(&exprs[0]) {
                    Some(i) => i,
                    None => {
                        proof {
                            lemma_seq_prefix(exprs@, 0);
                        }
                        return None;
                    },
                };
                proof {
                    lemma_take_last(exprs@, 0);
                    assert(exprs@.take(0) =~= Seq::<HirExpr>::empty());
                    let e0 = exprs@.take(0);
                    assert(g_supported_seq(e0));
                    assert(g_supported_seq(exprs@.take(1)));
                    assert(g_nullable_concat(e0));
                    assert(g_npos_seq(e0) == 0);
                    assert(g_first_concat(e0, off) == Set::<int>::empty());
                    assert(g_last_concat(e0, off) == Set::<int>::empty());
                    assert(forall|p: int| g_follow_concat(e0, off, p) == Set::<int>::empty());
                    assert(g_first_concat(exprs@.take(1), off) =~= g_first(exprs@[0], off));
                    assert(g_last_concat(exprs@.take(1), off) =~= g_last(exprs@[0], off));
                    assert forall|p: int| g_follow_concat(exprs@.take(1), off, p) =~= g_follow(
                        exprs@[0],
                        off,
                        p,
                    ) by {
                        assert(exprs@.take(1).drop_last() == e0);
                        assert(g_follow_concat(e0, off, p) == Set::<int>::empty());
                        assert(g_follow_concat(exprs@.take(1), off, p) =~= g_follow_concat(e0, off, p).union(
                            g_follow(exprs@[0], off, p)));
                    }
                }
                let mut k: usize = 1;
                while k < exprs.len()
                    invariant
                        old(self).inv(),
                        self.inv(),
                        off == old(self).positions.len(),
                        1 <= k <= exprs.len(),
                        *expr == HirExpr::Concat(*exprs),
                        g_supported_seq(exprs@.take(k as int)),
                        self.grew(
                            old(self),
                            g_npos_seq(exprs@.take(k as int)),
                            |j: int| g_bytes_seq(exprs@.take(k as int), j),
                            |p: int| g_follow_concat(exprs@.take(k as int), off, p),
                        ),
                        winfo_is(
                            result,
                            g_first_concat(exprs@.take(k as int), off),
                            g_last_concat(exprs@.take(k as int), off),
                            g_nullable_concat(exprs@.take(k as int)),
                        ),
                    decreases exprs.len() - k,
                {
                    let ghost off2 = self.positions.len() as int;
                    let ghost before = *self;
                    let ghost pre = exprs@.take(k as int);
                    proof {
                        assert(decreases_to!(*expr => expr->Concat_0));
                        assert(decreases_to!(expr->Concat_0 => expr->Concat_0@));
                        assert(decreases_to!(expr->Concat_0@ => expr->Concat_0@[k as int]));
                    }
                    let next = match self.build_expr_wide(&exprs[k]) {
                        Some(n) => n,
                        None => {
                            proof {
                                lemma_seq_prefix(exprs@, k as int);
                            }
                            return None;
                        },
                    };
                    let ghost mid = *self;
                    proof {
                        lemma_g_ranges_concat(pre, off);
                        lemma_g_ranges(exprs@[k as int], off2);
                    }
                    self.add_follow_wide(result.last, next.first);
                    let new_first = if result.nullable {
                        result.first.union(next.first)
                    } else {
                        result.first
                    };
                    let new_last = if next.nullable {
                        next.last.union(result.last)
                    } else {
                        next.last
                    };
                    proof {
                        lemma_take_last(exprs@, k as int);
                        let cur = exprs@.take(k + 1);
                        let e = exprs@[k as int];
                        assert(g_npos_seq(cur) == g_npos_seq(pre) + g_npos(e));
                        assert(bset(new_first) =~= g_first_concat(cur, off));
                        assert(bset(new_last) =~= g_last_concat(cur, off));
                        assert forall|j: int| #![trigger self.positions@[j]] off <= j < off
                            + g_npos_seq(cur) implies self.positions@[j]@ == g_bytes_seq(
                            cur,
                            j - off,
                        ) by {
                            if j < off2 {
                                assert(before.positions@[j] == self.positions@[j]);
                            }
                        }
                        assert forall|p: int| #![trigger self.follow@[p]] off <= p < off
                            + g_npos_seq(cur) implies bset(self.follow@[p]) == g_follow_concat(
                            cur,
                            off,
                            p,
                        ) by {
                            assert(bset(result.last).contains(p) == g_last_concat(pre, off).contains(p));
                            if p < off2 {
                                assert(before.follow@[p] == mid.follow@[p]);
                                assert(bset(mid.follow@[p]) == g_follow_concat(pre, off, p));
                                assert(g_follow(e, off2, p) =~= Set::<int>::empty());
                            } else {
                                assert(bset(mid.follow@[p]) == g_follow(e, off2, p));
                                assert(g_follow_concat(pre, off, p) =~= Set::<int>::empty());
                                assert(!g_last_concat(pre, off).contains(p));
                            }
                            assert(bset(self.follow@[p]) =~= g_follow_concat(cur, off, p));
                        }
                        assert(self.positions.len() == off + g_npos_seq(cur));
                        assert(forall|j: int| 0 <= j < off ==> self.positions@[j] == old(self).positions@[j]);
                        assert(forall|j: int| 0 <= j < off ==> self.follow@[j] == old(self).follow@[j]);
                    }
                    result = WideExprInfo {
                        first: new_first,
                        last: new_last,
                        nullable: result.nullable && next.nullable,
                    };
                    k += 1;
                }
                proof {
                    assert(exprs@.take(k as int) =~= exprs@);
                }
                Some(result)
            },
            HirExpr::Alt(exprs) => {
                if exprs.len() == 0 {
                    proof {
                        assert(exprs@.len() == 0);
                        assert(g_supported_seq(exprs@));
                        assert(g_npos_seq(exprs@) == 0);
                        assert(g_first_alt(exprs@, off) == Set::<int>::empty());
                        assert(g_last_alt(exprs@, off) == Set::<int>::empty());
                        assert(g_nullable_alt(exprs@));
                    }
                    return Some(WideExprInfo::empty());
                }
                let mut result = match self.build_expr_wide(&exprs[0]) {
                    Some(i) => i,
                    None => {
                        proof {
                            lemma_seq_prefix(exprs@, 0);
                        }
                        return None;
                    },
                };
                proof {
                    lemma_take_last(exprs@, 0);
                    assert(exprs@.take(0) =~= Seq::<HirExpr>::empty());
                    let e0 = exprs@.take(0);
                    assert(g_supported_seq(e0));
                    assert(g_supported_seq(exprs@.take(1)));
                    assert(g_nullable_alt(e0));
                    assert(g_npos_seq(e0) == 0);
                    assert(g_first_alt(e0, off) == Set::<int>::empty());
                    assert(g_last_alt(e0, off) == Set::<int>::empty());
                    assert(forall|p: int| g_follow_alt(e0, off, p) == Set::<int>::empty());
                    assert(g_first_alt(exprs@.take(1), off) =~= g_first(exprs@[0], off));
                    assert(g_last_alt(exprs@.take(1), off) =~= g_last(exprs@[0], off));
                    assert forall|p: int| g_follow_alt(exprs@.take(1), off, p) =~= g_follow(
                        exprs@[0],
                        off,
                        p,
                    ) by {
                        assert(exprs@.take(1).drop_last() == e0);
                        assert(g_follow_alt(e0, off, p) == Set::<int>::empty());
                        assert(g_follow_alt(exprs@.take(1), off, p) =~= g_follow_alt(e0, off, p).union(
                            g_follow(exprs@[0], off, p)));
                    }
                }
                let mut k: usize = 1;
                while k < exprs.len()
                    invariant
                        old(self).inv(),
                        self.inv(),
                        off == old(self).positions.len(),
                        1 <= k <= exprs.len(),
                        *expr == HirExpr::Alt(*exprs),
                        g_supported_seq(exprs@.take(k as int)),
                        self.grew(
                            old(self),
                            g_npos_seq(exprs@.take(k as int)),
                            |j: int| g_bytes_seq(exprs@.take(k as int), j),
                            |p: int| g_follow_alt(exprs@.take(k as int), off, p),
                        ),
                        winfo_is(
                            result,
                            g_first_alt(exprs@.take(k as int), off),
                            g_last_alt(exprs@.take(k as int), off),
                            g_nullable_alt(exprs@.take(k as int)),
                        ),
                    decreases exprs.len() - k,
                {
                    let ghost off2 = self.positions.len() as int;
                    let ghost before = *self;
                    let ghost pre = exprs@.take(k as int);
                    proof {
                        assert(decreases_to!(*expr => expr->Alt_0));
                        assert(decreases_to!(expr->Alt_0 => expr->Alt_0@));
                        assert(decreases_to!(expr->Alt_0@ => expr->Alt_0@[k as int]));
                    }
                    let alt = match self.build_expr_wide(&exprs[k]) {
                        Some(n) => n,
                        None => {
                            proof {
                                lemma_seq_prefix(exprs@, k as int);
                            }
                            return None;
                        },
                    };
                    proof {
                        lemma_g_ranges_alt(pre, off);
                        lemma_g_ranges(exprs@[k as int], off2);
                        lemma_take_last(exprs@, k as int);
                        let cur = exprs@.take(k + 1);
                        let e = exprs@[k as int];
                        assert(g_npos_seq(cur) == g_npos_seq(pre) + g_npos(e));
                        assert forall|j: int| #![trigger self.positions@[j]] off <= j < off
                            + g_npos_seq(cur) implies self.positions@[j]@ == g_bytes_seq(
                            cur,
                            j - off,
                        ) by {
                            if j < off2 {
                                assert(before.positions@[j] == self.positions@[j]);
                            }
                        }
                        assert forall|p: int| #![trigger self.follow@[p]] off <= p < off
                            + g_npos_seq(cur) implies bset(self.follow@[p]) == g_follow_alt(
                            cur,
                            off,
                            p,
                        ) by {
                            if p < off2 {
                                assert(before.follow@[p] == self.follow@[p]);
                                assert(g_follow(e, off2, p) =~= Set::<int>::empty());
                            } else {
                                assert(g_follow_alt(pre, off, p) =~= Set::<int>::empty());
                            }
                            assert(bset(self.follow@[p]) =~= g_follow_alt(cur, off, p));
                        }
                    }
                    result = WideExprInfo {
                        first: result.first.union(alt.first),
                        last: result.last.union(alt.last),
                        nullable: result.nullable || alt.nullable,
                    };
                    k += 1;
                }
                proof {
                    assert(exprs@.take(k as int) =~= exprs@);
                }
                Some(result)
            },
            HirExpr::Repeat(rep) => {
                let inner = match self.build_expr_wide(&rep.expr) {
                    Some(i) => i,
                    None => return None,
                };
                // A repetition with unbounded max (*, +, {n,}) or max above one
                // loops from its Last positions back to its First positions.
                let allows_repetition = match rep.max {
                    None => true,
                    Some(m) => m > 1,
                };
                if allows_repetition {
                    proof {
                        lemma_g_ranges(rep.expr, off);
                    }
                    self.add_follow_wide(inner.last, inner.first);
                }
                proof {
                    assert forall|p: int| #![trigger self.follow@[p]] off <= p < off + g_npos(
                        *expr,
                    ) implies bset(self.follow@[p]) == g_follow(*expr, off, p) by {
                        assert(bset(self.follow@[p]) =~= g_follow(*expr, off, p));
                    }
                }
                if rep.min == 0 {
                    Some(WideExprInfo { first: inner.first, last: inner.last, nullable: true })
                } else {
                    Some(WideExprInfo { first: inner.first, last: inner.last, nullable: inner.nullable })
                }
            },
            HirExpr::Capture(cap) => {
                let r = self.build_expr_wide(&cap.expr);
                proof {
                    if r is Some {
                        assert forall|p: int| #![trigger self.follow@[p]] off <= p < off + g_npos(
                            *expr,
                        ) implies bset(self.follow@[p]) == g_follow(*expr, off, p) by {}
                    }
                }
                r
            },
            HirExpr::Anchor(_) => Some(WideExprInfo::empty()),
            HirExpr::Lookaround(_) => None,
            HirExpr::Backref(_) => None,
            // Unicode code point classes consume variable-length UTF-8
            // sequences, which one position cannot stand for.
            HirExpr::UnicodeCpClass(_) => None,
        }
    }
    /// Builds a Wide Glushkov NFA from HIR.
    ///
    /// Returns `None` for backreferences, lookarounds, Unicode code point
    /// classes and patterns of more than `MAX_POSITIONS_WIDE` positions.
    pub fn build(&mut self, hir: &Hir) -> (r: Option<GlushkovWideNfa>)
        requires
            old(self).inv(),
        ensures
            final(self).inv(),
            r is Some <==> glushkov_accepts(*hir, MAX_POSITIONS_WIDE as nat),
            r matches Some(n) ==> n.describes(hir.expr),
    {
        if hir.props.has_backrefs || hir.props.has_lookaround {
            return None;
        }
        self.positions.clear();
        self.follow.clear();
        let info = match self.build_expr_wide(&hir.expr) {
            Some(i) => i,
            None => return None,
        };
        if self.positions.len() > MAX_POSITIONS_WIDE {
            return None;
        }
        let positions = copy_positions(&self.positions);
        let follow = copy_follow_wide(&self.follow);
        Some(
            GlushkovWideNfa {
                positions,
                follow,
                first: info.first,
                last: info.last,
                nullable: info.nullable,
                position_count: self.positions.len(),
            },
        )
    }
}


/// Compiles an HIR to a Wide Glushkov NFA (supports up to 256 positions).
pub fn compile_glushkov_wide(hir: &Hir) -> (r: Option<GlushkovWideNfa>)
    ensures
        r is Some <==> glushkov_accepts(*hir, MAX_POSITIONS_WIDE as nat),
        r matches Some(n) ==> n.describes(hir.expr),
{
    let mut builder = GlushkovWideBuilder::new();
    builder.build(hir)
}

} // verus!
