//! Data shared by the tagged-NFA matchers: thread lists, the lookaround
//! cache, the matching context and pattern steps.
use crate::bits::{
    lemma_u64_set_and, lemma_u64_set_not, lemma_u64_set_or, lemma_u64_set_single, single_bit,
    u64_bit, u64_set, word_range,
};
use crate::hir::CodepointClass;
use crate::nfa::state::{ByteClass, StateId};
use vstd::prelude::*;

verus! {

/// Maximum number of threads per input position.
pub const MAX_THREADS: usize = 256;

/// Whether bit `i` is set in a bitmap of words (bit `i % 64` of word `i / 64`).
pub open spec fn bitmap_has(words: Seq<u64>, i: int) -> bool {
    &&& 0 <= i
    &&& i / 64 < words.len()
    &&& u64_bit(words[i / 64], i % 64)
}

/// Index of slot `k` of a thread in the capture array.
pub open spec fn slot_index(thread: int, stride: int, k: int) -> int {
    thread * stride + k
}

/// `ceil(x / 64)`.
pub open spec fn words_for(x: int) -> int {
    (x + 63) / 64
}

/// Number of 64-bit words that hold `x` bits.
fn words_for_bits(x: usize) -> (w: usize)
    ensures
        w == words_for(x as int),
{
    x / 64 + if x % 64 != 0 {
        1
    } else {
        0
    }
}

/// Whether bit `bit` of `w` is set.
fn word_bit(w: u64, bit: usize) -> (b: bool)
    requires
        bit < 64,
    ensures
        b == u64_bit(w, bit as int),
{
    let r = (w >> (bit as u64)) & 1 != 0;
    proof {
        let bb = bit as u64;
        assert((w >> bb) & 1u64 != 0 <==> (w >> bb) & 1u64 == 1u64) by (bit_vector);
    }
    r
}

/// `w` with bit `bit` set.
fn with_bit(w: u64, bit: usize) -> (r: u64)
    requires
        bit < 64,
    ensures
        u64_set(r) == u64_set(w).insert(bit as int),
{
    let m = 1u64 << (bit as u64);
    proof {
        lemma_u64_set_or(w, m);
        lemma_u64_set_single(bit as int);
        assert(m == single_bit(bit as int));
        assert(u64_set(w).union(set![bit as int]) =~= u64_set(w).insert(bit as int));
    }
    w | m
}

/// `w` with bit `bit` cleared.
fn without_bit(w: u64, bit: usize) -> (r: u64)
    requires
        bit < 64,
    ensures
        u64_set(r) == u64_set(w).remove(bit as int),
{
    let m = 1u64 << (bit as u64);
    proof {
        lemma_u64_set_and(w, !m);
        lemma_u64_set_not(m);
        lemma_u64_set_single(bit as int);
        assert(m == single_bit(bit as int));
        assert forall|i: int| u64_set(w).contains(i) implies word_range().contains(i) by {}
        assert(u64_set(w).intersect(word_range().difference(set![bit as int])) =~= u64_set(w).remove(
            bit as int,
        ));
    }
    w & !m
}

/// A list of threads, with the capture slots of each.
pub struct ThreadWorklist {
    /// Number of active threads.
    pub count: usize,
    /// Capture slots per thread: two per group, group 0 included.
    pub stride: usize,
    /// The state of each thread.
    pub states: Vec<u32>,
    /// The flags of each thread.
    pub flags: Vec<u32>,
    /// Capture slots: slot `k` of thread `t` is at `t * stride + k`.
    pub captures: Vec<i64>,
    /// Bitmap of the states visited at this position.
    pub visited: Vec<u64>,
}

impl ThreadWorklist {
    /// Whether the arrays have the sizes the worklist relies on.
    pub open spec fn wf(&self) -> bool {
        &&& self.count <= MAX_THREADS
        &&& self.states@.len() == MAX_THREADS
        &&& self.flags@.len() == MAX_THREADS
        &&& self.captures@.len() == MAX_THREADS * self.stride
    }

    /// Creates a worklist for a pattern with `capture_count` groups and
    /// `state_count` states.
    pub fn new(capture_count: u32, state_count: usize) -> (w: Self)
        requires
            (capture_count + 1) * 2 * MAX_THREADS <= usize::MAX,
        ensures
            w.wf(),
            w.count == 0,
            w.stride == (capture_count + 1) * 2,
            w.visited@.len() == words_for(if state_count == 0 {
                1
            } else {
                state_count as int
            }),
            forall|i: int| 0 <= i < w.visited@.len() ==> w.visited@[i] == 0,
            forall|i: int| 0 <= i < w.captures@.len() ==> w.captures@[i] == -1,
    {
        let stride = (capture_count as usize + 1) * 2;
        let n = if state_count == 0 {
            1
        } else {
            state_count
        };
        let bitmap_words = words_for_bits(n);
        ThreadWorklist {
            count: 0,
            stride,
            states: filled_u32(0, MAX_THREADS),
            flags: filled_u32(0, MAX_THREADS),
            captures: filled_i64(-1, MAX_THREADS * stride),
            visited: filled_u64(0, bitmap_words),
        }
    }

    /// Removes all threads, clears the visited map and resets the captures.
    pub fn clear(&mut self)
        ensures
            final(self).count == 0,
            final(self).stride == old(self).stride,
            final(self).states == old(self).states,
            final(self).flags == old(self).flags,
            final(self).visited@.len() == old(self).visited@.len(),
            forall|i: int| 0 <= i < final(self).visited@.len() ==> final(self).visited@[i] == 0,
            final(self).captures@.len() == old(self).captures@.len(),
            forall|i: int| 0 <= i < final(self).captures@.len() ==> final(self).captures@[i] == -1,
    {
        self.count = 0;
        let mut i: usize = 0;
        while i < self.visited.len()
            invariant
                i <= self.visited@.len(),
                self.visited@.len() == old(self).visited@.len(),
                forall|k: int| 0 <= k < i ==> self.visited@[k] == 0,
                self.count == 0,
                self.stride == old(self).stride,
                self.states == old(self).states,
                self.flags == old(self).flags,
                self.captures == old(self).captures,
            decreases self.visited@.len() - i,
        {
            self.visited.set(i, 0);
            i = i + 1;
        }
        let mut i: usize = 0;
        while i < self.captures.len()
            invariant
                i <= self.captures@.len(),
                self.captures@.len() == old(self).captures@.len(),
                self.visited@.len() == old(self).visited@.len(),
                forall|k: int| 0 <= k < self.visited@.len() ==> self.visited@[k] == 0,
                forall|k: int| 0 <= k < i ==> self.captures@[k] == -1,
                self.count == 0,
                self.stride == old(self).stride,
                self.states == old(self).states,
                self.flags == old(self).flags,
            decreases self.captures@.len() - i,
        {
            self.captures.set(i, -1);
            i = i + 1;
        }
    }

    /// Whether a state is marked visited (states past the bitmap never are).
    pub fn is_visited(&self, state: StateId) -> (b: bool)
        ensures
            b == bitmap_has(self.visited@, state as int),
    {
        let idx = state as usize;
        let word = idx / 64;
        let bit = idx % 64;
        if word >= self.visited.len() {
            return false;
        }
        word_bit(self.visited[word], bit)
    }

    /// Marks a state visited (states past the bitmap are ignored).
    pub fn mark_visited(&mut self, state: StateId)
        ensures
            final(self).visited@.len() == old(self).visited@.len(),
            forall|i: int|
                bitmap_has(final(self).visited@, i) <==> bitmap_has(old(self).visited@, i) || (i
                    == state && (state as int) / 64 < old(self).visited@.len()),
            final(self).count == old(self).count,
            final(self).stride == old(self).stride,
            final(self).states == old(self).states,
            final(self).flags == old(self).flags,
            final(self).captures == old(self).captures,
    {
        let idx = state as usize;
        let word = idx / 64;
        let bit = idx % 64;
        if word < self.visited.len() {
            let ghost before = self.visited@;
            let w = with_bit(self.visited[word], bit);
            self.visited.set(word, w);
            proof {
                assert forall|i: int|
                    bitmap_has(self.visited@, i) <==> bitmap_has(before, i) || (i == state && (
                    state as int) / 64 < before.len()) by {
                    if 0 <= i && i / 64 == word {
                        assert(u64_set(w).contains(i % 64) == u64_bit(w, i % 64));
                        assert(u64_set(before[i / 64]).contains(i % 64) == u64_bit(
                            before[i / 64],
                            i % 64,
                        ));
                    }
                }
            }
        }
    }

    /// Adds a thread, unless the list is full.
    pub fn add_thread(&mut self, state: StateId, flags: u32) -> (r: Option<usize>)
        requires
            old(self).wf(),
        ensures
            final(self).wf(),
            old(self).count >= MAX_THREADS ==> r is None && *final(self) == *old(self),
            old(self).count < MAX_THREADS ==> {
                &&& r == Some(old(self).count)
                &&& final(self).count == old(self).count + 1
                &&& final(self).states@ == old(self).states@.update(old(self).count as int, state)
                &&& final(self).flags@ == old(self).flags@.update(old(self).count as int, flags)
                &&& final(self).captures == old(self).captures
                &&& final(self).visited == old(self).visited
                &&& final(self).stride == old(self).stride
            },
    {
        if self.count >= MAX_THREADS {
            return None;
        }
        let idx = self.count;
        self.states.set(idx, state);
        self.flags.set(idx, flags);
        self.count = self.count + 1;
        Some(idx)
    }

    /// Reads a capture slot of a thread.
    pub fn get_capture(&self, thread_idx: usize, slot: usize) -> (v: i64)
        requires
            thread_idx * self.stride + slot < self.captures@.len(),
        ensures
            v == self.captures@[thread_idx * self.stride + slot],
    {
        let _len = self.captures.len();
        self.captures[thread_idx * self.stride + slot]
    }

    /// Writes a capture slot of a thread.
    pub fn set_capture(&mut self, thread_idx: usize, slot: usize, value: i64)
        requires
            thread_idx * old(self).stride + slot < old(self).captures@.len(),
        ensures
            final(self).captures@ == old(self).captures@.update(
                thread_idx * old(self).stride + slot,
                value,
            ),
            final(self).count == old(self).count,
            final(self).stride == old(self).stride,
            final(self).states == old(self).states,
            final(self).flags == old(self).flags,
            final(self).visited == old(self).visited,
    {
        let _len = self.captures.len();
        let i = thread_idx * self.stride + slot;
        self.captures.set(i, value);
    }

    /// Copies all capture slots of one thread to another.
    pub fn copy_captures(&mut self, from_idx: usize, to_idx: usize)
        requires
            (from_idx + 1) * old(self).stride <= old(self).captures@.len(),
            (to_idx + 1) * old(self).stride <= old(self).captures@.len(),
        ensures
            final(self).captures@.len() == old(self).captures@.len(),
            forall|k: int|
                0 <= k < old(self).stride ==> #[trigger] final(self).captures@[slot_index(
                    to_idx as int,
                    old(self).stride as int,
                    k,
                )] == old(self).captures@[slot_index(from_idx as int, old(self).stride as int, k)],
            forall|i: int|
                0 <= i < old(self).captures@.len() && !(to_idx * old(self).stride <= i < (to_idx
                    + 1) * old(self).stride) ==> final(self).captures@[i] == old(self).captures@[i],
            final(self).count == old(self).count,
            final(self).stride == old(self).stride,
            final(self).states == old(self).states,
            final(self).flags == old(self).flags,
            final(self).visited == old(self).visited,
    {
        let stride = self.stride;
        let _len = self.captures.len();
        proof {
            assert((from_idx + 1) * stride == from_idx * stride + stride) by (nonlinear_arith);
            assert((to_idx + 1) * stride == to_idx * stride + stride) by (nonlinear_arith);
        }
        let from_start = from_idx * stride;
        let to_start = to_idx * stride;
        proof {
            assert(from_start == to_start || from_start + stride <= to_start || to_start + stride
                <= from_start) by (nonlinear_arith)
                requires
                    from_start == from_idx * stride,
                    to_start == to_idx * stride,
            ;
        }
        let ghost orig = self.captures@;
        let mut i: usize = 0;
        while i < stride
            invariant
                stride == self.stride,
                stride == old(self).stride,
                from_start == from_idx * stride,
                to_start == to_idx * stride,
                from_start == to_start || from_start + stride <= to_start || to_start + stride
                    <= from_start,
                from_start + stride <= orig.len(),
                to_start + stride <= orig.len(),
                orig == old(self).captures@,
                orig.len() <= usize::MAX,
                i <= stride,
                self.captures@.len() == orig.len(),
                forall|k: int|
                    0 <= k < i ==> #[trigger] self.captures@[slot_index(to_idx as int, stride as int, k)]
                        == orig[slot_index(from_idx as int, stride as int, k)],
                forall|j: int|
                    0 <= j < orig.len() && !(to_start <= j < to_start + i) ==> self.captures@[j]
                        == orig[j],
                self.count == old(self).count,
                self.states == old(self).states,
                self.flags == old(self).flags,
                self.visited == old(self).visited,
            decreases stride - i,
        {
            let v = self.captures[from_start + i];
            self.captures.set(to_start + i, v);
            i = i + 1;
        }
    }

    /// Capture slots per thread.
    pub fn stride(&self) -> (s: usize)
        ensures
            s == self.stride,
    {
        self.stride
    }
}

/// A vector of `n` copies of `v`.
fn filled_u32(v: u32, n: usize) -> (r: Vec<u32>)
    ensures
        r@.len() == n,
        forall|i: int| 0 <= i < n ==> r@[i] == v,
{
    let mut r: Vec<u32> = Vec::new();
    let mut i: usize = 0;
    while i < n
        invariant
            i <= n,
            r@.len() == i,
            forall|k: int| 0 <= k < i ==> r@[k] == v,
        decreases n - i,
    {
        r.push(v);
        i = i + 1;
    }
    r
}

/// A vector of `n` copies of `v`.
fn filled_u64(v: u64, n: usize) -> (r: Vec<u64>)
    ensures
        r@.len() == n,
        forall|i: int| 0 <= i < n ==> r@[i] == v,
{
    let mut r: Vec<u64> = Vec::new();
    let mut i: usize = 0;
    while i < n
        invariant
            i <= n,
            r@.len() == i,
            forall|k: int| 0 <= k < i ==> r@[k] == v,
        decreases n - i,
    {
        r.push(v);
        i = i + 1;
    }
    r
}

/// A vector of `n` copies of `v`.
fn filled_i64(v: i64, n: usize) -> (r: Vec<i64>)
    ensures
        r@.len() == n,
        forall|i: int| 0 <= i < n ==> r@[i] == v,
{
    let mut r: Vec<i64> = Vec::new();
    let mut i: usize = 0;
    while i < n
        invariant
            i <= n,
            r@.len() == i,
            forall|k: int| 0 <= k < i ==> r@[k] == v,
        decreases n - i,
    {
        r.push(v);
        i = i + 1;
    }
    r
}

/// Whether `b` is an ASCII letter, digit or `_`.
pub open spec fn word_byte(b: u8) -> bool {
    (48 <= b <= 57) || (65 <= b <= 90) || (97 <= b <= 122) || b == 95
}

/// Whether a byte is a word character (`[A-Za-z0-9_]`).
pub fn is_word_char(b: u8) -> (r: bool)
    ensures
        r == word_byte(b),
{
    (b >= 48 && b <= 57) || (b >= 65 && b <= 90) || (b >= 97 && b <= 122) || b == 95
}


/// Memoized lookaround results, one bit per lookaround and input position.
pub struct LookaroundCache {
    /// Number of lookarounds.
    pub count: usize,
    /// Number of input positions.
    pub max_len: usize,
    /// Result bits: bit `pos % 64` of word `id * words_for(max_len) + pos / 64`.
    pub results: Vec<u64>,
    /// Which results are known, with the same layout.
    pub computed: Vec<u64>,
}

/// Index of the word that holds the bit of lookaround `id` at position `pos`.
pub open spec fn cache_word(id: int, pos: int, max_len: int) -> int {
    id * words_for(max_len) + pos / 64
}

proof fn lemma_cache_word_bound(id: int, pos: int, count: int, max_len: int)
    requires
        0 <= id < count,
        0 <= pos < max_len,
    ensures
        0 <= cache_word(id, pos, max_len) < count * words_for(max_len),
{
    let w = words_for(max_len);
    assert(pos / 64 < w);
    assert(id * w + pos / 64 < count * w) by (nonlinear_arith)
        requires
            0 <= id < count,
            0 <= pos / 64 < w,
    ;
    assert(id * w >= 0) by (nonlinear_arith)
        requires
            0 <= id,
            0 <= w,
    ;
}

proof fn lemma_cache_word_distinct(id1: int, p1: int, id2: int, p2: int, count: int, max_len: int)
    requires
        0 <= id1 < count,
        0 <= p1 < max_len,
        0 <= id2 < count,
        0 <= p2 < max_len,
        cache_word(id1, p1, max_len) == cache_word(id2, p2, max_len),
        p1 % 64 == p2 % 64,
    ensures
        id1 == id2 && p1 == p2,
{
    let w = words_for(max_len);
    assert(p1 / 64 < w && p2 / 64 < w);
    assert(id1 == id2 && p1 / 64 == p2 / 64) by (nonlinear_arith)
        requires
            id1 * w + p1 / 64 == id2 * w + p2 / 64,
            0 <= p1 / 64 < w,
            0 <= p2 / 64 < w,
            0 <= id1,
            0 <= id2,
    ;
}

impl LookaroundCache {
    /// Whether the bitmaps have the size the layout needs.
    pub open spec fn wf(&self) -> bool {
        &&& self.results@.len() == self.count * words_for(self.max_len as int)
        &&& self.computed@.len() == self.count * words_for(self.max_len as int)
    }

    /// Whether a lookaround and a position lie within the cache.
    pub open spec fn in_range(&self, id: int, pos: int) -> bool {
        0 <= id < self.count && 0 <= pos < self.max_len
    }

    /// Whether the result of lookaround `id` at `pos` is known.
    pub open spec fn known(&self, id: int, pos: int) -> bool {
        self.in_range(id, pos) && u64_bit(
            self.computed@[cache_word(id, pos, self.max_len as int)],
            pos % 64,
        )
    }

    /// The stored result of lookaround `id` at `pos`.
    pub open spec fn stored(&self, id: int, pos: int) -> bool {
        self.in_range(id, pos) && u64_bit(
            self.results@[cache_word(id, pos, self.max_len as int)],
            pos % 64,
        )
    }

    /// Creates an empty cache.
    pub fn new(lookaround_count: usize, max_input_len: usize) -> (c: Self)
        requires
            lookaround_count * words_for(max_input_len as int) <= usize::MAX,
        ensures
            c.wf(),
            c.count == lookaround_count,
            c.max_len == max_input_len,
            forall|i: int| 0 <= i < c.results@.len() ==> c.results@[i] == 0,
            forall|i: int| 0 <= i < c.computed@.len() ==> c.computed@[i] == 0,
    {
        let words_needed = words_for_bits(max_input_len);
        let total_words = lookaround_count * words_needed;
        LookaroundCache {
            count: lookaround_count,
            max_len: max_input_len,
            results: filled_u64(0, total_words),
            computed: filled_u64(0, total_words),
        }
    }

    /// Whether the result of lookaround `id` at `pos` is known (never, out of range).
    pub fn is_computed(&self, lookaround_id: usize, pos: usize) -> (b: bool)
        requires
            self.wf(),
        ensures
            b == self.known(lookaround_id as int, pos as int),
    {
        if lookaround_id >= self.count || pos >= self.max_len {
            return false;
        }
        proof {
            lemma_cache_word_bound(lookaround_id as int, pos as int, self.count as int, self.max_len as int);
        }
        let words_per_la = words_for_bits(self.max_len);
        let _n = self.computed.len();
        let word_idx = lookaround_id * words_per_la + pos / 64;
        word_bit(self.computed[word_idx], pos % 64)
    }

    /// The stored result of lookaround `id` at `pos` (false, out of range).
    pub fn get_result(&self, lookaround_id: usize, pos: usize) -> (b: bool)
        requires
            self.wf(),
        ensures
            b == self.stored(lookaround_id as int, pos as int),
    {
        if lookaround_id >= self.count || pos >= self.max_len {
            return false;
        }
        proof {
            lemma_cache_word_bound(lookaround_id as int, pos as int, self.count as int, self.max_len as int);
        }
        let words_per_la = words_for_bits(self.max_len);
        let _n = self.computed.len();
        let word_idx = lookaround_id * words_per_la + pos / 64;
        word_bit(self.results[word_idx], pos % 64)
    }

    /// Records a result: marks it known and stores `result` in its bit.
    /// Out of range, nothing changes.
    pub fn set_result(&mut self, lookaround_id: usize, pos: usize, result: bool)
        requires
            old(self).wf(),
        ensures
            final(self).wf(),
            final(self).count == old(self).count,
            final(self).max_len == old(self).max_len,
            !old(self).in_range(lookaround_id as int, pos as int) ==> *final(self) == *old(self),
            old(self).in_range(lookaround_id as int, pos as int) ==> {
                let w = cache_word(lookaround_id as int, pos as int, old(self).max_len as int);
                &&& u64_set(final(self).computed@[w]) == u64_set(old(self).computed@[w]).insert(
                    pos as int % 64,
                )
                &&& final(self).computed@ == old(self).computed@.update(w, final(self).computed@[w])
                &&& result ==> u64_set(final(self).results@[w]) == u64_set(
                    old(self).results@[w],
                ).insert(pos as int % 64)
                &&& !result ==> u64_set(final(self).results@[w]) == u64_set(
                    old(self).results@[w],
                ).remove(pos as int % 64)
                &&& final(self).results@ == old(self).results@.update(w, final(self).results@[w])
            },
            old(self).in_range(lookaround_id as int, pos as int) ==> final(self).known(
                lookaround_id as int,
                pos as int,
            ) && final(self).stored(lookaround_id as int, pos as int) == result,
            forall|id: int, p: int|
                !(id == lookaround_id && p == pos) ==> #[trigger] final(self).known(id, p) == old(
                    self,
                ).known(id, p) && final(self).stored(id, p) == old(self).stored(id, p),
    {
        if lookaround_id >= self.count || pos >= self.max_len {
            return;
        }
        proof {
            lemma_cache_word_bound(lookaround_id as int, pos as int, self.count as int, self.max_len as int);
        }
        let words_per_la = words_for_bits(self.max_len);
        let _n = self.computed.len();
        let word_idx = lookaround_id * words_per_la + pos / 64;
        let c = with_bit(self.computed[word_idx], pos % 64);
        self.computed.set(word_idx, c);
        if result {
            let r = with_bit(self.results[word_idx], pos % 64);
            self.results.set(word_idx, r);
        } else {
            let r = without_bit(self.results[word_idx], pos % 64);
            self.results.set(word_idx, r);
        }
        proof {
            let p = pos as int % 64;
            assert(u64_set(self.computed@[word_idx as int]).contains(p));
            if result {
                assert(u64_set(self.results@[word_idx as int]).contains(p));
            } else {
                assert(!u64_set(self.results@[word_idx as int]).contains(p));
            }
            assert forall|id: int, q: int|
                !(id == lookaround_id && q == pos) implies #[trigger] self.known(id, q) == old(
                self,
            ).known(id, q) && self.stored(id, q) == old(self).stored(id, q) by {
                if self.in_range(id, q) {
                    lemma_cache_word_bound(id, q, self.count as int, self.max_len as int);
                    let w2 = cache_word(id, q, self.max_len as int);
                    if w2 == word_idx as int {
                        if q % 64 == p {
                            lemma_cache_word_distinct(
                                id,
                                q,
                                lookaround_id as int,
                                pos as int,
                                self.count as int,
                                self.max_len as int,
                            );
                        }
                        assert(u64_set(self.computed@[w2]).contains(q % 64) == u64_bit(
                            self.computed@[w2],
                            q % 64,
                        ));
                        assert(u64_set(old(self).computed@[w2]).contains(q % 64) == u64_bit(
                            old(self).computed@[w2],
                            q % 64,
                        ));
                        assert(u64_set(self.results@[w2]).contains(q % 64) == u64_bit(
                            self.results@[w2],
                            q % 64,
                        ));
                        assert(u64_set(old(self).results@[w2]).contains(q % 64) == u64_bit(
                            old(self).results@[w2],
                            q % 64,
                        ));
                    }
                }
            }
            assert(u64_set(old(self).results@[word_idx as int]).contains(p) == u64_bit(
                old(self).results@[word_idx as int],
                p,
            ));
            assert(u64_set(self.results@[word_idx as int]).contains(p) == u64_bit(
                self.results@[word_idx as int],
                p,
            ));
        }
    }

    /// Forgets every result.
    pub fn clear(&mut self)
        ensures
            final(self).count == old(self).count,
            final(self).max_len == old(self).max_len,
            final(self).results@.len() == old(self).results@.len(),
            final(self).computed@.len() == old(self).computed@.len(),
            forall|i: int| 0 <= i < final(self).results@.len() ==> final(self).results@[i] == 0,
            forall|i: int| 0 <= i < final(self).computed@.len() ==> final(self).computed@[i] == 0,
    {
        let mut i: usize = 0;
        while i < self.results.len()
            invariant
                i <= self.results@.len(),
                self.results@.len() == old(self).results@.len(),
                self.computed == old(self).computed,
                self.count == old(self).count,
                self.max_len == old(self).max_len,
                forall|k: int| 0 <= k < i ==> self.results@[k] == 0,
            decreases self.results@.len() - i,
        {
            self.results.set(i, 0);
            i = i + 1;
        }
        let mut i: usize = 0;
        while i < self.computed.len()
            invariant
                i <= self.computed@.len(),
                self.computed@.len() == old(self).computed@.len(),
                self.results@.len() == old(self).results@.len(),
                self.count == old(self).count,
                self.max_len == old(self).max_len,
                forall|k: int| 0 <= k < self.results@.len() ==> self.results@[k] == 0,
                forall|k: int| 0 <= k < i ==> self.computed@[k] == 0,
            decreases self.computed@.len() - i,
        {
            self.computed.set(i, 0);
            i = i + 1;
        }
    }
}

/// The state of one tagged-NFA match: two thread lists, the best match so far
/// and the lookaround cache.
pub struct TaggedNfaContext {
    /// Threads at the current position.
    pub current: ThreadWorklist,
    /// Threads at the next position.
    pub next: ThreadWorklist,
    /// Capture slots of the best match.
    pub best_captures: Vec<i64>,
    /// End of the best match (-1 when none).
    pub best_end: i64,
    /// Priority of the best match.
    pub best_priority: u32,
    /// Lookaround results.
    pub lookaround_cache: LookaroundCache,
    /// Capture slots per thread.
    pub stride: usize,
}

impl TaggedNfaContext {
    /// Creates a context.
    pub fn new(
        capture_count: u32,
        state_count: usize,
        lookaround_count: usize,
        max_input_len: usize,
    ) -> (c: Self)
        requires
            (capture_count + 1) * 2 * MAX_THREADS <= usize::MAX,
            lookaround_count * words_for(max_input_len as int) <= usize::MAX,
        ensures
            c.stride == (capture_count + 1) * 2,
            c.current.wf(),
            c.next.wf(),
            c.current.count == 0,
            c.next.count == 0,
            c.best_captures@.len() == c.stride,
            forall|i: int| 0 <= i < c.best_captures@.len() ==> c.best_captures@[i] == -1,
            c.best_end == -1,
            c.best_priority == 0,
            c.lookaround_cache.wf(),
    {
        let stride = (capture_count as usize + 1) * 2;
        TaggedNfaContext {
            current: ThreadWorklist::new(capture_count, state_count),
            next: ThreadWorklist::new(capture_count, state_count),
            best_captures: filled_i64(-1, stride),
            best_end: -1,
            best_priority: 0,
            lookaround_cache: LookaroundCache::new(lookaround_count, max_input_len),
            stride,
        }
    }

    /// Clears both thread lists, the best match and the cache.
    pub fn reset(&mut self)
        ensures
            final(self).current.count == 0,
            final(self).next.count == 0,
            final(self).best_end == -1,
            final(self).best_priority == 0,
            final(self).best_captures@.len() == old(self).best_captures@.len(),
            forall|i: int|
                0 <= i < final(self).best_captures@.len() ==> final(self).best_captures@[i] == -1,
            final(self).stride == old(self).stride,
    {
        self.current.clear();
        self.next.clear();
        let mut i: usize = 0;
        while i < self.best_captures.len()
            invariant
                i <= self.best_captures@.len(),
                self.best_captures@.len() == old(self).best_captures@.len(),
                forall|k: int| 0 <= k < i ==> self.best_captures@[k] == -1,
                self.current.count == 0,
                self.next.count == 0,
                self.stride == old(self).stride,
            decreases self.best_captures@.len() - i,
        {
            self.best_captures.set(i, -1);
            i = i + 1;
        }
        self.best_end = -1;
        self.best_priority = 0;
        self.lookaround_cache.clear();
    }

    /// Makes the next list the current one and empties the new next list.
    pub fn swap_worklists(&mut self)
        ensures
            final(self).current == old(self).next,
            final(self).next.count == 0,
            final(self).next.stride == old(self).current.stride,
            final(self).best_captures == old(self).best_captures,
            final(self).best_end == old(self).best_end,
            final(self).stride == old(self).stride,
    {
        std::mem::swap(&mut self.current, &mut self.next);
        self.next.clear();
    }

    /// The span of a group in the best match, when both its ends are set.
    pub fn get_best_capture(&self, group: usize) -> (r: Option<(usize, usize)>)
        ensures
            r is Some <==> (2 * group + 1 < self.best_captures@.len() && self.best_captures@[2
                * group] >= 0 && self.best_captures@[2 * group + 1] >= 0),
            r matches Some((s, e)) ==> s == self.best_captures@[2 * group] as usize && e
                == self.best_captures@[2 * group + 1] as usize,
    {
        let n = self.best_captures.len();
        let start_idx = match group.checked_mul(2) {
            Some(i) => i,
            None => return None,
        };
        let end_idx = match start_idx.checked_add(1) {
            Some(i) => i,
            None => return None,
        };
        if start_idx < n && end_idx < n {
            let start = self.best_captures[start_idx];
            let end = self.best_captures[end_idx];
            if start >= 0 && end >= 0 {
                return Some((#[verifier::truncate] (start as usize), #[verifier::truncate] (end as usize)));
            }
        }
        None
    }
}

/// A step of a pattern, for the step interpreter.
#[derive(Debug)]
pub enum PatternStep {
    /// One byte.
    Byte(u8),
    /// One byte of the class.
    ByteClass(ByteClass),
    /// One or more bytes of the class, as many as possible.
    GreedyPlus(ByteClass),
    /// Zero or more bytes of the class, as many as possible.
    GreedyStar(ByteClass),
    /// One or more bytes of the class, then a lookahead (positive when the
    /// flag is set), giving back bytes until it holds.
    GreedyPlusLookahead(ByteClass, Vec<PatternStep>, bool),
    /// Zero or more bytes of the class, then a lookahead, giving back bytes
    /// until it holds.
    GreedyStarLookahead(ByteClass, Vec<PatternStep>, bool),
    /// One or more bytes of the class, as few as possible before the step that follows.
    NonGreedyPlus(ByteClass, Box<PatternStep>),
    /// Zero or more bytes of the class, as few as possible before the step that follows.
    NonGreedyStar(ByteClass, Box<PatternStep>),
    /// Alternatives, tried in order.
    Alt(Vec<Vec<PatternStep>>),
    /// Start of a capture group.
    CaptureStart(u32),
    /// End of a capture group.
    CaptureEnd(u32),
    /// One code point of the class, then the given state.
    CodepointClass(CodepointClass, StateId),
    /// One or more code points of the class, as many as possible.
    GreedyCodepointPlus(CodepointClass),
    /// `\b`
    WordBoundary,
    /// `\B`
    NotWordBoundary,
    /// `(?=...)`
    PositiveLookahead(Vec<PatternStep>),
    /// `(?!...)`
    NegativeLookahead(Vec<PatternStep>),
    /// `(?<=...)`, with the body's minimum length.
    PositiveLookbehind(Vec<PatternStep>, usize),
    /// `(?<!...)`, with the body's minimum length.
    NegativeLookbehind(Vec<PatternStep>, usize),
    /// A backreference.
    Backref(u32),
    /// Start of text.
    StartOfText,
    /// End of text.
    EndOfText,
    /// Start of a line.
    StartOfLine,
    /// End of a line.
    EndOfLine,
}

} // verus!
