//! Which capture slots may still be read from each NFA state.
//!
//! A capture is live at state `S` when it may be read on some path from `S`:
//! by a backreference, or at a match state, where every capture is read for
//! the result. The analysis propagates the reads backward to a fixpoint.
use crate::bits::{lemma_u64_set_and, lemma_u64_set_consts, lemma_u64_set_finite, lemma_u64_set_or, lemma_u64_set_single, single_bit, u64_bit, u64_set, word_range};
use crate::nfa::state::{Nfa, NfaInstruction, NfaState, StateId};
use crate::nfa::thompson::{nfa_wf, targets_in};
use std::collections::VecDeque;
use vstd::prelude::*;

verus! {

/// A set of capture group indices below 64.
#[derive(Debug, Clone, Copy, PartialEq, Eq, Structural)]
pub struct CaptureBitSet(pub u64);

proof fn lemma_low_mask(n: u64, i: u64, w: u64)
    by (bit_vector)
    requires
        0 < n < 64,
        i < 64,
        w == ((1u64 << n) - 1) as u64,
    ensures
        (w >> i) & 1u64 == 1u64 <==> i < n,
{
}

/// The indices `0..n`, and at most `0..64`.
pub open spec fn index_range(n: int) -> Set<int> {
    Set::new(|i: int| 0 <= i < n && i < 64)
}

impl View for CaptureBitSet {
    type V = Set<int>;

    open spec fn view(&self) -> Set<int> {
        u64_set(self.0)
    }
}

impl CaptureBitSet {
    /// The empty set.
    pub fn empty() -> (s: Self)
        ensures
            s@ == Set::<int>::empty(),
    {
        proof {
            lemma_u64_set_consts();
        }
        CaptureBitSet(0)
    }

    /// The indices below `count` (all 64 indices when `count >= 64`).
    pub fn all(count: usize) -> (s: Self)
        ensures
            s@ == index_range(count as int),
    {
        proof {
            lemma_u64_set_consts();
        }
        if count >= 64 {
            proof {
                assert(u64_set(u64::MAX) =~= index_range(count as int));
            }
            CaptureBitSet(u64::MAX)
        } else if count == 0 {
            proof {
                assert(u64_set(0u64) =~= index_range(count as int));
            }
            CaptureBitSet(0)
        } else {
            let n = count as u64;
            assert(1u64 << n >= 1u64) by (bit_vector)
                requires
                    n < 64,
            ;
            let w = (1u64 << n) - 1;
            proof {
                assert forall|i: int| u64_set(w).contains(i) == index_range(count as int).contains(i) by {
                    if 0 <= i < 64 {
                        lemma_low_mask(n, i as u64, w);
                        assert(u64_bit(w, i) == ((w >> (i as u64)) & 1u64 == 1u64));
                    }
                }
                assert(u64_set(w) =~= index_range(count as int));
            }
            CaptureBitSet(w)
        }
    }

    /// Adds an index (indices past 63 are ignored).
    pub fn set(&mut self, idx: u32)
        ensures
            idx < 64 ==> final(self)@ == old(self)@.insert(idx as int),
            idx >= 64 ==> final(self)@ == old(self)@,
    {
        if idx < 64 {
            let b = 1u64 << idx;
            proof {
                lemma_u64_set_or(self.0, b);
                lemma_u64_set_single(idx as int);
                assert(b == single_bit(idx as int));
            }
            self.0 = self.0 | b;
            proof {
                assert(self@ =~= old(self)@.insert(idx as int));
            }
        }
    }

    /// Removes an index.
    pub fn clear(&mut self, idx: u32)
        ensures
            final(self)@ == old(self)@.remove(idx as int),
    {
        if idx < 64 {
            let b = 1u64 << idx;
            proof {
                lemma_u64_set_single(idx as int);
                assert(b == single_bit(idx as int));
                crate::bits::lemma_u64_set_not(b);
                lemma_u64_set_and(self.0, !b);
            }
            self.0 = self.0 & !b;
            proof {
                assert(self@ =~= old(self)@.remove(idx as int));
            }
        } else {
            proof {
                lemma_u64_set_finite(self.0);
                assert(self@ =~= old(self)@.remove(idx as int));
            }
        }
    }

    /// Whether the set holds the index.
    pub fn contains(&self, idx: u32) -> (b: bool)
        ensures
            b == self@.contains(idx as int),
    {
        if idx < 64 {
            let r = (self.0 >> idx) & 1 != 0;
            proof {
                let x = self.0;
                let i = idx as u64;
                assert((x >> i) & 1u64 != 0 <==> (x >> i) & 1u64 == 1u64) by (bit_vector);
            }
            r
        } else {
            false
        }
    }

    /// Whether the set is empty.
    pub fn is_empty(&self) -> (b: bool)
        ensures
            b == (self@ == Set::<int>::empty()),
    {
        proof {
            crate::bits::lemma_u64_zero_iff_empty(self.0);
        }
        self.0 == 0
    }

    /// Number of indices in the set.
    pub fn count(&self) -> (n: u32)
        ensures
            n == self@.len(),
    {
        let mut n: u32 = 0;
        let mut i: u32 = 0;
        let ghost mut seen: Set<int> = Set::empty();
        while i < 64
            invariant
                i <= 64,
                seen == Set::new(|j: int| 0 <= j < i && self@.contains(j)),
                seen.finite(),
                n == seen.len(),
                n <= i,
            decreases 64 - i,
        {
            let b = self.contains(i);
            proof {
                let next = Set::new(|j: int| 0 <= j < i + 1 && self@.contains(j));
                if b {
                    assert(next =~= seen.insert(i as int));
                } else {
                    assert(next =~= seen);
                }
                seen = next;
            }
            if b {
                n = n + 1;
            }
            i = i + 1;
        }
        proof {
            lemma_u64_set_finite(self.0);
            assert(seen =~= self@);
        }
        n
    }

    /// The union of two sets.
    pub fn union(&self, other: &Self) -> (s: Self)
        ensures
            s@ == self@.union(other@),
    {
        proof {
            lemma_u64_set_or(self.0, other.0);
        }
        CaptureBitSet(self.0 | other.0)
    }

    /// The intersection of two sets.
    pub fn intersect(&self, other: &Self) -> (s: Self)
        ensures
            s@ == self@.intersect(other@),
    {
        proof {
            lemma_u64_set_and(self.0, other.0);
        }
        CaptureBitSet(self.0 & other.0)
    }

    /// The indices of the set, in increasing order.
    pub fn iter(&self) -> (v: Vec<u32>)
        ensures
            forall|i: int, j: int| 0 <= i < j < v@.len() ==> v@[i] < v@[j],
            forall|k: int| self@.contains(k) <==> exists|i: int| 0 <= i < v@.len() && v@[i] == k,
    {
        let mut v: Vec<u32> = Vec::new();
        let mut i: u32 = 0;
        while i < 64
            invariant
                i <= 64,
                forall|a: int, b: int| 0 <= a < b < v@.len() ==> v@[a] < v@[b],
                forall|a: int| 0 <= a < v@.len() ==> v@[a] < i,
                forall|k: int|
                    (0 <= k < i && self@.contains(k)) <==> exists|a: int|
                        0 <= a < v@.len() && v@[a] == k,
            decreases 64 - i,
        {
            let ghost before = v@;
            let has = self.contains(i);
            if has {
                v.push(i);
                proof {
                    assert(v@[v@.len() - 1] == i);
                }
            }
            proof {
                assert forall|k: int|
                    (0 <= k < i + 1 && self@.contains(k)) <==> exists|a: int|
                        0 <= a < v@.len() && v@[a] == k by {
                    if 0 <= k < i + 1 && self@.contains(k) {
                        if k < i {
                            let a = choose|a: int| 0 <= a < before.len() && before[a] == k;
                            assert(v@[a] == k);
                        } else {
                            assert(v@[v@.len() - 1] == k);
                        }
                    }
                    if exists|a: int| 0 <= a < v@.len() && v@[a] == k {
                        let a = choose|a: int| 0 <= a < v@.len() && v@[a] == k;
                        if a < before.len() {
                            assert(before[a] == k);
                        }
                    }
                }
            }
            i = i + 1;
        }
        proof {
            lemma_u64_set_finite(self.0);
            assert forall|k: int| self@.contains(k) implies 0 <= k < 64 by {
                assert(word_range().contains(k));
            }
        }
        v
    }
}

impl Default for CaptureBitSet {
    fn default() -> (s: Self)
        ensures
            s@ == Set::<int>::empty(),
    {
        CaptureBitSet::empty()
    }
}

// ---------------------------------------------------------------------------
// What the analysis computes
// ---------------------------------------------------------------------------

/// Whether state `s` has an epsilon or byte transition to state `t`.
pub open spec fn has_edge(states: Seq<NfaState>, s: int, t: int) -> bool {
    &&& 0 <= s < states.len()
    &&& ((exists|i: int| 0 <= i < states[s].epsilon@.len() && states[s].epsilon@[i] == t) || (exists|i: int|
        0 <= i < states[s].transitions@.len() && states[s].transitions@[i].1 == t))
}

/// Whether entries `i` and `i + 1` of `p` are joined by a transition.
pub open spec fn edge_link(states: Seq<NfaState>, p: Seq<int>, i: int) -> bool {
    has_edge(states, p[i], p[i + 1])
}

/// Whether `t` can be reached from `s` by zero or more transitions.
pub open spec fn reaches(states: Seq<NfaState>, s: int, t: int) -> bool {
    exists|p: Seq<int>|
        #![trigger p[0], p.last()]
        p.len() >= 1 && p[0] == s && p.last() == t && forall|i: int|
            0 <= i < p.len() - 1 ==> #[trigger] edge_link(states, p, i)
}

/// The capture a state reads through a backreference.
pub open spec fn reads_of(st: NfaState) -> Set<int> {
    match st.instruction {
        Some(NfaInstruction::Backref(i)) => if i < 64 {
            set![i as int]
        } else {
            Set::empty()
        },
        _ => Set::empty(),
    }
}

/// The capture a state writes.
pub open spec fn writes_of(st: NfaState) -> Set<int> {
    match st.instruction {
        Some(NfaInstruction::CaptureStart(i)) => if i < 64 {
            set![i as int]
        } else {
            Set::empty()
        },
        Some(NfaInstruction::CaptureEnd(i)) => if i < 64 {
            set![i as int]
        } else {
            Set::empty()
        },
        _ => Set::empty(),
    }
}

/// Whether a state holds a lookaround.
pub open spec fn is_lookaround(st: NfaState) -> bool {
    match st.instruction {
        Some(NfaInstruction::PositiveLookahead(_)) => true,
        Some(NfaInstruction::NegativeLookahead(_)) => true,
        Some(NfaInstruction::PositiveLookbehind(_)) => true,
        Some(NfaInstruction::NegativeLookbehind(_)) => true,
        _ => false,
    }
}

/// Number of states that hold a lookaround.
pub open spec fn lookaround_total(states: Seq<NfaState>) -> nat
    decreases states.len(),
{
    if states.len() == 0 {
        0
    } else {
        lookaround_total(states.drop_last()) + if is_lookaround(states.last()) {
            1nat
        } else {
            0nat
        }
    }
}

/// The captures read at a state itself: all of them at a match state (for the
/// result), the backreference's otherwise.
pub open spec fn reads_at(nfa: Nfa, t: int) -> Set<int> {
    if nfa.matches@.contains(t as StateId) {
        index_range(nfa.capture_count + 1)
    } else {
        reads_of(nfa.states@[t])
    }
}

/// The captures that may be read on some path from state `s`.
pub open spec fn live_at(nfa: Nfa, s: int) -> Set<int> {
    Set::new(|c: int| exists|t: int| #[trigger] reaches(nfa.states@, s, t) && reads_at(nfa, t).contains(c))
}

/// Whether every transition target and every match state is a state, and
/// identifiers fit in 32 bits.
pub open spec fn liveness_ready(nfa: Nfa) -> bool {
    &&& nfa.states@.len() <= u32::MAX
    &&& forall|s: int, i: int|
        0 <= s < nfa.states@.len() && 0 <= i < nfa.states@[s].epsilon@.len()
            ==> (#[trigger] nfa.states@[s].epsilon@[i] as int) < nfa.states@.len()
    &&& forall|s: int, i: int|
        0 <= s < nfa.states@.len() && 0 <= i < nfa.states@[s].transitions@.len()
            ==> (#[trigger] nfa.states@[s].transitions@[i].1 as int) < nfa.states@.len()
    &&& forall|i: int|
        0 <= i < nfa.matches@.len() ==> (#[trigger] nfa.matches@[i] as int) < nfa.states@.len()
}

/// Captures live after a transition are live before it.
pub proof fn lemma_live_along_edge(nfa: Nfa, s: int, t: int, c: int)
    requires
        has_edge(nfa.states@, s, t),
        live_at(nfa, t).contains(c),
    ensures
        live_at(nfa, s).contains(c),
{
    let u = choose|u: int| #[trigger] reaches(nfa.states@, t, u) && reads_at(nfa, u).contains(c);
    lemma_reaches_prepend(nfa.states@, s, t, u);
}

/// At a listed match state every group below 64 is live: the match reads them all.
pub proof fn lemma_live_at_match(nfa: Nfa, m: int, g: int)
    requires
        0 <= m < nfa.states@.len(),
        nfa.matches@.contains(m as StateId),
        0 <= g <= nfa.capture_count,
        g < 64,
    ensures
        live_at(nfa, m).contains(g),
{
    lemma_reaches_refl(nfa.states@, m);
    assert(reads_at(nfa, m).contains(g));
}

proof fn lemma_reaches_refl(states: Seq<NfaState>, s: int)
    ensures
        reaches(states, s, s),
{
    let p = seq![s];
    assert(p[0] == s && p.last() == s);
}

proof fn lemma_reaches_prepend(states: Seq<NfaState>, s: int, t: int, u: int)
    requires
        has_edge(states, s, t),
        reaches(states, t, u),
    ensures
        reaches(states, s, u),
{
    let p = choose|p: Seq<int>|
        #![trigger p[0], p.last()]
        p.len() >= 1 && p[0] == t && p.last() == u && forall|i: int|
            0 <= i < p.len() - 1 ==> #[trigger] edge_link(states, p, i);
    let q = seq![s] + p;
    assert forall|i: int| 0 <= i < q.len() - 1 implies #[trigger] edge_link(states, q, i) by {
        if i > 0 {
            assert(edge_link(states, p, i - 1));
            assert(q[i] == p[i - 1] && q[i + 1] == p[i]);
        }
    }
    assert(q[0] == s && q.last() == u);
}

/// Live captures flow backward along transitions.
proof fn lemma_live_edge(nfa: Nfa, s: int, t: int)
    requires
        has_edge(nfa.states@, s, t),
    ensures
        live_at(nfa, t).subset_of(live_at(nfa, s)),
{
    assert forall|c: int| live_at(nfa, t).contains(c) implies live_at(nfa, s).contains(c) by {
        let u = choose|u: int| #[trigger] reaches(nfa.states@, t, u) && reads_at(nfa, u).contains(c);
        lemma_reaches_prepend(nfa.states@, s, t, u);
    }
}

/// Sets that hold each state's reads and grow backward along every transition
/// hold everything live.
proof fn lemma_closed_live(nfa: Nfa, live: Seq<Set<int>>, p: Seq<int>, c: int)
    requires
        liveness_ready(nfa),
        live.len() == nfa.states@.len(),
        p.len() >= 1,
        0 <= p[0] < nfa.states@.len(),
        forall|i: int| 0 <= i < p.len() - 1 ==> #[trigger] edge_link(nfa.states@, p, i),
        forall|t: int| 0 <= t < live.len() ==> reads_at(nfa, t).subset_of(#[trigger] live[t]),
        forall|s: int, t: int|
            0 <= t < live.len() && #[trigger] has_edge(nfa.states@, s, t) ==> live[t].subset_of(
                live[s],
            ),
        reads_at(nfa, p.last()).contains(c),
        0 <= p.last() < nfa.states@.len(),
    ensures
        live[p[0]].contains(c),
    decreases p.len(),
{
    if p.len() > 1 {
        let q = p.drop_first();
        assert forall|i: int| 0 <= i < q.len() - 1 implies #[trigger] edge_link(nfa.states@, q, i) by {
            assert(edge_link(nfa.states@, p, i + 1));
        }
        assert(edge_link(nfa.states@, p, 0));
        assert(q.last() == p.last());
        assert(has_edge(nfa.states@, p[0], p[1]));
        lemma_edge_target_bound(nfa, p[0], p[1]);
        lemma_closed_live(nfa, live, q, c);
        assert(live[p[1]].subset_of(live[p[0]]));
    } else {
        assert(reads_at(nfa, p[0]).subset_of(live[p[0]]));
    }
}

proof fn lemma_edge_target_bound(nfa: Nfa, s: int, t: int)
    requires
        liveness_ready(nfa),
        has_edge(nfa.states@, s, t),
    ensures
        0 <= t < nfa.states@.len(),
{
    let st = nfa.states@[s];
    if exists|i: int| 0 <= i < st.epsilon@.len() && st.epsilon@[i] == t {
        let i = choose|i: int| 0 <= i < st.epsilon@.len() && st.epsilon@[i] == t;
        assert((nfa.states@[s].epsilon@[i] as int) < nfa.states@.len());
    } else {
        let i = choose|i: int| 0 <= i < st.transitions@.len() && st.transitions@[i].1 == t;
        assert((nfa.states@[s].transitions@[i].1 as int) < nfa.states@.len());
    }
}


/// Total number of indices held by a sequence of bit sets.
spec fn bits_total(l: Seq<CaptureBitSet>) -> nat
    decreases l.len(),
{
    if l.len() == 0 {
        0
    } else {
        bits_total(l.drop_last()) + l.last()@.len()
    }
}

proof fn lemma_total_bound(l: Seq<CaptureBitSet>)
    ensures
        bits_total(l) <= 64 * l.len(),
    decreases l.len(),
{
    if l.len() > 0 {
        lemma_total_bound(l.drop_last());
        lemma_u64_set_finite(l.last().0);
    }
}

proof fn lemma_total_update(l: Seq<CaptureBitSet>, i: int, v: CaptureBitSet)
    requires
        0 <= i < l.len(),
    ensures
        bits_total(l.update(i, v)) + l[i]@.len() == bits_total(l) + v@.len(),
    decreases l.len(),
{
    let u = l.update(i, v);
    if i == l.len() - 1 {
        assert(u.drop_last() =~= l.drop_last());
    } else {
        assert(u.drop_last() =~= l.drop_last().update(i, v));
        lemma_total_update(l.drop_last(), i, v);
    }
}

proof fn lemma_strict_grow(a: u64, b: u64)
    requires
        u64_set(a).subset_of(u64_set(b)),
        a != b,
    ensures
        u64_set(a).len() < u64_set(b).len(),
{
    lemma_u64_set_finite(a);
    lemma_u64_set_finite(b);
    if u64_set(a) == u64_set(b) {
        crate::bits::lemma_u64_set_ext(a, b);
    }
    assert(!(u64_set(b) =~= u64_set(a)));
    let e = choose|e: int| u64_set(b).contains(e) && !u64_set(a).contains(e);
    vstd::set_lib::lemma_len_subset(u64_set(a), u64_set(b).remove(e));
}

/// Reads, writes and lookarounds at each state on its own.
fn local_facts(nfa: &Nfa) -> (r: (Vec<CaptureBitSet>, Vec<CaptureBitSet>, u32))
    requires
        nfa.states@.len() <= u32::MAX,
    ensures
        r.0@.len() == nfa.states@.len(),
        r.1@.len() == nfa.states@.len(),
        forall|k: int| 0 <= k < nfa.states@.len() ==> (#[trigger] r.0@[k])@ == reads_of(nfa.states@[k]),
        forall|k: int| 0 <= k < nfa.states@.len() ==> (#[trigger] r.1@[k])@ == writes_of(nfa.states@[k]),
        r.2 == lookaround_total(nfa.states@),
{
    let n = nfa.states.len();
    let mut reads: Vec<CaptureBitSet> = Vec::new();
    let mut writes: Vec<CaptureBitSet> = Vec::new();
    let mut lookaround_count: u32 = 0;
    let mut id: usize = 0;
    while id < n
        invariant
            n == nfa.states@.len(),
            n <= u32::MAX,
            id <= n,
            reads@.len() == id,
            writes@.len() == id,
            forall|k: int| 0 <= k < id ==> (#[trigger] reads@[k])@ == reads_of(nfa.states@[k]),
            forall|k: int| 0 <= k < id ==> (#[trigger] writes@[k])@ == writes_of(nfa.states@[k]),
            lookaround_count == lookaround_total(nfa.states@.take(id as int)),
            lookaround_count <= id,
        decreases n - id,
    {
        proof {
            assert(nfa.states@.take(id as int + 1).drop_last() =~= nfa.states@.take(id as int));
            assert(nfa.states@.take(id as int + 1).last() == nfa.states@[id as int]);
        }
        let st = &nfa.states[id];
        let mut r = CaptureBitSet::empty();
        let mut w = CaptureBitSet::empty();
        match &st.instruction {
            Some(NfaInstruction::CaptureStart(i)) => {
                w.set(*i);
            },
            Some(NfaInstruction::CaptureEnd(i)) => {
                w.set(*i);
            },
            Some(NfaInstruction::Backref(i)) => {
                r.set(*i);
            },
            Some(NfaInstruction::PositiveLookahead(_)) => {
                lookaround_count = lookaround_count + 1;
            },
            Some(NfaInstruction::NegativeLookahead(_)) => {
                lookaround_count = lookaround_count + 1;
            },
            Some(NfaInstruction::PositiveLookbehind(_)) => {
                lookaround_count = lookaround_count + 1;
            },
            Some(NfaInstruction::NegativeLookbehind(_)) => {
                lookaround_count = lookaround_count + 1;
            },
            _ => {},
        }
        proof {
            assert(r@ =~= reads_of(nfa.states@[id as int]));
            assert(w@ =~= writes_of(nfa.states@[id as int]));
        }
        reads.push(r);
        writes.push(w);
        id = id + 1;
    }
    proof {
        assert(nfa.states@.take(n as int) =~= nfa.states@);
    }
    (reads, writes, lookaround_count)
}

/// For each state, the states with a transition to it.
fn predecessors(nfa: &Nfa) -> (preds: Vec<Vec<StateId>>)
    requires
        liveness_ready(*nfa),
    ensures
        preds@.len() == nfa.states@.len(),
        forall|t: int, j: int|
            0 <= t < preds@.len() && 0 <= j < preds@[t]@.len() ==> has_edge(
                nfa.states@,
                #[trigger] preds@[t]@[j] as int,
                t,
            ),
        forall|s: int, t: int|
            0 <= t < preds@.len() && #[trigger] has_edge(nfa.states@, s, t) ==> preds@[t]@.contains(
                s as StateId,
            ),
{
    let n = nfa.states.len();
    let mut preds: Vec<Vec<StateId>> = Vec::new();
    let mut k: usize = 0;
    while k < n
        invariant
            k <= n,
            preds@.len() == k,
            forall|t: int| 0 <= t < k ==> (#[trigger] preds@[t])@.len() == 0,
        decreases n - k,
    {
        preds.push(Vec::new());
        k = k + 1;
    }
    let mut id: usize = 0;
    while id < n
        invariant
            n == nfa.states@.len(),
            liveness_ready(*nfa),
            id <= n,
            preds@.len() == n,
            forall|t: int, j: int|
                0 <= t < n && 0 <= j < preds@[t]@.len() ==> has_edge(
                    nfa.states@,
                    #[trigger] preds@[t]@[j] as int,
                    t,
                ),
            forall|s: int, t: int|
                0 <= s < id && 0 <= t < n && #[trigger] has_edge(nfa.states@, s, t)
                    ==> preds@[t]@.contains(s as StateId),
        decreases n - id,
    {
        let st = &nfa.states[id];
        let mut i: usize = 0;
        while i < st.epsilon.len()
            invariant
                n == nfa.states@.len(),
                liveness_ready(*nfa),
                id < n,
                st == nfa.states@[id as int],
                i <= st.epsilon@.len(),
                preds@.len() == n,
                forall|t: int, j: int|
                    0 <= t < n && 0 <= j < preds@[t]@.len() ==> has_edge(
                        nfa.states@,
                        #[trigger] preds@[t]@[j] as int,
                        t,
                    ),
                forall|s: int, t: int|
                    0 <= s < id && 0 <= t < n && #[trigger] has_edge(nfa.states@, s, t)
                        ==> preds@[t]@.contains(s as StateId),
                forall|j: int|
                    0 <= j < i ==> preds@[#[trigger] st.epsilon@[j] as int]@.contains(
                        id as StateId,
                    ),
            decreases st.epsilon@.len() - i,
        {
            let t = st.epsilon[i];
            let ghost before = preds@;
            proof {
                assert((nfa.states@[id as int].epsilon@[i as int] as int) < n);
                assert(has_edge(nfa.states@, id as int, t as int));
            }
            preds[t as usize].push(id as StateId);
            proof {
                assert(preds@[t as int]@.last() == id as StateId);
                assert forall|tt: int, j: int|
                    0 <= tt < n && 0 <= j < preds@[tt]@.len() implies has_edge(
                    nfa.states@,
                    #[trigger] preds@[tt]@[j] as int,
                    tt,
                ) by {
                    if tt != t || j < before[tt]@.len() {
                        assert(preds@[tt]@[j] == before[tt]@[j]);
                    }
                }
                assert forall|s: int, tt: int|
                    0 <= s < id && 0 <= tt < n && #[trigger] has_edge(nfa.states@, s, tt)
                        implies preds@[tt]@.contains(s as StateId) by {
                    assert(before[tt]@.contains(s as StateId));
                    let j = choose|j: int| 0 <= j < before[tt]@.len() && before[tt]@[j] == s as StateId;
                    assert(preds@[tt]@[j] == before[tt]@[j]);
                }
                assert forall|j: int| 0 <= j < i + 1 implies preds@[#[trigger] st.epsilon@[j] as int]@.contains(
                    id as StateId,
                ) by {
                    let tt = st.epsilon@[j] as int;
                    if j == i {
                        assert(preds@[tt]@[preds@[tt]@.len() - 1] == id as StateId);
                    } else {
                        assert(before[tt]@.contains(id as StateId));
                        let q = choose|q: int| 0 <= q < before[tt]@.len() && before[tt]@[q] == id as StateId;
                        assert(preds@[tt]@[q] == before[tt]@[q]);
                    }
                }
            }
            i = i + 1;
        }
        let mut i: usize = 0;
        while i < st.transitions.len()
            invariant
                n == nfa.states@.len(),
                liveness_ready(*nfa),
                id < n,
                st == nfa.states@[id as int],
                i <= st.transitions@.len(),
                preds@.len() == n,
                forall|t: int, j: int|
                    0 <= t < n && 0 <= j < preds@[t]@.len() ==> has_edge(
                        nfa.states@,
                        #[trigger] preds@[t]@[j] as int,
                        t,
                    ),
                forall|s: int, t: int|
                    0 <= s < id && 0 <= t < n && #[trigger] has_edge(nfa.states@, s, t)
                        ==> preds@[t]@.contains(s as StateId),
                forall|j: int|
                    0 <= j < st.epsilon@.len() ==> preds@[#[trigger] st.epsilon@[j] as int]@.contains(
                        id as StateId,
                    ),
                forall|j: int|
                    0 <= j < i ==> preds@[(#[trigger] st.transitions@[j]).1 as int]@.contains(
                        id as StateId,
                    ),
            decreases st.transitions@.len() - i,
        {
            let t = st.transitions[i].1;
            let ghost before = preds@;
            proof {
                assert((nfa.states@[id as int].transitions@[i as int].1 as int) < n);
                assert(has_edge(nfa.states@, id as int, t as int));
            }
            preds[t as usize].push(id as StateId);
            proof {
                assert forall|tt: int, j: int|
                    0 <= tt < n && 0 <= j < preds@[tt]@.len() implies has_edge(
                    nfa.states@,
                    #[trigger] preds@[tt]@[j] as int,
                    tt,
                ) by {
                    if tt != t || j < before[tt]@.len() {
                        assert(preds@[tt]@[j] == before[tt]@[j]);
                    }
                }
                assert forall|s: int, tt: int|
                    0 <= s < id && 0 <= tt < n && #[trigger] has_edge(nfa.states@, s, tt)
                        implies preds@[tt]@.contains(s as StateId) by {
                    assert(before[tt]@.contains(s as StateId));
                    let j = choose|j: int| 0 <= j < before[tt]@.len() && before[tt]@[j] == s as StateId;
                    assert(preds@[tt]@[j] == before[tt]@[j]);
                }
                assert forall|j: int| 0 <= j < st.epsilon@.len() implies preds@[#[trigger] st.epsilon@[j] as int]@.contains(
                    id as StateId,
                ) by {
                    let tt = st.epsilon@[j] as int;
                    assert(before[tt]@.contains(id as StateId));
                    let q = choose|q: int| 0 <= q < before[tt]@.len() && before[tt]@[q] == id as StateId;
                    assert(preds@[tt]@[q] == before[tt]@[q]);
                }
                assert forall|j: int| 0 <= j < i + 1 implies preds@[(#[trigger] st.transitions@[j]).1 as int]@.contains(
                    id as StateId,
                ) by {
                    let tt = st.transitions@[j].1 as int;
                    if j == i {
                        assert(preds@[tt]@[preds@[tt]@.len() - 1] == id as StateId);
                    } else {
                        assert(before[tt]@.contains(id as StateId));
                        let q = choose|q: int| 0 <= q < before[tt]@.len() && before[tt]@[q] == id as StateId;
                        assert(preds@[tt]@[q] == before[tt]@[q]);
                    }
                }
            }
            i = i + 1;
        }
        proof {
            assert forall|s: int, t: int|
                0 <= s < id + 1 && 0 <= t < n && #[trigger] has_edge(nfa.states@, s, t)
                    implies preds@[t]@.contains(s as StateId) by {
                if s == id {
                    if exists|j: int| 0 <= j < st.epsilon@.len() && st.epsilon@[j] == t {
                        let j = choose|j: int| 0 <= j < st.epsilon@.len() && st.epsilon@[j] == t;
                        assert(preds@[st.epsilon@[j] as int]@.contains(id as StateId));
                    } else {
                        let j = choose|j: int|
                            0 <= j < st.transitions@.len() && st.transitions@[j].1 == t;
                        assert(preds@[st.transitions@[j].1 as int]@.contains(id as StateId));
                    }
                }
            }
        }
        id = id + 1;
    }
    proof {
        assert forall|s: int, t: int|
            0 <= t < preds@.len() && #[trigger] has_edge(nfa.states@, s, t) implies preds@[t]@.contains(
            s as StateId,
        ) by {
        }
    }
    preds
}


/// Whether the worklist and its flags agree, without repeats, on states below `n`.
spec fn worklist_ok(wl: Seq<StateId>, flags: Seq<bool>, n: int) -> bool {
    &&& flags.len() == n
    &&& wl.no_duplicates()
    &&& forall|i: int| 0 <= i < wl.len() ==> (#[trigger] wl[i] as int) < n
    &&& forall|x: int| 0 <= x < n ==> (#[trigger] flags[x] <==> wl.contains(x as StateId))
}

proof fn lemma_wl_push(wl: Seq<StateId>, flags: Seq<bool>, n: int, x: int)
    requires
        worklist_ok(wl, flags, n),
        0 <= x < n,
        n <= u32::MAX,
        !flags[x],
    ensures
        worklist_ok(wl.push(x as StateId), flags.update(x, true), n),
{
    let w2 = wl.push(x as StateId);
    let f2 = flags.update(x, true);
    assert(!wl.contains(x as StateId));
    assert forall|i: int, j: int| 0 <= i < j < w2.len() implies w2[i] != w2[j] by {
        if j == w2.len() - 1 {
            assert(wl[i] == w2[i]);
        }
    }
    assert forall|y: int| 0 <= y < n implies (#[trigger] f2[y] <==> w2.contains(y as StateId)) by {
        if y == x {
            assert(w2[w2.len() - 1] == x as StateId);
        } else {
            assert(f2[y] == flags[y]);
            if w2.contains(y as StateId) {
                let q = choose|q: int| 0 <= q < w2.len() && w2[q] == y as StateId;
                assert(q < w2.len() - 1);
                assert(wl[q] == y as StateId);
            }
            if wl.contains(y as StateId) {
                let q = choose|q: int| 0 <= q < wl.len() && wl[q] == y as StateId;
                assert(w2[q] == y as StateId);
            }
        }
    }
}

proof fn lemma_wl_pop(wl: Seq<StateId>, flags: Seq<bool>, n: int)
    requires
        worklist_ok(wl, flags, n),
        n <= u32::MAX,
        wl.len() > 0,
    ensures
        worklist_ok(wl.subrange(1, wl.len() as int), flags.update(wl[0] as int, false), n),
        (wl[0] as int) < n,
{
    let t = wl[0];
    let w2 = wl.subrange(1, wl.len() as int);
    let f2 = flags.update(t as int, false);
    assert forall|y: int| 0 <= y < n implies (#[trigger] f2[y] <==> w2.contains(y as StateId)) by {
        if y == t as int {
            if w2.contains(t) {
                let q = choose|q: int| 0 <= q < w2.len() && w2[q] == t;
                assert(wl[q + 1] == t);
            }
        } else {
            assert(f2[y] == flags[y]);
            if wl.contains(y as StateId) {
                let q = choose|q: int| 0 <= q < wl.len() && wl[q] == y as StateId;
                assert(q != 0);
                assert(w2[q - 1] == y as StateId);
            }
            if w2.contains(y as StateId) {
                let q = choose|q: int| 0 <= q < w2.len() && w2[q] == y as StateId;
                assert(wl[q + 1] == y as StateId);
            }
        }
    }
    assert forall|i: int| 0 <= i < w2.len() implies (#[trigger] w2[i] as int) < n by {
        assert(w2[i] == wl[i + 1]);
    }
}

/// Propagates the captures read at each state backward along transitions,
/// to the least sets closed under predecessors.
fn propagate(nfa: &Nfa, reads: Vec<CaptureBitSet>, preds: &Vec<Vec<StateId>>) -> (live: Vec<CaptureBitSet>)
    requires
        liveness_ready(*nfa),
        reads@.len() == nfa.states@.len(),
        forall|k: int| 0 <= k < nfa.states@.len() ==> (#[trigger] reads@[k])@ == reads_of(nfa.states@[k]),
        preds@.len() == nfa.states@.len(),
        forall|t: int, j: int|
            0 <= t < preds@.len() && 0 <= j < preds@[t]@.len() ==> has_edge(
                nfa.states@,
                #[trigger] preds@[t]@[j] as int,
                t,
            ),
        forall|s: int, t: int|
            0 <= t < preds@.len() && #[trigger] has_edge(nfa.states@, s, t) ==> preds@[t]@.contains(
                s as StateId,
            ),
    ensures
        live@.len() == nfa.states@.len(),
        forall|s: int| 0 <= s < nfa.states@.len() ==> (#[trigger] live@[s])@ == live_at(*nfa, s),
{
    let n = reads.len();
    let mut live = reads;
    let mut worklist: VecDeque<StateId> = VecDeque::new();
    let mut in_wl: Vec<bool> = Vec::new();
    let mut k: usize = 0;
    while k < n
        invariant
            k <= n,
            in_wl@.len() == k,
            forall|x: int| 0 <= x < k ==> !(#[trigger] in_wl@[x]),
        decreases n - k,
    {
        in_wl.push(false);
        k = k + 1;
    }
    let mut id: usize = 0;
    while id < n
        invariant
            n == nfa.states@.len(),
            n <= u32::MAX,
            id <= n,
            live@.len() == n,
            forall|k: int| 0 <= k < n ==> (#[trigger] live@[k])@ == reads_of(nfa.states@[k]),
            worklist_ok(worklist@, in_wl@, n as int),
            forall|x: int| id <= x < n ==> !(#[trigger] in_wl@[x]),
            forall|x: int|
                0 <= x < id && !(#[trigger] in_wl@[x]) ==> live@[x]@ == Set::<int>::empty(),
        decreases n - id,
    {
        if !live[id].is_empty() {
            proof {
                assert(!in_wl@[id as int]);
                lemma_wl_push(worklist@, in_wl@, n as int, id as int);
            }
            worklist.push_back(id as StateId);
            in_wl.set(id, true);
        }
        id = id + 1;
    }
    let cap: u32 = if nfa.capture_count < 64 {
        nfa.capture_count
    } else {
        64
    };
    let all = CaptureBitSet::all(cap as usize + 1);
    proof {
        assert(all@ =~= index_range(nfa.capture_count + 1));
    }
    let mut m: usize = 0;
    while m < nfa.matches.len()
        invariant
            n == nfa.states@.len(),
            liveness_ready(*nfa),
            m <= nfa.matches@.len(),
            live@.len() == n,
            all@ == index_range(nfa.capture_count + 1),
            forall|k: int|
                0 <= k < n ==> (#[trigger] live@[k])@ == if nfa.matches@.take(m as int).contains(
                    k as StateId,
                ) {
                    index_range(nfa.capture_count + 1)
                } else {
                    reads_of(nfa.states@[k])
                },
            worklist_ok(worklist@, in_wl@, n as int),
            forall|x: int| 0 <= x < n && !(#[trigger] in_wl@[x]) ==> live@[x]@ == Set::<int>::empty(),
        decreases nfa.matches@.len() - m,
    {
        let match_id = nfa.matches[m];
        proof {
            assert((nfa.matches@[m as int] as int) < n);
            assert(nfa.matches@.take(m as int + 1) =~= nfa.matches@.take(m as int).push(match_id));
        }
        live.set(match_id as usize, all);
        if !in_wl[match_id as usize] {
            proof {
                lemma_wl_push(worklist@, in_wl@, n as int, match_id as int);
            }
            worklist.push_back(match_id);
            in_wl.set(match_id as usize, true);
        }
        proof {
            assert forall|k: int|
                0 <= k < n implies (#[trigger] live@[k])@ == if nfa.matches@.take(
                m as int + 1,
            ).contains(k as StateId) {
                index_range(nfa.capture_count + 1)
            } else {
                reads_of(nfa.states@[k])
            } by {
                if k != match_id as int {
                    if nfa.matches@.take(m as int + 1).contains(k as StateId) {
                        let q = choose|q: int|
                            0 <= q < m + 1 && #[trigger] nfa.matches@.take(m as int + 1)[q]
                                == k as StateId;
                        assert(nfa.matches@.take(m as int).contains(k as StateId)) by {
                            assert(q < m);
                            assert(nfa.matches@.take(m as int)[q] == k as StateId);
                        }
                    }
                } else {
                    assert(nfa.matches@.take(m as int + 1)[m as int] == k as StateId);
                }
            }
        }
        m = m + 1;
    }
    proof {
        assert(nfa.matches@.take(nfa.matches@.len() as int) =~= nfa.matches@);
        assert forall|s: int| 0 <= s < n implies (#[trigger] live@[s])@.subset_of(live_at(*nfa, s)) by {
            lemma_reaches_refl(nfa.states@, s);
        }
        assert forall|s: int, t: int|
            0 <= t < n && #[trigger] has_edge(nfa.states@, s, t) && !in_wl@[t] implies live@[t]@.subset_of(
            live@[s]@,
        ) by {
        }
        lemma_total_bound(live@);
    }
    while worklist.len() > 0
        invariant
            n == nfa.states@.len(),
            liveness_ready(*nfa),
            live@.len() == n,
            preds@.len() == n,
            forall|t: int, j: int|
                0 <= t < n && 0 <= j < preds@[t]@.len() ==> has_edge(
                    nfa.states@,
                    #[trigger] preds@[t]@[j] as int,
                    t,
                ),
            forall|s: int, t: int|
                0 <= t < n && #[trigger] has_edge(nfa.states@, s, t) ==> preds@[t]@.contains(
                    s as StateId,
                ),
            worklist_ok(worklist@, in_wl@, n as int),
            forall|s: int| 0 <= s < n ==> reads_at(*nfa, s).subset_of(#[trigger] live@[s]@),
            forall|s: int| 0 <= s < n ==> (#[trigger] live@[s])@.subset_of(live_at(*nfa, s)),
            forall|s: int, t: int|
                0 <= t < n && #[trigger] has_edge(nfa.states@, s, t) && !in_wl@[t]
                    ==> live@[t]@.subset_of(live@[s]@),
            bits_total(live@) <= 64 * n,
        decreases (n + 1) * (64 * n - bits_total(live@)) + worklist@.len(),
    {
        let ghost wl0 = worklist@;
        let ghost measure0 = (n + 1) * (64 * n - bits_total(live@)) + worklist@.len();
        proof {
            lemma_wl_pop(worklist@, in_wl@, n as int);
        }
        let t = worklist.pop_front().unwrap();
        in_wl.set(t as usize, false);
        let cur = live[t as usize];
        let plist = &preds[t as usize];
        let mut j: usize = 0;
        let ghost measure1 = (n + 1) * (64 * n - bits_total(live@)) + worklist@.len();
        assert(measure1 < measure0);
        while j < plist.len()
            invariant
                n == nfa.states@.len(),
                liveness_ready(*nfa),
                live@.len() == n,
                (t as int) < n,
                plist == preds@[t as int],
                preds@.len() == n,
                forall|tt: int, jj: int|
                    0 <= tt < n && 0 <= jj < preds@[tt]@.len() ==> has_edge(
                        nfa.states@,
                        #[trigger] preds@[tt]@[jj] as int,
                        tt,
                    ),
                forall|s: int, tt: int|
                    0 <= tt < n && #[trigger] has_edge(nfa.states@, s, tt) ==> preds@[tt]@.contains(
                        s as StateId,
                    ),
                j <= plist@.len(),
                live@[t as int] == cur,
                !in_wl@[t as int],
                worklist_ok(worklist@, in_wl@, n as int),
                forall|s: int| 0 <= s < n ==> reads_at(*nfa, s).subset_of(#[trigger] live@[s]@),
                forall|s: int| 0 <= s < n ==> (#[trigger] live@[s])@.subset_of(live_at(*nfa, s)),
                forall|s: int, tt: int|
                    0 <= tt < n && tt != t && #[trigger] has_edge(nfa.states@, s, tt) && !in_wl@[tt]
                        ==> live@[tt]@.subset_of(live@[s]@),
                forall|jj: int| 0 <= jj < j ==> cur@.subset_of(live@[#[trigger] plist@[jj] as int]@),
                bits_total(live@) <= 64 * n,
                (n + 1) * (64 * n - bits_total(live@)) + worklist@.len() <= measure1,
            decreases plist@.len() - j,
        {
            let s = plist[j];
            proof {
                assert(has_edge(nfa.states@, s as int, t as int));
                assert(0 <= s < n);
            }
            let old_s = live[s as usize];
            let propagated = cur.union(&old_s);
            if propagated.0 != old_s.0 {
                let ghost l0 = live@;
                let ghost w0 = worklist@;
                proof {
                    lemma_live_edge(*nfa, s as int, t as int);
                    lemma_u64_set_or(cur.0, old_s.0);
                    lemma_strict_grow(old_s.0, propagated.0);
                    lemma_total_update(live@, s as int, propagated);
                }
                proof {
                    if s == t {
                        lemma_u64_set_or(cur.0, cur.0);
                        assert(u64_set(cur.0 | cur.0) =~= u64_set(cur.0));
                        crate::bits::lemma_u64_set_ext(cur.0 | cur.0, cur.0);
                    }
                }
                live.set(s as usize, propagated);
                proof {
                    lemma_total_bound(live@);
                }
                if !in_wl[s as usize] {
                    proof {
                        lemma_wl_push(worklist@, in_wl@, n as int, s as int);
                    }
                    worklist.push_back(s);
                    in_wl.set(s as usize, true);
                }
                proof {
                    let t1 = bits_total(live@);
                    let t0 = bits_total(l0);
                    let w1 = worklist@.len();
                    let wz = w0.len();
                    let nn = n as int;
                    assert((nn + 1) * (64 * nn - t1) + w1 <= (nn + 1) * (64 * nn - t0) + wz)
                        by (nonlinear_arith)
                        requires
                            t1 >= t0 + 1,
                            w1 <= wz + 1,
                            nn >= 0,
                    ;
                }
                proof {
                    assert forall|ss: int| 0 <= ss < n implies reads_at(*nfa, ss).subset_of(
                        #[trigger] live@[ss]@,
                    ) by {
                        if ss != s as int {
                            assert(live@[ss] == l0[ss]);
                        }
                    }
                    assert forall|ss: int| 0 <= ss < n implies (#[trigger] live@[ss])@.subset_of(
                        live_at(*nfa, ss),
                    ) by {
                        if ss != s as int {
                            assert(live@[ss] == l0[ss]);
                        }
                    }
                    assert forall|ss: int, tt: int|
                        0 <= tt < n && tt != t && #[trigger] has_edge(nfa.states@, ss, tt)
                            && !in_wl@[tt] implies live@[tt]@.subset_of(live@[ss]@) by {
                        lemma_edge_target_bound(*nfa, ss, tt);
                        assert(tt != s as int);
                        assert(live@[tt] == l0[tt]);
                        assert(0 <= ss < n);
                        if ss != s as int {
                            assert(live@[ss] == l0[ss]);
                        }
                    }
                    assert forall|jj: int| 0 <= jj < j + 1 implies cur@.subset_of(
                        live@[#[trigger] plist@[jj] as int]@,
                    ) by {
                        let q = plist@[jj] as int;
                        assert(has_edge(nfa.states@, q, t as int));
                        if q != s as int {
                            assert(live@[q] == l0[q]);
                        }
                    }
                }
            } else {
                proof {
                    lemma_u64_set_or(cur.0, old_s.0);
                    assert forall|jj: int| 0 <= jj < j + 1 implies cur@.subset_of(
                        live@[#[trigger] plist@[jj] as int]@,
                    ) by {
                    }
                }
            }
            j = j + 1;
        }
        proof {
            assert forall|ss: int, tt: int|
                0 <= tt < n && #[trigger] has_edge(nfa.states@, ss, tt) && !in_wl@[tt]
                    implies live@[tt]@.subset_of(live@[ss]@) by {
                if tt == t as int {
                    assert(preds@[tt]@.contains(ss as StateId));
                    let q = choose|q: int| 0 <= q < plist@.len() && plist@[q] == ss as StateId;
                    assert(cur@.subset_of(live@[plist@[q] as int]@));
                    lemma_edge_target_bound(*nfa, ss, tt);
                    assert(0 <= ss);
                }
            }
        }
    }
    proof {
        assert forall|s: int| 0 <= s < n implies (#[trigger] live@[s])@ == live_at(*nfa, s) by {
            assert forall|c: int| live_at(*nfa, s).contains(c) implies live@[s]@.contains(c) by {
                let t = choose|t: int| #[trigger] reaches(nfa.states@, s, t) && reads_at(*nfa, t).contains(c);
                let p = choose|p: Seq<int>|
                    #![trigger p[0], p.last()]
                    p.len() >= 1 && p[0] == s && p.last() == t && forall|i: int|
                        0 <= i < p.len() - 1 ==> #[trigger] edge_link(nfa.states@, p, i);
                let lv = Seq::new(n as nat, |i: int| live@[i]@);
                assert forall|x: int, y: int|
                    0 <= y < lv.len() && #[trigger] has_edge(nfa.states@, x, y) implies lv[y].subset_of(
                    lv[x],
                ) by {
                    assert(!in_wl@[y]) by {
                        if in_wl@[y] {
                            assert(worklist@.contains(y as StateId));
                        }
                    }
                }
                assert forall|x: int| 0 <= x < lv.len() implies reads_at(*nfa, x).subset_of(
                    #[trigger] lv[x],
                ) by {
                    assert(reads_at(*nfa, x).subset_of(live@[x]@));
                }
                lemma_reach_end_bound(*nfa, p);
                lemma_closed_live(*nfa, lv, p, c);
            }
            assert(live@[s]@ =~= live_at(*nfa, s));
        }
    }
    live
}

proof fn lemma_reach_end_bound(nfa: Nfa, p: Seq<int>)
    requires
        liveness_ready(nfa),
        p.len() >= 1,
        0 <= p[0] < nfa.states@.len(),
        forall|i: int| 0 <= i < p.len() - 1 ==> #[trigger] edge_link(nfa.states@, p, i),
    ensures
        0 <= p.last() < nfa.states@.len(),
    decreases p.len(),
{
    if p.len() > 1 {
        let q = p.drop_last();
        assert forall|i: int| 0 <= i < q.len() - 1 implies #[trigger] edge_link(nfa.states@, q, i) by {
            assert(edge_link(nfa.states@, p, i));
        }
        lemma_reach_end_bound(nfa, q);
        assert(edge_link(nfa.states@, p, p.len() - 2));
        lemma_edge_target_bound(nfa, p[p.len() - 2], p.last());
    }
}


/// Liveness of the captures at one state.
#[derive(Debug, Clone, Copy)]
pub struct StateLiveness {
    /// Captures that may be read on some path from this state.
    pub live_reads: CaptureBitSet,
    /// Captures written at this state.
    pub writes: CaptureBitSet,
    /// Captures to copy when a thread is spawned from this state.
    pub copy_mask: CaptureBitSet,
}

impl Default for StateLiveness {
    fn default() -> (s: Self)
        ensures
            s.live_reads@ == Set::<int>::empty(),
            s.writes@ == Set::<int>::empty(),
            s.copy_mask@ == Set::<int>::empty(),
    {
        StateLiveness {
            live_reads: CaptureBitSet::empty(),
            writes: CaptureBitSet::empty(),
            copy_mask: CaptureBitSet::empty(),
        }
    }
}

/// Capture liveness for a whole NFA.
pub struct NfaLiveness {
    /// Per-state liveness.
    pub states: Vec<StateLiveness>,
    /// Number of capture groups.
    pub capture_count: u32,
    /// Number of states that hold a lookaround.
    pub lookaround_count: u32,
}

impl NfaLiveness {
    /// The captures to copy when spawning from a state (none for an unknown state).
    pub fn copy_mask(&self, state: StateId) -> (m: CaptureBitSet)
        ensures
            (state as int) < self.states@.len() ==> m == self.states@[state as int].copy_mask,
            (state as int) >= self.states@.len() ==> m@ == Set::<int>::empty(),
    {
        if (state as usize) < self.states.len() {
            self.states[state as usize].copy_mask
        } else {
            CaptureBitSet::empty()
        }
    }

    /// Whether spawning from a state needs any capture copied.
    pub fn needs_copy(&self, state: StateId) -> (b: bool)
        ensures
            b == ((state as int) < self.states@.len() && self.states@[state as int].copy_mask@
                != Set::<int>::empty()),
    {
        !self.copy_mask(state).is_empty()
    }
}

/// What the liveness analysis gives for an NFA: for each state, the captures
/// it writes and those live at it, to be copied on spawning.
pub open spec fn liveness_of(nfa: Nfa, l: NfaLiveness) -> bool {
    &&& l.states@.len() == nfa.states@.len()
    &&& l.capture_count == nfa.capture_count
    &&& l.lookaround_count == lookaround_total(nfa.states@)
    &&& forall|s: int|
        0 <= s < l.states@.len() ==> {
            &&& (#[trigger] l.states@[s]).live_reads@ == live_at(nfa, s)
            &&& l.states@[s].writes@ == writes_of(nfa.states@[s])
            &&& l.states@[s].copy_mask == l.states@[s].live_reads
        }
}

/// Computes which captures may be read from each state, by propagating reads
/// backward to a fixpoint.
pub fn analyze_liveness(nfa: &Nfa) -> (l: NfaLiveness)
    requires
        liveness_ready(*nfa),
    ensures
        liveness_of(*nfa, l),
{
    let (reads, writes, lookaround_count) = local_facts(nfa);
    let preds = predecessors(nfa);
    let live = propagate(nfa, reads, &preds);
    let n = nfa.states.len();
    let mut states: Vec<StateLiveness> = Vec::new();
    let mut id: usize = 0;
    while id < n
        invariant
            n == nfa.states@.len(),
            id <= n,
            live@.len() == n,
            writes@.len() == n,
            forall|s: int| 0 <= s < n ==> (#[trigger] live@[s])@ == live_at(*nfa, s),
            forall|k: int| 0 <= k < n ==> (#[trigger] writes@[k])@ == writes_of(nfa.states@[k]),
            states@.len() == id,
            forall|s: int|
                0 <= s < id ==> {
                    &&& (#[trigger] states@[s]).live_reads@ == live_at(*nfa, s)
                    &&& states@[s].writes@ == writes_of(nfa.states@[s])
                    &&& states@[s].copy_mask == states@[s].live_reads
                },
        decreases n - id,
    {
        let live_reads = live[id];
        states.push(StateLiveness { live_reads, writes: writes[id], copy_mask: live_reads });
        id = id + 1;
    }
    NfaLiveness { states, capture_count: nfa.capture_count, lookaround_count }
}


/// Every well-formed automaton, such as Thompson's construction gives, can be analyzed.
pub proof fn lemma_wf_ready(nfa: Nfa)
    requires
        nfa_wf(nfa),
    ensures
        liveness_ready(nfa),
{
    assert forall|s: int, i: int|
        0 <= s < nfa.states@.len() && 0 <= i < nfa.states@[s].epsilon@.len() implies (
        #[trigger] nfa.states@[s].epsilon@[i] as int) < nfa.states@.len() by {
        assert(targets_in(nfa.states@[s], 0, nfa.states@.len() as int));
    }
    assert forall|s: int, i: int|
        0 <= s < nfa.states@.len() && 0 <= i < nfa.states@[s].transitions@.len() implies (
        #[trigger] nfa.states@[s].transitions@[i].1 as int) < nfa.states@.len() by {
        assert(targets_in(nfa.states@[s], 0, nfa.states@.len() as int));
    }
}

} // verus!
