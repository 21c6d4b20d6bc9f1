//! NFA states, byte ranges and byte classes.
use crate::hir::CodepointClass;
use crate::nfa::glushkov::{byte_set_of, words_set, BitSet256};
use std::collections::BTreeSet;
use vstd::prelude::*;
use vstd::std_specs::iter::IteratorSpec;

verus! {

/// A state identifier: the index of a state in `Nfa::states`.
pub type StateId = u32;

/// A nondeterministic finite automaton over bytes.
#[derive(Debug)]
pub struct Nfa {
    /// All states of the automaton.
    pub states: Vec<NfaState>,
    /// The start state.
    pub start: StateId,
    /// The match states.
    pub matches: Vec<StateId>,
    /// Number of capture groups.
    pub capture_count: u32,
    /// Whether the pattern holds a backreference.
    pub has_backrefs: bool,
    /// Whether the pattern holds a lookaround.
    pub has_lookaround: bool,
    /// Epsilon closure of each state, when computed ahead of time.
    pub epsilon_closures: Option<Vec<BTreeSet<StateId>>>,
}

/// A single NFA state.
#[derive(Debug)]
pub struct NfaState {
    /// Byte transitions: a range of bytes and the state it leads to.
    pub transitions: Vec<(ByteRange, StateId)>,
    /// Epsilon (empty) transitions.
    pub epsilon: Vec<StateId>,
    /// Whether this is a match state.
    pub is_match: bool,
    /// An instruction for capture groups, assertions and the like.
    pub instruction: Option<NfaInstruction>,
}

/// An inclusive range of bytes.
#[derive(Debug, Clone, Copy, PartialEq, Eq, Structural)]
pub struct ByteRange {
    /// First byte of the range.
    pub start: u8,
    /// Last byte of the range.
    pub end: u8,
}

/// Special instructions carried by NFA states.
#[derive(Debug)]
pub enum NfaInstruction {
    /// Start of a capture group.
    CaptureStart(u32),
    /// End of a capture group.
    CaptureEnd(u32),
    /// Backreference to a capture group.
    Backref(u32),
    /// Word boundary assertion.
    WordBoundary,
    /// Not-a-word-boundary assertion.
    NotWordBoundary,
    /// Start of text assertion.
    StartOfText,
    /// End of text assertion.
    EndOfText,
    /// Start of line assertion.
    StartOfLine,
    /// End of line assertion.
    EndOfLine,
    /// Positive lookahead, with the automaton of its body.
    PositiveLookahead(Box<Nfa>),
    /// Negative lookahead, with the automaton of its body.
    NegativeLookahead(Box<Nfa>),
    /// Positive lookbehind, with the automaton of its body.
    PositiveLookbehind(Box<Nfa>),
    /// Negative lookbehind, with the automaton of its body.
    NegativeLookbehind(Box<Nfa>),
    /// Marks the exit of a non-greedy quantifier: a match reached through it
    /// is preferred over longer ones.
    NonGreedyExit,
    /// Consumes one UTF-8 encoded code point of the class, then moves to the
    /// given state.
    CodepointClass(CodepointClass, StateId),
}


// ---------------------------------------------------------------------------
// Epsilon reachability
// ---------------------------------------------------------------------------

/// All epsilon targets named by a sequence of states.
pub open spec fn eps_targets(states: Seq<NfaState>) -> Set<StateId>
    decreases states.len(),
{
    if states.len() == 0 {
        Set::empty()
    } else {
        eps_targets(states.drop_last()).union(states.last().epsilon@.to_set())
    }
}

/// Total number of epsilon transitions of a sequence of states.
pub open spec fn eps_count(states: Seq<NfaState>) -> nat
    decreases states.len(),
{
    if states.len() == 0 {
        0
    } else {
        eps_count(states.drop_last()) + states.last().epsilon@.len()
    }
}

proof fn lemma_eps_targets(states: Seq<NfaState>)
    ensures
        eps_targets(states).finite(),
        forall|s: int, t: StateId|
            0 <= s < states.len() && #[trigger] states[s].epsilon@.contains(t) ==> eps_targets(
                states,
            ).contains(t),
    decreases states.len(),
{
    broadcast use vstd::seq_lib::seq_to_set_is_finite;

    if states.len() > 0 {
        lemma_eps_targets(states.drop_last());
        assert forall|s: int, t: StateId|
            0 <= s < states.len() && #[trigger] states[s].epsilon@.contains(t) implies eps_targets(
            states,
        ).contains(t) by {
            assert(eps_targets(states) == eps_targets(states.drop_last()).union(
                states.last().epsilon@.to_set(),
            ));
            if s < states.len() - 1 {
                assert(states.drop_last()[s] == states[s]);
                assert(states.drop_last()[s].epsilon@.contains(t));
            } else {
                assert(states.last().epsilon@.to_set().contains(t));
            }
        }
    }
}

/// Whether `t` is an epsilon successor of state `s`.
pub open spec fn eps_step(states: Seq<NfaState>, s: StateId, t: StateId) -> bool {
    &&& (s as int) < states.len()
    &&& states[s as int].epsilon@.contains(t)
}

/// Whether the `i`-th and the following entry of `p` are joined by an epsilon transition.
pub open spec fn eps_link(states: Seq<NfaState>, p: Seq<StateId>, i: int) -> bool {
    eps_step(states, p[i], p[i + 1])
}

/// Whether `p` is a nonempty path of epsilon transitions.
pub open spec fn eps_path(states: Seq<NfaState>, p: Seq<StateId>) -> bool {
    &&& p.len() >= 1
    &&& forall|i: int| 0 <= i < p.len() - 1 ==> #[trigger] eps_link(states, p, i)
}

/// Whether `t` can be reached from `s` by zero or more epsilon transitions.
pub open spec fn eps_reaches(states: Seq<NfaState>, s: StateId, t: StateId) -> bool {
    exists|p: Seq<StateId>| #[trigger] eps_path(states, p) && p[0] == s && p.last() == t
}

/// Every state that a state of `from` reaches by epsilon transitions.
pub open spec fn eps_closure(states: Seq<NfaState>, from: Set<StateId>) -> Set<StateId> {
    Set::new(|t: StateId| exists|s: StateId| from.contains(s) && #[trigger] eps_reaches(states, s, t))
}

proof fn lemma_reaches_refl(states: Seq<NfaState>, s: StateId)
    ensures
        eps_reaches(states, s, s),
{
    let p = seq![s];
    assert(eps_path(states, p));
}

proof fn lemma_reaches_step(states: Seq<NfaState>, s: StateId, t: StateId, u: StateId)
    requires
        eps_reaches(states, s, t),
        eps_step(states, t, u),
    ensures
        eps_reaches(states, s, u),
{
    let p = choose|p: Seq<StateId>| #[trigger] eps_path(states, p) && p[0] == s && p.last() == t;
    let q = p.push(u);
    assert forall|i: int| 0 <= i < q.len() - 1 implies #[trigger] eps_link(states, q, i) by {
        if i < p.len() - 1 {
            assert(eps_link(states, p, i));
        }
    }
    assert(eps_path(states, q));
}

/// A set closed under epsilon steps holds the end of every path that starts in it.
proof fn lemma_closed_holds_path(states: Seq<NfaState>, c: Set<StateId>, p: Seq<StateId>)
    requires
        eps_path(states, p),
        c.contains(p[0]),
        forall|s: StateId, t: StateId| c.contains(s) && #[trigger] eps_step(states, s, t) ==> c.contains(t),
    ensures
        c.contains(p.last()),
    decreases p.len(),
{
    if p.len() > 1 {
        let q = p.drop_last();
        assert forall|i: int| 0 <= i < q.len() - 1 implies #[trigger] eps_link(states, q, i) by {
            assert(eps_link(states, p, i));
        }
        lemma_closed_holds_path(states, c, q);
        assert(eps_link(states, p, p.len() - 2));
    }
}

impl Nfa {
    /// The epsilon closure of a set of states of this automaton.
    pub open spec fn eps_closure_of(&self, from: Set<StateId>) -> Set<StateId> {
        eps_closure(self.states@, from)
    }

    /// Whether the stored closures, if any, are the epsilon closure of each state.
    pub open spec fn closures_valid(&self) -> bool {
        match self.epsilon_closures {
            None => true,
            Some(c) => {
                &&& c@.len() == self.states@.len()
                &&& forall|i: int|
                    0 <= i < c@.len() ==> (#[trigger] c@[i])@ == self.eps_closure_of(
                        set![i as StateId],
                    )
            },
        }
    }

    /// What `epsilon_closure` gives for a set of states: the stored closures'
    /// union when closures are stored, epsilon reachability otherwise.
    pub open spec fn closure_given(&self, from: Set<StateId>) -> Set<StateId> {
        match self.epsilon_closures {
            None => self.eps_closure_of(from),
            Some(c) => Self::stored_closure_of(c@, from),
        }
    }

    /// What the stored closures give for a set of states.
    pub open spec fn stored_closure_of(
        closures: Seq<BTreeSet<StateId>>,
        from: Set<StateId>,
    ) -> Set<StateId> {
        Set::new(
            |t: StateId|
                exists|s: StateId|
                    #![trigger from.contains(s), closures[s as int]]
                    from.contains(s) && (s as int) < closures.len() && closures[s as int]@.contains(
                        t,
                    ),
        )
    }

    /// The epsilon closure of a set, computed with a work list.
    fn reach_closure(&self, from: &BTreeSet<StateId>) -> (closure: BTreeSet<StateId>)
        ensures
            closure@ == self.eps_closure_of(from@),
    {
        broadcast use vstd::seq_lib::seq_to_set_is_finite;

        let mut closure = from.clone();
        let mut stack: Vec<StateId> = Vec::new();
        let iter = from.iter();
        proof {
            assert(iter.remaining().unref().to_set() == from@);
        }
        for x in it: iter
            invariant
                stack@ == it.history().unref(),
                it.seq().unref().to_set() == from@,
            ensures
                stack@ == it.seq().unref(),
        {
            stack.push(*x);
        }
        let ghost start = stack@;
        let ghost universe = start.to_set().union(eps_targets(self.states@));
        proof {
            lemma_eps_targets(self.states@);
            assert forall|t: StateId| closure@.contains(t) implies #[trigger] self.eps_closure_of(
                from@,
            ).contains(t) by {
                lemma_reaches_refl(self.states@, t);
            }
            assert forall|t: StateId|
                closure@.contains(t) && !stack@.contains(t) implies false by {
                assert(start.to_set().contains(t));
            }
        }
        while stack.len() > 0
            invariant
                start.to_set() == from@,
                universe == start.to_set().union(eps_targets(self.states@)),
                universe.finite(),
                forall|s: int, t: StateId|
                    0 <= s < self.states@.len() && #[trigger] self.states@[s].epsilon@.contains(t)
                        ==> eps_targets(self.states@).contains(t),
                from@.subset_of(closure@),
                closure@.subset_of(universe),
                closure@.subset_of(self.eps_closure_of(from@)),
                forall|i: int| 0 <= i < stack@.len() ==> closure@.contains(#[trigger] stack@[i]),
                forall|s: StateId, t: StateId|
                    closure@.contains(s) && !stack@.contains(s) && #[trigger] eps_step(self.states@, s, t)
                        ==> closure@.contains(t),
            decreases 2 * (universe.len() - closure@.len()) + stack@.len(),
        {
            proof {
                vstd::set_lib::lemma_len_subset(closure@, universe);
            }
            let ghost old_closure = closure@;
            let ghost old_stack = stack@;
            let sid = stack.pop().unwrap();
            assert(old_stack == stack@.push(sid));
            if (sid as usize) < self.states.len() {
                let st = &self.states[sid as usize];
                let mut j: usize = 0;
                while j < st.epsilon.len()
                    invariant
                        st == self.states@[sid as int],
                        (sid as int) < self.states@.len(),
                        j <= st.epsilon@.len(),
                        universe.finite(),
                        forall|s: int, t: StateId|
                            0 <= s < self.states@.len()
                                && #[trigger] self.states@[s].epsilon@.contains(t)
                                ==> eps_targets(self.states@).contains(t),
                        universe == start.to_set().union(eps_targets(self.states@)),
                        old_closure.subset_of(closure@),
                        closure@.subset_of(universe),
                        closure@.subset_of(self.eps_closure_of(from@)),
                        closure@.contains(sid),
                        forall|k: int| 0 <= k < j ==> closure@.contains(#[trigger] st.epsilon@[k]),
                        old_stack.len() >= 1,
                        stack@.len() >= old_stack.len() - 1,
                        stack@.subrange(0, old_stack.len() - 1) == old_stack.drop_last(),
                        forall|i: int|
                            old_stack.len() - 1 <= i < stack@.len() ==> !old_closure.contains(
                                #[trigger] stack@[i],
                            ),
                        forall|i: int| 0 <= i < stack@.len() ==> closure@.contains(#[trigger] stack@[i]),
                        forall|t: StateId|
                            closure@.contains(t) && !old_closure.contains(t) ==> stack@.contains(t),
                        2 * (universe.len() - closure@.len()) + stack@.len() <= 2 * (universe.len()
                            - old_closure.len()) + old_stack.len() - 1,
                        closure@.len() <= universe.len(),
                    decreases st.epsilon@.len() - j,
                {
                    let next = st.epsilon[j];
                    let ghost before = closure@;
                    let ghost before_stack = stack@;
                    proof {
                        assert(self.states@[sid as int].epsilon@.contains(next));
                        assert(eps_step(self.states@, sid, next));
                        let s0 = choose|s0: StateId| from@.contains(s0) && #[trigger] eps_reaches(self.states@, s0, sid);
                        assert(self.eps_closure_of(from@).contains(sid));
                        lemma_reaches_step(self.states@, s0, sid, next);
                    }
                    if closure.insert(next) {
                        stack.push(next);
                        proof {
                            assert(stack@ == before_stack.push(next));
                            assert(stack@.subrange(0, old_stack.len() - 1) =~= before_stack.subrange(
                                0,
                                old_stack.len() - 1,
                            ));
                            assert(!old_closure.contains(next));
                            assert forall|i: int|
                                old_stack.len() - 1 <= i < stack@.len() implies !old_closure.contains(
                                #[trigger] stack@[i],
                            ) by {
                                if i < stack@.len() - 1 {
                                    assert(stack@[i] == before_stack[i]);
                                }
                            }
                            assert forall|t: StateId|
                                closure@.contains(t) && !old_closure.contains(t) implies stack@.contains(t) by {
                                if t == next {
                                    assert(stack@[stack@.len() - 1] == next);
                                } else {
                                    assert(before.contains(t));
                                    assert(before_stack.contains(t));
                                    let k = choose|k: int| 0 <= k < before_stack.len() && before_stack[k] == t;
                                    assert(stack@[k] == t);
                                }
                            }
                            vstd::set_lib::lemma_len_subset(closure@, universe);
                        }
                    }
                    j += 1;
                }
            }
            proof {
                assert forall|s: StateId, t: StateId|
                    closure@.contains(s) && !stack@.contains(s) && #[trigger] eps_step(self.states@, s, t)
                        implies closure@.contains(t) by {
                    if s == sid {
                        let k = choose|k: int| 0 <= k < self.states@[s as int].epsilon@.len() && self.states@[s as int].epsilon@[k] == t;
                        assert(closure@.contains(self.states@[sid as int].epsilon@[k]));
                    } else {
                        if old_closure.contains(s) {
                            if old_stack.contains(s) {
                                let k = choose|k: int| 0 <= k < old_stack.len() && old_stack[k] == s;
                                assert(k < old_stack.len() - 1);
                                assert(stack@[k] == s);
                            }
                        } else {
                        }
                    }
                }
            }
        }
        proof {
            assert forall|t: StateId| self.eps_closure_of(from@).contains(t) implies closure@.contains(t) by {
                let s = choose|s: StateId| from@.contains(s) && #[trigger] eps_reaches(self.states@, s, t);
                let p = choose|p: Seq<StateId>| #[trigger] eps_path(self.states@, p) && p[0] == s && p.last() == t;
                lemma_closed_holds_path(self.states@, closure@, p);
            }
            assert(closure@ =~= self.eps_closure_of(from@));
        }
        closure
    }
}


impl Nfa {
    /// Whether the automaton has no state and no closure, with all counters at zero.
    pub open spec fn is_blank(&self) -> bool {
        &&& self.states@.len() == 0
        &&& self.start == 0
        &&& self.matches@.len() == 0
        &&& self.capture_count == 0
        &&& !self.has_backrefs
        &&& !self.has_lookaround
        &&& self.epsilon_closures is None
    }

    /// Creates an empty NFA.
    pub fn new() -> (nfa: Self)
        ensures
            nfa.is_blank(),
    {
        Nfa {
            states: Vec::new(),
            start: 0,
            matches: Vec::new(),
            capture_count: 0,
            has_backrefs: false,
            has_lookaround: false,
            epsilon_closures: None,
        }
    }

    /// Adds a state and returns its identifier (its index, truncated to 32 bits).
    pub fn add_state(&mut self, state: NfaState) -> (id: StateId)
        ensures
            id == old(self).states@.len() as StateId,
            final(self).states@ == old(self).states@.push(state),
            final(self).start == old(self).start,
            final(self).matches == old(self).matches,
            final(self).capture_count == old(self).capture_count,
            final(self).has_backrefs == old(self).has_backrefs,
            final(self).has_lookaround == old(self).has_lookaround,
            final(self).epsilon_closures == old(self).epsilon_closures,
    {
        let id = self.states.len() as StateId;
        self.states.push(state);
        id
    }

    /// Returns the number of states.
    pub fn state_count(&self) -> (n: usize)
        ensures
            n == self.states@.len(),
    {
        self.states.len()
    }

    /// Gets a state by identifier.
    pub fn get(&self, id: StateId) -> (r: Option<&NfaState>)
        ensures
            (id as int) < self.states@.len() ==> r == Some(&self.states@[id as int]),
            (id as int) >= self.states@.len() ==> r is None,
    {
        if (id as usize) < self.states.len() {
            Some(&self.states[id as usize])
        } else {
            None
        }
    }

    /// Gets a state by identifier, for changing it.
    pub fn get_mut(&mut self, id: StateId) -> (r: Option<&mut NfaState>)
        ensures
            (id as int) < old(self).states@.len() ==> r is Some,
            (id as int) >= old(self).states@.len() ==> r is None && *final(self) == *old(self),
            r matches Some(s) ==> {
                &&& *s == old(self).states@[id as int]
                &&& final(self).states@ == old(self).states@.update(id as int, *final(s))
                &&& final(self).start == old(self).start
                &&& final(self).matches == old(self).matches
                &&& final(self).capture_count == old(self).capture_count
                &&& final(self).has_backrefs == old(self).has_backrefs
                &&& final(self).has_lookaround == old(self).has_lookaround
                &&& final(self).epsilon_closures == old(self).epsilon_closures
            },
    {
        if (id as usize) < self.states.len() {
            Some(&mut self.states[id as usize])
        } else {
            None
        }
    }
}

proof fn lemma_eps_count_prefix(states: Seq<NfaState>, i: int)
    requires
        0 <= i < states.len(),
    ensures
        eps_count(states.take(i + 1)) == eps_count(states.take(i)) + states[i].epsilon@.len(),
{
    assert(states.take(i + 1).drop_last() =~= states.take(i));
}

proof fn lemma_eps_count_mono(states: Seq<NfaState>, i: int)
    requires
        0 <= i <= states.len(),
    ensures
        eps_count(states.take(i)) <= eps_count(states),
    decreases states.len() - i,
{
    if i < states.len() {
        lemma_eps_count_prefix(states, i);
        lemma_eps_count_mono(states, i + 1);
    } else {
        assert(states.take(i) =~= states);
    }
}

impl Nfa {
    /// Computes the epsilon closure of a set of states.
    ///
    /// With stored closures, the result is the union of the stored closures of
    /// the given states (states without one add nothing); otherwise it is every
    /// state that one of them reaches by epsilon transitions.
    pub fn epsilon_closure(&self, states: &BTreeSet<StateId>) -> (closure: BTreeSet<StateId>)
        ensures
            closure@ == self.closure_given(states@),
    {
        match &self.epsilon_closures {
            Some(precomputed) => {
                let mut closure: BTreeSet<StateId> = BTreeSet::new();
                let iter = states.iter();
                proof {
                    assert(iter.remaining().unref().to_set() == states@);
                }
                let ghost mut seen: Seq<StateId> = Seq::empty();
                proof {
                    assert(closure@ =~= Self::stored_closure_of(precomputed@, seen.to_set()));
                }
                for x in it: iter
                    invariant
                        it.seq().unref().to_set() == states@,
                        seen == it.history().unref(),
                        closure@ == Self::stored_closure_of(precomputed@, seen.to_set()),
                    ensures
                        seen == it.seq().unref(),
                {
                    let ghost hist = seen;
                    let ghost before = closure@;
                    let sid = *x;
                    let ghost nh = hist.push(sid);
                    proof {
                        hist.lemma_push_to_set_commute(sid);
                    }
                    if (sid as usize) < precomputed.len() {
                        let sc = &precomputed[sid as usize];
                        let iter2 = sc.iter();
                        proof {
                            assert(iter2.remaining().unref().to_set() == sc@);
                        }
                        let ghost mut seen2: Seq<StateId> = Seq::empty();
                        proof {
                            assert(closure@ =~= before.union(seen2.to_set()));
                        }
                        for y in it2: iter2
                            invariant
                                it2.seq().unref().to_set() == sc@,
                                seen2 == it2.history().unref(),
                                closure@ == before.union(seen2.to_set()),
                            ensures
                                seen2 == it2.seq().unref(),
                        {
                            proof {
                                seen2.lemma_push_to_set_commute(*y);
                            }
                            closure.insert(*y);
                            proof {
                                seen2 = seen2.push(*y);
                                assert(closure@ =~= before.union(seen2.to_set()));
                            }
                        }
                        assert(closure@ == before.union(sc@));
                    }
                    proof {
                        assert forall|t: StateId|
                            closure@.contains(t) == Self::stored_closure_of(
                                precomputed@,
                                nh.to_set(),
                            ).contains(t) by {
                            if Self::stored_closure_of(precomputed@, nh.to_set()).contains(t) {
                                let s = choose|s: StateId|
                                    #![trigger nh.to_set().contains(s), precomputed@[s as int]]
                                    nh.to_set().contains(s) && (s as int) < precomputed@.len()
                                        && precomputed@[s as int]@.contains(t);
                                if s != sid {
                                    assert(hist.to_set().contains(s));
                                    assert(before.contains(t));
                                }
                            }
                            if before.contains(t) {
                                let s = choose|s: StateId|
                                    #![trigger hist.to_set().contains(s), precomputed@[s as int]]
                                    hist.to_set().contains(s) && (s as int) < precomputed@.len()
                                        && precomputed@[s as int]@.contains(t);
                                assert(nh.to_set().contains(s));
                            }
                            if closure@.contains(t) && !before.contains(t) {
                                assert(nh.to_set().contains(sid));
                                assert(precomputed@[sid as int]@.contains(t));
                            }
                        }
                        assert(closure@ =~= Self::stored_closure_of(precomputed@, nh.to_set()));
                        seen = nh;
                    }
                }
                closure
            },
            None => self.reach_closure(states),
        }
    }

    /// Computes the epsilon closure of every state ahead of time, when the
    /// automaton has at least 100 epsilon transitions; otherwise changes nothing.
    pub fn precompute_epsilon_closures(&mut self)
        ensures
            final(self).states == old(self).states,
            final(self).start == old(self).start,
            final(self).matches == old(self).matches,
            final(self).capture_count == old(self).capture_count,
            final(self).has_backrefs == old(self).has_backrefs,
            final(self).has_lookaround == old(self).has_lookaround,
            eps_count(old(self).states@) < 100 ==> final(self).epsilon_closures == old(
                self,
            ).epsilon_closures,
            eps_count(old(self).states@) >= 100 ==> final(self).epsilon_closures is Some
                && final(self).closures_valid(),
    {
        let mut count: usize = 0;
        let mut i: usize = 0;
        let mut enough = false;
        proof {
            assert(self.states@.take(self.states@.len() as int) =~= self.states@);
        }
        while i < self.states.len()
            invariant
                eps_count(self.states@.take(self.states@.len() as int)) == eps_count(self.states@),
                i <= self.states@.len(),
                count == eps_count(self.states@.take(i as int)),
                count < 100,
                enough ==> eps_count(self.states@) >= 100,
            ensures
                enough <==> eps_count(self.states@) >= 100,
            decreases self.states@.len() - i,
        {
            proof {
                lemma_eps_count_prefix(self.states@, i as int);
            }
            let n = self.states[i].epsilon.len();
            if n >= 100 - count {
                proof {
                    lemma_eps_count_mono(self.states@, i as int + 1);
                }
                enough = true;
                break;
            }
            count = count + n;
            i = i + 1;
        }
        if !enough {
            return;
        }
        let mut closures: Vec<BTreeSet<StateId>> = Vec::new();
        let mut state_id: usize = 0;
        while state_id < self.states.len()
            invariant
                state_id <= self.states@.len(),
                closures@.len() == state_id,
                forall|k: int|
                    0 <= k < state_id ==> (#[trigger] closures@[k])@ == self.eps_closure_of(
                        set![k as StateId],
                    ),
            decreases self.states@.len() - state_id,
        {
            let mut from: BTreeSet<StateId> = BTreeSet::new();
            from.insert(state_id as StateId);
            proof {
                assert(from@ =~= set![state_id as StateId]);
            }
            let closure = self.reach_closure(&from);
            closures.push(closure);
            state_id = state_id + 1;
        }
        self.epsilon_closures = Some(closures);
    }
}

/// With valid stored closures, the stored path of `epsilon_closure` agrees with
/// epsilon reachability on every set of existing states.
pub proof fn lemma_stored_closure_agrees(nfa: &Nfa, from: Set<StateId>)
    requires
        nfa.epsilon_closures is Some,
        nfa.closures_valid(),
        forall|s: StateId| from.contains(s) ==> (s as int) < nfa.states@.len(),
    ensures
        Nfa::stored_closure_of(nfa.epsilon_closures->0@, from) == nfa.eps_closure_of(from),
{
    let c = nfa.epsilon_closures->0@;
    assert forall|t: StateId|
        Nfa::stored_closure_of(c, from).contains(t) == nfa.eps_closure_of(from).contains(t) by {
        if Nfa::stored_closure_of(c, from).contains(t) {
            let s = choose|s: StateId|
                #![trigger from.contains(s), c[s as int]]
                from.contains(s) && (s as int) < c.len() && c[s as int]@.contains(t);
            assert(c[s as int]@ == nfa.eps_closure_of(set![(s as int) as StateId]));
            assert((s as int) as StateId == s);
            let s2 = choose|s2: StateId| set![s].contains(s2) && #[trigger] eps_reaches(nfa.states@, s2, t);
            assert(s2 == s);
        }
        if nfa.eps_closure_of(from).contains(t) {
            let s = choose|s: StateId| from.contains(s) && #[trigger] eps_reaches(nfa.states@, s, t);
            assert(c[s as int]@ == nfa.eps_closure_of(set![(s as int) as StateId]));
            assert((s as int) as StateId == s);
            assert(set![s].contains(s));
            assert(c[s as int]@.contains(t));
        }
    }
    assert(Nfa::stored_closure_of(c, from) =~= nfa.eps_closure_of(from));
}

/// Precomputing the closures changes nothing that `epsilon_closure` gives:
/// for an automaton without stored closures, and the same automaton once
/// `precompute_epsilon_closures` has run, the closure of every set of
/// existing states is the same.
pub proof fn lemma_precompute_keeps_closure(before: Nfa, after: Nfa, from: Set<StateId>)
    requires
        before.epsilon_closures is None,
        after.states == before.states,
        after.closures_valid(),
        forall|s: StateId| from.contains(s) ==> (s as int) < before.states@.len(),
    ensures
        after.closure_given(from) == before.closure_given(from),
{
    if after.epsilon_closures is Some {
        lemma_stored_closure_agrees(&after, from);
    }
}

/// Every state belongs to the epsilon closure of a set that holds it.
pub proof fn lemma_closure_extensive(nfa: &Nfa, from: Set<StateId>)
    ensures
        from.subset_of(nfa.eps_closure_of(from)),
{
    assert forall|t: StateId| from.contains(t) implies nfa.eps_closure_of(from).contains(t) by {
        lemma_reaches_refl(nfa.states@, t);
    }
}

/// Taking the epsilon closure twice gives the same set as taking it once.
pub proof fn lemma_closure_idempotent(nfa: &Nfa, from: Set<StateId>)
    ensures
        nfa.eps_closure_of(nfa.eps_closure_of(from)) == nfa.eps_closure_of(from),
{
    let c = nfa.eps_closure_of(from);
    lemma_closure_extensive(nfa, c);
    assert forall|u: StateId| nfa.eps_closure_of(c).contains(u) implies c.contains(u) by {
        let t = choose|t: StateId| c.contains(t) && #[trigger] eps_reaches(nfa.states@, t, u);
        let s = choose|s: StateId| from.contains(s) && #[trigger] eps_reaches(nfa.states@, s, t);
        let p = choose|p: Seq<StateId>| #[trigger] eps_path(nfa.states@, p) && p[0] == s && p.last() == t;
        let q = choose|q: Seq<StateId>| #[trigger] eps_path(nfa.states@, q) && q[0] == t && q.last() == u;
        let r = p + q.drop_first();
        assert forall|i: int| 0 <= i < r.len() - 1 implies #[trigger] eps_link(nfa.states@, r, i) by {
            if i < p.len() - 1 {
                assert(eps_link(nfa.states@, p, i));
            } else {
                assert(eps_link(nfa.states@, q, i - p.len() + 1));
            }
        }
        assert(eps_path(nfa.states@, r));
        if q.len() == 1 {
            assert(r =~= p);
        }
        assert(r.last() == u);
        assert(r[0] == s);
        assert(eps_reaches(nfa.states@, s, u));
    }
    assert(nfa.eps_closure_of(c) =~= c);
}

impl Default for Nfa {
    fn default() -> (nfa: Self)
        ensures
            nfa.is_blank(),
    {
        Nfa::new()
    }
}

impl NfaState {
    /// Creates a state with no transition, no instruction, that does not match.
    pub fn new() -> (s: Self)
        ensures
            s.transitions@.len() == 0,
            s.epsilon@.len() == 0,
            !s.is_match,
            s.instruction is None,
    {
        NfaState { transitions: Vec::new(), epsilon: Vec::new(), is_match: false, instruction: None }
    }

    /// Creates a match state with no transition and no instruction.
    pub fn match_state() -> (s: Self)
        ensures
            s.transitions@.len() == 0,
            s.epsilon@.len() == 0,
            s.is_match,
            s.instruction is None,
    {
        NfaState { transitions: Vec::new(), epsilon: Vec::new(), is_match: true, instruction: None }
    }

    /// Adds a byte transition.
    pub fn add_transition(&mut self, range: ByteRange, target: StateId)
        ensures
            final(self).transitions@ == old(self).transitions@.push((range, target)),
            final(self).epsilon == old(self).epsilon,
            final(self).is_match == old(self).is_match,
            final(self).instruction == old(self).instruction,
    {
        self.transitions.push((range, target));
    }

    /// Adds an epsilon transition.
    pub fn add_epsilon(&mut self, target: StateId)
        ensures
            final(self).epsilon@ == old(self).epsilon@.push(target),
            final(self).transitions == old(self).transitions,
            final(self).is_match == old(self).is_match,
            final(self).instruction == old(self).instruction,
    {
        self.epsilon.push(target);
    }
}

impl Default for NfaState {
    fn default() -> (s: Self)
        ensures
            s.transitions@.len() == 0,
            s.epsilon@.len() == 0,
            !s.is_match,
            s.instruction is None,
    {
        NfaState::new()
    }
}

impl ByteRange {
    /// The bytes of the range.
    pub open spec fn bytes(self) -> Set<u8> {
        Set::new(|b: u8| self.start <= b <= self.end)
    }

    /// Creates a byte range.
    pub fn new(start: u8, end: u8) -> (r: Self)
        ensures
            r.start == start,
            r.end == end,
    {
        ByteRange { start, end }
    }

    /// Creates a range holding a single byte.
    pub fn single(byte: u8) -> (r: Self)
        ensures
            r.start == byte,
            r.end == byte,
    {
        ByteRange { start: byte, end: byte }
    }

    /// Creates the range of all bytes.
    pub fn any() -> (r: Self)
        ensures
            r.start == 0,
            r.end == 255,
    {
        ByteRange { start: 0, end: 255 }
    }

    /// Whether the range holds the byte.
    pub fn contains(&self, byte: u8) -> (b: bool)
        ensures
            b == (self.start <= byte <= self.end),
    {
        byte >= self.start && byte <= self.end
    }

    /// Whether the two ranges share a byte.
    pub fn overlaps(&self, other: &ByteRange) -> (b: bool)
        ensures
            b == (self.start <= other.end && other.start <= self.end),
    {
        self.start <= other.end && other.start <= self.end
    }
}

/// Two nonempty ranges overlap exactly when some byte lies in both.
pub proof fn lemma_overlaps_iff_common_byte(a: ByteRange, b: ByteRange)
    requires
        a.start <= a.end,
        b.start <= b.end,
    ensures
        (a.start <= b.end && b.start <= a.end) <==> exists|x: u8| a.bytes().contains(x) && b.bytes().contains(x),
{
    if a.start <= b.end && b.start <= a.end {
        let x: u8 = if a.start >= b.start { a.start } else { b.start };
        assert(a.bytes().contains(x) && b.bytes().contains(x));
    }
}

/// The bytes of a list of ranges.
pub open spec fn ranges_bytes(ranges: Seq<ByteRange>) -> Set<u8> {
    Set::new(|b: u8| exists|i: int| 0 <= i < ranges.len() && #[trigger] ranges[i].bytes().contains(b))
}

/// A class of bytes: its ranges, and a 256-bit map of its bytes.
#[derive(Debug)]
pub struct ByteClass {
    /// The ranges the class was made from.
    pub ranges: Vec<ByteRange>,
    /// Bit `b % 64` of word `b / 64` is set when byte `b` is in the class.
    bitmap: [u64; 4],
}

impl View for ByteClass {
    type V = Set<u8>;

    closed spec fn view(&self) -> Set<u8> {
        byte_set_of(words_set(self.bitmap))
    }
}

impl ByteClass {
    /// The ranges held in the `ranges` field.
    pub closed spec fn range_list(&self) -> Seq<ByteRange> {
        self.ranges@
    }

    /// Creates a class from ranges.
    pub fn new(ranges: Vec<ByteRange>) -> (c: Self)
        ensures
            c.range_list() == ranges@,
            c@ == ranges_bytes(ranges@),
    {
        let bitmap = Self::compute_bitmap(&ranges);
        ByteClass { ranges, bitmap }
    }

    /// Creates a class from a slice of ranges.
    pub fn from_slice(ranges: &[ByteRange]) -> (c: Self)
        ensures
            c.range_list() == ranges@,
            c@ == ranges_bytes(ranges@),
    {
        let mut v: Vec<ByteRange> = Vec::new();
        let mut i: usize = 0;
        while i < ranges.len()
            invariant
                i <= ranges@.len(),
                v@ == ranges@.take(i as int),
            decreases ranges@.len() - i,
        {
            v.push(ranges[i]);
            i = i + 1;
            proof {
                assert(v@ =~= ranges@.take(i as int));
            }
        }
        proof {
            assert(v@ =~= ranges@);
        }
        Self::new(v)
    }

    /// The bitmap of the bytes of the ranges.
    fn compute_bitmap(ranges: &Vec<ByteRange>) -> (bits: [u64; 4])
        ensures
            byte_set_of(words_set(bits)) == ranges_bytes(ranges@),
    {
        let mut set = BitSet256::empty();
        let mut i: usize = 0;
        while i < ranges.len()
            invariant
                i <= ranges@.len(),
                set@.subset_of(Set::new(|x: int| 0 <= x < 256)),
                byte_set_of(set@) == ranges_bytes(ranges@.take(i as int)),
            decreases ranges@.len() - i,
        {
            let r = ranges[i];
            let ghost before = set@;
            let mut b: u16 = r.start as u16;
            while b <= r.end as u16
                invariant
                    r.start <= b <= 256,
                    set@.subset_of(Set::new(|x: int| 0 <= x < 256)),
                    forall|x: int|
                        #[trigger] set@.contains(x) <==> before.contains(x) || (r.start <= x < b
                            && x <= r.end),
                decreases 256 - b,
            {
                let ghost prev = set@;
                set.set(b as usize);
                proof {
                    assert(set@ == prev.insert(b as int));
                    assert forall|x: int|
                        set@.contains(x) <==> before.contains(x) || (r.start <= x < b + 1 && x
                            <= r.end) by {
                        if x == b as int {
                        }
                    }
                }
                b = b + 1;
            }
            proof {
                assert forall|x: u8|
                    byte_set_of(set@).contains(x) == ranges_bytes(ranges@.take(i as int + 1)).contains(
                        x,
                    ) by {
                    let t = ranges@.take(i as int + 1);
                    if byte_set_of(set@).contains(x) {
                        if before.contains(x as int) {
                            assert(ranges_bytes(ranges@.take(i as int)).contains(x));
                            let k = choose|k: int|
                                0 <= k < ranges@.take(i as int).len()
                                    && #[trigger] ranges@.take(i as int)[k].bytes().contains(x);
                            assert(t[k] == ranges@.take(i as int)[k]);
                            assert(t[k].bytes().contains(x));
                        } else {
                            assert(t[i as int] == r);
                            assert(t[i as int].bytes().contains(x));
                        }
                    }
                    if ranges_bytes(t).contains(x) {
                        let k = choose|k: int| 0 <= k < t.len() && #[trigger] t[k].bytes().contains(x);
                        if k < i {
                            assert(ranges@.take(i as int)[k] == t[k]);
                            assert(ranges_bytes(ranges@.take(i as int)).contains(x));
                            assert(byte_set_of(before).contains(x));
                        } else {
                            assert(t[k] == r);
                            assert(r.start <= x <= r.end);
                            assert(b > r.end);
                            assert(set@.contains(x as int) <==> before.contains(x as int) || (r.start
                                <= x as int && x as int <= r.end));
                            assert(set@.contains(x as int));
                        }
                    }
                }
                assert(byte_set_of(set@) =~= ranges_bytes(ranges@.take(i as int + 1)));
            }
            i = i + 1;
        }
        proof {
            assert(ranges@.take(i as int) =~= ranges@);
        }
        set.parts
    }

    /// Whether the class holds the byte.
    pub fn contains(&self, byte: u8) -> (b: bool)
        ensures
            b == self@.contains(byte),
    {
        let set = BitSet256 { parts: self.bitmap };
        set.get(byte as usize)
    }

    /// The 256-bit map of the class: bit `b % 64` of word `b / 64` is set for each byte `b`.
    pub fn bitmap(&self) -> (m: &[u64; 4])
        ensures
            byte_set_of(words_set(*m)) == self@,
    {
        &self.bitmap
    }
}

} // verus!
