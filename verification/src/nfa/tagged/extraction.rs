//! What reading steps off an automaton gives, stated over values: the steps
//! as `StepV`, and the walk over the automaton's states that yields them.
use crate::nfa::state::{ByteRange, Nfa, NfaInstruction, NfaState, StateId};
use crate::nfa::tagged::shared::PatternStep;
use crate::nfa::tagged::steps::unvisited;
use vstd::prelude::*;

verus! {

// ---------------------------------------------------------------------------
// Steps as values
// ---------------------------------------------------------------------------

/// A step as a value: byte classes by their ranges, code point classes by
/// their ranges and negation.
pub enum StepV {
    /// One byte.
    Byte(u8),
    /// One byte of the class.
    ByteClass(Seq<ByteRange>),
    /// One or more bytes of the class, as many as possible.
    GreedyPlus(Seq<ByteRange>),
    /// Zero or more bytes of the class, as many as possible.
    GreedyStar(Seq<ByteRange>),
    /// One or more bytes of the class, then a lookahead.
    GreedyPlusLookahead(Seq<ByteRange>, Seq<StepV>, bool),
    /// Zero or more bytes of the class, then a lookahead.
    GreedyStarLookahead(Seq<ByteRange>, Seq<StepV>, bool),
    /// One or more bytes of the class, as few as possible.
    NonGreedyPlus(Seq<ByteRange>, Box<StepV>),
    /// Zero or more bytes of the class, as few as possible.
    NonGreedyStar(Seq<ByteRange>, Box<StepV>),
    /// Alternatives, tried in order.
    Alt(Seq<Seq<StepV>>),
    /// Start of a capture group.
    CaptureStart(u32),
    /// End of a capture group.
    CaptureEnd(u32),
    /// One code point of the class, then the given state.
    CodepointClass(Seq<(u32, u32)>, bool, StateId),
    /// One or more code points of the class.
    GreedyCodepointPlus(Seq<(u32, u32)>, bool),
    /// `\b`
    WordBoundary,
    /// `\B`
    NotWordBoundary,
    /// `(?=...)`
    PositiveLookahead(Seq<StepV>),
    /// `(?!...)`
    NegativeLookahead(Seq<StepV>),
    /// `(?<=...)` with the body's minimum length.
    PositiveLookbehind(Seq<StepV>, usize),
    /// `(?<!...)` with the body's minimum length.
    NegativeLookbehind(Seq<StepV>, usize),
    /// A backreference.
    Backref(u32),
    /// Start of text.
    StartOfText,
    /// End of text.
    EndOfText,
    /// Start of a line.
    StartOfLine,
    /// End of a line.
    EndOfLine,
}

/// The value of a step.
pub open spec fn sv(s: PatternStep) -> StepV
    decreases s, 2nat,
{
    match s {
        PatternStep::Byte(b) => StepV::Byte(b),
        PatternStep::ByteClass(c) => StepV::ByteClass(c.range_list()),
        PatternStep::GreedyPlus(c) => StepV::GreedyPlus(c.range_list()),
        PatternStep::GreedyStar(c) => StepV::GreedyStar(c.range_list()),
        PatternStep::GreedyPlusLookahead(c, la, p) => StepV::GreedyPlusLookahead(
            c.range_list(),
            svs(la@),
            p,
        ),
        PatternStep::GreedyStarLookahead(c, la, p) => StepV::GreedyStarLookahead(
            c.range_list(),
            svs(la@),
            p,
        ),
        PatternStep::NonGreedyPlus(c, next) => StepV::NonGreedyPlus(
            c.range_list(),
            Box::new(sv(*next)),
        ),
        PatternStep::NonGreedyStar(c, next) => StepV::NonGreedyStar(
            c.range_list(),
            Box::new(sv(*next)),
        ),
        PatternStep::Alt(alts) => StepV::Alt(svss(alts@)),
        PatternStep::CaptureStart(i) => StepV::CaptureStart(i),
        PatternStep::CaptureEnd(i) => StepV::CaptureEnd(i),
        PatternStep::CodepointClass(c, t) => StepV::CodepointClass(c.ranges@, c.negated, t),
        PatternStep::GreedyCodepointPlus(c) => StepV::GreedyCodepointPlus(c.ranges@, c.negated),
        PatternStep::WordBoundary => StepV::WordBoundary,
        PatternStep::NotWordBoundary => StepV::NotWordBoundary,
        PatternStep::PositiveLookahead(la) => StepV::PositiveLookahead(svs(la@)),
        PatternStep::NegativeLookahead(la) => StepV::NegativeLookahead(svs(la@)),
        PatternStep::PositiveLookbehind(b, n) => StepV::PositiveLookbehind(svs(b@), n),
        PatternStep::NegativeLookbehind(b, n) => StepV::NegativeLookbehind(svs(b@), n),
        PatternStep::Backref(i) => StepV::Backref(i),
        PatternStep::StartOfText => StepV::StartOfText,
        PatternStep::EndOfText => StepV::EndOfText,
        PatternStep::StartOfLine => StepV::StartOfLine,
        PatternStep::EndOfLine => StepV::EndOfLine,
    }
}

/// The values of a sequence of steps.
pub open spec fn svs(s: Seq<PatternStep>) -> Seq<StepV>
    decreases s, 1nat,
{
    if s.len() == 0 {
        Seq::empty()
    } else {
        svs(s.drop_last()).push(sv(s.last()))
    }
}

/// The values of a sequence of alternatives.
pub open spec fn svss(s: Seq<Vec<PatternStep>>) -> Seq<Seq<StepV>>
    decreases s, 1nat,
{
    if s.len() == 0 {
        Seq::empty()
    } else {
        svss(s.drop_last()).push(svs(s.last()@))
    }
}

/// `svs` takes one more step to one more value.
pub proof fn lemma_svs_push(s: Seq<PatternStep>, x: PatternStep)
    ensures
        svs(s.push(x)) == svs(s).push(sv(x)),
{
    assert(s.push(x).drop_last() =~= s);
}

/// `svss` takes one more alternative to one more value.
pub proof fn lemma_svss_push(s: Seq<Vec<PatternStep>>, x: Vec<PatternStep>)
    ensures
        svss(s.push(x)) == svss(s).push(svs(x@)),
{
    assert(s.push(x).drop_last() =~= s);
}

/// `svs` keeps the length and maps each step by `sv`.
pub proof fn lemma_svs_index(s: Seq<PatternStep>)
    ensures
        svs(s).len() == s.len(),
        forall|i: int| 0 <= i < s.len() ==> #[trigger] svs(s)[i] == sv(s[i]),
    decreases s.len(),
{
    if s.len() > 0 {
        lemma_svs_index(s.drop_last());
    }
}

// ---------------------------------------------------------------------------
// Pieces of the walk
// ---------------------------------------------------------------------------

/// The one state that all byte transitions of `st` lead to, if there is one.
pub open spec fn one_target(st: NfaState) -> Option<StateId> {
    if st.transitions@.len() > 0 && forall|j: int|
        0 <= j < st.transitions@.len() ==> #[trigger] st.transitions@[j].1
            == st.transitions@[0].1 {
        Some(st.transitions@[0].1)
    } else {
        None
    }
}

/// The byte ranges of the transitions of `st`.
pub open spec fn trans_ranges(st: NfaState) -> Seq<ByteRange> {
    Seq::new(st.transitions@.len(), |j: int| st.transitions@[j].0)
}

/// One byte when the ranges are a single byte, a byte class otherwise.
pub open spec fn byte_step_v(rs: Seq<ByteRange>) -> StepV {
    if rs.len() == 1 && rs[0].start == rs[0].end {
        StepV::Byte(rs[0].start)
    } else {
        StepV::ByteClass(rs)
    }
}

/// Whether `t` is a loop state: two epsilon transitions and no byte
/// transition.
pub open spec fn loop_state(t: NfaState) -> bool {
    t.epsilon@.len() == 2 && t.transitions@.len() == 0
}

/// The other epsilon target of a loop state `t`, seen from `from`.
pub open spec fn other_exit(t: NfaState, from: StateId) -> StateId {
    if t.epsilon@[0] == from {
        t.epsilon@[1]
    } else {
        t.epsilon@[0]
    }
}

/// Bytes a step reads at least.
pub open spec fn step_min_len_v(s: StepV) -> int {
    match s {
        StepV::Byte(_) => 1,
        StepV::ByteClass(_) => 1,
        StepV::GreedyPlus(_) => 1,
        StepV::GreedyPlusLookahead(_, _, _) => 1,
        _ => 0,
    }
}

/// Bytes a list of steps reads at least.
pub open spec fn min_len_v(s: Seq<StepV>) -> int
    decreases s.len(),
{
    if s.len() == 0 {
        0
    } else {
        step_min_len_v(s[0]) + min_len_v(s.skip(1))
    }
}

/// A greedy loop `X*` inside a lookaround's body at `loop_start`, leaving
/// by `exit`: its ranges.
pub open spec fn star_in_lookaround(inner: Nfa, loop_start: StateId, vis: Seq<bool>) -> Option<
    Seq<ByteRange>,
> {
    if loop_start as int >= inner.states@.len() {
        None
    } else {
        let ls = inner.states@[loop_start as int];
        match one_target(ls) {
            None => None,
            Some(t) => {
                let ts = inner.states@[t as int];
                if ts.epsilon@.len() == 2 && (ts.epsilon@[0] == loop_start || ts.epsilon@[1]
                    == loop_start) {
                    if !vis[loop_start as int] {
                        Some(trans_ranges(ls))
                    } else {
                        None
                    }
                } else if ts.epsilon@.len() == 1 && ts.epsilon@[0] == loop_start && !vis[loop_start as int] {
                    Some(trans_ranges(ls))
                } else {
                    None
                }
            },
        }
    }
}

// ---------------------------------------------------------------------------
// Lookaround bodies
// ---------------------------------------------------------------------------

/// The steps of a lookahead's body from state `cur`, after `acc`; empty
/// when its shape is not a sequence of steps.
pub open spec fn look_walk(inner: Nfa, cur: StateId, vis: Seq<bool>, acc: Seq<StepV>, it: nat) -> Seq<
    StepV,
>
    decreases 10000 - it,
{
    if it >= 10000 || cur as int >= inner.states@.len() {
        Seq::empty()
    } else {
        let st = inner.states@[cur as int];
        if st.is_match {
            acc
        } else {
            let (ok, acc1) = match st.instruction {
                Some(NfaInstruction::WordBoundary) => (true, acc.push(StepV::WordBoundary)),
                Some(NfaInstruction::EndOfText) => (true, acc.push(StepV::EndOfText)),
                Some(NfaInstruction::StartOfText) => (true, acc.push(StepV::StartOfText)),
                Some(NfaInstruction::CaptureStart(_)) => (true, acc),
                Some(NfaInstruction::CaptureEnd(_)) => (true, acc),
                Some(NfaInstruction::CodepointClass(_, _)) => (true, acc),
                None => (true, acc),
                _ => (false, acc),
            };
            if !ok {
                Seq::empty()
            } else if let Some(NfaInstruction::CodepointClass(c, t)) = st.instruction {
                if vis[cur as int] {
                    Seq::empty()
                } else {
                    look_walk(
                        inner,
                        t,
                        vis.update(cur as int, true),
                        acc.push(StepV::CodepointClass(c.ranges@, c.negated, t)),
                        it + 1,
                    )
                }
            } else if st.transitions@.len() > 0 {
                match one_target(st) {
                    None => Seq::empty(),
                    Some(t) => {
                        let ts = inner.states@[t as int];
                        let rs = trans_ranges(st);
                        if loop_state(ts) && (ts.epsilon@[0] == cur || ts.epsilon@[1] == cur) {
                            if vis[t as int] {
                                Seq::empty()
                            } else {
                                look_walk(
                                    inner,
                                    other_exit(ts, cur),
                                    vis.update(t as int, true),
                                    acc1.push(StepV::GreedyPlus(rs)),
                                    it + 1,
                                )
                            }
                        } else if vis[cur as int] {
                            Seq::empty()
                        } else {
                            look_walk(
                                inner,
                                t,
                                vis.update(cur as int, true),
                                acc1.push(byte_step_v(rs)),
                                it + 1,
                            )
                        }
                    },
                }
            } else if st.epsilon@.len() == 1 {
                if vis[cur as int] {
                    Seq::empty()
                } else {
                    look_walk(inner, st.epsilon@[0], vis.update(cur as int, true), acc1, it + 1)
                }
            } else if st.epsilon@.len() == 2 {
                let e0 = st.epsilon@[0];
                let e1 = st.epsilon@[1];
                match star_in_lookaround(inner, e0, vis) {
                    Some(rs) => look_walk(
                        inner,
                        e1,
                        vis.update(cur as int, true),
                        acc1.push(StepV::GreedyStar(rs)),
                        it + 1,
                    ),
                    None => match star_in_lookaround(inner, e1, vis) {
                        Some(rs) => look_walk(
                            inner,
                            e0,
                            vis.update(cur as int, true),
                            acc1.push(StepV::GreedyStar(rs)),
                            it + 1,
                        ),
                        None => Seq::empty(),
                    },
                }
            } else if st.epsilon@.len() > 0 {
                Seq::empty()
            } else {
                acc1
            }
        }
    }
}

/// The steps of a lookahead's body.
pub open spec fn look_steps(inner: Nfa) -> Seq<StepV> {
    look_walk(inner, inner.start, Seq::new(inner.states@.len(), |i: int| false), Seq::empty(), 0)
}

/// The steps of a lookbehind's body from state `cur`, after `acc`; empty
/// when its shape is not a sequence of fixed-width steps.
pub open spec fn behind_walk(inner: Nfa, cur: StateId, vis: Seq<bool>, acc: Seq<StepV>) -> Seq<
    StepV,
>
    decreases unvisited(vis),
{
    if cur as int >= inner.states@.len() {
        Seq::empty()
    } else {
        let st = inner.states@[cur as int];
        if st.is_match {
            acc
        } else {
            let (ok, acc1) = match st.instruction {
                Some(NfaInstruction::WordBoundary) => (true, acc.push(StepV::WordBoundary)),
                Some(NfaInstruction::EndOfText) => (true, acc.push(StepV::EndOfText)),
                Some(NfaInstruction::StartOfText) => (true, acc.push(StepV::StartOfText)),
                None => (true, acc),
                _ => (false, acc),
            };
            let vis1 = vis.update(cur as int, true);
            if !ok {
                Seq::empty()
            } else if st.transitions@.len() > 0 {
                match one_target(st) {
                    None => Seq::empty(),
                    Some(t) => {
                        let ts = inner.states@[t as int];
                        if loop_state(ts) && (ts.epsilon@[0] == cur || ts.epsilon@[1] == cur) {
                            Seq::empty()
                        } else if vis[cur as int] || unvisited(vis1) >= unvisited(vis) {
                            Seq::empty()
                        } else {
                            behind_walk(inner, t, vis1, acc1.push(byte_step_v(trans_ranges(st))))
                        }
                    },
                }
            } else if st.epsilon@.len() == 1 {
                if vis[cur as int] || unvisited(vis1) >= unvisited(vis) {
                    Seq::empty()
                } else {
                    behind_walk(inner, st.epsilon@[0], vis1, acc1)
                }
            } else if st.epsilon@.len() > 0 {
                Seq::empty()
            } else {
                acc1
            }
        }
    }
}

/// The steps of a lookbehind's body.
pub open spec fn behind_steps(inner: Nfa) -> Seq<StepV> {
    behind_walk(inner, inner.start, Seq::new(inner.states@.len(), |i: int| false), Seq::empty())
}

// ---------------------------------------------------------------------------
// Branches of an alternation
// ---------------------------------------------------------------------------

/// What a state's instruction adds inside a branch or at the top: `None`
/// to give up, else the steps so far.
pub open spec fn instr_steps(inst: Option<NfaInstruction>, acc: Seq<StepV>, lookbehind: bool) -> Option<
    Seq<StepV>,
> {
    match inst {
        None => Some(acc),
        Some(NfaInstruction::CaptureStart(_)) => Some(acc),
        Some(NfaInstruction::CaptureEnd(_)) => Some(acc),
        Some(NfaInstruction::WordBoundary) => Some(acc.push(StepV::WordBoundary)),
        Some(NfaInstruction::NotWordBoundary) => Some(acc.push(StepV::NotWordBoundary)),
        Some(NfaInstruction::StartOfText) => Some(acc.push(StepV::StartOfText)),
        Some(NfaInstruction::EndOfText) => Some(acc.push(StepV::EndOfText)),
        Some(NfaInstruction::PositiveLookahead(inner)) => {
            let body = look_steps(*inner);
            if body.len() == 0 {
                None
            } else {
                Some(acc.push(StepV::PositiveLookahead(body)))
            }
        },
        Some(NfaInstruction::NegativeLookahead(inner)) => {
            let body = look_steps(*inner);
            if body.len() == 0 {
                None
            } else {
                Some(acc.push(StepV::NegativeLookahead(body)))
            }
        },
        Some(NfaInstruction::PositiveLookbehind(inner)) => if lookbehind {
            let body = behind_steps(*inner);
            if body.len() == 0 {
                None
            } else {
                Some(acc.push(StepV::PositiveLookbehind(body, min_len_v(body) as usize)))
            }
        } else {
            None
        },
        Some(NfaInstruction::NegativeLookbehind(inner)) => if lookbehind {
            let body = behind_steps(*inner);
            if body.len() == 0 {
                None
            } else {
                Some(acc.push(StepV::NegativeLookbehind(body, min_len_v(body) as usize)))
            }
        } else {
            None
        },
        _ => None,
    }
}

/// The steps of a branch of an alternation from state `cur`, after `acc`,
/// up to a match state; empty when its shape is not a sequence of steps.
pub open spec fn branch_walk(nfa: Nfa, cur: StateId, vis: Seq<bool>, acc: Seq<StepV>, it: nat) -> Seq<
    StepV,
>
    decreases unvisited(vis), 1nat, 0nat,
{
    if it >= 10000 || cur as int >= nfa.states@.len() || vis[cur as int] {
        Seq::empty()
    } else {
        let st = nfa.states@[cur as int];
        let vis1 = vis.update(cur as int, true);
        if st.is_match {
            acc
        } else if unvisited(vis1) >= unvisited(vis) {
            Seq::empty()
        } else if let Some(NfaInstruction::CodepointClass(c, t)) = st.instruction {
            if t as int >= nfa.states@.len() {
                Seq::empty()
            } else {
                let ts = nfa.states@[t as int];
                if loop_state(ts) && (ts.epsilon@[0] == cur || ts.epsilon@[1] == cur) {
                    let vis2 = vis1.update(t as int, true);
                    if unvisited(vis2) <= unvisited(vis1) {
                        branch_walk(
                            nfa,
                            other_exit(ts, cur),
                            vis2,
                            acc.push(StepV::GreedyCodepointPlus(c.ranges@, c.negated)),
                            it + 1,
                        )
                    } else {
                        Seq::empty()
                    }
                } else {
                    branch_walk(
                        nfa,
                        t,
                        vis1,
                        acc.push(StepV::CodepointClass(c.ranges@, c.negated, t)),
                        it + 1,
                    )
                }
            }
        } else {
            match instr_steps(st.instruction, acc, false) {
                None => Seq::empty(),
                Some(acc1) => if st.transitions@.len() > 0 {
                    match one_target(st) {
                        None => Seq::empty(),
                        Some(t) => {
                            let ts = nfa.states@[t as int];
                            let rs = trans_ranges(st);
                            if loop_state(ts) && (ts.epsilon@[0] == cur || ts.epsilon@[1] == cur) {
                                let vis2 = vis1.update(t as int, true);
                                if unvisited(vis2) <= unvisited(vis1) {
                                    branch_walk(
                                        nfa,
                                        other_exit(ts, cur),
                                        vis2,
                                        acc1.push(StepV::GreedyPlus(rs)),
                                        it + 1,
                                    )
                                } else {
                                    Seq::empty()
                                }
                            } else {
                                branch_walk(nfa, t, vis1, acc1.push(StepV::ByteClass(rs)), it + 1)
                            }
                        },
                    }
                } else if st.epsilon@.len() == 1 {
                    branch_walk(nfa, st.epsilon@[0], vis1, acc1, it + 1)
                } else if st.epsilon@.len() == 2 && vis[st.epsilon@[0] as int]
                    && !vis[st.epsilon@[1] as int] {
                    branch_walk(nfa, st.epsilon@[1], vis1, acc1, it + 1)
                } else if st.epsilon@.len() == 2 && vis[st.epsilon@[1] as int]
                    && !vis[st.epsilon@[0] as int] {
                    branch_walk(nfa, st.epsilon@[0], vis1, acc1, it + 1)
                } else if st.epsilon@.len() >= 2 {
                    acc1.push(StepV::Alt(branch_alts(nfa, cur, vis, 0)))
                } else {
                    Seq::empty()
                },
            }
        }
    }
}

/// The branches of the alternation at state `cur` from its `k`-th epsilon
/// target on, each read with `cur` visited; a branch that starts at a match
/// state is empty.
pub open spec fn branch_alts(nfa: Nfa, cur: StateId, vis: Seq<bool>, k: int) -> Seq<Seq<StepV>>
    decreases unvisited(vis), 0nat, nfa.states@[cur as int].epsilon@.len() - k,
{
    let eps = nfa.states@[cur as int].epsilon@;
    if k < 0 || k >= eps.len() || cur as int >= vis.len() || vis[cur as int] {
        Seq::empty()
    } else {
        let vis1 = vis.update(cur as int, true);
        let t = eps[k];
        let first = if (t as int) < nfa.states@.len() && nfa.states@[t as int].is_match {
            Seq::empty()
        } else if unvisited(vis1) < unvisited(vis) {
            branch_walk(nfa, t, vis1, Seq::empty(), 0)
        } else {
            Seq::empty()
        };
        seq![first] + branch_alts(nfa, cur, vis, k + 1)
    }
}

// ---------------------------------------------------------------------------
// The whole walk
// ---------------------------------------------------------------------------

/// The branches of the alternation at state `cur` from its `k`-th epsilon
/// target on, each read with `cur` visited; `None` when one is empty.
pub open spec fn top_alts(nfa: Nfa, cur: StateId, vis: Seq<bool>, k: int) -> Option<
    Seq<Seq<StepV>>,
>
    decreases nfa.states@[cur as int].epsilon@.len() - k,
{
    let eps = nfa.states@[cur as int].epsilon@;
    if k < 0 || k >= eps.len() {
        Some(Seq::empty())
    } else {
        let b = branch_walk(nfa, eps[k], vis.update(cur as int, true), Seq::empty(), 0);
        if b.len() == 0 {
            None
        } else {
            match top_alts(nfa, cur, vis, k + 1) {
                Some(rest) => Some(seq![b] + rest),
                None => None,
            }
        }
    }
}

/// The steps read off the automaton from state `cur`, after `acc`; empty
/// when its shape is not a sequence of steps.
pub open spec fn from_walk(nfa: Nfa, cur: StateId, vis: Seq<bool>, acc: Seq<StepV>, it: nat) -> Seq<
    StepV,
>
    decreases 1000 - it,
{
    if it >= 1000 || cur as int >= nfa.states@.len() {
        Seq::empty()
    } else {
        let st = nfa.states@[cur as int];
        if let Some(NfaInstruction::CodepointClass(c, t)) = st.instruction {
            if (t as int) < nfa.states@.len() && loop_state(nfa.states@[t as int]) && (
            nfa.states@[t as int].epsilon@[0] == cur || nfa.states@[t as int].epsilon@[1] == cur) {
                from_walk(
                    nfa,
                    other_exit(nfa.states@[t as int], cur),
                    vis.update(cur as int, true).update(t as int, true),
                    acc.push(StepV::GreedyCodepointPlus(c.ranges@, c.negated)),
                    it + 1,
                )
            } else if vis[cur as int] {
                Seq::empty()
            } else {
                from_walk(
                    nfa,
                    t,
                    vis.update(cur as int, true),
                    acc.push(StepV::CodepointClass(c.ranges@, c.negated, t)),
                    it + 1,
                )
            }
        } else {
            match instr_steps(st.instruction, acc, true) {
                None => Seq::empty(),
                Some(acc1) => if st.transitions@.len() > 0 {
                    match one_target(st) {
                        None => Seq::empty(),
                        Some(t) => {
                            let ts = nfa.states@[t as int];
                            let rs = trans_ranges(st);
                            if loop_state(ts) && ts.epsilon@[0] == cur {
                                if vis[t as int] {
                                    Seq::empty()
                                } else {
                                    from_walk(
                                        nfa,
                                        ts.epsilon@[1],
                                        vis.update(t as int, true),
                                        acc1.push(StepV::GreedyPlus(rs)),
                                        it + 1,
                                    )
                                }
                            } else if vis[cur as int] {
                                Seq::empty()
                            } else {
                                from_walk(
                                    nfa,
                                    t,
                                    vis.update(cur as int, true),
                                    acc1.push(byte_step_v(rs)),
                                    it + 1,
                                )
                            }
                        },
                    }
                } else if st.epsilon@.len() == 1 {
                    if vis[cur as int] {
                        Seq::empty()
                    } else {
                        from_walk(nfa, st.epsilon@[0], vis.update(cur as int, true), acc1, it + 1)
                    }
                } else if st.epsilon@.len() >= 2 {
                    match top_alts(nfa, cur, vis, 0) {
                        Some(alts) => acc1.push(StepV::Alt(alts)),
                        None => Seq::empty(),
                    }
                } else {
                    acc1
                },
            }
        }
    }
}

/// A greedy loop fused with the lookahead right after it.
pub open spec fn fuse_v(a: StepV, b: StepV) -> Option<StepV> {
    match a {
        StepV::GreedyPlus(c) => match b {
            StepV::PositiveLookahead(la) => Some(StepV::GreedyPlusLookahead(c, la, true)),
            StepV::NegativeLookahead(la) => Some(StepV::GreedyPlusLookahead(c, la, false)),
            _ => None,
        },
        StepV::GreedyStar(c) => match b {
            StepV::PositiveLookahead(la) => Some(StepV::GreedyStarLookahead(c, la, true)),
            StepV::NegativeLookahead(la) => Some(StepV::GreedyStarLookahead(c, la, false)),
            _ => None,
        },
        _ => None,
    }
}

/// The steps with each greedy loop fused with a lookahead right after it.
pub open spec fn combine_v(s: Seq<StepV>) -> Seq<StepV>
    decreases s.len(),
{
    if s.len() == 0 {
        Seq::empty()
    } else if s.len() >= 2 {
        match fuse_v(s[0], s[1]) {
            Some(f) => seq![f] + combine_v(s.skip(2)),
            None => seq![s[0]] + combine_v(s.skip(1)),
        }
    } else {
        seq![s[0]]
    }
}

/// The steps read off an automaton, before fusing; empty when its shape is
/// not a sequence of steps.
pub open spec fn walked(nfa: Nfa) -> Seq<StepV> {
    from_walk(nfa, nfa.start, Seq::new(nfa.states@.len(), |i: int| false), Seq::empty(), 0)
}

// ---------------------------------------------------------------------------
// Views commute with fusing and with the minimum length
// ---------------------------------------------------------------------------

/// The view of the steps after a skip is the skip of the view.
pub proof fn lemma_svs_skip(s: Seq<PatternStep>, k: int)
    requires
        0 <= k <= s.len(),
    ensures
        svs(s.skip(k)) == svs(s).skip(k),
{
    lemma_svs_index(s);
    lemma_svs_index(s.skip(k));
    assert(svs(s.skip(k)) =~= svs(s).skip(k));
}

/// Fusing the values is the value of fusing.
pub proof fn lemma_fuse_view(a: PatternStep, b: PatternStep)
    ensures
        fuse_v(sv(a), sv(b)) == match crate::nfa::tagged::steps::fuse(a, b) {
            Some(f) => Some(sv(f)),
            None => None::<StepV>,
        },
{
}

/// The values of the fused steps are the fused values.
pub proof fn lemma_combine_view(s: Seq<PatternStep>)
    ensures
        svs(crate::nfa::tagged::steps::combine(s)) == combine_v(svs(s)),
    decreases s.len(),
{
    lemma_svs_index(s);
    let c = crate::nfa::tagged::steps::combine(s);
    if s.len() == 0 {
        assert(svs(s) =~= Seq::<StepV>::empty());
    } else if s.len() >= 2 {
        lemma_fuse_view(s[0], s[1]);
        match crate::nfa::tagged::steps::fuse(s[0], s[1]) {
            Some(f) => {
                lemma_combine_view(s.skip(2));
                lemma_svs_skip(s, 2);
                let rest = crate::nfa::tagged::steps::combine(s.skip(2));
                lemma_svs_index(rest);
                lemma_svs_index(seq![f] + rest);
                assert(svs(seq![f] + rest) =~= seq![sv(f)] + svs(rest));
            },
            None => {
                lemma_combine_view(s.skip(1));
                lemma_svs_skip(s, 1);
                let rest = crate::nfa::tagged::steps::combine(s.skip(1));
                lemma_svs_index(rest);
                lemma_svs_index(seq![s[0]] + rest);
                assert(svs(seq![s[0]] + rest) =~= seq![sv(s[0])] + svs(rest));
            },
        }
    } else {
        lemma_svs_index(seq![s[0]]);
        assert(svs(seq![s[0]]) =~= seq![sv(s[0])]);
    }
}

/// The minimum length of the values is that of the steps.
pub proof fn lemma_min_len_view(s: Seq<PatternStep>)
    ensures
        min_len_v(svs(s)) == crate::nfa::tagged::steps::min_len(s),
    decreases s.len(),
{
    lemma_svs_index(s);
    if s.len() > 0 {
        lemma_min_len_view(s.skip(1));
        lemma_svs_skip(s, 1);
    }
}

// ---------------------------------------------------------------------------
// Which steps the step interpreter runs
// ---------------------------------------------------------------------------

/// Whether a lookahead body step is one the step interpreter runs.
pub open spec fn lookahead_runnable_v(s: StepV) -> bool {
    s is Byte || s is ByteClass || s is WordBoundary || s is EndOfText
}

/// Whether a lookbehind body step is one the step interpreter runs.
pub open spec fn lookbehind_runnable_v(s: StepV) -> bool {
    s is Byte || s is ByteClass || s is WordBoundary || s is StartOfText
}

/// Whether each step of a lookahead body (`ahead`) or lookbehind body is
/// one the step interpreter runs.
pub open spec fn body_runnable_v(body: Seq<StepV>, ahead: bool) -> bool {
    forall|j: int|
        0 <= j < body.len() ==> if ahead {
            lookahead_runnable_v(#[trigger] body[j])
        } else {
            lookbehind_runnable_v(body[j])
        }
}

/// Whether a step, and each step of its lookaround body, is one the step
/// interpreter runs.
pub open spec fn step_runnable_v(s: StepV) -> bool {
    match s {
        StepV::Byte(_) | StepV::ByteClass(_) | StepV::GreedyPlus(_) | StepV::GreedyStar(_)
        | StepV::WordBoundary | StepV::NotWordBoundary | StepV::StartOfText | StepV::EndOfText
        | StepV::CaptureStart(_) | StepV::CaptureEnd(_) => true,
        StepV::GreedyPlusLookahead(_, la, _) => body_runnable_v(la, true),
        StepV::GreedyStarLookahead(_, la, _) => body_runnable_v(la, true),
        StepV::PositiveLookahead(la) => body_runnable_v(la, true),
        StepV::NegativeLookahead(la) => body_runnable_v(la, true),
        StepV::PositiveLookbehind(body, _) => body_runnable_v(body, false),
        StepV::NegativeLookbehind(body, _) => body_runnable_v(body, false),
        _ => false,
    }
}

/// Whether the step interpreter runs every step.
pub open spec fn all_runnable_v(s: Seq<StepV>) -> bool {
    forall|i: int| 0 <= i < s.len() ==> #[trigger] step_runnable_v(s[i])
}

proof fn lemma_body_runnable(la: Seq<PatternStep>)
    ensures
        (forall|j: int|
            0 <= j < la.len()
                ==> crate::nfa::tagged::interpreter::step_interpreter::lookahead_runnable(
                #[trigger] la[j],
            )) == body_runnable_v(svs(la), true),
        (forall|j: int|
            0 <= j < la.len()
                ==> crate::nfa::tagged::interpreter::step_interpreter::lookbehind_runnable(
                #[trigger] la[j],
            )) == body_runnable_v(svs(la), false),
{
    lemma_svs_index(la);
    assert forall|j: int| 0 <= j < la.len() implies (
    crate::nfa::tagged::interpreter::step_interpreter::lookahead_runnable(la[j])
        == lookahead_runnable_v(svs(la)[j]))
        && (crate::nfa::tagged::interpreter::step_interpreter::lookbehind_runnable(la[j])
        == lookbehind_runnable_v(svs(la)[j])) by {
        assert(svs(la)[j] == sv(la[j]));
    }
}

/// A step runs exactly when its value does.
pub proof fn lemma_runnable_view(s: PatternStep)
    ensures
        crate::nfa::tagged::interpreter::step_interpreter::step_runnable(s) == step_runnable_v(
            sv(s),
        ),
{
    match s {
        PatternStep::GreedyPlusLookahead(_, la, _) => lemma_body_runnable(la@),
        PatternStep::GreedyStarLookahead(_, la, _) => lemma_body_runnable(la@),
        PatternStep::PositiveLookahead(la) => lemma_body_runnable(la@),
        PatternStep::NegativeLookahead(la) => lemma_body_runnable(la@),
        PatternStep::PositiveLookbehind(b, _) => lemma_body_runnable(b@),
        PatternStep::NegativeLookbehind(b, _) => lemma_body_runnable(b@),
        _ => {},
    }
}

} // verus!
