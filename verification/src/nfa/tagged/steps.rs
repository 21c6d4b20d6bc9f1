//! Pattern steps read off an NFA, for matching without simulating it.
use crate::nfa::state::{ranges_bytes, ByteClass, ByteRange, Nfa, NfaInstruction, NfaState, StateId};
use crate::nfa::tagged::liveness::{edge_link, has_edge, lemma_wf_ready, liveness_ready, reaches};
use crate::nfa::thompson::{nfa_wf, targets_in};
use crate::nfa::tagged::interpreter::nfa_interpreter::{
    byte_to, eps_to, lemma_runs_refl, lemma_runs_step, lemma_runs_trans, moves, runs,
};
use crate::nfa::tagged::interpreter::step_interpreter::{
    back_off, lookahead_holds, match_from, match_steps, run_end, step_at,
};
use crate::nfa::tagged::shared::PatternStep;
use crate::nfa::tagged::extraction::{
    behind_steps, behind_walk, branch_alts, branch_walk, byte_step_v, combine_v, from_walk, lemma_combine_view,
    lemma_min_len_view, lemma_svs_push, lemma_svss_push, look_steps, look_walk, one_target, star_in_lookaround,
    svs, sv, top_alts, trans_ranges, walked, StepV,
};
use vstd::prelude::*;

verus! {

// ---------------------------------------------------------------------------
// Fusing greedy loops with the lookahead that follows them
// ---------------------------------------------------------------------------

/// The step that a greedy loop and the lookahead right after it fuse into,
/// when they do.
pub open spec fn fuse(a: PatternStep, b: PatternStep) -> Option<PatternStep> {
    match a {
        PatternStep::GreedyPlus(c) => match b {
            PatternStep::PositiveLookahead(la) => Some(PatternStep::GreedyPlusLookahead(c, la, true)),
            PatternStep::NegativeLookahead(la) => Some(
                PatternStep::GreedyPlusLookahead(c, la, false),
            ),
            _ => None,
        },
        PatternStep::GreedyStar(c) => match b {
            PatternStep::PositiveLookahead(la) => Some(PatternStep::GreedyStarLookahead(c, la, true)),
            PatternStep::NegativeLookahead(la) => Some(
                PatternStep::GreedyStarLookahead(c, la, false),
            ),
            _ => None,
        },
        _ => None,
    }
}

/// The steps with each greedy loop fused with a lookahead right after it,
/// from left to right.
pub open spec fn combine(s: Seq<PatternStep>) -> Seq<PatternStep>
    decreases s.len(),
{
    if s.len() == 0 {
        Seq::empty()
    } else if s.len() >= 2 {
        match fuse(s[0], s[1]) {
            Some(f) => seq![f] + combine(s.skip(2)),
            None => seq![s[0]] + combine(s.skip(1)),
        }
    } else {
        seq![s[0]]
    }
}

/// Whether steps `i` and `i + 1` fuse.
pub open spec fn fuses_at(s: Seq<PatternStep>, i: int) -> bool {
    fuse(s[i], s[i + 1]) is Some
}

/// Whether no two neighbouring steps fuse.
pub open spec fn fused_all(s: Seq<PatternStep>) -> bool {
    forall|i: int| 0 <= i < s.len() - 1 ==> !#[trigger] fuses_at(s, i)
}

/// Bytes a step reads at least.
pub open spec fn step_min_len(s: PatternStep) -> int {
    match s {
        PatternStep::Byte(_) => 1,
        PatternStep::ByteClass(_) => 1,
        PatternStep::GreedyPlus(_) => 1,
        PatternStep::GreedyPlusLookahead(_, _, _) => 1,
        _ => 0,
    }
}

/// Bytes a list of steps reads at least.
pub open spec fn min_len(s: Seq<PatternStep>) -> int
    decreases s.len(),
{
    if s.len() == 0 {
        0
    } else {
        step_min_len(s[0]) + min_len(s.skip(1))
    }
}

proof fn lemma_combine_head(s: Seq<PatternStep>)
    ensures
        s.len() > 0 ==> combine(s).len() > 0,
        s.len() > 0 ==> (combine(s)[0] == s[0] || (s.len() >= 2 && fuse(s[0], s[1]) == Some(
            combine(s)[0],
        ))),
{
    if s.len() >= 2 {
        match fuse(s[0], s[1]) {
            Some(f) => {
                assert(combine(s) == seq![f] + combine(s.skip(2)));
                assert(combine(s)[0] == f);
            },
            None => {
                assert(combine(s) == seq![s[0]] + combine(s.skip(1)));
                assert(combine(s)[0] == s[0]);
            },
        }
    } else if s.len() == 1 {
        assert(combine(s)[0] == s[0]);
    }
}

/// After combining, no two neighbouring steps fuse.
pub proof fn lemma_combine_fused_all(s: Seq<PatternStep>)
    ensures
        fused_all(combine(s)),
    decreases s.len(),
{
    if s.len() >= 2 {
        match fuse(s[0], s[1]) {
            Some(f) => {
                let rest = combine(s.skip(2));
                lemma_combine_fused_all(s.skip(2));
                let c = seq![f] + rest;
                assert(combine(s) == c);
                assert forall|i: int| 0 <= i < c.len() - 1 implies !#[trigger] fuses_at(c, i) by {
                    if i > 0 {
                        assert(c[i] == rest[i - 1] && c[i + 1] == rest[i]);
                        assert(!fuses_at(rest, i - 1));
                    } else {
                        assert(c[0] == f);
                    }
                }
            },
            None => {
                let rest = combine(s.skip(1));
                lemma_combine_fused_all(s.skip(1));
                lemma_combine_head(s.skip(1));
                let c = seq![s[0]] + rest;
                assert(combine(s) == c);
                assert forall|i: int| 0 <= i < c.len() - 1 implies !#[trigger] fuses_at(c, i) by {
                    if i > 0 {
                        assert(c[i] == rest[i - 1] && c[i + 1] == rest[i]);
                        assert(!fuses_at(rest, i - 1));
                    } else {
                        assert(c[0] == s[0]);
                        assert(c[1] == rest[0]);
                        assert(s.skip(1)[0] == s[1]);
                        if s.skip(1).len() >= 2 {
                            assert(s.skip(1)[1] == s[2]);
                        }
                    }
                }
            },
        }
    }
}

/// Steps in which no two neighbours fuse are left as they are.
pub proof fn lemma_combine_fixed(s: Seq<PatternStep>)
    requires
        fused_all(s),
    ensures
        combine(s) == s,
    decreases s.len(),
{
    if s.len() >= 2 {
        assert(!fuses_at(s, 0));
        assert forall|i: int| 0 <= i < s.skip(1).len() - 1 implies !#[trigger] fuses_at(
            s.skip(1),
            i,
        ) by {
            assert(!fuses_at(s, i + 1));
            assert(s.skip(1)[i] == s[i + 1] && s.skip(1)[i + 1] == s[i + 2]);
        }
        assert(combine(s) == seq![s[0]] + combine(s.skip(1)));
        lemma_combine_fixed(s.skip(1));
        assert(seq![s[0]] + s.skip(1) =~= s);
    } else if s.len() == 1 {
        assert(seq![s[0]] =~= s);
    } else {
        assert(s =~= Seq::empty());
    }
}

/// Combining twice is combining once.
pub proof fn lemma_combine_idempotent(s: Seq<PatternStep>)
    ensures
        combine(combine(s)) == combine(s),
{
    lemma_combine_fused_all(s);
    lemma_combine_fixed(combine(s));
}

/// Combining keeps the least number of bytes the steps read.
pub proof fn lemma_combine_min_len(s: Seq<PatternStep>)
    ensures
        min_len(combine(s)) == min_len(s),
    decreases s.len(),
{
    if s.len() >= 2 {
        assert(min_len(s) == step_min_len(s[0]) + min_len(s.skip(1)));
        assert(s.skip(1)[0] == s[1]);
        match fuse(s[0], s[1]) {
            Some(f) => {
                lemma_combine_min_len(s.skip(2));
                assert(s.skip(1).skip(1) =~= s.skip(2));
                assert(min_len(s.skip(1)) == step_min_len(s[1]) + min_len(s.skip(1).skip(1)));
                let c = seq![f] + combine(s.skip(2));
                assert(combine(s) == c);
                assert(c.skip(1) =~= combine(s.skip(2)));
                assert(min_len(c) == step_min_len(f) + min_len(c.skip(1)));
            },
            None => {
                lemma_combine_min_len(s.skip(1));
                let c = seq![s[0]] + combine(s.skip(1));
                assert(combine(s) == c);
                assert(c.skip(1) =~= combine(s.skip(1)));
                assert(min_len(c) == step_min_len(s[0]) + min_len(c.skip(1)));
            },
        }
    } else if s.len() == 1 {
        let c = seq![s[0]];
        assert(combine(s) == c);
        assert(c.skip(1) =~= Seq::<PatternStep>::empty());
        assert(s.skip(1) =~= Seq::<PatternStep>::empty());
        assert(min_len(c) == step_min_len(s[0]) + min_len(c.skip(1)));
    }
}

proof fn lemma_match_from_skip(s: Seq<PatternStep>, k: int, i: int, input: Seq<u8>, q: int)
    requires
        0 <= k <= s.len(),
        0 <= i,
    ensures
        match_from(s, k + i, input, q) == match_from(s.skip(k), i, input, q),
    decreases s.len() - k - i,
{
    if k + i < s.len() {
        assert(s.skip(k)[i] == s[k + i]);
        match step_at(s[k + i], input, q) {
            Some(r) => {
                lemma_match_from_skip(s, k, i + 1, input, r);
                assert(k + (i + 1) == k + i + 1);
            },
            None => {},
        }
    }
}

/// Fusing a greedy step with the lookahead after it keeps every match that
/// the unfused steps have, with the same end: when the greedy run already
/// satisfies the lookahead, the fused step gives back no bytes.
pub proof fn lemma_combine_keeps_matches(s: Seq<PatternStep>, input: Seq<u8>, p: int)
    requires
        match_steps(s, input, p) is Some,
    ensures
        match_steps(combine(s), input, p) == match_steps(s, input, p),
    decreases s.len(),
{
    if s.len() == 1 {
        assert(combine(s) =~= s);
    } else if s.len() >= 2 {
        let q = step_at(s[0], input, p)->0;
        lemma_match_from_skip(s, 1, 0, input, q);
        match fuse(s[0], s[1]) {
            Some(f) => {
                let c = seq![f] + combine(s.skip(2));
                assert(combine(s) == c);
                assert(s.skip(1)[0] == s[1]);
                let q2 = step_at(s[1], input, q)->0;
                assert(q2 == q);
                lemma_match_from_skip(s, 2, 0, input, q);
                lemma_match_from_skip(s, 1, 1, input, q);
                assert(match_steps(s, input, p) == match_steps(s.skip(2), input, q));
                assert(step_at(f, input, p) == Some(q)) by {
                    match s[0] {
                        PatternStep::GreedyPlus(cls) => {
                            assert(back_off(
                                f->GreedyPlusLookahead_1@,
                                f->GreedyPlusLookahead_2,
                                input,
                                p + 1,
                                run_end(cls, input, p + 1),
                            ) == Some(q));
                        },
                        PatternStep::GreedyStar(cls) => {
                            assert(back_off(
                                f->GreedyStarLookahead_1@,
                                f->GreedyStarLookahead_2,
                                input,
                                p,
                                run_end(cls, input, p),
                            ) == Some(q));
                        },
                        _ => {},
                    }
                }
                lemma_combine_keeps_matches(s.skip(2), input, q);
                lemma_match_from_skip(c, 1, 0, input, q);
                assert(c.skip(1) =~= combine(s.skip(2)));
            },
            None => {
                let c = seq![s[0]] + combine(s.skip(1));
                assert(combine(s) == c);
                assert(match_steps(s, input, p) == match_steps(s.skip(1), input, q));
                lemma_combine_keeps_matches(s.skip(1), input, q);
                lemma_match_from_skip(c, 1, 0, input, q);
                assert(c.skip(1) =~= combine(s.skip(1)));
            },
        }
    }
}

/// Whether the two steps fuse.
fn can_fuse(a: &PatternStep, b: &PatternStep) -> (r: bool)
    ensures
        r == (fuse(*a, *b) is Some),
{
    let first = match a {
        PatternStep::GreedyPlus(_) => true,
        PatternStep::GreedyStar(_) => true,
        _ => false,
    };
    let second = match b {
        PatternStep::PositiveLookahead(_) => true,
        PatternStep::NegativeLookahead(_) => true,
        _ => false,
    };
    first && second
}

/// Fuses a greedy loop with the lookahead after it.
fn fuse_steps(a: PatternStep, b: PatternStep) -> (f: PatternStep)
    requires
        fuse(a, b) is Some,
    ensures
        fuse(a, b) == Some(f),
{
    match a {
        PatternStep::GreedyPlus(c) => match b {
            PatternStep::PositiveLookahead(la) => PatternStep::GreedyPlusLookahead(c, la, true),
            PatternStep::NegativeLookahead(la) => PatternStep::GreedyPlusLookahead(c, la, false),
            _ => PatternStep::WordBoundary,
        },
        PatternStep::GreedyStar(c) => match b {
            PatternStep::PositiveLookahead(la) => PatternStep::GreedyStarLookahead(c, la, true),
            PatternStep::NegativeLookahead(la) => PatternStep::GreedyStarLookahead(c, la, false),
            _ => PatternStep::WordBoundary,
        },
        _ => PatternStep::WordBoundary,
    }
}

/// Fuses each greedy quantifier with a lookahead right after it, so that the
/// quantifier can give back bytes until the lookahead holds.
pub fn combine_greedy_with_lookahead(steps: Vec<PatternStep>) -> (r: Vec<PatternStep>)
    ensures
        r@ == combine(steps@),
{
    let ghost orig = steps@;
    let n = steps.len();
    let mut src = steps;
    let mut stack: Vec<PatternStep> = Vec::new();
    while src.len() > 0
        invariant
            src@.len() + stack@.len() == n,
            n == orig.len(),
            forall|j: int| 0 <= j < src@.len() ==> #[trigger] src@[j] == orig[j],
            forall|j: int| 0 <= j < stack@.len() ==> #[trigger] stack@[j] == orig[n - 1 - j],
        decreases src@.len(),
    {
        let x = src.pop().unwrap();
        stack.push(x);
    }
    let mut result: Vec<PatternStep> = Vec::new();
    let ghost mut k: int = 0;
    proof {
        assert(orig.skip(0) =~= orig);
        assert(result@ + combine(orig) =~= combine(orig));
    }
    while stack.len() > 0
        invariant
            0 <= k <= n,
            n == orig.len(),
            stack@.len() == n - k,
            forall|j: int| 0 <= j < stack@.len() ==> #[trigger] stack@[j] == orig[n - 1 - j],
            combine(orig) == result@ + combine(orig.skip(k)),
        decreases stack@.len(),
    {
        let ghost rest = orig.skip(k);
        let a = stack.pop().unwrap();
        proof {
            assert(a == orig[k]);
            assert(rest[0] == orig[k]);
        }
        let fusable = stack.len() > 0 && can_fuse(&a, &stack[stack.len() - 1]);
        if fusable {
            let b = stack.pop().unwrap();
            proof {
                assert(b == orig[k + 1]);
                assert(rest[1] == orig[k + 1]);
                assert(rest.skip(2) =~= orig.skip(k + 2));
            }
            let f = fuse_steps(a, b);
            let ghost before = result@;
            result.push(f);
            proof {
                assert(result@ + combine(orig.skip(k + 2)) =~= before + (seq![f] + combine(rest.skip(2))));
                k = k + 2;
            }
        } else {
            let ghost before = result@;
            result.push(a);
            proof {
                if rest.len() >= 2 {
                    assert(rest.skip(1) =~= orig.skip(k + 1));
                    assert(result@ + combine(orig.skip(k + 1)) =~= before + (seq![rest[0]]
                        + combine(rest.skip(1))));
                } else {
                    assert(orig.skip(k + 1) =~= Seq::<PatternStep>::empty());
                    assert(result@ + combine(orig.skip(k + 1)) =~= before + seq![rest[0]]);
                }
                k = k + 1;
            }
        }
    }
    proof {
        assert(orig.skip(k) =~= Seq::<PatternStep>::empty());
        assert(result@ + Seq::<PatternStep>::empty() =~= result@);
    }
    result
}

// ---------------------------------------------------------------------------
// What the extraction guarantees
// ---------------------------------------------------------------------------

/// Whether a step reads a fixed number of bytes (none or one).
pub open spec fn fixed_width(s: PatternStep) -> bool {
    ||| s is Byte
    ||| s is ByteClass
    ||| s is WordBoundary
    ||| s is StartOfText
    ||| s is EndOfText
}

/// Whether a step may stand in a lookahead body read off an automaton.
pub open spec fn lookaround_kind(s: PatternStep) -> bool {
    ||| fixed_width(s)
    ||| s is GreedyPlus
    ||| s is GreedyStar
    ||| s is CodepointClass
}

/// Whether a lookbehind body is fixed-width and nonempty, and `len` is its length.
pub open spec fn lookbehind_ok(body: Seq<PatternStep>, len: usize) -> bool {
    &&& body.len() > 0
    &&& forall|j: int| 0 <= j < body.len() ==> fixed_width(#[trigger] body[j])
    &&& len == min_len(body)
}

/// Whether a step is as the extractor makes it: lookaround bodies are
/// nonempty, and a lookbehind carries the length of its fixed-width body.
pub open spec fn step_ok(s: PatternStep) -> bool {
    match s {
        PatternStep::PositiveLookbehind(body, len) => lookbehind_ok(body@, len),
        PatternStep::NegativeLookbehind(body, len) => lookbehind_ok(body@, len),
        PatternStep::PositiveLookahead(body) => body@.len() > 0,
        PatternStep::NegativeLookahead(body) => body@.len() > 0,
        PatternStep::GreedyPlusLookahead(_, body, _) => body@.len() > 0,
        PatternStep::GreedyStarLookahead(_, body, _) => body@.len() > 0,
        _ => true,
    }
}

/// Whether every step is as the extractor makes it.
pub open spec fn steps_ok(s: Seq<PatternStep>) -> bool {
    forall|i: int| 0 <= i < s.len() ==> #[trigger] step_ok(s[i])
}

/// Combining keeps steps as the extractor makes them.
pub proof fn lemma_combine_ok(s: Seq<PatternStep>)
    requires
        steps_ok(s),
    ensures
        steps_ok(combine(s)),
        s.len() > 0 ==> combine(s).len() > 0,
    decreases s.len(),
{
    lemma_combine_head(s);
    if s.len() >= 2 {
        assert(step_ok(s[1]));
        match fuse(s[0], s[1]) {
            Some(f) => {
                assert forall|i: int| 0 <= i < s.skip(2).len() implies #[trigger] step_ok(
                    s.skip(2)[i],
                ) by {
                    assert(step_ok(s[i + 2]));
                }
                lemma_combine_ok(s.skip(2));
                let c = seq![f] + combine(s.skip(2));
                assert forall|i: int| 0 <= i < c.len() implies #[trigger] step_ok(c[i]) by {
                    if i > 0 {
                        assert(c[i] == combine(s.skip(2))[i - 1]);
                    }
                }
            },
            None => {
                assert forall|i: int| 0 <= i < s.skip(1).len() implies #[trigger] step_ok(
                    s.skip(1)[i],
                ) by {
                    assert(step_ok(s[i + 1]));
                }
                lemma_combine_ok(s.skip(1));
                assert(step_ok(s[0]));
                let c = seq![s[0]] + combine(s.skip(1));
                assert forall|i: int| 0 <= i < c.len() implies #[trigger] step_ok(c[i]) by {
                    if i > 0 {
                        assert(c[i] == combine(s.skip(1))[i - 1]);
                    }
                }
            },
        }
    } else if s.len() == 1 {
        assert(step_ok(s[0]));
        assert(combine(s)[0] == s[0]);
    }
}

/// Whether the body of a lookaround instruction, if it is one, names only
/// states it has.
pub open spec fn lookaround_ready(i: Option<NfaInstruction>) -> bool {
    match i {
        Some(NfaInstruction::PositiveLookahead(b)) => liveness_ready(*b),
        Some(NfaInstruction::NegativeLookahead(b)) => liveness_ready(*b),
        Some(NfaInstruction::PositiveLookbehind(b)) => liveness_ready(*b),
        Some(NfaInstruction::NegativeLookbehind(b)) => liveness_ready(*b),
        _ => true,
    }
}

/// Whether the body of the state's lookaround, if it holds one, names only
/// states it has.
pub open spec fn body_ready(st: NfaState) -> bool {
    lookaround_ready(st.instruction)
}

/// Whether steps can be read off an automaton: every transition, here and in
/// each lookaround's body, names a state of its automaton.
pub open spec fn steps_ready(nfa: Nfa) -> bool {
    &&& liveness_ready(nfa)
    &&& forall|s: int| 0 <= s < nfa.states@.len() ==> #[trigger] body_ready(nfa.states@[s])
}

/// A well-formed automaton, such as Thompson's construction builds, is one
/// that steps can be read off.
pub proof fn lemma_wf_steps_ready(nfa: Nfa)
    requires
        nfa_wf(nfa),
    ensures
        steps_ready(nfa),
{
    lemma_wf_ready(nfa);
    assert forall|s: int| 0 <= s < nfa.states@.len() implies #[trigger] body_ready(nfa.states@[s]) by {
        assert(targets_in(nfa.states@[s], 0, nfa.states@.len() as int));
    }
}

/// Appends a step.
fn push_step(steps: &mut Vec<PatternStep>, x: PatternStep)
    ensures
        final(steps)@ == old(steps)@.push(x),
        svs(final(steps)@) == svs(old(steps)@).push(sv(x)),
{
    proof {
        lemma_svs_push(steps@, x);
    }
    steps.push(x);
}

/// Appends an alternative.
fn push_alt(alts: &mut Vec<Vec<PatternStep>>, x: Vec<PatternStep>)
    ensures
        final(alts)@ == old(alts)@.push(x),
        crate::nfa::tagged::extraction::svss(final(alts)@) == crate::nfa::tagged::extraction::svss(
            old(alts)@,
        ).push(svs(x@)),
{
    proof {
        lemma_svss_push(alts@, x);
    }
    alts.push(x);
}

/// Number of unvisited states.
pub open spec fn unvisited(v: Seq<bool>) -> nat
    decreases v.len(),
{
    if v.len() == 0 {
        0
    } else {
        unvisited(v.drop_last()) + if v.last() {
            0nat
        } else {
            1nat
        }
    }
}

proof fn lemma_unvisited_set(v: Seq<bool>, i: int)
    requires
        0 <= i < v.len(),
    ensures
        unvisited(v.update(i, true)) + (if v[i] {
            0int
        } else {
            1int
        }) == unvisited(v),
    decreases v.len(),
{
    if i == v.len() - 1 {
        assert(v.update(i, true).drop_last() =~= v.drop_last());
    } else {
        lemma_unvisited_set(v.drop_last(), i);
        assert(v.update(i, true).drop_last() =~= v.drop_last().update(i, true));
    }
}

/// Marks a state visited.
fn visit(visited: &mut Vec<bool>, i: usize)
    requires
        i < old(visited)@.len(),
    ensures
        final(visited)@ == old(visited)@.update(i as int, true),
        unvisited(final(visited)@) <= unvisited(old(visited)@),
        !old(visited)@[i as int] ==> unvisited(final(visited)@) < unvisited(old(visited)@),
{
    proof {
        lemma_unvisited_set(visited@, i as int);
    }
    visited.set(i, true);
}

proof fn lemma_reaches_refl(states: Seq<NfaState>, s: int)
    ensures
        reaches(states, s, s),
{
    let p = seq![s];
    assert(p[0] == s && p.last() == s);
}

proof fn lemma_reaches_append(states: Seq<NfaState>, s: int, t: int, u: int)
    requires
        reaches(states, s, t),
        has_edge(states, t, u),
    ensures
        reaches(states, s, u),
{
    let p = choose|p: Seq<int>|
        #![trigger p[0], p.last()]
        p.len() >= 1 && p[0] == s && p.last() == t && forall|i: int|
            0 <= i < p.len() - 1 ==> #[trigger] edge_link(states, p, i);
    let q = p.push(u);
    assert forall|i: int| 0 <= i < q.len() - 1 implies #[trigger] edge_link(states, q, i) by {
        if i < p.len() - 1 {
            assert(edge_link(states, p, i));
            assert(q[i] == p[i] && q[i + 1] == p[i + 1]);
        } else {
            assert(q[i] == t && q[i + 1] == u);
        }
    }
    assert(q[0] == s && q.last() == u);
}

// ---------------------------------------------------------------------------
// Steps follow runs of the automaton
// ---------------------------------------------------------------------------

/// Whether epsilon transitions lead from state `a` to state `b`.
pub open spec fn links(nfa: Nfa, a: int, b: int) -> bool {
    forall|input: Seq<u8>, q: int| #[trigger] runs(nfa, input, (a, q), (b, q))
}

/// Whether the bytes of `input` from `p` up to `v` are all in the class.
pub open spec fn class_run(c: ByteClass, input: Seq<u8>, p: int, v: int) -> bool {
    forall|k: int| p <= k < v ==> c@.contains(#[trigger] input[k])
}

/// Whether each byte the step reads at `p` is a transition from `a` to `b`.
pub open spec fn byte_sound(nfa: Nfa, x: PatternStep, a: int, b: int) -> bool {
    forall|input: Seq<u8>, p: int|
        0 <= p < input.len() && #[trigger] step_at(x, input, p) == Some(p + 1) ==> runs(
            nfa,
            input,
            (a, p),
            (b, p + 1),
        )
}

/// Whether every run of at least `least` bytes of the class leads from `a` to `b`.
pub open spec fn loop_sound(nfa: Nfa, c: ByteClass, a: int, b: int, least: int) -> bool {
    forall|input: Seq<u8>, p: int, v: int|
        0 <= p && p + least <= v <= input.len() && #[trigger] class_run(c, input, p, v) ==> runs(
            nfa,
            input,
            (a, p),
            (b, v),
        )
}

/// What a step read off the automaton between states `a` and `b` stands
/// for: a byte step for a byte transition, a greedy step for a loop over
/// its class (every shorter run included), a zero-width step for epsilon
/// transitions. Steps that never advance stand for nothing.
pub open spec fn step_sound(nfa: Nfa, x: PatternStep, a: int, b: int) -> bool {
    match x {
        PatternStep::Byte(_) => byte_sound(nfa, x, a, b),
        PatternStep::ByteClass(_) => byte_sound(nfa, x, a, b),
        PatternStep::GreedyPlus(c) => loop_sound(nfa, c, a, b, 1),
        PatternStep::GreedyStar(c) => loop_sound(nfa, c, a, b, 0),
        PatternStep::GreedyPlusLookahead(c, _, _) => loop_sound(nfa, c, a, b, 1),
        PatternStep::GreedyStarLookahead(c, _, _) => loop_sound(nfa, c, a, b, 0),
        PatternStep::PositiveLookahead(_) => links(nfa, a, b),
        PatternStep::NegativeLookahead(_) => links(nfa, a, b),
        PatternStep::PositiveLookbehind(_, _) => links(nfa, a, b),
        PatternStep::NegativeLookbehind(_, _) => links(nfa, a, b),
        PatternStep::WordBoundary => links(nfa, a, b),
        PatternStep::NotWordBoundary => links(nfa, a, b),
        PatternStep::StartOfText => links(nfa, a, b),
        PatternStep::EndOfText => links(nfa, a, b),
        PatternStep::CaptureStart(_) => links(nfa, a, b),
        PatternStep::CaptureEnd(_) => links(nfa, a, b),
        _ => true,
    }
}

/// Whether step `i` stands for the automaton going from `st[i]` to `st[i + 1]`.
pub open spec fn chain(nfa: Nfa, s: Seq<PatternStep>, st: Seq<int>) -> bool {
    &&& st.len() == s.len() + 1
    &&& forall|i: int| 0 <= i < s.len() ==> #[trigger] step_sound(nfa, s[i], st[i], st[i + 1])
}

/// Whether a state has no transition at all.
pub open spec fn stops(st: NfaState) -> bool {
    st.transitions@.len() == 0 && st.epsilon@.len() == 0
}

/// Whether the automaton, started at `p`, can be at `q` in a state with no
/// transition.
pub open spec fn runs_to_stop(nfa: Nfa, input: Seq<u8>, p: int, q: int) -> bool {
    exists|e: int|
        0 <= e < nfa.states@.len() && #[trigger] stops(nfa.states@[e]) && runs(
            nfa,
            input,
            (nfa.start as int, p),
            (e, q),
        )
}

proof fn lemma_links_refl(nfa: Nfa, a: int)
    ensures
        links(nfa, a, a),
{
    assert forall|input: Seq<u8>, q: int| #[trigger] runs(nfa, input, (a, q), (a, q)) by {
        lemma_runs_refl(nfa, input, (a, q));
    }
}

proof fn lemma_links_trans(nfa: Nfa, a: int, b: int, c: int)
    requires
        links(nfa, a, b),
        links(nfa, b, c),
    ensures
        links(nfa, a, c),
{
    assert forall|input: Seq<u8>, q: int| #[trigger] runs(nfa, input, (a, q), (c, q)) by {
        assert(runs(nfa, input, (a, q), (b, q)));
        assert(runs(nfa, input, (b, q), (c, q)));
        lemma_runs_trans(nfa, input, (a, q), (b, q), (c, q));
    }
}

proof fn lemma_links_eps(nfa: Nfa, a: int, b: int, c: int)
    requires
        links(nfa, a, b),
        0 <= b < nfa.states@.len(),
        eps_to(nfa.states@[b], c),
    ensures
        links(nfa, a, c),
{
    assert forall|input: Seq<u8>, q: int| #[trigger] runs(nfa, input, (a, q), (c, q)) by {
        assert(runs(nfa, input, (a, q), (b, q)));
        assert(moves(nfa, input, (b, q), (c, q)));
        lemma_runs_step(nfa, input, (a, q), (b, q), (c, q));
    }
}

proof fn lemma_run_end(c: ByteClass, input: Seq<u8>, p: int)
    requires
        0 <= p <= input.len(),
    ensures
        p <= run_end(c, input, p) <= input.len(),
        class_run(c, input, p, run_end(c, input, p)),
    decreases input.len() - p,
{
    if p < input.len() && c@.contains(input[p]) {
        lemma_run_end(c, input, p + 1);
        let e = run_end(c, input, p + 1);
        assert forall|k: int| p <= k < e implies c@.contains(#[trigger] input[k]) by {
            if k > p {
                assert(class_run(c, input, p + 1, e));
            }
        }
    }
}

proof fn lemma_back_off(la: Seq<PatternStep>, positive: bool, input: Seq<u8>, lo: int, q: int)
    requires
        lo <= q,
    ensures
        back_off(la, positive, input, lo, q) matches Some(v) ==> lo <= v <= q,
    decreases q - lo,
{
    if lookahead_holds(la, input, q) != positive && q > lo {
        lemma_back_off(la, positive, input, lo, q - 1);
    }
}

/// A step that advances from `p` to `q` stays within the input, and the
/// automaton runs the same way.
proof fn lemma_step_sound(nfa: Nfa, x: PatternStep, a: int, b: int, input: Seq<u8>, p: int, q: int)
    requires
        step_sound(nfa, x, a, b),
        0 <= p <= input.len(),
        step_at(x, input, p) == Some(q),
    ensures
        p <= q <= input.len(),
        runs(nfa, input, (a, p), (b, q)),
{
    match x {
        PatternStep::GreedyPlus(c) => {
            lemma_run_end(c, input, p + 1);
            assert(class_run(c, input, p, q)) by {
                assert(class_run(c, input, p + 1, run_end(c, input, p + 1)));
            }
        },
        PatternStep::GreedyStar(c) => {
            lemma_run_end(c, input, p);
            assert(class_run(c, input, p, q));
        },
        PatternStep::GreedyPlusLookahead(c, la, positive) => {
            lemma_run_end(c, input, p + 1);
            lemma_back_off(la@, positive, input, p + 1, run_end(c, input, p + 1));
            assert(class_run(c, input, p, q)) by {
                assert(class_run(c, input, p + 1, run_end(c, input, p + 1)));
            }
        },
        PatternStep::GreedyStarLookahead(c, la, positive) => {
            lemma_run_end(c, input, p);
            lemma_back_off(la@, positive, input, p, run_end(c, input, p));
            assert(class_run(c, input, p, q)) by {
                assert(class_run(c, input, p, run_end(c, input, p)));
            }
        },
        PatternStep::Byte(_) => {},
        PatternStep::ByteClass(_) => {},
        _ => {
            assert(q == p);
            assert(runs(nfa, input, (a, p), (b, p)));
        },
    }
}

/// Running steps that form a chain is running the automaton from the
/// chain's first state to its last.
proof fn lemma_chain_runs(
    nfa: Nfa,
    s: Seq<PatternStep>,
    st: Seq<int>,
    i: int,
    input: Seq<u8>,
    p: int,
    q: int,
)
    requires
        chain(nfa, s, st),
        0 <= i <= s.len(),
        0 <= p <= input.len(),
        match_from(s, i, input, p) == Some(q),
    ensures
        runs(nfa, input, (st[i], p), (st.last(), q)),
    decreases s.len() - i,
{
    if i == s.len() {
        lemma_runs_refl(nfa, input, (st[i], p));
    } else {
        let r = step_at(s[i], input, p)->0;
        assert(step_sound(nfa, s[i], st[i], st[i + 1]));
        lemma_step_sound(nfa, s[i], st[i], st[i + 1], input, p, r);
        lemma_chain_runs(nfa, s, st, i + 1, input, r, q);
        lemma_runs_trans(nfa, input, (st[i], p), (st[i + 1], r), (st.last(), q));
    }
}

/// A step's meaning carries over when epsilon transitions follow its end.
proof fn lemma_step_sound_then(nfa: Nfa, x: PatternStep, a: int, b: int, b2: int)
    requires
        step_sound(nfa, x, a, b),
        links(nfa, b, b2),
    ensures
        step_sound(nfa, x, a, b2),
{
    match x {
        PatternStep::Byte(_) | PatternStep::ByteClass(_) => {
            assert forall|input: Seq<u8>, p: int|
                0 <= p < input.len() && #[trigger] step_at(x, input, p) == Some(p + 1) implies runs(
                nfa,
                input,
                (a, p),
                (b2, p + 1),
            ) by {
                assert(runs(nfa, input, (b, p + 1), (b2, p + 1)));
                lemma_runs_trans(nfa, input, (a, p), (b, p + 1), (b2, p + 1));
            }
        },
        PatternStep::GreedyPlus(c) | PatternStep::GreedyPlusLookahead(c, _, _) => {
            assert forall|input: Seq<u8>, p: int, v: int|
                0 <= p && p + 1 <= v <= input.len() && #[trigger] class_run(c, input, p, v) implies runs(
                nfa,
                input,
                (a, p),
                (b2, v),
            ) by {
                assert(runs(nfa, input, (b, v), (b2, v)));
                lemma_runs_trans(nfa, input, (a, p), (b, v), (b2, v));
            }
        },
        PatternStep::GreedyStar(c) | PatternStep::GreedyStarLookahead(c, _, _) => {
            assert forall|input: Seq<u8>, p: int, v: int|
                0 <= p && p + 0 <= v <= input.len() && #[trigger] class_run(c, input, p, v) implies runs(
                nfa,
                input,
                (a, p),
                (b2, v),
            ) by {
                assert(runs(nfa, input, (b, v), (b2, v)));
                lemma_runs_trans(nfa, input, (a, p), (b, v), (b2, v));
            }
        },
        PatternStep::PositiveLookahead(_) | PatternStep::NegativeLookahead(_)
        | PatternStep::PositiveLookbehind(_, _) | PatternStep::NegativeLookbehind(_, _)
        | PatternStep::WordBoundary | PatternStep::NotWordBoundary | PatternStep::StartOfText
        | PatternStep::EndOfText | PatternStep::CaptureStart(_) | PatternStep::CaptureEnd(_) => {
            lemma_links_trans(nfa, a, b, b2);
        },
        _ => {},
    }
}

/// Combining keeps the chain: a fused step spans the greedy step and the
/// lookahead it absorbed.
pub open spec fn combine_states(s: Seq<PatternStep>, st: Seq<int>) -> Seq<int>
    decreases s.len(),
{
    if s.len() >= 2 && fuse(s[0], s[1]) is Some {
        seq![st[0]] + combine_states(s.skip(2), st.skip(2))
    } else if s.len() >= 1 {
        seq![st[0]] + combine_states(s.skip(1), st.skip(1))
    } else {
        st
    }
}

proof fn lemma_chain_skip(nfa: Nfa, s: Seq<PatternStep>, st: Seq<int>, k: int)
    requires
        chain(nfa, s, st),
        0 <= k <= s.len(),
    ensures
        chain(nfa, s.skip(k), st.skip(k)),
{
    assert forall|i: int| 0 <= i < s.skip(k).len() implies #[trigger] step_sound(
        nfa,
        s.skip(k)[i],
        st.skip(k)[i],
        st.skip(k)[i + 1],
    ) by {
        assert(step_sound(nfa, s[i + k], st[i + k], st[i + k + 1]));
        assert(s.skip(k)[i] == s[i + k]);
        assert(st.skip(k)[i] == st[i + k]);
        assert(st.skip(k)[i + 1] == st[i + k + 1]);
    }
}

proof fn lemma_combine_chain(nfa: Nfa, s: Seq<PatternStep>, st: Seq<int>)
    requires
        chain(nfa, s, st),
    ensures
        chain(nfa, combine(s), combine_states(s, st)),
        combine_states(s, st)[0] == st[0],
        combine_states(s, st).last() == st.last(),
    decreases s.len(),
{
    if s.len() >= 2 && fuse(s[0], s[1]) is Some {
        let f = fuse(s[0], s[1])->0;
        lemma_chain_skip(nfa, s, st, 2);
        lemma_combine_chain(nfa, s.skip(2), st.skip(2));
        let rest = combine_states(s.skip(2), st.skip(2));
        let cs = seq![st[0]] + rest;
        assert(combine(s) == seq![f] + combine(s.skip(2)));
        assert(step_sound(nfa, s[0], st[0], st[1]));
        assert(step_sound(nfa, s[1], st[1], st[2]));
        assert(links(nfa, st[1], st[2]));
        lemma_step_sound_then(nfa, s[0], st[0], st[1], st[2]);
        assert(step_sound(nfa, f, st[0], st[2]));
        assert(rest[0] == st[2]);
        let c = seq![f] + combine(s.skip(2));
        assert forall|i: int| 0 <= i < c.len() implies #[trigger] step_sound(nfa, c[i], cs[i], cs[i + 1]) by {
            if i > 0 {
                assert(c[i] == combine(s.skip(2))[i - 1]);
                assert(cs[i] == rest[i - 1] && cs[i + 1] == rest[i]);
                assert(step_sound(nfa, combine(s.skip(2))[i - 1], rest[i - 1], rest[i - 1 + 1]));
            } else {
                assert(c[0] == f && cs[0] == st[0] && cs[1] == st[2]);
            }
        }
        assert(st.skip(2).last() == st.last());
    } else if s.len() >= 1 {
        lemma_chain_skip(nfa, s, st, 1);
        lemma_combine_chain(nfa, s.skip(1), st.skip(1));
        let rest = combine_states(s.skip(1), st.skip(1));
        let cs = seq![st[0]] + rest;
        let c = if s.len() >= 2 {
            seq![s[0]] + combine(s.skip(1))
        } else {
            seq![s[0]]
        };
        assert(combine(s) == c);
        if s.len() == 1 {
            assert(combine(s.skip(1)) =~= Seq::<PatternStep>::empty());
            assert(c =~= seq![s[0]] + combine(s.skip(1)));
        }
        assert(step_sound(nfa, s[0], st[0], st[1]));
        assert(rest[0] == st[1]);
        assert forall|i: int| 0 <= i < c.len() implies #[trigger] step_sound(nfa, c[i], cs[i], cs[i + 1]) by {
            if i > 0 {
                assert(c[i] == combine(s.skip(1))[i - 1]);
                assert(cs[i] == rest[i - 1] && cs[i + 1] == rest[i]);
                assert(step_sound(nfa, combine(s.skip(1))[i - 1], rest[i - 1], rest[i - 1 + 1]));
            } else {
                assert(c[0] == s[0] && cs[0] == st[0] && cs[1] == st[1]);
            }
        }
        assert(st.skip(1).last() == st.last());
    }
}

/// Combining keeps the last step when it is not a lookahead.
proof fn lemma_combine_last(s: Seq<PatternStep>)
    requires
        s.len() > 0,
        !(s.last() is PositiveLookahead || s.last() is NegativeLookahead),
    ensures
        combine(s).len() > 0,
        combine(s).last() == s.last(),
    decreases s.len(),
{
    if s.len() >= 2 {
        match fuse(s[0], s[1]) {
            Some(f) => {
                assert(combine(s) == seq![f] + combine(s.skip(2)));
                assert(s.len() > 2);
                assert(s.skip(2).last() == s.last());
                lemma_combine_last(s.skip(2));
            },
            None => {
                assert(combine(s) == seq![s[0]] + combine(s.skip(1)));
                assert(s.skip(1).last() == s.last());
                lemma_combine_last(s.skip(1));
            },
        }
    } else {
        assert(combine(s) == seq![s[0]]);
    }
}

/// Steps that end with an alternation never match: the step interpreter
/// does not run alternations.
proof fn lemma_alt_last_fails(s: Seq<PatternStep>, i: int, input: Seq<u8>, p: int)
    requires
        s.len() > 0,
        s.last() is Alt,
        0 <= i < s.len(),
    ensures
        match_from(s, i, input, p) is None,
    decreases s.len() - i,
{
    if i < s.len() - 1 {
        match step_at(s[i], input, p) {
            Some(r) => {
                lemma_alt_last_fails(s, i + 1, input, r);
            },
            None => {},
        }
    }
}

proof fn lemma_chain_push(nfa: Nfa, s: Seq<PatternStep>, st: Seq<int>, x: PatternStep, y: int)
    requires
        chain(nfa, s, st),
        step_sound(nfa, x, st.last(), y),
    ensures
        chain(nfa, s.push(x), st.push(y)),
{
    let s2 = s.push(x);
    let st2 = st.push(y);
    assert forall|i: int| 0 <= i < s2.len() implies #[trigger] step_sound(nfa, s2[i], st2[i], st2[i + 1]) by {
        if i < s.len() {
            assert(step_sound(nfa, s[i], st[i], st[i + 1]));
            assert(s2[i] == s[i] && st2[i] == st[i] && st2[i + 1] == st[i + 1]);
        } else {
            assert(s2[i] == x && st2[i] == st.last() && st2[i + 1] == y);
        }
    }
}

/// Whether every transition of state `cur` leads to `target`, over the
/// given ranges in order.
pub open spec fn ranges_to(nfa: Nfa, cur: int, target: int, rs: Seq<ByteRange>) -> bool {
    &&& 0 <= cur < nfa.states@.len()
    &&& rs.len() == nfa.states@[cur].transitions@.len()
    &&& forall|j: int|
        0 <= j < rs.len() ==> #[trigger] nfa.states@[cur].transitions@[j] == (rs[j], target as StateId)
}

proof fn lemma_byte_move(nfa: Nfa, cur: int, target: int, rs: Seq<ByteRange>, input: Seq<u8>, p: int)
    requires
        ranges_to(nfa, cur, target, rs),
        0 <= target <= u32::MAX,
        0 <= p < input.len(),
        ranges_bytes(rs).contains(input[p]),
    ensures
        moves(nfa, input, (cur, p), (target, p + 1)),
{
    let j = choose|j: int| 0 <= j < rs.len() && #[trigger] rs[j].bytes().contains(input[p]);
    assert(nfa.states@[cur].transitions@[j] == (rs[j], target as StateId));
    assert(byte_to(nfa.states@[cur], input[p], target));
}

proof fn lemma_byte_step_sound(nfa: Nfa, a: int, cur: int, target: int, x: PatternStep, rs: Seq<ByteRange>)
    requires
        ranges_to(nfa, cur, target, rs),
        0 <= target <= u32::MAX,
        links(nfa, a, cur),
        x matches PatternStep::Byte(b) ==> rs.len() == 1 && rs[0].start == b && rs[0].end == b,
        x matches PatternStep::ByteClass(c) ==> c@ == ranges_bytes(rs),
        x is Byte || x is ByteClass,
    ensures
        step_sound(nfa, x, a, target),
{
    assert forall|input: Seq<u8>, p: int|
        0 <= p < input.len() && #[trigger] step_at(x, input, p) == Some(p + 1) implies runs(
        nfa,
        input,
        (a, p),
        (target, p + 1),
    ) by {
        if let PatternStep::Byte(b) = x {
            assert(rs[0].bytes().contains(input[p]));
        }
        assert(ranges_bytes(rs).contains(input[p]));
        lemma_byte_move(nfa, cur, target, rs, input, p);
        assert(runs(nfa, input, (a, p), (cur, p)));
        lemma_runs_step(nfa, input, (a, p), (cur, p), (target, p + 1));
    }
}

proof fn lemma_loop_runs(
    nfa: Nfa,
    cur: int,
    target: int,
    c: ByteClass,
    rs: Seq<ByteRange>,
    input: Seq<u8>,
    p: int,
    v: int,
)
    requires
        ranges_to(nfa, cur, target, rs),
        0 <= target < nfa.states@.len(),
        target <= u32::MAX,
        eps_to(nfa.states@[target], cur),
        c@ == ranges_bytes(rs),
        0 <= p < v <= input.len(),
        class_run(c, input, p, v),
    ensures
        runs(nfa, input, (cur, p), (target, v)),
    decreases v - p,
{
    assert(c@.contains(input[v - 1]));
    lemma_byte_move(nfa, cur, target, rs, input, v - 1);
    if v == p + 1 {
        lemma_runs_refl(nfa, input, (cur, p));
        lemma_runs_step(nfa, input, (cur, p), (cur, p), (target, v));
    } else {
        assert(class_run(c, input, p, v - 1));
        lemma_loop_runs(nfa, cur, target, c, rs, input, p, v - 1);
        assert(moves(nfa, input, (target, v - 1), (cur, v - 1)));
        lemma_runs_step(nfa, input, (cur, p), (target, v - 1), (cur, v - 1));
        lemma_runs_step(nfa, input, (cur, p), (cur, v - 1), (target, v));
    }
}

proof fn lemma_loop_sound(nfa: Nfa, cur: int, target: int, exit: int, c: ByteClass, rs: Seq<ByteRange>)
    requires
        ranges_to(nfa, cur, target, rs),
        0 <= target < nfa.states@.len(),
        target <= u32::MAX,
        nfa.states@[target].epsilon@.len() == 2,
        nfa.states@[target].epsilon@[0] == cur,
        nfa.states@[target].epsilon@[1] == exit,
        c@ == ranges_bytes(rs),
    ensures
        loop_sound(nfa, c, cur, exit, 1),
{
    assert(eps_to(nfa.states@[target], cur)) by {
        assert(nfa.states@[target].epsilon@[0] == cur);
    }
    assert(eps_to(nfa.states@[target], exit)) by {
        assert(nfa.states@[target].epsilon@[1] == exit);
    }
    assert forall|input: Seq<u8>, p: int, v: int|
        0 <= p && p + 1 <= v <= input.len() && #[trigger] class_run(c, input, p, v) implies runs(
        nfa,
        input,
        (cur, p),
        (exit, v),
    ) by {
        lemma_loop_runs(nfa, cur, target, c, rs, input, p, v);
        assert(moves(nfa, input, (target, v), (exit, v)));
        lemma_runs_step(nfa, input, (cur, p), (target, v), (exit, v));
    }
}

proof fn lemma_loop_links(nfa: Nfa, a: int, cur: int, exit: int, c: ByteClass)
    requires
        links(nfa, a, cur),
        loop_sound(nfa, c, cur, exit, 1),
    ensures
        loop_sound(nfa, c, a, exit, 1),
{
    assert forall|input: Seq<u8>, p: int, v: int|
        0 <= p && p + 1 <= v <= input.len() && #[trigger] class_run(c, input, p, v) implies runs(
        nfa,
        input,
        (a, p),
        (exit, v),
    ) by {
        assert(runs(nfa, input, (a, p), (cur, p)));
        lemma_runs_trans(nfa, input, (a, p), (cur, p), (exit, v));
    }
}

// ---------------------------------------------------------------------------
// The extractor
// ---------------------------------------------------------------------------

/// Reads pattern steps off an NFA, for matching without simulating it.
pub struct StepExtractor<'a> {
    nfa: &'a Nfa,
}

impl<'a> StepExtractor<'a> {
    /// The automaton the steps are read from.
    pub closed spec fn automaton(&self) -> Nfa {
        *self.nfa
    }

    /// Creates an extractor for the automaton.
    pub fn new(nfa: &'a Nfa) -> (e: Self)
        ensures
            e.automaton() == *nfa,
    {
        StepExtractor { nfa }
    }

    /// Reads the steps off the automaton; `None` when its shape is not one
    /// that steps can express. Each greedy quantifier followed by a
    /// lookahead comes out fused with it.
    pub fn extract(&self) -> (r: Option<Vec<PatternStep>>)
        requires
            steps_ready(self.automaton()),
        ensures
            r matches Some(s) ==> s@.len() > 0 && steps_ok(s@) && fused_all(s@),
            r matches Some(s) ==> forall|input: Seq<u8>, p: int|
                0 <= p <= input.len() && #[trigger] match_steps(s@, input, p) is Some
                    ==> runs_to_stop(self.automaton(), input, p, match_steps(s@, input, p)->0),
            r is None <==> walked(self.automaton()).len() == 0,
            r matches Some(s) ==> svs(s@) == combine_v(walked(self.automaton())),
    {
        let mut visited = Self::unvisited_flags(self.nfa.states.len());
        let (steps, Ghost(st), Ghost(end)) = self.extract_from_state(self.nfa.start, &mut visited);
        proof {
            crate::nfa::tagged::extraction::lemma_svs_index(steps@);
            lemma_combine_view(steps@);
        }
        if steps.len() == 0 {
            return None;
        }
        proof {
            lemma_combine_ok(steps@);
            lemma_combine_fused_all(steps@);
        }
        let ghost raw = steps@;
        let combined = combine_greedy_with_lookahead(steps);
        proof {
            let nfa = *self.nfa;
            lemma_combine_chain(nfa, raw, st);
            let cst = combine_states(raw, st);
            if raw.last() is Alt {
                lemma_combine_last(raw);
                assert forall|input: Seq<u8>, p: int|
                    0 <= p <= input.len() && #[trigger] match_steps(combined@, input, p) is Some
                    implies runs_to_stop(nfa, input, p, match_steps(combined@, input, p)->0) by {
                    lemma_alt_last_fails(combined@, 0, input, p);
                }
            } else {
                assert forall|input: Seq<u8>, p: int|
                    0 <= p <= input.len() && #[trigger] match_steps(combined@, input, p) is Some
                    implies runs_to_stop(nfa, input, p, match_steps(combined@, input, p)->0) by {
                    let q = match_steps(combined@, input, p)->0;
                    lemma_chain_runs(nfa, combined@, cst, 0, input, p, q);
                    assert(runs(nfa, input, (cst.last(), q), (end, q)));
                    lemma_runs_trans(nfa, input, (nfa.start as int, p), (cst.last(), q), (end, q));
                    assert(stops(nfa.states@[end]));
                }
            }
        }
        Some(combined)
    }

    /// A copy of the visited flags.
    fn copy_flags(v: &Vec<bool>) -> (r: Vec<bool>)
        ensures
            r@ == v@,
    {
        let mut r: Vec<bool> = Vec::new();
        let mut j: usize = 0;
        while j < v.len()
            invariant
                j <= v@.len(),
                r@ == v@.take(j as int),
            decreases v@.len() - j,
        {
            r.push(v[j]);
            j = j + 1;
            proof {
                assert(r@ =~= v@.take(j as int));
            }
        }
        proof {
            assert(v@.take(j as int) =~= v@);
        }
        r
    }

    /// Flags for `n` states, none of them set.
    fn unvisited_flags(n: usize) -> (v: Vec<bool>)
        ensures
            v@ == Seq::new(n as nat, |i: int| false),
    {
        let mut v: Vec<bool> = Vec::new();
        let mut i: usize = 0;
        while i < n
            invariant
                i <= n,
                v@ == Seq::new(i as nat, |j: int| false),
            decreases n - i,
        {
            v.push(false);
            i = i + 1;
            proof {
                assert(v@ =~= Seq::new(i as nat, |j: int| false));
            }
        }
        v
    }

    /// Whether all byte transitions of the state lead to one state; that state.
    fn single_target(state: &NfaState) -> (r: Option<StateId>)
        requires
            state.transitions@.len() > 0,
        ensures
            r matches Some(t) ==> t == state.transitions@[0].1,
            r matches Some(t) ==> forall|j: int|
                0 <= j < state.transitions@.len() ==> #[trigger] state.transitions@[j].1 == t,
            r == one_target(*state),
    {
        let target = state.transitions[0].1;
        let mut j: usize = 1;
        while j < state.transitions.len()
            invariant
                1 <= j <= state.transitions@.len(),
                target == state.transitions@[0].1,
                forall|k: int| 0 <= k < j ==> #[trigger] state.transitions@[k].1 == target,
            decreases state.transitions@.len() - j,
        {
            if state.transitions[j].1 != target {
                proof {
                    assert(state.transitions@[j as int].1 != state.transitions@[0].1);
                }
                return None;
            }
            j = j + 1;
        }
        Some(target)
    }

    /// The byte ranges of the state's transitions.
    fn ranges_of(state: &NfaState) -> (ranges: Vec<ByteRange>)
        ensures
            ranges@.len() == state.transitions@.len(),
            forall|j: int| 0 <= j < ranges@.len() ==> #[trigger] ranges@[j] == state.transitions@[j].0,
            ranges@ == trans_ranges(*state),
    {
        let mut ranges: Vec<ByteRange> = Vec::new();
        let mut j: usize = 0;
        while j < state.transitions.len()
            invariant
                j <= state.transitions@.len(),
                ranges@.len() == j,
                forall|k: int| 0 <= k < j ==> #[trigger] ranges@[k] == state.transitions@[k].0,
            decreases state.transitions@.len() - j,
        {
            ranges.push(state.transitions[j].0);
            j = j + 1;
        }
        proof {
            assert(ranges@ =~= trans_ranges(*state));
        }
        ranges
    }

    /// One byte when the ranges are a single byte, a byte class otherwise.
    fn byte_step(ranges: Vec<ByteRange>) -> (s: PatternStep)
        ensures
            fixed_width(s),
            s is Byte || s is ByteClass,
            s matches PatternStep::Byte(b) ==> ranges@.len() == 1 && ranges@[0].start == b
                && ranges@[0].end == b,
            s matches PatternStep::ByteClass(c) ==> c@ == ranges_bytes(ranges@),
            sv(s) == byte_step_v(ranges@),
    {
        if ranges.len() == 1 && ranges[0].start == ranges[0].end {
            PatternStep::Byte(ranges[0].start)
        } else {
            PatternStep::ByteClass(ByteClass::new(ranges))
        }
    }

    /// Follows the automaton from `start` for as long as its shape is a
    /// sequence of steps; an empty list when it is not. Alongside, the
    /// states that the steps lead through, and the state where they stop.
    fn extract_from_state(&self, start: StateId, visited: &mut Vec<bool>) -> (r: (
        Vec<PatternStep>,
        Ghost<Seq<int>>,
        Ghost<int>,
    ))
        requires
            steps_ready(*self.nfa),
            old(visited)@.len() == self.nfa.states@.len(),
        ensures
            steps_ok(r.0@),
            r.0@.len() > 0 ==> {
                &&& chain(*self.nfa, r.0@, r.1@)
                &&& r.1@[0] == start
                &&& (r.0@.last() is Alt || (0 <= r.2@ < self.nfa.states@.len() && stops(
                    self.nfa.states@[r.2@],
                ) && links(*self.nfa, r.1@.last(), r.2@)))
            },
            svs(r.0@) == from_walk(*self.nfa, start, old(visited)@, Seq::empty(), 0),
    {
        let ghost nfa = *self.nfa;
        let ghost vis0 = visited@;
        let mut steps: Vec<PatternStep> = Vec::new();
        let mut current = start;
        let mut iteration: usize = 0;
        let ghost mut st: Seq<int> = seq![start as int];
        proof {
            lemma_links_refl(nfa, start as int);
            assert(svs(steps@) =~= Seq::<StepV>::empty());
        }
        loop
            invariant
                steps_ready(*self.nfa),
                nfa == *self.nfa,
                visited@.len() == self.nfa.states@.len(),
                steps_ok(steps@),
                iteration <= 1000,
                chain(nfa, steps@, st),
                st[0] == start,
                links(nfa, st.last(), current as int),
                vis0 == old(visited)@,
                from_walk(nfa, start, vis0, Seq::empty(), 0) == from_walk(
                    nfa,
                    current,
                    visited@,
                    svs(steps@),
                    iteration as nat,
                ),
            decreases 1000 - iteration,
        {
            iteration = iteration + 1;
            if iteration > 1000 {
                return (Vec::new(), Ghost(st), Ghost(0));
            }
            if current as usize >= self.nfa.states.len() {
                return (Vec::new(), Ghost(st), Ghost(0));
            }
            let state = &self.nfa.states[current as usize];
            proof {
                assert(body_ready(self.nfa.states@[current as int]));
            }
            let ghost vis_it = visited@;
            let ghost before = steps@;
            let ghost st0 = st;
            if let Some(instr) = &state.instruction {
                match instr {
                    NfaInstruction::CaptureStart(_) => {},
                    NfaInstruction::CaptureEnd(_) => {},
                    NfaInstruction::WordBoundary => {
                        push_step(&mut steps, PatternStep::WordBoundary);
                    },
                    NfaInstruction::NotWordBoundary => {
                        push_step(&mut steps, PatternStep::NotWordBoundary);
                    },
                    NfaInstruction::StartOfText => {
                        push_step(&mut steps, PatternStep::StartOfText);
                    },
                    NfaInstruction::EndOfText => {
                        push_step(&mut steps, PatternStep::EndOfText);
                    },
                    NfaInstruction::PositiveLookahead(inner) => {
                        let body = self.extract_lookaround_steps(inner);
                        if body.len() == 0 {
                            return (Vec::new(), Ghost(st), Ghost(0));
                        }
                        push_step(&mut steps, PatternStep::PositiveLookahead(body));
                    },
                    NfaInstruction::NegativeLookahead(inner) => {
                        let body = self.extract_lookaround_steps(inner);
                        if body.len() == 0 {
                            return (Vec::new(), Ghost(st), Ghost(0));
                        }
                        push_step(&mut steps, PatternStep::NegativeLookahead(body));
                    },
                    NfaInstruction::PositiveLookbehind(inner) => {
                        let body = self.extract_lookbehind_steps(inner);
                        if body.len() == 0 {
                            return (Vec::new(), Ghost(st), Ghost(0));
                        }
                        let min_len = Self::calc_min_len(body.as_slice());
                        proof {
                            lemma_min_len_view(body@);
                            crate::nfa::tagged::extraction::lemma_svs_index(body@);
                        }
                        push_step(&mut steps, PatternStep::PositiveLookbehind(body, min_len));
                    },
                    NfaInstruction::NegativeLookbehind(inner) => {
                        let body = self.extract_lookbehind_steps(inner);
                        if body.len() == 0 {
                            return (Vec::new(), Ghost(st), Ghost(0));
                        }
                        let min_len = Self::calc_min_len(body.as_slice());
                        proof {
                            lemma_min_len_view(body@);
                            crate::nfa::tagged::extraction::lemma_svs_index(body@);
                        }
                        push_step(&mut steps, PatternStep::NegativeLookbehind(body, min_len));
                    },
                    NfaInstruction::CodepointClass(cpclass, target) => {
                        let t = *target;
                        if (t as usize) < self.nfa.states.len() {
                            let target_state = &self.nfa.states[t as usize];
                            if target_state.epsilon.len() == 2 && target_state.transitions.len()
                                == 0 {
                                let eps0 = target_state.epsilon[0];
                                let eps1 = target_state.epsilon[1];
                                if eps0 == current || eps1 == current {
                                    push_step(&mut steps, PatternStep::GreedyCodepointPlus(cpclass.duplicate()));
                                    visit(visited, current as usize);
                                    visit(visited, t as usize);
                                    current = if eps0 == current {
                                        eps1
                                    } else {
                                        eps0
                                    };
                                    proof {
                                        assert(steps@ == before.push(steps@.last()));
                                        lemma_chain_push(nfa, before, st0, steps@.last(), current as int);
                                        st = st0.push(current as int);
                                        lemma_links_refl(nfa, current as int);
                                    }
                                    continue ;
                                }
                            }
                        }
                        push_step(&mut steps, PatternStep::CodepointClass(cpclass.duplicate(), t));
                        if visited[current as usize] {
                            return (Vec::new(), Ghost(st), Ghost(0));
                        }
                        visit(visited, current as usize);
                        current = t;
                        proof {
                            assert(steps@ == before.push(steps@.last()));
                            lemma_chain_push(nfa, before, st0, steps@.last(), current as int);
                            st = st0.push(current as int);
                            lemma_links_refl(nfa, current as int);
                        }
                        continue ;
                    },
                    _ => {
                        return (Vec::new(), Ghost(st), Ghost(0));
                    },
                }
            }
            proof {
                assert forall|i: int| 0 <= i < steps@.len() implies #[trigger] step_ok(steps@[i]) by {
                    if i < before.len() {
                        assert(steps@[i] == before[i]);
                    }
                }
                if steps@.len() > before.len() {
                    assert(steps@ == before.push(steps@.last()));
                    assert(step_sound(nfa, steps@.last(), st0.last(), current as int));
                    lemma_chain_push(nfa, before, st0, steps@.last(), current as int);
                    st = st0.push(current as int);
                    lemma_links_refl(nfa, current as int);
                }
            }
            let ghost mid = steps@;
            let ghost st1 = st;
            proof {
                assert(!(state.instruction matches Some(NfaInstruction::CodepointClass(_, _))));
                assert(crate::nfa::tagged::extraction::instr_steps(
                    state.instruction,
                    svs(before),
                    true,
                ) == Some(svs(mid)));
            }
            if state.transitions.len() > 0 {
                let target = match Self::single_target(state) {
                    Some(t) => t,
                    None => {
                        return (Vec::new(), Ghost(st), Ghost(0));
                    },
                };
                proof {
                    assert(self.nfa.states@[current as int].transitions@[0].1 == target);
                }
                let ranges = Self::ranges_of(state);
                proof {
                    assert forall|j: int| 0 <= j < ranges@.len() implies #[trigger] nfa.states@[
                        current as int].transitions@[j] == (ranges@[j], target as StateId) by {
                        assert(state.transitions@[j].1 == target);
                        assert(ranges@[j] == state.transitions@[j].0);
                    }
                    assert(ranges_to(nfa, current as int, target as int, ranges@));
                }
                let target_state = &self.nfa.states[target as usize];
                if target_state.epsilon.len() == 2 && target_state.transitions.len() == 0 {
                    let eps0 = target_state.epsilon[0];
                    let eps1 = target_state.epsilon[1];
                    if eps0 == current {
                        let ghost rs = ranges@;
                        let class = ByteClass::new(ranges);
                        proof {
                            lemma_loop_sound(nfa, current as int, target as int, eps1 as int, class, rs);
                            lemma_loop_links(nfa, st1.last(), current as int, eps1 as int, class);
                        }
                        push_step(&mut steps, PatternStep::GreedyPlus(class));
                        proof {
                            lemma_chain_push(nfa, mid, st1, steps@.last(), eps1 as int);
                            st = st1.push(eps1 as int);
                            lemma_links_refl(nfa, eps1 as int);
                        }
                        if visited[target as usize] {
                            return (Vec::new(), Ghost(st), Ghost(0));
                        }
                        visit(visited, target as usize);
                        current = eps1;
                        continue ;
                    }
                }
                if visited[current as usize] {
                    return (Vec::new(), Ghost(st), Ghost(0));
                }
                visit(visited, current as usize);
                let ghost rs = ranges@;
                let x = Self::byte_step(ranges);
                proof {
                    lemma_byte_step_sound(nfa, st1.last(), current as int, target as int, x, rs);
                }
                push_step(&mut steps, x);
                proof {
                    lemma_chain_push(nfa, mid, st1, x, target as int);
                    st = st1.push(target as int);
                    lemma_links_refl(nfa, target as int);
                }
                current = target;
                continue ;
            }
            if state.epsilon.len() == 1 {
                if visited[current as usize] {
                    return (Vec::new(), Ghost(st), Ghost(0));
                }
                visit(visited, current as usize);
                let next = state.epsilon[0];
                proof {
                    assert(eps_to(nfa.states@[current as int], next as int)) by {
                        assert(state.epsilon@[0] == next);
                    }
                    lemma_links_eps(nfa, st.last(), current as int, next as int);
                }
                current = next;
                continue ;
            }
            if state.epsilon.len() >= 2 {
                let ghost here = visited@;
                let ghost mid2 = steps@;
                let mut alternatives: Vec<Vec<PatternStep>> = Vec::new();
                let mut k: usize = 0;
                proof {
                    assert(crate::nfa::tagged::extraction::svss(alternatives@) =~= Seq::<
                        Seq<StepV>,
                    >::empty());
                    assert(vis_it == here);
                }
                while k < state.epsilon.len()
                    invariant
                        steps_ready(*self.nfa),
                        nfa == *self.nfa,
                        vis0 == old(visited)@,
                        from_walk(nfa, start, vis0, Seq::empty(), 0) == match top_alts(
                            nfa,
                            current,
                            here,
                            0,
                        ) {
                            Some(alts) => svs(mid2).push(StepV::Alt(alts)),
                            None => Seq::<StepV>::empty(),
                        },
                        visited@ == here,
                        visited@.len() == self.nfa.states@.len(),
                        (current as int) < self.nfa.states@.len(),
                        *state == self.nfa.states@[current as int],
                        k <= state.epsilon@.len(),
                        top_alts(nfa, current, here, 0) == match top_alts(
                            nfa,
                            current,
                            here,
                            k as int,
                        ) {
                            Some(rest) => Some(
                                crate::nfa::tagged::extraction::svss(alternatives@) + rest,
                            ),
                            None => None::<Seq<Seq<StepV>>>,
                        },
                    decreases state.epsilon@.len() - k,
                {
                    let ghost alts0 = crate::nfa::tagged::extraction::svss(alternatives@);
                    let target = state.epsilon[k];
                    let mut branch_visited = Self::copy_flags(&visited);
                    visit(&mut branch_visited, current as usize);
                    let branch = self.extract_branch(target, branch_visited);
                    if branch.len() == 0 {
                        proof {
                            assert(top_alts(nfa, current, here, k as int) is None);
                        }
                        return (Vec::new(), Ghost(st), Ghost(0));
                    }
                    push_alt(&mut alternatives, branch);
                    proof {
                        let first = crate::nfa::tagged::extraction::svss(alternatives@).last();
                        if let Some(rest) = top_alts(nfa, current, here, k as int + 1) {
                            assert(top_alts(nfa, current, here, k as int) == Some(seq![first] + rest));
                            assert(alts0 + (seq![first] + rest) =~= alts0.push(first) + rest);
                        }
                    }
                    k = k + 1;
                }
                proof {
                    assert(top_alts(nfa, current, here, k as int) == Some(Seq::<Seq<StepV>>::empty()));
                    assert(crate::nfa::tagged::extraction::svss(alternatives@) + Seq::<
                        Seq<StepV>,
                    >::empty() =~= crate::nfa::tagged::extraction::svss(alternatives@));
                    assert(vis_it == here);
                    assert(crate::nfa::tagged::extraction::instr_steps(
                        state.instruction,
                        svs(before),
                        true,
                    ) == Some(svs(mid2)));
                }
                push_step(&mut steps, PatternStep::Alt(alternatives));
                proof {
                    assert forall|i: int| 0 <= i < steps@.len() implies #[trigger] step_ok(steps@[i]) by {
                        if i < mid.len() {
                            assert(steps@[i] == mid[i]);
                        }
                    }
                    assert(steps@ == mid.push(steps@.last()));
                    lemma_chain_push(nfa, mid, st1, steps@.last(), current as int);
                    st = st1.push(current as int);
                }
                return (steps, Ghost(st), Ghost(current as int));
            }
            return (steps, Ghost(st), Ghost(current as int));
        }
    }

    /// Follows one branch of an alternation up to the match state; an empty
    /// list when its shape is not a sequence of steps.
    fn extract_branch(&self, start: StateId, flags: Vec<bool>) -> (steps: Vec<PatternStep>)
        requires
            steps_ready(*self.nfa),
            flags@.len() == self.nfa.states@.len(),
        ensures
            steps_ok(steps@),
            svs(steps@) == branch_walk(*self.nfa, start, flags@, Seq::empty(), 0),
        decreases unvisited(flags@),
    {
        let ghost entry = unvisited(flags@);
        let ghost nfa = *self.nfa;
        let mut visited = Self::copy_flags(&flags);
        let mut steps: Vec<PatternStep> = Vec::new();
        let mut current = start;
        let mut iteration: usize = 0;
        proof {
            assert(svs(steps@) =~= Seq::<StepV>::empty());
        }
        loop
            invariant
                steps_ready(*self.nfa),
                nfa == *self.nfa,
                visited@.len() == self.nfa.states@.len(),
                unvisited(visited@) <= entry,
                entry == unvisited(flags@),
                steps_ok(steps@),
                iteration <= 10000,
                branch_walk(nfa, start, flags@, Seq::empty(), 0) == branch_walk(
                    nfa,
                    current,
                    visited@,
                    svs(steps@),
                    iteration as nat,
                ),
            decreases 10000 - iteration,
        {
            iteration = iteration + 1;
            if iteration > 10000 {
                return Vec::new();
            }
            if current as usize >= self.nfa.states.len() {
                return Vec::new();
            }
            if visited[current as usize] {
                return Vec::new();
            }
            let state = &self.nfa.states[current as usize];
            if state.is_match {
                return steps;
            }
            proof {
                assert(body_ready(self.nfa.states@[current as int]));
            }
            let ghost before = steps@;
            let ghost vis_it = visited@;
            if let Some(instr) = &state.instruction {
                match instr {
                    NfaInstruction::CaptureStart(_) => {},
                    NfaInstruction::CaptureEnd(_) => {},
                    NfaInstruction::WordBoundary => {
                        push_step(&mut steps, PatternStep::WordBoundary);
                    },
                    NfaInstruction::NotWordBoundary => {
                        push_step(&mut steps, PatternStep::NotWordBoundary);
                    },
                    NfaInstruction::StartOfText => {
                        push_step(&mut steps, PatternStep::StartOfText);
                    },
                    NfaInstruction::EndOfText => {
                        push_step(&mut steps, PatternStep::EndOfText);
                    },
                    NfaInstruction::PositiveLookahead(inner) => {
                        let body = self.extract_lookaround_steps(inner);
                        if body.len() == 0 {
                            return Vec::new();
                        }
                        push_step(&mut steps, PatternStep::PositiveLookahead(body));
                    },
                    NfaInstruction::NegativeLookahead(inner) => {
                        let body = self.extract_lookaround_steps(inner);
                        if body.len() == 0 {
                            return Vec::new();
                        }
                        push_step(&mut steps, PatternStep::NegativeLookahead(body));
                    },
                    NfaInstruction::CodepointClass(cpclass, target) => {
                        let t = *target;
                        if t as usize >= self.nfa.states.len() {
                            return Vec::new();
                        }
                        let target_state = &self.nfa.states[t as usize];
                        if target_state.epsilon.len() == 2 && target_state.transitions.len() == 0 {
                            let eps0 = target_state.epsilon[0];
                            let eps1 = target_state.epsilon[1];
                            if eps0 == current || eps1 == current {
                                push_step(&mut steps, PatternStep::GreedyCodepointPlus(cpclass.duplicate()));
                                proof {
                                    assert(steps@ == before.push(steps@.last()));
                                }
                                visit(&mut visited, current as usize);
                                visit(&mut visited, t as usize);
                                current = if eps0 == current {
                                    eps1
                                } else {
                                    eps0
                                };
                                continue ;
                            }
                        }
                        push_step(&mut steps, PatternStep::CodepointClass(cpclass.duplicate(), t));
                        visit(&mut visited, current as usize);
                        current = t;
                        continue ;
                    },
                    _ => {
                        return Vec::new();
                    },
                }
            }
            proof {
                assert forall|i: int| 0 <= i < steps@.len() implies #[trigger] step_ok(steps@[i]) by {
                    if i < before.len() {
                        assert(steps@[i] == before[i]);
                    }
                }
            }
            if state.transitions.len() > 0 {
                let target = match Self::single_target(state) {
                    Some(t) => t,
                    None => {
                        return Vec::new();
                    },
                };
                proof {
                    assert(self.nfa.states@[current as int].transitions@[0].1 == target);
                }
                let ranges = Self::ranges_of(state);
                let target_state = &self.nfa.states[target as usize];
                if target_state.epsilon.len() == 2 && target_state.transitions.len() == 0 {
                    let eps0 = target_state.epsilon[0];
                    let eps1 = target_state.epsilon[1];
                    if eps0 == current || eps1 == current {
                        push_step(&mut steps, PatternStep::GreedyPlus(ByteClass::new(ranges)));
                        visit(&mut visited, current as usize);
                        visit(&mut visited, target as usize);
                        current = if eps0 == current {
                            eps1
                        } else {
                            eps0
                        };
                        continue ;
                    }
                }
                push_step(&mut steps, PatternStep::ByteClass(ByteClass::new(ranges)));
                visit(&mut visited, current as usize);
                current = target;
                continue ;
            }
            if state.epsilon.len() == 1 {
                visit(&mut visited, current as usize);
                current = state.epsilon[0];
                continue ;
            }
            if state.epsilon.len() == 2 {
                let eps0 = state.epsilon[0];
                let eps1 = state.epsilon[1];
                if let Some((ranges, exit_state)) = self.detect_greedy_star(
                    current,
                    eps0,
                    eps1,
                    &visited,
                ) {
                    push_step(&mut steps, PatternStep::GreedyStar(ByteClass::new(ranges)));
                    visit(&mut visited, current as usize);
                    current = exit_state;
                    continue ;
                }
                if let Some((ranges, exit_state)) = self.detect_greedy_star(
                    current,
                    eps1,
                    eps0,
                    &visited,
                ) {
                    push_step(&mut steps, PatternStep::GreedyStar(ByteClass::new(ranges)));
                    visit(&mut visited, current as usize);
                    current = exit_state;
                    continue ;
                }
                let eps0_visited = visited[eps0 as usize];
                let eps1_visited = visited[eps1 as usize];
                if eps0_visited && !eps1_visited {
                    visit(&mut visited, current as usize);
                    current = eps1;
                    continue ;
                }
                if eps1_visited && !eps0_visited {
                    visit(&mut visited, current as usize);
                    current = eps0;
                    continue ;
                }
            }
            if state.epsilon.len() >= 2 {
                let ghost here = visited@;
                let mut alternatives: Vec<Vec<PatternStep>> = Vec::new();
                let mut k: usize = 0;
                proof {
                    assert(crate::nfa::tagged::extraction::svss(alternatives@) =~= Seq::<
                        Seq<StepV>,
                    >::empty());
                    assert(branch_alts(nfa, current, here, 0) =~= Seq::<Seq<StepV>>::empty()
                        + branch_alts(nfa, current, here, 0));
                }
                while k < state.epsilon.len()
                    invariant
                        steps_ready(*self.nfa),
                        nfa == *self.nfa,
                        visited@ == here,
                        here.len() == self.nfa.states@.len(),
                        unvisited(here) <= entry,
                        entry == unvisited(flags@),
                        !here[current as int],
                        (current as int) < self.nfa.states@.len(),
                        *state == self.nfa.states@[current as int],
                        k <= state.epsilon@.len(),
                        branch_alts(nfa, current, here, 0) == crate::nfa::tagged::extraction::svss(
                            alternatives@,
                        ) + branch_alts(nfa, current, here, k as int),
                    decreases state.epsilon@.len() - k,
                {
                    let ghost alts0 = crate::nfa::tagged::extraction::svss(alternatives@);
                    let target = state.epsilon[k];
                    let mut branch_visited = Self::copy_flags(&visited);
                    visit(&mut branch_visited, current as usize);
                    let target_state = &self.nfa.states[target as usize];
                    if target_state.is_match {
                        let none: Vec<PatternStep> = Vec::new();
                        proof {
                            assert(svs(none@) =~= Seq::<StepV>::empty());
                        }
                        push_alt(&mut alternatives, none);
                    } else {
                        let branch = self.extract_branch(target, branch_visited);
                        push_alt(&mut alternatives, branch);
                    }
                    proof {
                        let rest = branch_alts(nfa, current, here, k as int + 1);
                        let first = crate::nfa::tagged::extraction::svss(alternatives@).last();
                        assert(branch_alts(nfa, current, here, k as int) == seq![first] + rest);
                        assert(alts0 + (seq![first] + rest) =~= alts0.push(first) + rest);
                    }
                    k = k + 1;
                }
                let ghost mid = steps@;
                proof {
                    assert(vis_it == here);
                    lemma_unvisited_set(here, current as int);
                    assert(crate::nfa::tagged::extraction::instr_steps(
                        state.instruction,
                        svs(before),
                        false,
                    ) == Some(svs(mid)));
                    assert(branch_alts(nfa, current, here, k as int) =~= Seq::<Seq<StepV>>::empty());
                    assert(crate::nfa::tagged::extraction::svss(alternatives@) + Seq::<
                        Seq<StepV>,
                    >::empty() =~= crate::nfa::tagged::extraction::svss(alternatives@));
                }
                push_step(&mut steps, PatternStep::Alt(alternatives));
                proof {
                    assert forall|i: int| 0 <= i < steps@.len() implies #[trigger] step_ok(steps@[i]) by {
                        if i < before.len() {
                            assert(steps@[i] == before[i]);
                        }
                    }
                }
                return steps;
            }
            return Vec::new();
        }
    }

    /// Reads the steps of a lookahead's body; an empty list when its shape
    /// is not a sequence of steps.
    fn extract_lookaround_steps(&self, inner: &Nfa) -> (steps: Vec<PatternStep>)
        requires
            liveness_ready(*inner),
        ensures
            forall|i: int| 0 <= i < steps@.len() ==> lookaround_kind(#[trigger] steps@[i]),
            svs(steps@) == look_steps(*inner),
    {
        let visited0 = Self::unvisited_flags(inner.states.len());
        let mut visited = visited0;
        let mut steps: Vec<PatternStep> = Vec::new();
        let mut current = inner.start;
        let mut iteration: usize = 0;
        proof {
            assert(svs(steps@) =~= Seq::<StepV>::empty());
        }
        loop
            invariant
                liveness_ready(*inner),
                visited@.len() == inner.states@.len(),
                forall|i: int| 0 <= i < steps@.len() ==> lookaround_kind(#[trigger] steps@[i]),
                iteration <= 10000,
                look_steps(*inner) == look_walk(
                    *inner,
                    current,
                    visited@,
                    svs(steps@),
                    iteration as nat,
                ),
            decreases 10000 - iteration,
        {
            iteration = iteration + 1;
            if iteration > 10000 {
                return Vec::new();
            }
            if current as usize >= inner.states.len() {
                return Vec::new();
            }
            let state = &inner.states[current as usize];
            if state.is_match {
                return steps;
            }
            if let Some(instr) = &state.instruction {
                match instr {
                    NfaInstruction::WordBoundary => {
                        push_step(&mut steps, PatternStep::WordBoundary);
                    },
                    NfaInstruction::EndOfText => {
                        push_step(&mut steps, PatternStep::EndOfText);
                    },
                    NfaInstruction::StartOfText => {
                        push_step(&mut steps, PatternStep::StartOfText);
                    },
                    NfaInstruction::CaptureStart(_) => {},
                    NfaInstruction::CaptureEnd(_) => {},
                    NfaInstruction::CodepointClass(cpclass, target) => {
                        push_step(&mut steps, PatternStep::CodepointClass(cpclass.duplicate(), *target));
                        if visited[current as usize] {
                            return Vec::new();
                        }
                        visit(&mut visited, current as usize);
                        current = *target;
                        continue ;
                    },
                    _ => {
                        return Vec::new();
                    },
                }
            }
            if state.transitions.len() > 0 {
                let target = match Self::single_target(state) {
                    Some(t) => t,
                    None => {
                        return Vec::new();
                    },
                };
                proof {
                    assert(inner.states@[current as int].transitions@[0].1 == target);
                }
                let ranges = Self::ranges_of(state);
                let target_state = &inner.states[target as usize];
                if target_state.transitions.len() == 0 && target_state.epsilon.len() == 2 {
                    let eps0 = target_state.epsilon[0];
                    let eps1 = target_state.epsilon[1];
                    if eps0 == current || eps1 == current {
                        push_step(&mut steps, PatternStep::GreedyPlus(ByteClass::new(ranges)));
                        if visited[target as usize] {
                            return Vec::new();
                        }
                        visit(&mut visited, target as usize);
                        current = if eps0 == current {
                            eps1
                        } else {
                            eps0
                        };
                        continue ;
                    }
                }
                if visited[current as usize] {
                    return Vec::new();
                }
                visit(&mut visited, current as usize);
                push_step(&mut steps, Self::byte_step(ranges));
                current = target;
                continue ;
            }
            if state.epsilon.len() == 1 && state.transitions.len() == 0 {
                if visited[current as usize] {
                    return Vec::new();
                }
                visit(&mut visited, current as usize);
                current = state.epsilon[0];
                continue ;
            }
            if state.epsilon.len() == 2 && state.transitions.len() == 0 {
                let eps0 = state.epsilon[0];
                let eps1 = state.epsilon[1];
                if let Some((ranges, exit_state)) = Self::detect_greedy_star_in_lookaround(
                    inner,
                    current,
                    eps0,
                    eps1,
                    &visited,
                ) {
                    push_step(&mut steps, PatternStep::GreedyStar(ByteClass::new(ranges)));
                    visit(&mut visited, current as usize);
                    current = exit_state;
                    continue ;
                }
                if let Some((ranges, exit_state)) = Self::detect_greedy_star_in_lookaround(
                    inner,
                    current,
                    eps1,
                    eps0,
                    &visited,
                ) {
                    push_step(&mut steps, PatternStep::GreedyStar(ByteClass::new(ranges)));
                    visit(&mut visited, current as usize);
                    current = exit_state;
                    continue ;
                }
                return Vec::new();
            }
            if state.epsilon.len() > 0 {
                return Vec::new();
            }
            return steps;
        }
    }

    /// Reads the steps of a lookbehind's body, which must read a fixed number
    /// of bytes; an empty list otherwise.
    fn extract_lookbehind_steps(&self, inner: &Nfa) -> (steps: Vec<PatternStep>)
        requires
            liveness_ready(*inner),
        ensures
            forall|i: int| 0 <= i < steps@.len() ==> fixed_width(#[trigger] steps@[i]),
            svs(steps@) == behind_steps(*inner),
    {
        let mut visited = Self::unvisited_flags(inner.states.len());
        let mut steps: Vec<PatternStep> = Vec::new();
        let mut current = inner.start;
        proof {
            assert(svs(steps@) =~= Seq::<StepV>::empty());
        }
        loop
            invariant
                liveness_ready(*inner),
                visited@.len() == inner.states@.len(),
                forall|i: int| 0 <= i < steps@.len() ==> fixed_width(#[trigger] steps@[i]),
                behind_steps(*inner) == behind_walk(*inner, current, visited@, svs(steps@)),
            decreases unvisited(visited@),
        {
            if current as usize >= inner.states.len() {
                return Vec::new();
            }
            let state = &inner.states[current as usize];
            if state.is_match {
                return steps;
            }
            if let Some(instr) = &state.instruction {
                match instr {
                    NfaInstruction::WordBoundary => {
                        push_step(&mut steps, PatternStep::WordBoundary);
                    },
                    NfaInstruction::EndOfText => {
                        push_step(&mut steps, PatternStep::EndOfText);
                    },
                    NfaInstruction::StartOfText => {
                        push_step(&mut steps, PatternStep::StartOfText);
                    },
                    _ => {
                        return Vec::new();
                    },
                }
            }
            if state.transitions.len() > 0 {
                let target = match Self::single_target(state) {
                    Some(t) => t,
                    None => {
                        return Vec::new();
                    },
                };
                proof {
                    assert(inner.states@[current as int].transitions@[0].1 == target);
                }
                let ranges = Self::ranges_of(state);
                let target_state = &inner.states[target as usize];
                if target_state.transitions.len() == 0 && target_state.epsilon.len() == 2 {
                    let eps0 = target_state.epsilon[0];
                    let eps1 = target_state.epsilon[1];
                    if eps0 == current || eps1 == current {
                        return Vec::new();
                    }
                }
                if visited[current as usize] {
                    return Vec::new();
                }
                visit(&mut visited, current as usize);
                push_step(&mut steps, Self::byte_step(ranges));
                current = target;
                continue ;
            }
            if state.epsilon.len() == 1 && state.transitions.len() == 0 {
                if visited[current as usize] {
                    return Vec::new();
                }
                visit(&mut visited, current as usize);
                current = state.epsilon[0];
                continue ;
            }
            if state.epsilon.len() > 0 {
                return Vec::new();
            }
            return steps;
        }
    }

    /// Looks for a greedy `X*` loop at `branch_state` whose body starts at
    /// `loop_start` and whose exit is `exit_state`. Loops whose body is more
    /// than one transition are recognized but not turned into a step, so the
    /// answer is always `None` and the caller treats the state as an
    /// alternation.
    fn detect_greedy_star(
        &self,
        branch_state: StateId,
        loop_start: StateId,
        exit_state: StateId,
        _visited: &Vec<bool>,
    ) -> (r: Option<(Vec<ByteRange>, StateId)>)
        requires
            liveness_ready(*self.nfa),
        ensures
            r is None,
    {
        if loop_start as usize >= self.nfa.states.len() {
            return None;
        }
        if self.state_eventually_reaches(exit_state, branch_state, 10) {
            return None;
        }
        if self.state_eventually_reaches(loop_start, branch_state, 50) {
            return None;
        }
        None
    }

    /// Whether `target` can be reached from `start` in at most `max_depth`
    /// transitions (epsilon or byte), by breadth-first search.
    fn state_eventually_reaches(&self, start: StateId, target: StateId, max_depth: usize) -> (b:
        bool)
        requires
            liveness_ready(*self.nfa),
        ensures
            b ==> start == target || reaches(self.nfa.states@, start as int, target as int),
    {
        let n = self.nfa.states.len();
        let mut queue: Vec<(StateId, usize)> = Vec::new();
        let mut seen: Vec<bool> = Vec::new();
        let mut i: usize = 0;
        while i < n
            invariant
                i <= n,
                n == self.nfa.states@.len(),
                seen@.len() == i,
            decreases n - i,
        {
            seen.push(false);
            i = i + 1;
        }
        queue.push((start, 0));
        let mut head: usize = 0;
        while head < queue.len()
            invariant
                liveness_ready(*self.nfa),
                n == self.nfa.states@.len(),
                seen@.len() == n,
                head <= queue@.len(),
                forall|j: int|
                    0 <= j < queue@.len() ==> (#[trigger] queue@[j]).0 == start || reaches(
                        self.nfa.states@,
                        start as int,
                        queue@[j].0 as int,
                    ),
            decreases unvisited(seen@), queue@.len() - head,
        {
            let (state_id, depth) = queue[head];
            head = head + 1;
            if state_id == target {
                return true;
            }
            if depth >= max_depth {
                continue ;
            }
            if state_id as usize >= n || seen[state_id as usize] {
                continue ;
            }
            proof {
                if state_id != start {
                    assert(reaches(self.nfa.states@, start as int, state_id as int));
                } else {
                    lemma_reaches_refl(self.nfa.states@, start as int);
                }
            }
            visit(&mut seen, state_id as usize);
            let state = &self.nfa.states[state_id as usize];
            let next_depth = depth + 1;
            let ghost q0 = queue@.len();
            let mut k: usize = 0;
            while k < state.epsilon.len()
                invariant
                    liveness_ready(*self.nfa),
                    n == self.nfa.states@.len(),
                    (state_id as int) < n,
                    *state == self.nfa.states@[state_id as int],
                    reaches(self.nfa.states@, start as int, state_id as int),
                    k <= state.epsilon@.len(),
                    queue@.len() == q0 + k,
                    forall|j: int|
                        0 <= j < queue@.len() ==> (#[trigger] queue@[j]).0 == start || reaches(
                            self.nfa.states@,
                            start as int,
                            queue@[j].0 as int,
                        ),
                decreases state.epsilon@.len() - k,
            {
                let e = state.epsilon[k];
                proof {
                    assert(has_edge(self.nfa.states@, state_id as int, e as int));
                    lemma_reaches_append(self.nfa.states@, start as int, state_id as int, e as int);
                }
                queue.push((e, next_depth));
                k = k + 1;
            }
            let mut k: usize = 0;
            while k < state.transitions.len()
                invariant
                    liveness_ready(*self.nfa),
                    n == self.nfa.states@.len(),
                    (state_id as int) < n,
                    *state == self.nfa.states@[state_id as int],
                    reaches(self.nfa.states@, start as int, state_id as int),
                    k <= state.transitions@.len(),
                    queue@.len() == q0 + state.epsilon@.len() + k,
                    forall|j: int|
                        0 <= j < queue@.len() ==> (#[trigger] queue@[j]).0 == start || reaches(
                            self.nfa.states@,
                            start as int,
                            queue@[j].0 as int,
                        ),
                decreases state.transitions@.len() - k,
            {
                let t = state.transitions[k].1;
                proof {
                    assert(has_edge(self.nfa.states@, state_id as int, t as int));
                    lemma_reaches_append(self.nfa.states@, start as int, state_id as int, t as int);
                }
                queue.push((t, next_depth));
                k = k + 1;
            }
        }
        false
    }

    /// Looks for a greedy `X*` loop in a lookaround's body: `loop_start`
    /// reads a byte class and comes straight back. Gives the class and the
    /// exit state.
    fn detect_greedy_star_in_lookaround(
        inner: &Nfa,
        _branch_state: StateId,
        loop_start: StateId,
        exit_state: StateId,
        visited: &Vec<bool>,
    ) -> (r: Option<(Vec<ByteRange>, StateId)>)
        requires
            liveness_ready(*inner),
            visited@.len() == inner.states@.len(),
        ensures
            r matches Some((_, e)) ==> e == exit_state,
            match r {
                Some((rs, _)) => star_in_lookaround(*inner, loop_start, visited@) == Some(rs@),
                None => star_in_lookaround(*inner, loop_start, visited@) is None,
            },
    {
        if loop_start as usize >= inner.states.len() {
            return None;
        }
        let loop_state = &inner.states[loop_start as usize];
        if loop_state.transitions.len() == 0 {
            return None;
        }
        let target = match Self::single_target(loop_state) {
            Some(t) => t,
            None => {
                return None;
            },
        };
        proof {
            assert(inner.states@[loop_start as int].transitions@[0].1 == target);
        }
        let ranges = Self::ranges_of(loop_state);
        let target_state = &inner.states[target as usize];
        if target_state.epsilon.len() == 2 {
            let eps0 = target_state.epsilon[0];
            let eps1 = target_state.epsilon[1];
            if eps0 == loop_start || eps1 == loop_start {
                if !visited[loop_start as usize] {
                    return Some((ranges, exit_state));
                }
                return None;
            }
        }
        if target_state.epsilon.len() == 1 && target_state.epsilon[0] == loop_start {
            if !visited[loop_start as usize] {
                return Some((ranges, exit_state));
            }
        }
        None
    }

    /// The least number of bytes a match of the steps reads.
    pub fn calc_min_len(steps: &[PatternStep]) -> (len: usize)
        ensures
            len == min_len(steps@),
    {
        let mut len: usize = 0;
        let mut i: usize = 0;
        proof {
            assert(steps@.skip(0) =~= steps@);
        }
        while i < steps.len()
            invariant
                i <= steps@.len(),
                len <= i,
                min_len(steps@) == len + min_len(steps@.skip(i as int)),
            decreases steps@.len() - i,
        {
            proof {
                assert(steps@.skip(i as int).skip(1) =~= steps@.skip(i as int + 1));
                assert(steps@.skip(i as int)[0] == steps@[i as int]);
            }
            match &steps[i] {
                PatternStep::Byte(_) => {
                    len = len + 1;
                },
                PatternStep::ByteClass(_) => {
                    len = len + 1;
                },
                PatternStep::GreedyPlus(_) => {
                    len = len + 1;
                },
                PatternStep::GreedyPlusLookahead(_, _, _) => {
                    len = len + 1;
                },
                _ => {},
            }
            i = i + 1;
        }
        proof {
            assert(steps@.skip(i as int) =~= Seq::<PatternStep>::empty());
        }
        len
    }
}

} // verus!
