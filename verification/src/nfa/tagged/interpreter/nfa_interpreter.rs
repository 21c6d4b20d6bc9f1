//! Simulation of a tagged NFA, thread by thread, with capture slots.
//!
//! Threads that reach a state are kept in a worklist per input position;
//! each carries the capture positions seen on its way. Liveness analysis
//! says which captures a spawned thread needs copied.
use crate::nfa::state::{Nfa, NfaInstruction, NfaState, StateId};
use crate::nfa::tagged::interpreter::step_interpreter::word_boundary_at;
use crate::nfa::tagged::liveness::{
    analyze_liveness, has_edge, lemma_live_along_edge, lemma_live_at_match, liveness_of, liveness_ready,
    writes_of, NfaLiveness,
};
use crate::bits::lemma_bit_consts;
use crate::nfa::tagged::shared::{bitmap_has, is_word_char, words_for, ThreadWorklist, MAX_THREADS};
use vstd::prelude::*;
use vstd::slice::slice_subrange;
use std::collections::HashMap;

verus! {

// ---------------------------------------------------------------------------
// What the simulation relies on
// ---------------------------------------------------------------------------

/// Whether an automaton can be simulated: its transitions name its states,
/// its capture instructions name its groups, its capture slots fit in memory,
/// and the same holds of the body of each lookaround, at every depth.
pub open spec fn interp_ready(nfa: Nfa) -> bool
    decreases nfa,
{
    &&& liveness_ready(nfa)
    &&& (nfa.capture_count + 1) * 2 * MAX_THREADS <= usize::MAX
    &&& forall|s: int|
        0 <= s < nfa.states@.len() ==> match #[trigger] nfa.states@[s].instruction {
            Some(NfaInstruction::CaptureStart(i)) => i <= nfa.capture_count,
            Some(NfaInstruction::CaptureEnd(i)) => i <= nfa.capture_count,
            Some(NfaInstruction::Backref(i)) => i <= nfa.capture_count,
            Some(NfaInstruction::PositiveLookahead(b)) => interp_ready(*b),
            Some(NfaInstruction::NegativeLookahead(b)) => interp_ready(*b),
            Some(NfaInstruction::PositiveLookbehind(b)) => interp_ready(*b),
            Some(NfaInstruction::NegativeLookbehind(b)) => interp_ready(*b),
            _ => true,
        }
}

/// Capture slots per thread: a start and an end for each group, group 0 included.
pub open spec fn stride_of(nfa: Nfa) -> int {
    (nfa.capture_count + 1) * 2
}

/// Words in the visited map of a worklist for the automaton.
pub open spec fn map_words(nfa: Nfa) -> int {
    words_for(
        if nfa.states@.len() == 0 {
            1
        } else {
            nfa.states@.len() as int
        },
    )
}

/// Whether a worklist is sized for the automaton and each of its capture
/// slots holds a position of the input (at most `len`) or -1.
pub open spec fn list_ok(w: ThreadWorklist, nfa: Nfa, len: int) -> bool {
    &&& w.wf()
    &&& w.stride == stride_of(nfa)
    &&& w.visited@.len() == map_words(nfa)
    &&& forall|k: int| 0 <= k < w.captures@.len() ==> -1 <= #[trigger] w.captures@[k] <= len
}

/// Whether each pending capture names a slot of a thread and a position of the input.
pub open spec fn pending_ok(p: Seq<(usize, i64)>, stride: int, len: int) -> bool {
    forall|i: int| 0 <= i < p.len() ==> (#[trigger] p[i]).0 < stride && 0 <= p[i].1 <= len
}

/// Number of the first `k` states not marked in the visited map.
pub open spec fn unmarked(v: Seq<u64>, k: int) -> nat
    decreases k,
{
    if k <= 0 {
        0
    } else {
        unmarked(v, k - 1) + if bitmap_has(v, k - 1) {
            0nat
        } else {
            1nat
        }
    }
}

/// Whether a capture list is shaped as a match from `start` reports it:
/// one entry per group, group 0 spanning the match, every group within the input.
pub open spec fn match_captures(caps: Seq<Option<(usize, usize)>>, groups: int, start: int, len: int) -> bool {
    &&& caps.len() == groups
    &&& caps[0] matches Some((s, e)) && s == start && start <= e <= len
    &&& forall|g: int|
        0 <= g < caps.len() ==> (#[trigger] caps[g] matches Some((s, e)) ==> s <= len && e <= len)
}

/// The value of the last entry of `p` for `slot`, if any.
pub open spec fn pending_last(p: Seq<(usize, i64)>, slot: int) -> Option<i64>
    decreases p.len(),
{
    if p.len() == 0 {
        None
    } else if p.last().0 == slot {
        Some(p.last().1)
    } else {
        pending_last(p.drop_last(), slot)
    }
}

/// The position in a capture slot of a thread about to be spawned: the last
/// pending update of the slot, else the source thread's slot where it is set.
pub open spec fn bound_of(source: Option<(&ThreadWorklist, usize)>, pending: Seq<(usize, i64)>, slot: int) -> Option<i64> {
    match pending_last(pending, slot) {
        Some(v) => Some(v),
        None => match source {
            Some((src, idx)) => {
                let v = src.captures@[idx * src.stride + slot];
                if v >= 0 {
                    Some(v)
                } else {
                    None
                }
            },
            None => None,
        },
    }
}

/// Whether a group with bounds `s` and `e` is set and its text comes next in
/// the input at `pos`.
pub open spec fn backref_matches(input: Seq<u8>, pos: int, s: Option<i64>, e: Option<i64>) -> bool {
    match (s, e) {
        (Some(a), Some(b)) => 0 <= a <= b && b - a <= input.len() - pos && input.subrange(
            a as int,
            b as int,
        ) == input.subrange(pos, pos + (b - a)),
        _ => false,
    }
}

/// Whether the check of an instruction is known to pass at `pos` for a thread
/// spawned from `source` with the capture updates `pending`: text assertions
/// and backreferences by what they test, states without a check always, a
/// negative lookaround where its body has no accepting run there, a positive
/// lookahead where its body checks nothing and has an accepting run there,
/// and a positive lookbehind never.
pub open spec fn check_known_to_pass(
    instr: Option<NfaInstruction>,
    input: Seq<u8>,
    pos: int,
    source: Option<(&ThreadWorklist, usize)>,
    pending: Seq<(usize, i64)>,
) -> bool {
    match instr {
        None => true,
        Some(NfaInstruction::StartOfText) => pos == 0,
        Some(NfaInstruction::EndOfText) => pos == input.len(),
        Some(NfaInstruction::StartOfLine) => pos == 0 || input[pos - 1] == 10,
        Some(NfaInstruction::EndOfLine) => pos == input.len() || input[pos] == 10,
        Some(NfaInstruction::WordBoundary) => word_boundary_at(input, pos),
        Some(NfaInstruction::NotWordBoundary) => !word_boundary_at(input, pos),
        Some(NfaInstruction::Backref(i)) => backref_matches(
            input,
            pos,
            bound_of(source, pending, i * 2),
            bound_of(source, pending, i * 2 + 1),
        ),
        Some(NfaInstruction::PositiveLookahead(b)) => plain_automaton(*b) && lookahead_holds(
            *b,
            input,
            pos,
        ),
        Some(NfaInstruction::NegativeLookahead(b)) => !lookahead_holds(*b, input, pos),
        Some(NfaInstruction::PositiveLookbehind(_)) => false,
        Some(NfaInstruction::NegativeLookbehind(b)) => !lookbehind_holds(*b, input, pos),
        Some(NfaInstruction::CaptureStart(_)) => true,
        Some(NfaInstruction::CaptureEnd(_)) => true,
        Some(NfaInstruction::NonGreedyExit) => true,
        Some(NfaInstruction::CodepointClass(_, _)) => true,
    }
}

/// Whether the automaton matches the empty string at `start` in its start
/// state alone: the start state is a match state whose check is known to pass
/// there.
pub open spec fn start_matches(nfa: Nfa, input: Seq<u8>, start: int) -> bool {
    &&& (nfa.start as int) < nfa.states@.len()
    &&& nfa.states@[nfa.start as int].is_match
    &&& check_known_to_pass(nfa.states@[nfa.start as int].instruction, input, start, None, Seq::empty())
}

/// Whether the automaton matches the empty string at `start` along epsilon
/// moves whose checks pass whatever the captures: in its start state alone,
/// or, when it has fewer than `MAX_THREADS` states, in any match state that
/// such moves reach.
pub open spec fn empty_match_at(nfa: Nfa, input: Seq<u8>, start: int) -> bool {
    ||| start_matches(nfa, input, start)
    ||| (nfa.states@.len() < MAX_THREADS && exists|m: int|
        #[trigger] plain_match(nfa, input, start, m) && plain_path(nfa, input, start, nfa.start as int, m))
}

/// Whether spawning at `state` into `w` adds a thread at the state itself:
/// the state is new to the list, there is room, it reads input, matches or
/// checks a backreference, and its check is known to pass.
pub open spec fn spawns_at(
    nfa: Nfa,
    state: StateId,
    w: ThreadWorklist,
    input: Seq<u8>,
    pos: int,
    source: Option<(&ThreadWorklist, usize)>,
    pending: Seq<(usize, i64)>,
) -> bool {
    &&& (state as int) < nfa.states@.len()
    &&& !bitmap_has(w.visited@, state as int)
    &&& w.count < MAX_THREADS
    &&& (nfa.states@[state as int].transitions@.len() > 0 || nfa.states@[state as int].is_match
        || nfa.states@[state as int].instruction matches Some(NfaInstruction::Backref(_)))
    &&& check_known_to_pass(nfa.states@[state as int].instruction, input, pos, source, pending)
}

/// The flags of a thread spawned at a state with instruction `instr`: those
/// given, with the non-greedy bit set past a non-greedy exit.
pub open spec fn spawn_flags(instr: Option<NfaInstruction>, flags: u32) -> u32 {
    if instr matches Some(NfaInstruction::NonGreedyExit) {
        flags | 0x10000
    } else {
        flags
    }
}

/// Whether `b` keeps every thread of `a`: its state, flags and capture slots.
pub open spec fn kept_threads(a: ThreadWorklist, b: ThreadWorklist) -> bool {
    &&& b.count >= a.count
    &&& forall|t: int| 0 <= t < a.count ==> #[trigger] b.states@[t] == a.states@[t]
    &&& forall|t: int| 0 <= t < a.count ==> #[trigger] b.flags@[t] == a.flags@[t]
    &&& forall|k: int| 0 <= k < a.count * a.stride ==> #[trigger] b.captures@[k] == a.captures@[k]
}

/// Whether state `v`'s check is known to pass at `pos` whatever the captures
/// (so never for a backreference).
pub open spec fn plain_pass(nfa: Nfa, input: Seq<u8>, pos: int, v: int) -> bool {
    check_known_to_pass(nfa.states@[v].instruction, input, pos, None, Seq::empty())
}

/// Whether some thread of the list is at state `v`.
pub open spec fn has_thread(w: ThreadWorklist, v: int) -> bool {
    exists|t: int| 0 <= t < w.count && #[trigger] w.states@[t] == v
}

/// Whether state `v` has been followed through in `w`: its epsilon targets
/// are visited, and it has a thread if it reads input or matches and the
/// list is not full.
pub open spec fn closure_done(nfa: Nfa, w: ThreadWorklist, v: int) -> bool {
    &&& forall|b: int|
        0 <= b < nfa.states@.len() && eps_to(nfa.states@[v], b) ==> #[trigger] bitmap_has(
            w.visited@,
            b,
        )
    &&& ((nfa.states@[v].transitions@.len() > 0 || nfa.states@[v].is_match) && w.count
        < MAX_THREADS ==> has_thread(w, v))
}

/// Whether every visited state outside `stack` whose check passes at `pos`
/// whatever the captures has been followed through.
pub open spec fn closed_at(nfa: Nfa, input: Seq<u8>, pos: int, w: ThreadWorklist, stack: Set<int>) -> bool {
    forall|v: int|
        0 <= v < nfa.states@.len() && #[trigger] bitmap_has(w.visited@, v) && !stack.contains(v)
            && plain_pass(nfa, input, pos, v) ==> closure_done(nfa, w, v)
}

/// Whether the automaton moves from `a` to `b` along an epsilon transition
/// whose source state's check passes at `pos` whatever the captures.
pub open spec fn plain_step(nfa: Nfa, input: Seq<u8>, pos: int, a: int, b: int) -> bool {
    &&& 0 <= a < nfa.states@.len()
    &&& 0 <= b < nfa.states@.len()
    &&& plain_pass(nfa, input, pos, a)
    &&& eps_to(nfa.states@[a], b)
}

/// Whether entries `i` and `i + 1` of `p` are one plain step apart.
pub open spec fn plain_link(nfa: Nfa, input: Seq<u8>, pos: int, p: Seq<int>, i: int) -> bool {
    plain_step(nfa, input, pos, p[i], p[i + 1])
}

/// Whether plain epsilon steps at `pos` lead from state `a` to state `b`.
pub open spec fn plain_path(nfa: Nfa, input: Seq<u8>, pos: int, a: int, b: int) -> bool {
    exists|p: Seq<int>|
        #![trigger p[0], p.last()]
        p.len() >= 1 && p[0] == a && p.last() == b && forall|i: int|
            0 <= i < p.len() - 1 ==> #[trigger] plain_link(nfa, input, pos, p, i)
}

/// Whether state `m` is a match state whose check passes at `pos` whatever the captures.
pub open spec fn plain_match(nfa: Nfa, input: Seq<u8>, pos: int, m: int) -> bool {
    &&& 0 <= m < nfa.states@.len()
    &&& nfa.states@[m].is_match
    &&& plain_pass(nfa, input, pos, m)
}

/// Whether no state of the automaton is a backreference.
pub open spec fn no_backrefs(nfa: Nfa) -> bool {
    forall|s: int|
        0 <= s < nfa.states@.len() ==> !(#[trigger] nfa.states@[s].instruction matches Some(
            NfaInstruction::Backref(_),
        ))
}

/// Whether state `a`, whose check passes at `pos` whatever the captures, moves
/// to state `b` over the byte at `pos`.
pub open spec fn plain_byte(nfa: Nfa, input: Seq<u8>, pos: int, a: int, b: int) -> bool {
    &&& 0 <= a < nfa.states@.len()
    &&& 0 <= b < nfa.states@.len()
    &&& plain_pass(nfa, input, pos, a)
    &&& 0 <= pos < input.len()
    &&& byte_to(nfa.states@[a], input[pos], b)
}

/// Whether the automaton, started at `start`, can be in state `q` at `pos`
/// along plain epsilon steps and plain byte moves.
pub open spec fn plain_reach(nfa: Nfa, input: Seq<u8>, start: int, pos: int, q: int) -> bool
    decreases pos - start,
{
    if pos < start {
        false
    } else if pos == start {
        plain_path(nfa, input, start, nfa.start as int, q)
    } else {
        exists|a: int, b: int|
            #![trigger plain_byte(nfa, input, pos - 1, a, b)]
            plain_reach(nfa, input, start, pos - 1, a) && plain_byte(nfa, input, pos - 1, a, b)
                && plain_path(nfa, input, pos, b, q)
    }
}

/// Whether state `q` at `pos` passes its check whatever the captures and
/// reads input or matches.
pub open spec fn plain_live(nfa: Nfa, input: Seq<u8>, pos: int, q: int) -> bool {
    &&& 0 <= q < nfa.states@.len()
    &&& plain_pass(nfa, input, pos, q)
    &&& (nfa.states@[q].transitions@.len() > 0 || nfa.states@[q].is_match)
}

/// Whether the automaton, when it has fewer than `MAX_THREADS` states and no
/// backreference, matches from `start` along plain epsilon steps and byte
/// moves (every check on the way passes whatever the captures).
pub open spec fn matches_plainly(nfa: Nfa, input: Seq<u8>, start: int) -> bool {
    &&& nfa.states@.len() < MAX_THREADS
    &&& no_backrefs(nfa)
    &&& exists|e: int, m: int|
        #![trigger plain_reach(nfa, input, start, e, m)]
        start <= e <= input.len() && plain_match(nfa, input, e, m) && plain_reach(
            nfa,
            input,
            start,
            e,
            m,
        )
}

/// Whether the simulation is known to find a match from `start`: an empty
/// match along plain epsilon steps, or any match along a plain run.
pub open spec fn match_known_from(nfa: Nfa, input: Seq<u8>, start: int) -> bool {
    empty_match_at(nfa, input, start) || matches_plainly(nfa, input, start)
}

/// Whether an instruction checks nothing about the input.
pub open spec fn checks_nothing(instr: Option<NfaInstruction>) -> bool {
    match instr {
        None => true,
        Some(NfaInstruction::CaptureStart(_)) => true,
        Some(NfaInstruction::CaptureEnd(_)) => true,
        Some(NfaInstruction::NonGreedyExit) => true,
        Some(NfaInstruction::CodepointClass(_, _)) => true,
        _ => false,
    }
}

/// Whether the automaton has fewer than `MAX_THREADS` states, none of which
/// checks anything about the input: the simulation then finds a match from
/// every position where it has an accepting run.
pub open spec fn plain_automaton(nfa: Nfa) -> bool {
    &&& nfa.states@.len() < MAX_THREADS
    &&& forall|s: int|
        0 <= s < nfa.states@.len() ==> checks_nothing(#[trigger] nfa.states@[s].instruction)
}

/// A plain path followed by a plain step is a plain path.
proof fn lemma_path_extend(nfa: Nfa, input: Seq<u8>, pos: int, a: int, b: int, c: int)
    requires
        plain_path(nfa, input, pos, a, b),
        plain_step(nfa, input, pos, b, c),
    ensures
        plain_path(nfa, input, pos, a, c),
{
    let p = choose|p: Seq<int>|
        #![trigger p[0], p.last()]
        p.len() >= 1 && p[0] == a && p.last() == b && forall|i: int|
            0 <= i < p.len() - 1 ==> #[trigger] plain_link(nfa, input, pos, p, i);
    let q = p.push(c);
    assert forall|i: int| 0 <= i < q.len() - 1 implies #[trigger] plain_link(nfa, input, pos, q, i) by {
        if i < p.len() - 1 {
            assert(plain_link(nfa, input, pos, p, i));
            assert(q[i] == p[i] && q[i + 1] == p[i + 1]);
        } else {
            assert(q[i] == b && q[i + 1] == c);
        }
    }
    assert(q[0] == a && q.last() == c);
}

/// The one-state plain path.
proof fn lemma_path_refl(nfa: Nfa, input: Seq<u8>, pos: int, a: int)
    ensures
        plain_path(nfa, input, pos, a, a),
{
    let p = seq![a];
    assert(p[0] == a && p.last() == a);
}

/// A plain step keeps a state plainly reachable.
proof fn lemma_reach_eps(nfa: Nfa, input: Seq<u8>, start: int, pos: int, q: int, r: int)
    requires
        plain_reach(nfa, input, start, pos, q),
        plain_step(nfa, input, pos, q, r),
    ensures
        plain_reach(nfa, input, start, pos, r),
{
    if pos == start {
        lemma_path_extend(nfa, input, pos, nfa.start as int, q, r);
    } else {
        let (a, b) = choose|a: int, b: int|
            #![trigger plain_byte(nfa, input, pos - 1, a, b)]
            plain_reach(nfa, input, start, pos - 1, a) && plain_byte(nfa, input, pos - 1, a, b)
                && plain_path(nfa, input, pos, b, q);
        lemma_path_extend(nfa, input, pos, b, q, r);
    }
}

/// A plain byte move from a plainly reachable state reaches its target.
proof fn lemma_reach_byte(nfa: Nfa, input: Seq<u8>, start: int, pos: int, a: int, b: int)
    requires
        plain_reach(nfa, input, start, pos, a),
        plain_byte(nfa, input, pos, a, b),
    ensures
        plain_reach(nfa, input, start, pos + 1, b),
{
    lemma_path_refl(nfa, input, pos + 1, b);
    assert(plain_reach(nfa, input, start, pos + 1 - 1, a));
}

/// Every prefix of a run from the start of an automaton that checks nothing
/// ends at a plainly reachable state.
proof fn lemma_run_prefix_plain(nfa: Nfa, input: Seq<u8>, start: int, p: Seq<(int, int)>, j: int)
    requires
        interp_ready(nfa),
        plain_automaton(nfa),
        0 <= start <= input.len(),
        (nfa.start as int) < nfa.states@.len(),
        p.len() >= 1,
        p[0] == (nfa.start as int, start),
        forall|i: int| 0 <= i < p.len() - 1 ==> #[trigger] move_link(nfa, input, p, i),
        0 <= j < p.len(),
    ensures
        start <= p[j].1 <= input.len(),
        0 <= p[j].0 < nfa.states@.len(),
        plain_reach(nfa, input, start, p[j].1, p[j].0),
    decreases j,
{
    if j == 0 {
        lemma_path_refl(nfa, input, start, nfa.start as int);
    } else {
        lemma_run_prefix_plain(nfa, input, start, p, j - 1);
        assert(move_link(nfa, input, p, j - 1));
        let a = p[j - 1];
        let b = p[j];
        let st = nfa.states@[a.0];
        assert(checks_nothing(nfa.states@[a.0].instruction));
        if b.1 == a.1 && eps_to(st, b.0) {
            let i = choose|i: int| 0 <= i < st.epsilon@.len() && st.epsilon@[i] == b.0;
            assert((nfa.states@[a.0].epsilon@[i] as int) < nfa.states@.len());
            assert(plain_step(nfa, input, a.1, a.0, b.0));
            lemma_reach_eps(nfa, input, start, a.1, a.0, b.0);
        } else {
            assert(0 <= a.1 < input.len() && b.1 == a.1 + 1 && byte_to(st, input[a.1], b.0));
            let i = choose|i: int|
                0 <= i < st.transitions@.len() && st.transitions@[i].1 == b.0
                    && st.transitions@[i].0.start <= input[a.1] <= st.transitions@[i].0.end;
            assert((nfa.states@[a.0].transitions@[i].1 as int) < nfa.states@.len());
            assert(plain_byte(nfa, input, a.1, a.0, b.0));
            lemma_reach_byte(nfa, input, start, a.1, a.0, b.0);
        }
    }
}

/// An automaton that checks nothing and has an accepting run from `start`
/// is known to match from `start`.
pub proof fn lemma_plain_accepts_known(nfa: Nfa, input: Seq<u8>, start: int, e: int)
    requires
        interp_ready(nfa),
        plain_automaton(nfa),
        0 <= start <= input.len(),
        accepts(nfa, input, start, e),
    ensures
        match_known_from(nfa, input, start),
{
    let m = choose|m: int|
        0 <= m < nfa.states@.len() && #[trigger] nfa.states@[m].is_match && runs(
            nfa,
            input,
            (nfa.start as int, start),
            (m, e),
        );
    let p = choose|p: Seq<(int, int)>|
        #![trigger p[0], p.last()]
        p.len() >= 1 && p[0] == (nfa.start as int, start) && p.last() == (m, e) && forall|i: int|
            0 <= i < p.len() - 1 ==> #[trigger] move_link(nfa, input, p, i);
    if p.len() == 1 {
        assert(p[0] == p.last());
    } else {
        assert(move_link(nfa, input, p, 0));
    }
    lemma_run_prefix_plain(nfa, input, start, p, p.len() - 1);
    assert(p[p.len() - 1] == (m, e));
    assert(checks_nothing(nfa.states@[m].instruction));
    assert(plain_match(nfa, input, e, m));
    assert forall|s: int| 0 <= s < nfa.states@.len() implies !(#[trigger] nfa.states@[s].instruction matches Some(
        NfaInstruction::Backref(_),
    )) by {
        assert(checks_nothing(nfa.states@[s].instruction));
    }
    assert(plain_reach(nfa, input, start, e, m));
}

/// Whether an instruction is one a simple automaton may hold: none, a
/// capture, or a text assertion.
pub open spec fn simple_instr(instr: Option<NfaInstruction>) -> bool {
    match instr {
        None => true,
        Some(NfaInstruction::CaptureStart(_)) => true,
        Some(NfaInstruction::CaptureEnd(_)) => true,
        Some(NfaInstruction::StartOfText) => true,
        Some(NfaInstruction::EndOfText) => true,
        Some(NfaInstruction::StartOfLine) => true,
        Some(NfaInstruction::EndOfLine) => true,
        Some(NfaInstruction::WordBoundary) => true,
        Some(NfaInstruction::NotWordBoundary) => true,
        _ => false,
    }
}

/// Whether the automaton has fewer than `MAX_THREADS` states, each with no
/// instruction, a capture or a text assertion (no lookaround, backreference,
/// non-greedy exit or code-point class): its simulation is then exactly the
/// plain runs.
pub open spec fn simple_automaton(nfa: Nfa) -> bool {
    &&& nfa.states@.len() < MAX_THREADS
    &&& forall|s: int|
        0 <= s < nfa.states@.len() ==> simple_instr(#[trigger] nfa.states@[s].instruction)
}

/// Whether a plain run from `start` reaches a match state at `e`.
pub open spec fn plain_end(nfa: Nfa, input: Seq<u8>, start: int, e: int) -> bool {
    exists|m: int| #[trigger] plain_match(nfa, input, e, m) && plain_reach(nfa, input, start, e, m)
}

/// The last position before `p` at which a plain run from `start` reaches a
/// match state, or -1 when there is none.
pub open spec fn last_end(nfa: Nfa, input: Seq<u8>, start: int, p: int) -> int
    decreases p - start,
{
    if p <= start {
        -1
    } else if plain_end(nfa, input, start, p - 1) {
        p - 1
    } else {
        last_end(nfa, input, start, p - 1)
    }
}

/// The end of the match that the simulation finds from `start` in a simple
/// automaton: the last position at which a plain run from `start` reaches a
/// match state (the longest match), or -1 when there is none.
pub open spec fn longest_end(nfa: Nfa, input: Seq<u8>, start: int) -> int {
    last_end(nfa, input, start, input.len() + 1 as int)
}

/// Whether `r` is the first match, at or after `from`, of a simple automaton
/// in the input: the least start from which a plain run reaches a match state,
/// with the longest match from there; `None` when there is no such start.
pub open spec fn first_plain_match(nfa: Nfa, input: Seq<u8>, from: int, r: Option<(usize, usize)>) -> bool {
    match r {
        Some((a, b)) => {
            &&& from <= a <= input.len()
            &&& longest_end(nfa, input, a as int) >= 0
            &&& b == longest_end(nfa, input, a as int)
            &&& forall|s: int| from <= s < a ==> #[trigger] longest_end(nfa, input, s) < 0
        },
        None => forall|s: int| from <= s <= input.len() ==> #[trigger] longest_end(nfa, input, s) < 0,
    }
}

/// Whether every thread of the list sits, with no flags, at a state that a
/// plain run from `start` reaches at `pos` and whose check passes there.
pub open spec fn list_plain(w: ThreadWorklist, nfa: Nfa, input: Seq<u8>, start: int, pos: int) -> bool {
    forall|t: int|
        0 <= t < w.count ==> plain_reach(nfa, input, start, pos, #[trigger] w.states@[t] as int)
            && plain_pass(nfa, input, pos, w.states@[t] as int) && w.flags@[t] == 0
}

/// A simple automaton has fewer than `MAX_THREADS` states and no backreference.
proof fn lemma_simple_gen(nfa: Nfa)
    requires
        simple_automaton(nfa),
    ensures
        nfa.states@.len() < MAX_THREADS,
        no_backrefs(nfa),
{
    assert forall|s: int| 0 <= s < nfa.states@.len() implies !(#[trigger] nfa.states@[s].instruction matches Some(
        NfaInstruction::Backref(_),
    )) by {
        assert(simple_instr(nfa.states@[s].instruction));
    }
}

/// Taking one more thread into account adds its state's being a match state.
proof fn lemma_match_before_step(w: ThreadWorklist, nfa: Nfa, k: int)
    requires
        0 <= k,
    ensures
        match_before(w, nfa, k + 1) == (match_before(w, nfa, k) || ((w.states@[k] as int)
            < nfa.states@.len() && nfa.states@[w.states@[k] as int].is_match)),
{
    if match_before(w, nfa, k + 1) {
        let u = choose|u: int|
            0 <= u < k + 1 && (#[trigger] w.states@[u] as int) < nfa.states@.len()
                && nfa.states@[w.states@[u] as int].is_match;
        if u < k {
            assert(match_before(w, nfa, k));
        }
    }
    if match_before(w, nfa, k) {
        let u = choose|u: int|
            0 <= u < k && (#[trigger] w.states@[u] as int) < nfa.states@.len()
                && nfa.states@[w.states@[u] as int].is_match;
        assert(0 <= u < k + 1);
    }
    if (w.states@[k] as int) < nfa.states@.len() && nfa.states@[w.states@[k] as int].is_match {
        assert(0 <= k < k + 1);
    }
}

/// Lists with the same threads are alike plain.
proof fn lemma_list_plain_same(a: ThreadWorklist, b: ThreadWorklist, nfa: Nfa, input: Seq<u8>, start: int, pos: int)
    requires
        list_plain(a, nfa, input, start, pos),
        a.count == b.count,
        a.states@ == b.states@,
        a.flags@ == b.flags@,
    ensures
        list_plain(b, nfa, input, start, pos),
{
    assert forall|t: int| 0 <= t < b.count implies plain_reach(nfa, input, start, pos, #[trigger] b.states@[t] as int)
        && plain_pass(nfa, input, pos, b.states@[t] as int) && b.flags@[t] == 0 by {
        assert(a.states@[t] == b.states@[t]);
        assert(a.flags@[t] == b.flags@[t]);
        assert(plain_reach(nfa, input, start, pos, a.states@[t] as int));
    }
}

/// Whether one of the first `k` threads of the list is at a match state.
pub open spec fn match_before(w: ThreadWorklist, nfa: Nfa, k: int) -> bool {
    exists|u: int|
        0 <= u < k && (#[trigger] w.states@[u] as int) < nfa.states@.len()
            && nfa.states@[w.states@[u] as int].is_match
}

/// Where no plain run reaches a match state from `p` to `q - 1`, the last
/// end before `q` is the last end before `p`.
proof fn lemma_last_end_skip(nfa: Nfa, input: Seq<u8>, start: int, p: int, q: int)
    requires
        start <= p <= q,
        forall|e: int| p <= e < q ==> !#[trigger] plain_end(nfa, input, start, e),
    ensures
        last_end(nfa, input, start, q) == last_end(nfa, input, start, p),
    decreases q - p,
{
    if q > p {
        assert(!plain_end(nfa, input, start, q - 1));
        lemma_last_end_skip(nfa, input, start, p, q - 1);
    }
}

/// The last end before `p` is a plain end, or -1 when there is none.
proof fn lemma_last_end_is_end(nfa: Nfa, input: Seq<u8>, start: int, p: int)
    requires
        0 <= start,
    ensures
        last_end(nfa, input, start, p) == -1 || (start <= last_end(nfa, input, start, p) < p
            && plain_end(nfa, input, start, last_end(nfa, input, start, p))),
        last_end(nfa, input, start, p) == -1 ==> forall|e: int|
            start <= e < p ==> !#[trigger] plain_end(nfa, input, start, e),
        forall|e: int|
            start <= e < p && #[trigger] plain_end(nfa, input, start, e) ==> e <= last_end(
                nfa,
                input,
                start,
                p,
            ),
    decreases p - start,
{
    if p > start {
        lemma_last_end_is_end(nfa, input, start, p - 1);
    }
}

/// A live state on a plain run leaves a live state at every earlier position.
proof fn lemma_reach_back(nfa: Nfa, input: Seq<u8>, start: int, e: int, m: int, pos: int)
    requires
        plain_reach(nfa, input, start, e, m),
        plain_live(nfa, input, e, m),
        start <= pos <= e,
    ensures
        exists|q: int| plain_reach(nfa, input, start, pos, q) && #[trigger] plain_live(nfa, input, pos, q),
    decreases e - pos,
{
    if pos == e {
        assert(plain_live(nfa, input, pos, m));
    } else {
        let (a, b) = choose|a: int, b: int|
            #![trigger plain_byte(nfa, input, e - 1, a, b)]
            plain_reach(nfa, input, start, e - 1, a) && plain_byte(nfa, input, e - 1, a, b)
                && plain_path(nfa, input, e, b, m);
        assert(plain_live(nfa, input, e - 1, a));
        lemma_reach_back(nfa, input, start, e - 1, a, pos);
    }
}

/// A list closed at `pos` where nothing is visited.
proof fn lemma_closed_empty(nfa: Nfa, input: Seq<u8>, pos: int, w: ThreadWorklist)
    requires
        forall|v: int| !#[trigger] bitmap_has(w.visited@, v),
    ensures
        closed_at(nfa, input, pos, w, Set::empty()),
{
}

/// Closure does not depend on the capture slots.
proof fn lemma_closed_same(nfa: Nfa, input: Seq<u8>, pos: int, a: ThreadWorklist, b: ThreadWorklist)
    requires
        closed_at(nfa, input, pos, a, Set::empty()),
        b.visited == a.visited,
        b.count == a.count,
        b.states == a.states,
    ensures
        closed_at(nfa, input, pos, b, Set::empty()),
{
    assert forall|v: int|
        0 <= v < nfa.states@.len() && #[trigger] bitmap_has(b.visited@, v) && !Set::<int>::empty().contains(v)
            && plain_pass(nfa, input, pos, v) implies closure_done(nfa, b, v) by {
        assert(closure_done(nfa, a, v));
        if (nfa.states@[v].transitions@.len() > 0 || nfa.states@[v].is_match) && b.count < MAX_THREADS {
            let t = choose|t: int| 0 <= t < a.count && #[trigger] a.states@[t] == v;
            assert(b.states@[t] == v);
        }
    }
}

/// In a list closed at `pos` with at most as many threads as the automaton
/// has states (fewer than `MAX_THREADS`), a visited live state has a thread.
proof fn lemma_live_thread(nfa: Nfa, input: Seq<u8>, pos: int, w: ThreadWorklist, q: int)
    requires
        closed_at(nfa, input, pos, w, Set::empty()),
        w.count + unmarked(w.visited@, nfa.states@.len() as int) <= nfa.states@.len(),
        nfa.states@.len() < MAX_THREADS,
        bitmap_has(w.visited@, q),
        plain_live(nfa, input, pos, q),
    ensures
        has_thread(w, q),
{
    assert(!Set::<int>::empty().contains(q));
    assert(closure_done(nfa, w, q));
}

proof fn lemma_done_grow(nfa: Nfa, a: ThreadWorklist, b: ThreadWorklist, v: int)
    requires
        closure_done(nfa, a, v),
        forall|i: int| bitmap_has(a.visited@, i) ==> bitmap_has(b.visited@, i),
        kept_threads(a, b),
    ensures
        closure_done(nfa, b, v),
{
    if (nfa.states@[v].transitions@.len() > 0 || nfa.states@[v].is_match) && b.count < MAX_THREADS {
        let t = choose|t: int| 0 <= t < a.count && #[trigger] a.states@[t] == v;
        assert(b.states@[t] == v);
    }
    assert forall|x: int|
        0 <= x < nfa.states@.len() && eps_to(nfa.states@[v], x) implies #[trigger] bitmap_has(
        b.visited@,
        x,
    ) by {
        assert(bitmap_has(a.visited@, x));
    }
}

proof fn lemma_closed_keep(nfa: Nfa, input: Seq<u8>, pos: int, a: ThreadWorklist, b: ThreadWorklist, stack: Set<int>)
    requires
        closed_at(nfa, input, pos, a, stack),
        b.visited == a.visited,
        kept_threads(a, b),
    ensures
        closed_at(nfa, input, pos, b, stack),
{
    assert forall|v: int|
        0 <= v < nfa.states@.len() && #[trigger] bitmap_has(b.visited@, v) && !stack.contains(v)
            && plain_pass(nfa, input, pos, v) implies closure_done(nfa, b, v) by {
        assert(bitmap_has(a.visited@, v));
        lemma_done_grow(nfa, a, b, v);
    }
}

proof fn lemma_closed_mark(nfa: Nfa, input: Seq<u8>, pos: int, a: ThreadWorklist, b: ThreadWorklist, stack: Set<int>, s: int)
    requires
        closed_at(nfa, input, pos, a, stack),
        forall|i: int| bitmap_has(b.visited@, i) ==> bitmap_has(a.visited@, i) || i == s,
        forall|i: int| bitmap_has(a.visited@, i) ==> bitmap_has(b.visited@, i),
        kept_threads(a, b),
    ensures
        closed_at(nfa, input, pos, b, stack.insert(s)),
{
    assert forall|v: int|
        0 <= v < nfa.states@.len() && #[trigger] bitmap_has(b.visited@, v) && !stack.insert(s).contains(
            v,
        ) && plain_pass(nfa, input, pos, v) implies closure_done(nfa, b, v) by {
        assert(bitmap_has(a.visited@, v));
        lemma_done_grow(nfa, a, b, v);
    }
}

proof fn lemma_closed_drop(nfa: Nfa, input: Seq<u8>, pos: int, w: ThreadWorklist, stack: Set<int>, s: int)
    requires
        closed_at(nfa, input, pos, w, stack.insert(s)),
        0 <= s < nfa.states@.len() && plain_pass(nfa, input, pos, s) ==> closure_done(nfa, w, s),
    ensures
        closed_at(nfa, input, pos, w, stack),
{
    assert forall|v: int|
        0 <= v < nfa.states@.len() && #[trigger] bitmap_has(w.visited@, v) && !stack.contains(v)
            && plain_pass(nfa, input, pos, v) implies closure_done(nfa, w, v) by {
        if v != s {
            assert(!stack.insert(s).contains(v));
        }
    }
}

/// A plain path from a visited state, in a list closed at `pos`, ends at a visited state.
proof fn lemma_closed_path(nfa: Nfa, input: Seq<u8>, pos: int, w: ThreadWorklist, p: Seq<int>)
    requires
        closed_at(nfa, input, pos, w, Set::empty()),
        p.len() >= 1,
        bitmap_has(w.visited@, p[0]),
        0 <= p[0] < nfa.states@.len(),
        forall|i: int| 0 <= i < p.len() - 1 ==> #[trigger] plain_link(nfa, input, pos, p, i),
    ensures
        bitmap_has(w.visited@, p.last()),
    decreases p.len(),
{
    if p.len() > 1 {
        assert(plain_link(nfa, input, pos, p, 0));
        assert(!Set::<int>::empty().contains(p[0]));
        assert(closure_done(nfa, w, p[0]));
        assert(bitmap_has(w.visited@, p[1]));
        let q = p.drop_first();
        assert forall|i: int| 0 <= i < q.len() - 1 implies #[trigger] plain_link(nfa, input, pos, q, i) by {
            assert(plain_link(nfa, input, pos, p, i + 1));
        }
        lemma_closed_path(nfa, input, pos, w, q);
        assert(q.last() == p.last());
    }
}

proof fn lemma_unmarked_le(v: Seq<u64>, k: int)
    ensures
        unmarked(v, k) <= if k < 0 {
            0
        } else {
            k
        },
    decreases k,
{
    if k > 0 {
        lemma_unmarked_le(v, k - 1);
    }
}

proof fn lemma_mul_le(a: int, b: int, c: int)
    requires
        0 <= a <= b,
        0 <= c,
    ensures
        a * c <= b * c,
{
    assert(a * c <= b * c) by (nonlinear_arith)
        requires
            0 <= a <= b,
            0 <= c,
    ;
}

proof fn lemma_kept_trans(a: ThreadWorklist, b: ThreadWorklist, c: ThreadWorklist)
    requires
        kept_threads(a, b),
        kept_threads(b, c),
        a.stride == b.stride,
    ensures
        kept_threads(a, c),
{
    lemma_mul_le(a.count as int, b.count as int, a.stride as int);
}

/// Group `g` as thread `t` of `w` recorded it: both bounds set, or nothing.
pub open spec fn thread_group(w: ThreadWorklist, t: int, g: int) -> Option<(usize, usize)> {
    let s = w.captures@[t * w.stride + g * 2];
    let e = w.captures@[t * w.stride + g * 2 + 1];
    if s >= 0 && e >= 0 {
        Some((s as usize, e as usize))
    } else {
        None
    }
}

/// Whether the state has an epsilon transition to `t`.
pub open spec fn eps_to(st: NfaState, t: int) -> bool {
    exists|i: int| 0 <= i < st.epsilon@.len() && st.epsilon@[i] == t
}

/// Whether the state has a byte transition on `b` to `t`.
pub open spec fn byte_to(st: NfaState, b: u8, t: int) -> bool {
    exists|i: int|
        0 <= i < st.transitions@.len() && st.transitions@[i].1 == t && st.transitions@[i].0.start
            <= b <= st.transitions@[i].0.end
}

/// One move of the automaton between (state, position) pairs: an epsilon
/// transition, a byte transition over the byte at the position, or, at a
/// backreference state, a move ahead by any number of bytes to the state
/// itself or along an epsilon transition. Assertions are not modelled.
pub open spec fn moves(nfa: Nfa, input: Seq<u8>, a: (int, int), b: (int, int)) -> bool {
    &&& 0 <= a.0 < nfa.states@.len()
    &&& {
        let st = nfa.states@[a.0];
        ||| (b.1 == a.1 && eps_to(st, b.0))
        ||| (0 <= a.1 < input.len() && b.1 == a.1 + 1 && byte_to(st, input[a.1], b.0))
        ||| (st.instruction matches Some(NfaInstruction::Backref(_)) && b.1 >= a.1 && (b.0 == a.0
            || eps_to(st, b.0)))
    }
}

/// Whether entries `i` and `i + 1` of `p` are one move apart.
pub open spec fn move_link(nfa: Nfa, input: Seq<u8>, p: Seq<(int, int)>, i: int) -> bool {
    moves(nfa, input, p[i], p[i + 1])
}

/// Whether the automaton can get from `a` to `b` in zero or more moves.
pub open spec fn runs(nfa: Nfa, input: Seq<u8>, a: (int, int), b: (int, int)) -> bool {
    exists|p: Seq<(int, int)>|
        #![trigger p[0], p.last()]
        p.len() >= 1 && p[0] == a && p.last() == b && forall|i: int|
            0 <= i < p.len() - 1 ==> #[trigger] move_link(nfa, input, p, i)
}

/// Whether the automaton, started at `s`, can be in a match state at `e`.
pub open spec fn accepts(nfa: Nfa, input: Seq<u8>, s: int, e: int) -> bool {
    exists|m: int|
        0 <= m < nfa.states@.len() && #[trigger] nfa.states@[m].is_match && runs(
            nfa,
            input,
            (nfa.start as int, s),
            (m, e),
        )
}

/// Whether the check of state `v` can pass at `pos`: a text assertion where it
/// holds, a positive lookaround where its body matches, any other state
/// always.
pub open spec fn sound_pass(nfa: Nfa, input: Seq<u8>, pos: int, v: int) -> bool {
    match nfa.states@[v].instruction {
        Some(NfaInstruction::StartOfText) => pos == 0,
        Some(NfaInstruction::EndOfText) => pos == input.len(),
        Some(NfaInstruction::StartOfLine) => pos == 0 || input[pos - 1] == 10,
        Some(NfaInstruction::EndOfLine) => pos == input.len() || input[pos] == 10,
        Some(NfaInstruction::WordBoundary) => word_boundary_at(input, pos),
        Some(NfaInstruction::NotWordBoundary) => !word_boundary_at(input, pos),
        Some(NfaInstruction::PositiveLookahead(b)) => lookahead_holds(*b, input, pos),
        Some(NfaInstruction::PositiveLookbehind(b)) => lookbehind_holds(*b, input, pos),
        _ => true,
    }
}

/// One move of the automaton that checks assertions: from a state whose check
/// can pass, along an epsilon transition or over the byte at the position.
pub open spec fn checked_moves(nfa: Nfa, input: Seq<u8>, a: (int, int), b: (int, int)) -> bool {
    &&& 0 <= a.0 < nfa.states@.len()
    &&& sound_pass(nfa, input, a.1, a.0)
    &&& {
        let st = nfa.states@[a.0];
        ||| (b.1 == a.1 && eps_to(st, b.0))
        ||| (0 <= a.1 < input.len() && b.1 == a.1 + 1 && byte_to(st, input[a.1], b.0))
    }
}

/// Whether entries `i` and `i + 1` of `p` are one checked move apart.
pub open spec fn checked_link(nfa: Nfa, input: Seq<u8>, p: Seq<(int, int)>, i: int) -> bool {
    checked_moves(nfa, input, p[i], p[i + 1])
}

/// Whether the automaton can get from `a` to `b` in zero or more checked moves.
pub open spec fn checked_runs(nfa: Nfa, input: Seq<u8>, a: (int, int), b: (int, int)) -> bool {
    exists|p: Seq<(int, int)>|
        #![trigger p[0], p.last()]
        p.len() >= 1 && p[0] == a && p.last() == b && forall|i: int|
            0 <= i < p.len() - 1 ==> #[trigger] checked_link(nfa, input, p, i)
}

/// Whether the automaton, started at `s`, reaches a match state whose check
/// can pass at `e` by checked moves: a match that honours every text
/// assertion and every positive lookaround on the way.
pub open spec fn checked_accepts(nfa: Nfa, input: Seq<u8>, s: int, e: int) -> bool {
    exists|m: int|
        0 <= m < nfa.states@.len() && #[trigger] nfa.states@[m].is_match && sound_pass(nfa, input, e, m)
            && checked_runs(nfa, input, (nfa.start as int, s), (m, e))
}

/// Whether every thread of the list sits at a state that checked moves from
/// `start` reach at `pos` and whose check can pass there.
pub open spec fn list_checked(w: ThreadWorklist, nfa: Nfa, input: Seq<u8>, start: int, pos: int) -> bool {
    forall|t: int|
        0 <= t < w.count ==> checked_runs(nfa, input, (nfa.start as int, start), (#[trigger] w.states@[t] as int, pos))
            && sound_pass(nfa, input, pos, w.states@[t] as int)
}

/// Whether state `q` records capture slot `k`: slot `2i` where group `i`
/// starts, slot `2i + 1` where it ends.
pub open spec fn writes_slot(nfa: Nfa, q: int, k: int) -> bool {
    &&& 0 <= q < nfa.states@.len()
    &&& match nfa.states@[q].instruction {
        Some(NfaInstruction::CaptureStart(i)) => k == 2 * i,
        Some(NfaInstruction::CaptureEnd(i)) => k == 2 * i + 1,
        _ => false,
    }
}

/// The captures that the liveness analysis counts as written at a state are
/// exactly the groups below 64 one of whose two slots the interpreter records
/// there: the start slot `2i` or the end slot `2i + 1`.
pub proof fn lemma_writes_are_recorded_slots(nfa: Nfa, q: int, i: int)
    requires
        0 <= q < nfa.states@.len(),
    ensures
        writes_of(nfa.states@[q]).contains(i) <==> (0 <= i < 64 && (writes_slot(nfa, q, 2 * i) || writes_slot(
            nfa,
            q,
            2 * i + 1,
        ))),
{
}

/// The position at which the run `p` last recorded capture slot `k`, or -1.
pub open spec fn recorded(nfa: Nfa, p: Seq<(int, int)>, k: int) -> int
    decreases p.len(),
{
    if p.len() == 0 {
        -1
    } else if writes_slot(nfa, p.last().0, k) {
        p.last().1
    } else {
        recorded(nfa, p.drop_last(), k)
    }
}

/// A group's span from its two slots: both set, or nothing.
pub open spec fn slot_span(s: int, e: int) -> Option<(usize, usize)> {
    if s >= 0 && e >= 0 {
        Some((s as usize, e as usize))
    } else {
        None
    }
}

/// Whether `p` is a checked run from the start state at `start` to state `q`
/// at `pos`.
pub open spec fn checked_path(nfa: Nfa, input: Seq<u8>, p: Seq<(int, int)>, start: int, q: int, pos: int) -> bool {
    &&& p.len() >= 1
    &&& p[0] == (nfa.start as int, start)
    &&& p.last() == (q, pos)
    &&& forall|i: int| 0 <= i < p.len() - 1 ==> #[trigger] checked_link(nfa, input, p, i)
}

/// Whether the capture groups `c` are those that a checked run from `start`
/// to a match state at the end of group 0 records: group 0 spans the match,
/// and each other group spans the positions the run last recorded for it.
pub open spec fn captures_recorded(nfa: Nfa, input: Seq<u8>, start: int, c: Seq<Option<(usize, usize)>>) -> bool {
    &&& c.len() == nfa.capture_count + 1
    &&& c[0] matches Some((s, e)) && s == start && exists|p: Seq<(int, int)>, m: int|
        #[trigger] checked_path(nfa, input, p, start, m, e as int) && 0 <= m < nfa.states@.len()
            && nfa.states@[m].is_match && sound_pass(nfa, input, e as int, m) && forall|g: int|
            1 <= g <= nfa.capture_count ==> #[trigger] c[g] == slot_span(
                recorded(nfa, p, 2 * g),
                recorded(nfa, p, 2 * g + 1),
            )
}

/// The value a spawned thread's capture slot `k` takes before its own state
/// records anything: the last pending update, else the source thread's slot,
/// else -1.
pub open spec fn seeded(source: Option<(&ThreadWorklist, usize)>, pending: Seq<(usize, i64)>, k: int) -> int {
    match pending_last(pending, k) {
        Some(v) => v as int,
        None => match source {
            Some((src, idx)) => src.captures@[idx * src.stride + k] as int,
            None => -1,
        },
    }
}

/// Whether spawning a thread at state `q` keeps capture slot `k` from its
/// source: always without sparse copying, else for group 0 and the groups in
/// the state's copy mask.
pub open spec fn slot_kept(sparse: bool, l: NfaLiveness, q: int, k: int) -> bool {
    ||| !sparse
    ||| k < 2
    ||| (0 <= q < l.states@.len() && l.states@[q].copy_mask@.contains(k / 2))
}

/// Whether every state marked as matching is listed among the match states.
pub open spec fn matches_listed(nfa: Nfa) -> bool {
    forall|s: int|
        0 <= s < nfa.states@.len() && #[trigger] nfa.states@[s].is_match ==> nfa.matches@.contains(
            s as StateId,
        )
}

/// A slot kept after a transition is kept before it.
proof fn lemma_kept_along_edge(sparse: bool, l: NfaLiveness, nfa: Nfa, q: int, q2: int, k: int)
    requires
        sparse ==> liveness_of(nfa, l),
        has_edge(nfa.states@, q, q2),
        0 <= q2 < nfa.states@.len(),
        slot_kept(sparse, l, q2, k),
    ensures
        slot_kept(sparse, l, q, k),
{
    if sparse && k >= 2 {
        assert(l.states@[q2].live_reads@ == crate::nfa::tagged::liveness::live_at(nfa, q2));
        lemma_live_along_edge(nfa, q, q2, k / 2);
        assert(l.states@[q].live_reads@ == crate::nfa::tagged::liveness::live_at(nfa, q));
    }
}

/// At a listed match state every slot of a group below 64 is kept.
proof fn lemma_kept_at_match(sparse: bool, l: NfaLiveness, nfa: Nfa, m: int, k: int)
    requires
        sparse ==> liveness_of(nfa, l) && nfa.capture_count < 64 && matches_listed(nfa),
        0 <= m < nfa.states@.len(),
        nfa.states@[m].is_match,
        2 <= k < (nfa.capture_count + 1) * 2,
    ensures
        slot_kept(sparse, l, m, k),
{
    if sparse {
        assert(nfa.matches@.contains(m as StateId));
        assert(0 <= k / 2 <= nfa.capture_count);
        lemma_live_at_match(nfa, m, k / 2);
        assert(l.states@[m].live_reads@ == crate::nfa::tagged::liveness::live_at(nfa, m));
    }
}

/// Whether thread `t`'s capture slots that spawning kept, but group 0's, are
/// those a checked run to its state records.
pub open spec fn thread_recorded(
    w: ThreadWorklist,
    nfa: Nfa,
    input: Seq<u8>,
    start: int,
    pos: int,
    t: int,
    sparse: bool,
    l: NfaLiveness,
) -> bool {
    exists|p: Seq<(int, int)>|
        #[trigger] checked_path(nfa, input, p, start, w.states@[t] as int, pos) && forall|k: int|
            2 <= k < w.stride && slot_kept(sparse, l, w.states@[t] as int, k) ==> #[trigger] w.captures@[t
                * w.stride + k] == recorded(nfa, p, k)
}

/// Whether every thread of the list has the kept capture slots of a checked run.
pub open spec fn list_recorded(
    w: ThreadWorklist,
    nfa: Nfa,
    input: Seq<u8>,
    start: int,
    pos: int,
    sparse: bool,
    l: NfaLiveness,
) -> bool {
    forall|t: int| 0 <= t < w.count ==> #[trigger] thread_recorded(w, nfa, input, start, pos, t, sparse, l)
}

/// Whether the slots past the list's threads are unset.
pub open spec fn fresh_tail(w: ThreadWorklist) -> bool {
    forall|i: int| w.count * w.stride <= i < w.captures@.len() ==> #[trigger] w.captures@[i] == -1
}

/// Lists with the same threads and slots are alike recorded.
proof fn lemma_list_recorded_keep(
    a: ThreadWorklist,
    b: ThreadWorklist,
    nfa: Nfa,
    input: Seq<u8>,
    start: int,
    pos: int,
    sparse: bool,
    l: NfaLiveness,
)
    requires
        list_recorded(a, nfa, input, start, pos, sparse, l),
        b.count >= a.count,
        b.stride == a.stride,
        a.stride >= 2,
        a.count <= MAX_THREADS,
        forall|t: int| 0 <= t < a.count ==> #[trigger] b.states@[t] == a.states@[t],
        forall|k: int| 0 <= k < a.count * a.stride ==> #[trigger] b.captures@[k] == a.captures@[k],
    ensures
        forall|t: int| 0 <= t < a.count ==> #[trigger] thread_recorded(b, nfa, input, start, pos, t, sparse, l),
{
    assert forall|t: int| 0 <= t < a.count implies #[trigger] thread_recorded(b, nfa, input, start, pos, t, sparse, l) by {
        assert(thread_recorded(a, nfa, input, start, pos, t, sparse, l));
        let p = choose|p: Seq<(int, int)>|
            #[trigger] checked_path(nfa, input, p, start, a.states@[t] as int, pos) && forall|k: int|
                2 <= k < a.stride && slot_kept(sparse, l, a.states@[t] as int, k) ==> #[trigger] a.captures@[t
                    * a.stride + k] == recorded(nfa, p, k);
        assert forall|k: int| 2 <= k < b.stride && slot_kept(sparse, l, b.states@[t] as int, k) implies #[trigger] b.captures@[t * b.stride + k] == recorded(
            nfa,
            p,
            k,
        ) by {
            let st = a.stride as int;
            assert(0 <= t * st + k < a.count * st) by (nonlinear_arith)
                requires
                    0 <= t < a.count,
                    0 <= k < st,
            ;
            assert(a.captures@[t * a.stride + k] == recorded(nfa, p, k));
        }
        assert(checked_path(nfa, input, p, start, b.states@[t] as int, pos));
    }
}

/// Whether the best-match slots, but group 0's, are those a checked run from
/// `start` to a match state at `end` records.
pub open spec fn best_recorded(nfa: Nfa, input: Seq<u8>, start: int, end: int, best: Seq<i64>) -> bool {
    exists|p: Seq<(int, int)>, m: int|
        #[trigger] checked_path(nfa, input, p, start, m, end) && 0 <= m < nfa.states@.len()
            && nfa.states@[m].is_match && sound_pass(nfa, input, end, m) && forall|k: int|
            2 <= k < best.len() ==> #[trigger] best[k] == recorded(nfa, p, k)
}

/// Setting group 0's start slot of a thread keeps every thread's recorded slots.
proof fn lemma_list_recorded_slot0(
    a: ThreadWorklist,
    b: ThreadWorklist,
    nfa: Nfa,
    input: Seq<u8>,
    start: int,
    pos: int,
    t0: int,
    v: i64,
    sparse: bool,
    l: NfaLiveness,
)
    requires
        list_recorded(a, nfa, input, start, pos, sparse, l),
        0 <= t0 < MAX_THREADS,
        a.stride >= 2,
        a.count <= MAX_THREADS,
        a.captures@.len() == MAX_THREADS * a.stride,
        b.count == a.count,
        b.stride == a.stride,
        b.states == a.states,
        b.captures@ == a.captures@.update(t0 * a.stride, v),
    ensures
        list_recorded(b, nfa, input, start, pos, sparse, l),
{
    assert forall|t: int| 0 <= t < b.count implies #[trigger] thread_recorded(b, nfa, input, start, pos, t, sparse, l) by {
        assert(thread_recorded(a, nfa, input, start, pos, t, sparse, l));
        let p = choose|p: Seq<(int, int)>|
            #[trigger] checked_path(nfa, input, p, start, a.states@[t] as int, pos) && forall|k: int|
                2 <= k < a.stride && slot_kept(sparse, l, a.states@[t] as int, k) ==> #[trigger] a.captures@[t
                    * a.stride + k] == recorded(nfa, p, k);
        assert forall|k: int| 2 <= k < b.stride && slot_kept(sparse, l, b.states@[t] as int, k) implies #[trigger] b.captures@[t * b.stride + k] == recorded(
            nfa,
            p,
            k,
        ) by {
            let st = a.stride as int;
            if t < t0 {
                lemma_mul_le(t + 1, t0, st);
                assert((t + 1) * st == t * st + st) by (nonlinear_arith);
            } else if t > t0 {
                lemma_mul_le(t0 + 1, t, st);
                assert((t0 + 1) * st == t0 * st + st) by (nonlinear_arith);
            }
            assert(t * st + k != t0 * st);
            lemma_slot(t, st, k);
            lemma_slot(t0, st, 0);
            assert(0 <= t * st + k < a.captures@.len());
            assert(b.captures@[t * st + k] == a.captures@[t * st + k]);
            assert(a.captures@[t * a.stride + k] == recorded(nfa, p, k));
            assert(t * b.stride + k == t * st + k);
        }
        assert(checked_path(nfa, input, p, start, b.states@[t] as int, pos));
    }
}

/// Whether the automaton has fewer than `MAX_THREADS` states and none with a
/// lookaround or a backreference: its checks are then known wherever they pass.
pub open spec fn plain_checks(nfa: Nfa) -> bool {
    &&& nfa.states@.len() < MAX_THREADS
    &&& forall|s: int|
        0 <= s < nfa.states@.len() ==> match #[trigger] nfa.states@[s].instruction {
            Some(NfaInstruction::PositiveLookahead(_)) => false,
            Some(NfaInstruction::NegativeLookahead(_)) => false,
            Some(NfaInstruction::PositiveLookbehind(_)) => false,
            Some(NfaInstruction::NegativeLookbehind(_)) => false,
            Some(NfaInstruction::Backref(_)) => false,
            _ => true,
        }
}

/// Every prefix of a checked run of such an automaton ends at a plainly
/// reachable state.
proof fn lemma_checked_prefix_plain(nfa: Nfa, input: Seq<u8>, start: int, p: Seq<(int, int)>, j: int)
    requires
        interp_ready(nfa),
        plain_checks(nfa),
        0 <= start <= input.len(),
        (nfa.start as int) < nfa.states@.len(),
        p.len() >= 1,
        p[0] == (nfa.start as int, start),
        forall|i: int| 0 <= i < p.len() - 1 ==> #[trigger] checked_link(nfa, input, p, i),
        0 <= j < p.len(),
    ensures
        start <= p[j].1 <= input.len(),
        0 <= p[j].0 < nfa.states@.len(),
        plain_reach(nfa, input, start, p[j].1, p[j].0),
    decreases j,
{
    if j == 0 {
        lemma_path_refl(nfa, input, start, nfa.start as int);
    } else {
        lemma_checked_prefix_plain(nfa, input, start, p, j - 1);
        assert(checked_link(nfa, input, p, j - 1));
        let a = p[j - 1];
        let b = p[j];
        let st = nfa.states@[a.0];
        assert(plain_pass(nfa, input, a.1, a.0)) by {
            let instr = nfa.states@[a.0].instruction;
            assert(match instr {
                Some(NfaInstruction::PositiveLookahead(_)) => false,
                Some(NfaInstruction::NegativeLookahead(_)) => false,
                Some(NfaInstruction::PositiveLookbehind(_)) => false,
                Some(NfaInstruction::NegativeLookbehind(_)) => false,
                Some(NfaInstruction::Backref(_)) => false,
                _ => true,
            });
            assert(sound_pass(nfa, input, a.1, a.0));
        }
        if b.1 == a.1 && eps_to(st, b.0) {
            let i = choose|i: int| 0 <= i < st.epsilon@.len() && st.epsilon@[i] == b.0;
            assert((nfa.states@[a.0].epsilon@[i] as int) < nfa.states@.len());
            assert(plain_step(nfa, input, a.1, a.0, b.0));
            lemma_reach_eps(nfa, input, start, a.1, a.0, b.0);
        } else {
            let i = choose|i: int|
                0 <= i < st.transitions@.len() && st.transitions@[i].1 == b.0
                    && st.transitions@[i].0.start <= input[a.1] <= st.transitions@[i].0.end;
            assert((nfa.states@[a.0].transitions@[i].1 as int) < nfa.states@.len());
            assert(plain_byte(nfa, input, a.1, a.0, b.0));
            lemma_reach_byte(nfa, input, start, a.1, a.0, b.0);
        }
    }
}

/// In such an automaton a checked match from `start` is one the simulation
/// is known to find.
pub proof fn lemma_checked_known(nfa: Nfa, input: Seq<u8>, start: int, e: int)
    requires
        interp_ready(nfa),
        plain_checks(nfa),
        0 <= start <= input.len(),
        checked_accepts(nfa, input, start, e),
    ensures
        match_known_from(nfa, input, start),
{
    let m = choose|m: int|
        0 <= m < nfa.states@.len() && #[trigger] nfa.states@[m].is_match && sound_pass(nfa, input, e, m)
            && checked_runs(nfa, input, (nfa.start as int, start), (m, e));
    let p = choose|p: Seq<(int, int)>|
        #![trigger p[0], p.last()]
        p.len() >= 1 && p[0] == (nfa.start as int, start) && p.last() == (m, e) && forall|i: int|
            0 <= i < p.len() - 1 ==> #[trigger] checked_link(nfa, input, p, i);
    if p.len() == 1 {
        assert(p[0] == p.last());
    } else {
        assert(checked_link(nfa, input, p, 0));
    }
    lemma_checked_prefix_plain(nfa, input, start, p, p.len() - 1);
    assert(p[p.len() - 1] == (m, e));
    assert(plain_pass(nfa, input, e, m)) by {
        assert(match nfa.states@[m].instruction {
            Some(NfaInstruction::PositiveLookahead(_)) => false,
            Some(NfaInstruction::NegativeLookahead(_)) => false,
            Some(NfaInstruction::PositiveLookbehind(_)) => false,
            Some(NfaInstruction::NegativeLookbehind(_)) => false,
            Some(NfaInstruction::Backref(_)) => false,
            _ => true,
        });
    }
    assert(plain_match(nfa, input, e, m));
    assert forall|s: int| 0 <= s < nfa.states@.len() implies !(#[trigger] nfa.states@[s].instruction matches Some(
        NfaInstruction::Backref(_),
    )) by {
        assert(match nfa.states@[s].instruction {
            Some(NfaInstruction::Backref(_)) => false,
            _ => true,
        });
    }
    assert(plain_reach(nfa, input, start, e, m));
}

/// The checked run that stays put.
proof fn lemma_checked_refl(nfa: Nfa, input: Seq<u8>, a: (int, int))
    ensures
        checked_runs(nfa, input, a, a),
{
    let p = seq![a];
    assert(p[0] == a && p.last() == a);
}

/// A checked run followed by a checked move is a checked run.
proof fn lemma_checked_step(nfa: Nfa, input: Seq<u8>, a: (int, int), b: (int, int), c: (int, int))
    requires
        checked_runs(nfa, input, a, b),
        checked_moves(nfa, input, b, c),
    ensures
        checked_runs(nfa, input, a, c),
{
    let p = choose|p: Seq<(int, int)>|
        #![trigger p[0], p.last()]
        p.len() >= 1 && p[0] == a && p.last() == b && forall|i: int|
            0 <= i < p.len() - 1 ==> #[trigger] checked_link(nfa, input, p, i);
    let q = p.push(c);
    assert forall|i: int| 0 <= i < q.len() - 1 implies #[trigger] checked_link(nfa, input, q, i) by {
        if i < p.len() - 1 {
            assert(checked_link(nfa, input, p, i));
            assert(q[i] == p[i] && q[i + 1] == p[i + 1]);
        } else {
            assert(q[i] == b && q[i + 1] == c);
        }
    }
    assert(q[0] == a && q.last() == c);
}

/// Lists with the same threads are alike checked.
proof fn lemma_list_checked_same(a: ThreadWorklist, b: ThreadWorklist, nfa: Nfa, input: Seq<u8>, start: int, pos: int)
    requires
        list_checked(a, nfa, input, start, pos),
        a.count == b.count,
        a.states@ == b.states@,
    ensures
        list_checked(b, nfa, input, start, pos),
{
    assert forall|t: int| 0 <= t < b.count implies checked_runs(
        nfa,
        input,
        (nfa.start as int, start),
        (#[trigger] b.states@[t] as int, pos),
    ) && sound_pass(nfa, input, pos, b.states@[t] as int) by {
        assert(a.states@[t] == b.states@[t]);
        assert(checked_runs(nfa, input, (nfa.start as int, start), (a.states@[t] as int, pos)));
    }
}

/// Whether every thread of the list is at a state the automaton can reach,
/// started at `s0`, by position `at`.
pub open spec fn threads_run(w: ThreadWorklist, nfa: Nfa, input: Seq<u8>, s0: int, at: int) -> bool {
    forall|t: int|
        0 <= t < w.count ==> runs(nfa, input, (nfa.start as int, s0), (#[trigger] w.states@[t] as int, at))
}

/// The automaton can stay where it is.
pub proof fn lemma_runs_refl(nfa: Nfa, input: Seq<u8>, a: (int, int))
    ensures
        runs(nfa, input, a, a),
{
    let p = seq![a];
    assert(p[0] == a && p.last() == a);
}

/// A run followed by a move is a run.
pub proof fn lemma_runs_step(nfa: Nfa, input: Seq<u8>, a: (int, int), b: (int, int), c: (int, int))
    requires
        runs(nfa, input, a, b),
        moves(nfa, input, b, c),
    ensures
        runs(nfa, input, a, c),
{
    let p = choose|p: Seq<(int, int)>|
        #![trigger p[0], p.last()]
        p.len() >= 1 && p[0] == a && p.last() == b && forall|i: int|
            0 <= i < p.len() - 1 ==> #[trigger] move_link(nfa, input, p, i);
    let q = p.push(c);
    assert forall|i: int| 0 <= i < q.len() - 1 implies #[trigger] move_link(nfa, input, q, i) by {
        if i < p.len() - 1 {
            assert(move_link(nfa, input, p, i));
            assert(q[i] == p[i] && q[i + 1] == p[i + 1]);
        } else {
            assert(q[i] == b && q[i + 1] == c);
        }
    }
    assert(q[0] == a && q.last() == c);
}

/// Two runs, one after the other, make a run.
pub proof fn lemma_runs_trans(nfa: Nfa, input: Seq<u8>, a: (int, int), b: (int, int), c: (int, int))
    requires
        runs(nfa, input, a, b),
        runs(nfa, input, b, c),
    ensures
        runs(nfa, input, a, c),
{
    let p = choose|p: Seq<(int, int)>|
        #![trigger p[0], p.last()]
        p.len() >= 1 && p[0] == a && p.last() == b && forall|i: int|
            0 <= i < p.len() - 1 ==> #[trigger] move_link(nfa, input, p, i);
    let q = choose|q: Seq<(int, int)>|
        #![trigger q[0], q.last()]
        q.len() >= 1 && q[0] == b && q.last() == c && forall|i: int|
            0 <= i < q.len() - 1 ==> #[trigger] move_link(nfa, input, q, i);
    let r = p + q.skip(1);
    assert forall|i: int| 0 <= i < r.len() - 1 implies #[trigger] move_link(nfa, input, r, i) by {
        if i < p.len() - 1 {
            assert(move_link(nfa, input, p, i));
            assert(r[i] == p[i] && r[i + 1] == p[i + 1]);
        } else {
            let j = i - (p.len() - 1);
            assert(move_link(nfa, input, q, j));
            assert(r[i] == q[j]);
            assert(r[i + 1] == q[j + 1]);
        }
    }
    if q.len() == 1 {
        assert(r =~= p);
    } else {
        assert(r.last() == q.last());
    }
    assert(r[0] == a);
}

/// Whether `g` is among the first `j` entries of `s`.
pub open spec fn in_prefix(s: Seq<u32>, j: int, g: int) -> bool {
    exists|i: int| 0 <= i < j && s[i] == g
}

proof fn lemma_in_prefix_step(s: Seq<u32>, j: int, g: int)
    requires
        0 <= j < s.len(),
    ensures
        in_prefix(s, j + 1, g) <==> (in_prefix(s, j, g) || s[j] == g),
{
    if s[j] == g {
        assert(0 <= j < j + 1 && s[j] == g);
    }
}

proof fn lemma_unmarked_grow(a: Seq<u64>, b: Seq<u64>, k: int)
    requires
        forall|i: int| bitmap_has(a, i) ==> bitmap_has(b, i),
    ensures
        unmarked(b, k) <= unmarked(a, k),
    decreases k,
{
    if k > 0 {
        lemma_unmarked_grow(a, b, k - 1);
    }
}

proof fn lemma_unmarked_mark(a: Seq<u64>, b: Seq<u64>, s: int, k: int)
    requires
        forall|i: int| bitmap_has(b, i) <==> bitmap_has(a, i) || i == s,
        0 <= s < k,
        !bitmap_has(a, s),
    ensures
        unmarked(b, k) < unmarked(a, k),
    decreases k,
{
    if k - 1 == s {
        lemma_unmarked_grow(a, b, k - 1);
    } else {
        lemma_unmarked_mark(a, b, s, k - 1);
    }
}

proof fn lemma_word_in_map(s: int, n: int)
    requires
        0 <= s < n,
    ensures
        s / 64 < words_for(n),
{
    assert(s / 64 < (n + 63) / 64) by (nonlinear_arith)
        requires
            0 <= s < n,
    ;
}

proof fn lemma_slot(t: int, stride: int, k: int)
    requires
        0 <= t < MAX_THREADS,
        0 <= k < stride,
    ensures
        0 <= t * stride + k < MAX_THREADS * stride,
{
    assert(t * stride + k < MAX_THREADS * stride) by (nonlinear_arith)
        requires
            0 <= t < MAX_THREADS,
            0 <= k < stride,
    ;
    assert(0 <= t * stride) by (nonlinear_arith)
        requires
            0 <= t,
            0 <= k < stride,
    ;
}

/// Whether the bytes at `a` and at `b`, `n` of each, are the same.
fn same_bytes(input: &[u8], a: usize, b: usize, n: usize) -> (r: bool)
    requires
        a + n <= input@.len(),
        b + n <= input@.len(),
    ensures
        r == (input@.subrange(a as int, a + n) == input@.subrange(b as int, b + n)),
{
    let _ = input.len();
    let mut i: usize = 0;
    while i < n
        invariant
            input@.len() <= usize::MAX,
            i <= n,
            a + n <= input@.len(),
            b + n <= input@.len(),
            input@.subrange(a as int, a + i) == input@.subrange(b as int, b + i),
        decreases n - i,
    {
        if input[a + i] != input[b + i] {
            proof {
                assert(input@.subrange(a as int, a + n)[i as int] != input@.subrange(
                    b as int,
                    b + n,
                )[i as int]);
            }
            return false;
        }
        proof {
            assert(input@.subrange(a as int, a + i + 1) =~= input@.subrange(a as int, a + i).push(
                input@[a + i],
            ));
            assert(input@.subrange(b as int, b + i + 1) =~= input@.subrange(b as int, b + i).push(
                input@[b + i],
            ));
        }
        i = i + 1;
    }
    true
}

/// Whether `pos` is at a word boundary.
fn word_boundary(input: &[u8], pos: usize) -> (b: bool)
    requires
        pos <= input@.len(),
    ensures
        b == word_boundary_at(input@, pos as int),
{
    let prev_word = if pos > 0 {
        is_word_char(input[pos - 1])
    } else {
        false
    };
    let curr_word = if pos < input.len() {
        is_word_char(input[pos])
    } else {
        false
    };
    prev_word != curr_word
}

/// The key under which the result of the lookaround at `state` and `pos` is
/// remembered: the state and the position packed into one integer.
pub open spec fn memo_key(state: StateId, pos: usize) -> u128 {
    (state as int * 0x1_0000_0000_0000_0000 + pos as int) as u128
}

/// Distinct states or positions have distinct keys.
proof fn lemma_memo_key_injective(s1: StateId, p1: usize, s2: StateId, p2: usize)
    requires
        memo_key(s1, p1) == memo_key(s2, p2),
    ensures
        s1 == s2,
        p1 == p2,
{
    let k1 = s1 as int * 0x1_0000_0000_0000_0000 + p1 as int;
    let k2 = s2 as int * 0x1_0000_0000_0000_0000 + p2 as int;
    assert(0 <= k1 < 0x1_0000_0000_0000_0000_0000_0000) by (nonlinear_arith)
        requires
            k1 == s1 as int * 0x1_0000_0000_0000_0000 + p1 as int,
            0 <= s1 < 0x1_0000_0000,
            0 <= p1 < 0x1_0000_0000_0000_0000,
    ;
    assert(0 <= k2 < 0x1_0000_0000_0000_0000_0000_0000) by (nonlinear_arith)
        requires
            k2 == s2 as int * 0x1_0000_0000_0000_0000 + p2 as int,
            0 <= s2 < 0x1_0000_0000,
            0 <= p2 < 0x1_0000_0000_0000_0000,
    ;
    assert(k1 == k2);
    assert(s1 == s2 && p1 == p2) by (nonlinear_arith)
        requires
            s1 as int * 0x1_0000_0000_0000_0000 + p1 as int == s2 as int * 0x1_0000_0000_0000_0000
                + p2 as int,
            0 <= p1 < 0x1_0000_0000_0000_0000,
            0 <= p2 < 0x1_0000_0000_0000_0000,
            0 <= s1,
            0 <= s2,
    ;
}

/// Whether every remembered lookaround result of the automaton is true at each
/// state and position where the lookaround is known to pass, and true only
/// where its check can pass.
pub open spec fn memo_ok(nfa: Nfa, input: Seq<u8>, memo: Map<u128, bool>) -> bool {
    forall|st: StateId, p: usize|
        (st as int) < nfa.states@.len() && (p as int) <= input.len() && memo.contains_key(
            #[trigger] memo_key(st, p),
        ) ==> (check_known_to_pass(nfa.states@[st as int].instruction, input, p as int, None, Seq::empty())
            ==> memo[memo_key(st, p)]) && (memo[memo_key(st, p)] ==> sound_pass(nfa, input, p as int, st as int))
}

/// Whether `instr` is the lookaround with body `inner`, looking behind or
/// ahead, positive or negative as given.
pub open spec fn is_lookaround_of(instr: Option<NfaInstruction>, inner: Nfa, behind: bool, positive: bool) -> bool {
    match instr {
        Some(NfaInstruction::PositiveLookahead(b)) => *b == inner && !behind && positive,
        Some(NfaInstruction::NegativeLookahead(b)) => *b == inner && !behind && !positive,
        Some(NfaInstruction::PositiveLookbehind(b)) => *b == inner && behind && positive,
        Some(NfaInstruction::NegativeLookbehind(b)) => *b == inner && behind && !positive,
        _ => false,
    }
}

/// Computes `memo_key`.
fn memo_key_of(state: StateId, pos: usize) -> (k: u128)
    ensures
        k == memo_key(state, pos),
{
    (state as u128) * 0x1_0000_0000_0000_0000u128 + (pos as u128)
}

/// Whether the body automaton, run on the input from `pos` on, matches.
pub open spec fn lookahead_holds(inner: Nfa, input: Seq<u8>, pos: int) -> bool {
    exists|e: int|
        0 <= e <= input.len() - pos && #[trigger] accepts(
            inner,
            input.subrange(pos, input.len() as int),
            0,
            e,
        )
}

/// Whether the body automaton matches the whole of some stretch of the input
/// that ends at `pos`.
pub open spec fn lookbehind_holds(inner: Nfa, input: Seq<u8>, pos: int) -> bool {
    exists|st: int| 0 <= st <= pos && #[trigger] accepts(inner, input.subrange(st, pos), 0, pos - st)
}

/// Whether the body of a lookaround matches at `pos`, ahead or behind.
pub open spec fn lookaround_holds(inner: Nfa, input: Seq<u8>, pos: int, behind: bool) -> bool {
    if behind {
        lookbehind_holds(inner, input, pos)
    } else {
        lookahead_holds(inner, input, pos)
    }
}

/// Whether the body automaton matches at `pos` (looking ahead) or ends a
/// match at `pos` (looking behind).
fn lookaround_found(inner: &Nfa, input: &[u8], pos: usize, behind: bool) -> (b: bool)
    requires
        interp_ready(*inner),
        pos <= input@.len(),
        input@.len() <= isize::MAX,
    ensures
        b ==> lookaround_holds(*inner, input@, pos as int, behind),
        !behind && match_known_from(*inner, input@.subrange(pos as int, input@.len() as int), 0) ==> b,
    decreases *inner, 7int, 0int,
{
    let liveness = analyze_liveness(inner);
    let interp = TaggedNfaInterpreter::new(inner, &liveness);
    if !behind {
        let rest = slice_subrange(input, pos, input.len());
        proof {
            assert(rest@ == input@.subrange(pos as int, input@.len() as int));
        }
        match interp.find(rest) {
            Some((s, e)) => {
                proof {
                    if s == 0 {
                        assert(rest@ == input@.subrange(pos as int, input@.len() as int));
                        assert(accepts(*inner, rest@, 0, e as int));
                    }
                }
                s == 0
            },
            None => false,
        }
    } else {
        let mut start: usize = 0;
        loop
            invariant
                behind,
                start <= pos,
                pos <= input@.len(),
                input@.len() <= isize::MAX,
                interp_ready(*inner),
                interp.automaton() == *inner,
                interp.stride_ok(),
            decreases pos - start,
        {
            let slice = slice_subrange(input, start, pos);
            if let Some((s, e)) = interp.find(slice) {
                if s == 0 && e == slice.len() {
                    proof {
                        assert(slice@ == input@.subrange(start as int, pos as int));
                        assert(accepts(*inner, slice@, 0, pos - start));
                    }
                    return true;
                }
            }
            if start == pos {
                return false;
            }
            start = start + 1;
        }
    }
}

// ---------------------------------------------------------------------------
// The interpreter
// ---------------------------------------------------------------------------

/// Simulates a tagged NFA thread by thread, copying only the captures that
/// liveness analysis says a spawned thread may still read.
pub struct TaggedNfaInterpreter<'a> {
    nfa: &'a Nfa,
    liveness: &'a NfaLiveness,
    stride: usize,
    /// Copy only live captures when spawning a thread.
    use_sparse_copy: bool,
}

impl<'a> TaggedNfaInterpreter<'a> {
    /// The automaton it simulates.
    pub closed spec fn automaton(&self) -> Nfa {
        *self.nfa
    }

    /// Whether spawned threads copy only the live captures.
    pub closed spec fn sparse(&self) -> bool {
        self.use_sparse_copy
    }

    /// Whether the slot count is the automaton's.
    pub closed spec fn stride_ok(&self) -> bool {
        self.stride == stride_of(*self.nfa)
    }

    /// Creates an interpreter that copies only live captures.
    pub fn new(nfa: &'a Nfa, liveness: &'a NfaLiveness) -> (i: Self)
        requires
            interp_ready(*nfa),
        ensures
            i.automaton() == *nfa,
            i.sparse(),
            i.stride_ok(),
            i.rec_ok() == (liveness_of(*nfa, *liveness) && nfa.capture_count < 64 && matches_listed(*nfa)),
    {
        let stride = (nfa.capture_count as usize + 1) * 2;
        TaggedNfaInterpreter { nfa, liveness, stride, use_sparse_copy: true }
    }

    /// Creates an interpreter that copies every capture on spawning.
    pub fn new_no_sparse(nfa: &'a Nfa, liveness: &'a NfaLiveness) -> (i: Self)
        requires
            interp_ready(*nfa),
        ensures
            i.automaton() == *nfa,
            !i.sparse(),
            i.stride_ok(),
            i.rec_ok(),
    {
        let stride = (nfa.capture_count as usize + 1) * 2;
        TaggedNfaInterpreter { nfa, liveness, stride, use_sparse_copy: false }
    }

    /// Finds the first start position with a match, and where that match ends.
    pub fn find(&self, input: &[u8]) -> (r: Option<(usize, usize)>)
        requires
            interp_ready(self.automaton()),
            self.stride_ok(),
            input@.len() <= isize::MAX,
        ensures
            r matches Some((s, e)) ==> s <= e <= input@.len() && accepts(
                self.automaton(),
                input@,
                s as int,
                e as int,
            ),
            forall|s: int|
                0 <= s <= input@.len() && #[trigger] match_known_from(self.automaton(), input@, s)
                    ==> (r matches Some((a, _)) && a <= s),
            simple_automaton(self.automaton()) ==> first_plain_match(self.automaton(), input@, 0, r),
            no_backrefs(self.automaton()) ==> (r matches Some((s, e)) ==> checked_accepts(
                self.automaton(),
                input@,
                s as int,
                e as int,
            )),
            plain_checks(self.automaton()) ==> (r is Some <==> exists|s: int, e: int|
                0 <= s <= e <= input@.len() && #[trigger] checked_accepts(self.automaton(), input@, s, e)),
        decreases self.automaton(), 6int, 0int,
    {
        proof {
            if plain_checks(*self.nfa) {
                assert forall|s: int| 0 <= s < self.nfa.states@.len() implies !(#[trigger] self.nfa.states@[s].instruction matches Some(
                    NfaInstruction::Backref(_),
                )) by {
                    assert(match self.nfa.states@[s].instruction {
                        Some(NfaInstruction::Backref(_)) => false,
                        _ => true,
                    });
                }
                assert forall|s: int, e: int|
                    0 <= s <= e <= input@.len() && #[trigger] checked_accepts(*self.nfa, input@, s, e)
                        implies match_known_from(*self.nfa, input@, s) by {
                    lemma_checked_known(*self.nfa, input@, s, e);
                }
            }
        }
        let mut start: usize = 0;
        loop
            invariant
                start <= input@.len(),
                input@.len() <= isize::MAX,
                interp_ready(*self.nfa),
                self.stride == stride_of(*self.nfa),
                forall|s: int| 0 <= s < start ==> !#[trigger] match_known_from(*self.nfa, input@, s),
                simple_automaton(*self.nfa) ==> forall|s: int|
                    0 <= s < start ==> #[trigger] longest_end(*self.nfa, input@, s) < 0,
                plain_checks(*self.nfa) ==> no_backrefs(*self.nfa) && forall|s: int, e: int|
                    0 <= s <= e <= input@.len() && #[trigger] checked_accepts(*self.nfa, input@, s, e)
                        ==> match_known_from(*self.nfa, input@, s),
            decreases input@.len() - start,
        {
            if let Some(end) = self.match_at(input, start) {
                proof {
                    if plain_checks(*self.nfa) {
                        assert(checked_accepts(*self.nfa, input@, start as int, end as int));
                    }
                }
                return Some((start, end));
            }
            if start == input.len() {
                return None;
            }
            start = start + 1;
        }
    }

    /// The capture groups of the match at the first start position that has one.
    pub fn captures(&self, input: &[u8]) -> (r: Option<Vec<Option<(usize, usize)>>>)
        requires
            interp_ready(self.automaton()),
            self.stride_ok(),
            input@.len() <= isize::MAX,
        ensures
            r matches Some(c) ==> exists|s: int|
                0 <= s <= input@.len() && #[trigger] match_captures(
                    c@,
                    self.automaton().capture_count + 1,
                    s,
                    input@.len() as int,
                ) && (c@[0] matches Some((_, e)) && accepts(
                    self.automaton(),
                    input@,
                    s,
                    e as int,
                )),
            forall|s: int|
                0 <= s <= input@.len() && #[trigger] match_known_from(self.automaton(), input@, s)
                    ==> (r matches Some(c) && c@[0] matches Some((a, _)) && a <= s),
            simple_automaton(self.automaton()) ==> match r {
                Some(c) => c@[0] matches Some(m) && first_plain_match(self.automaton(), input@, 0, Some(m)),
                None => first_plain_match(self.automaton(), input@, 0, None),
            },
            no_backrefs(self.automaton()) ==> (r matches Some(c) ==> c@[0] matches Some((s, e))
                && checked_accepts(self.automaton(), input@, s as int, e as int)),
            no_backrefs(self.automaton()) && self.rec_ok() ==> (r matches Some(c) ==> c@[0] matches Some(
                (s, _),
            ) && captures_recorded(self.automaton(), input@, s as int, c@)),
    {
        let mut start: usize = 0;
        loop
            invariant
                start <= input@.len(),
                input@.len() <= isize::MAX,
                interp_ready(*self.nfa),
                self.stride == stride_of(*self.nfa),
                forall|s: int| 0 <= s < start ==> !#[trigger] match_known_from(*self.nfa, input@, s),
                simple_automaton(*self.nfa) ==> forall|s: int|
                    0 <= s < start ==> #[trigger] longest_end(*self.nfa, input@, s) < 0,
            decreases input@.len() - start,
        {
            if let Some(caps) = self.captures_at(input, start) {
                return Some(caps);
            }
            if start == input.len() {
                return None;
            }
            start = start + 1;
        }
    }

    /// Where a match from `start` ends, if there is one.
    fn match_at(&self, input: &[u8], start: usize) -> (r: Option<usize>)
        requires
            interp_ready(*self.nfa),
            self.stride == stride_of(*self.nfa),
            start <= input@.len(),
            input@.len() <= isize::MAX,
        ensures
            r matches Some(e) ==> start <= e <= input@.len() && accepts(
                *self.nfa,
                input@,
                start as int,
                e as int,
            ),
            match_known_from(*self.nfa, input@, start as int) ==> r is Some,
            simple_automaton(*self.nfa) ==> (r is Some <==> longest_end(*self.nfa, input@, start as int)
                >= 0),
            simple_automaton(*self.nfa) ==> (r matches Some(e) ==> e == longest_end(
                *self.nfa,
                input@,
                start as int,
            )),
            no_backrefs(*self.nfa) ==> (r matches Some(e) ==> checked_accepts(
                *self.nfa,
                input@,
                start as int,
                e as int,
            )),
        decreases self.automaton(), 5int, 0int,
    {
        match self.captures_at(input, start) {
            Some(caps) => match caps[0] {
                Some((_, end)) => Some(end),
                None => None,
            },
            None => None,
        }
    }

    /// The capture groups of a match that starts at `start`: group 0 spans
    /// the match, and each other group is the last span its thread recorded.
    pub fn captures_at(&self, input: &[u8], start: usize) -> (r: Option<
        Vec<Option<(usize, usize)>>,
    >)
        requires
            interp_ready(self.automaton()),
            self.stride_ok(),
            start <= input@.len(),
            input@.len() <= isize::MAX,
        ensures
            r matches Some(c) ==> match_captures(
                c@,
                self.automaton().capture_count + 1,
                start as int,
                input@.len() as int,
            ) && (c@[0] matches Some((_, e)) && accepts(
                self.automaton(),
                input@,
                start as int,
                e as int,
            )),
            match_known_from(self.automaton(), input@, start as int) ==> r is Some,
            simple_automaton(self.automaton()) ==> (r is Some <==> longest_end(
                self.automaton(),
                input@,
                start as int,
            ) >= 0),
            simple_automaton(self.automaton()) ==> (r matches Some(c) ==> c@[0] == Some(
                (start, longest_end(self.automaton(), input@, start as int) as usize),
            )),
            simple_automaton(self.automaton()) ==> longest_end(self.automaton(), input@, start as int)
                <= input@.len(),
            no_backrefs(self.automaton()) ==> (r matches Some(c) ==> c@[0] matches Some((_, e))
                && checked_accepts(self.automaton(), input@, start as int, e as int)),
            no_backrefs(self.automaton()) && self.rec_ok() ==> (r matches Some(c) ==> captures_recorded(
                self.automaton(),
                input@,
                start as int,
                c@,
            )),
        decreases self.automaton(), 4int, 0int,
    {
        let ghost len = input@.len() as int;
        let ghost n = self.nfa.states@.len() as int;
        let ghost gen: bool = n < MAX_THREADS && no_backrefs(*self.nfa);
        let ghost (ew, mw) = choose|e: int, m: int|
            #![trigger plain_reach(*self.nfa, input@, start as int, e, m)]
            start <= e <= len && plain_match(*self.nfa, input@, e, m) && plain_reach(
                *self.nfa,
                input@,
                start as int,
                e,
                m,
            );
        let ghost acc: bool = gen && start <= ew <= len && plain_match(*self.nfa, input@, ew, mw)
            && plain_reach(*self.nfa, input@, start as int, ew, mw);
        let state_count = self.nfa.states.len();
        let capture_count = self.nfa.capture_count;
        let mut current = ThreadWorklist::new(capture_count, state_count);
        let mut next = ThreadWorklist::new(capture_count, state_count);
        let mut best_captures: Vec<i64> = Vec::new();
        let mut i: usize = 0;
        while i < self.stride
            invariant
                i <= self.stride,
                best_captures@.len() == i,
                forall|k: int| 0 <= k < i ==> best_captures@[k] == -1,
            decreases self.stride - i,
        {
            best_captures.push(-1);
            i = i + 1;
        }
        let mut best_end: i64 = -1;
        let mut best_priority: u32 = 0;
        let mut memo: HashMap<u128, bool> = HashMap::new();
        let ghost fresh = current;
        let ghost simple: bool = simple_automaton(*self.nfa);
        let ghost nb: bool = no_backrefs(*self.nfa);
        proof {
            lemma_runs_refl(*self.nfa, input@, (self.nfa.start as int, start as int));
            lemma_checked_refl(*self.nfa, input@, (self.nfa.start as int, start as int));
            assert(seq![(self.nfa.start as int, start as int)].drop_last() =~= Seq::<(int, int)>::empty());
            if simple {
                lemma_simple_gen(*self.nfa);
                lemma_path_refl(*self.nfa, input@, start as int, self.nfa.start as int);
            }
            assert forall|v: int| !#[trigger] bitmap_has(current.visited@, v) by {
                if 0 <= v && v / 64 < current.visited@.len() {
                    assert(current.visited@[v / 64] == 0);
                    lemma_bit_consts((v % 64) as u64);
                }
            }
            lemma_unmarked_le(current.visited@, state_count as int);
            lemma_closed_empty(*self.nfa, input@, start as int, current);
            if matches_plainly(*self.nfa, input@, start as int) {
                assert(acc);
            }
            if start_matches(*self.nfa, input@, start as int) {
                assert(!bitmap_has(current.visited@, self.nfa.start as int));
                assert(spawns_at(*self.nfa, self.nfa.start, current, input@, start as int, None, Seq::empty()));
            }
        }
        let ghost p0: Seq<(int, int)> = seq![(self.nfa.start as int, start as int)];
        proof {
            assert(p0.drop_last() =~= Seq::<(int, int)>::empty());
            assert(p0[0] == (self.nfa.start as int, start as int) && p0.last() == (self.nfa.start as int, start as int));
        }
        self.add_thread(
            &mut current,
            self.nfa.start,
            0,
            input,
            start,
            None,
            &mut memo,
            Ghost(start as int),
            Ghost(start as int),
            Ghost(p0),
        );
        proof {
            if gen {
                assert forall|q: int|
                    0 <= q < n && #[trigger] plain_reach(*self.nfa, input@, start as int, start as int, q)
                        implies bitmap_has(current.visited@, q) by {
                    let p = choose|p: Seq<int>|
                        #![trigger p[0], p.last()]
                        p.len() >= 1 && p[0] == self.nfa.start as int && p.last() == q && forall|i: int|
                            0 <= i < p.len() - 1 ==> #[trigger] plain_link(*self.nfa, input@, start as int, p, i);
                    if p.len() > 1 {
                        assert(plain_link(*self.nfa, input@, start as int, p, 0));
                    }
                    lemma_closed_path(*self.nfa, input@, start as int, current, p);
                }
            }
            if empty_match_at(*self.nfa, input@, start as int) {
                if start_matches(*self.nfa, input@, start as int) {
                    assert(plain_match(*self.nfa, input@, start as int, current.states@[0] as int));
                } else {
                    let m = choose|m: int|
                        #[trigger] plain_match(*self.nfa, input@, start as int, m) && plain_path(
                            *self.nfa,
                            input@,
                            start as int,
                            self.nfa.start as int,
                            m,
                        );
                    let p = choose|p: Seq<int>|
                        #![trigger p[0], p.last()]
                        p.len() >= 1 && p[0] == self.nfa.start as int && p.last() == m && forall|i: int|
                            0 <= i < p.len() - 1 ==> #[trigger] plain_link(*self.nfa, input@, start as int, p, i);
                    if p.len() > 1 {
                        assert(plain_link(*self.nfa, input@, start as int, p, 0));
                    }
                    assert(bitmap_has(current.visited@, self.nfa.start as int));
                    lemma_closed_path(*self.nfa, input@, start as int, current, p);
                    assert(!Set::<int>::empty().contains(m));
                    assert(closure_done(*self.nfa, current, m));
                    let t = choose|t: int| 0 <= t < current.count && #[trigger] current.states@[t] == m;
                    assert(plain_match(*self.nfa, input@, start as int, current.states@[t] as int));
                }
            }
        }
        let mut t: usize = 0;
        while t < current.count
            invariant
                memo_ok(*self.nfa, input@, memo@),
                list_ok(current, *self.nfa, len),
                threads_run(current, *self.nfa, input@, start as int, start as int),
                t <= current.count,
                start <= len,
                len <= isize::MAX,
                simple == simple_automaton(*self.nfa),
                simple ==> gen && list_plain(current, *self.nfa, input@, start as int, start as int),
                nb == no_backrefs(*self.nfa),
                nb ==> list_checked(current, *self.nfa, input@, start as int, start as int),
                nb && self.rec_ok() ==> list_recorded(current, *self.nfa, input@, start as int, start as int, self.use_sparse_copy, *self.liveness),
                current.stride == self.stride,
                self.stride >= 2,
                empty_match_at(*self.nfa, input@, start as int) ==> exists|u: int|
                    0 <= u < current.count && plain_match(
                        *self.nfa,
                        input@,
                        start as int,
                        #[trigger] current.states@[u] as int,
                    ),
                gen ==> closed_at(*self.nfa, input@, start as int, current, Set::empty()),
                gen ==> current.count + unmarked(current.visited@, n) <= n,
                gen ==> forall|q: int|
                    0 <= q < n && #[trigger] plain_reach(*self.nfa, input@, start as int, start as int, q)
                        ==> bitmap_has(current.visited@, q),
                n == self.nfa.states@.len(),
            decreases current.count - t,
        {
            proof {
                lemma_slot(t as int, current.stride as int, 0);
            }
            let ghost c0 = current;
            current.set_capture(t, 0, start as i64);
            proof {
                if gen {
                    lemma_closed_same(*self.nfa, input@, start as int, c0, current);
                }
                if simple {
                    lemma_list_plain_same(c0, current, *self.nfa, input@, start as int, start as int);
                }
                if nb {
                    lemma_list_checked_same(c0, current, *self.nfa, input@, start as int, start as int);
                }
                if nb && self.rec_ok() {
                    lemma_list_recorded_slot0(c0, current, *self.nfa, input@, start as int, start as int, t as int, start as i64, self.use_sparse_copy, *self.liveness);
                }
            }
            t = t + 1;
        }
        proof {
            assert forall|v: int| !#[trigger] bitmap_has(next.visited@, v) by {
                if 0 <= v && v / 64 < next.visited@.len() {
                    assert(next.visited@[v / 64] == 0);
                    lemma_bit_consts((v % 64) as u64);
                }
            }
        }
        let mut pos = start;
        while pos <= input.len() && current.count > 0
            invariant
                memo_ok(*self.nfa, input@, memo@),
                interp_ready(*self.nfa),
                self.stride == stride_of(*self.nfa),
                len == input@.len(),
                len <= isize::MAX,
                start <= pos <= len + 1,
                list_ok(current, *self.nfa, len),
                list_ok(next, *self.nfa, len),
                next.count == 0,
                simple == simple_automaton(*self.nfa),
                simple ==> gen && list_plain(current, *self.nfa, input@, start as int, pos as int),
                nb == no_backrefs(*self.nfa),
                nb ==> list_checked(current, *self.nfa, input@, start as int, pos as int),
                nb && best_end >= 0 ==> checked_accepts(*self.nfa, input@, start as int, best_end as int),
                nb && self.rec_ok() ==> list_recorded(current, *self.nfa, input@, start as int, pos as int, self.use_sparse_copy, *self.liveness),
                nb && self.rec_ok() && best_end >= 0 ==> best_recorded(*self.nfa, input@, start as int, best_end as int, best_captures@),
                simple ==> best_priority == 0 && best_end == last_end(
                    *self.nfa,
                    input@,
                    start as int,
                    pos as int,
                ),
                threads_run(current, *self.nfa, input@, start as int, pos as int),
                best_end >= 0 ==> accepts(*self.nfa, input@, start as int, best_end as int),
                best_captures@.len() == self.stride,
                forall|k: int| 0 <= k < best_captures@.len() ==> -1 <= #[trigger] best_captures@[k] <= len,
                best_end == -1 || (start <= best_end <= len && best_captures@[0] == start
                    && best_captures@[1] == best_end),
                empty_match_at(*self.nfa, input@, start as int) ==> (pos == start ==> exists|u: int|
                    0 <= u < current.count && plain_match(
                        *self.nfa,
                        input@,
                        start as int,
                        #[trigger] current.states@[u] as int,
                    )) && (pos > start ==> best_end >= 0),
                n == self.nfa.states@.len(),
                gen == (n < MAX_THREADS && no_backrefs(*self.nfa)),
                acc ==> gen && start <= ew <= len && plain_match(*self.nfa, input@, ew, mw) && plain_reach(
                    *self.nfa,
                    input@,
                    start as int,
                    ew,
                    mw,
                ),
                gen ==> closed_at(*self.nfa, input@, pos as int, current, Set::empty()),
                gen ==> current.count + unmarked(current.visited@, n) <= n,
                gen ==> forall|q: int|
                    0 <= q < n && #[trigger] plain_reach(*self.nfa, input@, start as int, pos as int, q)
                        ==> bitmap_has(current.visited@, q),
                forall|v: int| !#[trigger] bitmap_has(next.visited@, v),
                acc && pos > ew ==> best_end >= 0,
            decreases len + 1 - pos,
        {
            proof {
                lemma_closed_empty(*self.nfa, input@, pos + 1, next);
                lemma_unmarked_le(next.visited@, n);
            }
            let byte: Option<u8> = if pos < input.len() {
                Some(input[pos])
            } else {
                None
            };
            let mut thread_idx: usize = 0;
            while thread_idx < current.count
                invariant
                    memo_ok(*self.nfa, input@, memo@),
                    simple == simple_automaton(*self.nfa),
                    simple ==> gen && list_plain(current, *self.nfa, input@, start as int, pos as int),
                    simple ==> list_plain(next, *self.nfa, input@, start as int, pos + 1),
                    nb == no_backrefs(*self.nfa),
                    nb ==> list_checked(current, *self.nfa, input@, start as int, pos as int)
                        && list_checked(next, *self.nfa, input@, start as int, pos + 1),
                    nb && best_end >= 0 ==> checked_accepts(*self.nfa, input@, start as int, best_end as int),
                    nb && self.rec_ok() ==> list_recorded(current, *self.nfa, input@, start as int, pos as int, self.use_sparse_copy, *self.liveness)
                        && list_recorded(next, *self.nfa, input@, start as int, pos + 1, self.use_sparse_copy, *self.liveness),
                    nb && self.rec_ok() && best_end >= 0 ==> best_recorded(*self.nfa, input@, start as int, best_end as int, best_captures@),
                    simple ==> best_priority == 0 && best_end == (if match_before(current, *self.nfa, thread_idx as int) {
                        pos as int
                    } else {
                        last_end(*self.nfa, input@, start as int, pos as int)
                    }),
                    interp_ready(*self.nfa),
                    self.stride == stride_of(*self.nfa),
                    len == input@.len(),
                    len <= isize::MAX,
                    start <= pos <= len,
                    list_ok(current, *self.nfa, len),
                    list_ok(next, *self.nfa, len),
                    thread_idx <= current.count,
                    threads_run(current, *self.nfa, input@, start as int, pos as int),
                    threads_run(next, *self.nfa, input@, start as int, pos + 1),
                    best_end >= 0 ==> accepts(*self.nfa, input@, start as int, best_end as int),
                    best_captures@.len() == self.stride,
                    forall|k: int|
                        0 <= k < best_captures@.len() ==> -1 <= #[trigger] best_captures@[k] <= len,
                    best_end == -1 || (start <= best_end <= len && best_captures@[0] == start
                        && best_captures@[1] == best_end),
                    byte == (if pos < len {
                        Some(input@[pos as int])
                    } else {
                        None::<u8>
                    }),
                    empty_match_at(*self.nfa, input@, start as int) ==> (pos == start ==> exists|u: int|
                        0 <= u < current.count && plain_match(
                            *self.nfa,
                            input@,
                            start as int,
                            #[trigger] current.states@[u] as int,
                        )) && (pos > start || (exists|u: int|
                        0 <= u < thread_idx && plain_match(
                            *self.nfa,
                            input@,
                            start as int,
                            #[trigger] current.states@[u] as int,
                        )) ==> best_end >= 0),
                    n == self.nfa.states@.len(),
                    gen == (n < MAX_THREADS && no_backrefs(*self.nfa)),
                    acc ==> gen && start <= ew <= len && plain_match(*self.nfa, input@, ew, mw)
                        && plain_reach(*self.nfa, input@, start as int, ew, mw),
                    gen ==> closed_at(*self.nfa, input@, pos as int, current, Set::empty()),
                    gen ==> current.count + unmarked(current.visited@, n) <= n,
                    gen ==> forall|q: int|
                        0 <= q < n && #[trigger] plain_reach(*self.nfa, input@, start as int, pos as int, q)
                            ==> bitmap_has(current.visited@, q),
                    gen ==> closed_at(*self.nfa, input@, pos + 1, next, Set::empty()),
                    gen ==> next.count + unmarked(next.visited@, n) <= n,
                    gen ==> forall|t: int, b: int|
                        0 <= t < thread_idx && #[trigger] plain_byte(
                            *self.nfa,
                            input@,
                            pos as int,
                            current.states@[t] as int,
                            b,
                        ) ==> bitmap_has(next.visited@, b),
                    (exists|u: int|
                        0 <= u < thread_idx && plain_match(
                            *self.nfa,
                            input@,
                            pos as int,
                            #[trigger] current.states@[u] as int,
                        )) ==> best_end >= 0,
                    acc && pos > ew ==> best_end >= 0,
                decreases current.count - thread_idx,
            {
                let state_id = current.states[thread_idx];
                let ghost pt = choose|p: Seq<(int, int)>|
                    #[trigger] checked_path(*self.nfa, input@, p, start as int, current.states@[thread_idx as int] as int, pos as int)
                        && forall|k: int|
                        2 <= k < current.stride && slot_kept(
                            self.use_sparse_copy,
                            *self.liveness,
                            current.states@[thread_idx as int] as int,
                            k,
                        ) ==> #[trigger] current.captures@[thread_idx * current.stride + k] == recorded(*self.nfa, p, k);
                proof {
                    lemma_match_before_step(current, *self.nfa, thread_idx as int);
                    if nb && self.rec_ok() {
                        assert(thread_recorded(current, *self.nfa, input@, start as int, pos as int, thread_idx as int, self.use_sparse_copy, *self.liveness));
                    }
                }
                if state_id as usize >= self.nfa.states.len() {
                    thread_idx = thread_idx + 1;
                    continue ;
                }
                let state = &self.nfa.states[state_id as usize];
                let flags = current.flags[thread_idx];
                proof {
                    assert(runs(
                        *self.nfa,
                        input@,
                        (self.nfa.start as int, start as int),
                        (current.states@[thread_idx as int] as int, pos as int),
                    ));
                }
                if let Some(NfaInstruction::Backref(group)) = &state.instruction {
                    proof {
                        if simple {
                            assert(simple_instr(self.nfa.states@[state_id as int].instruction));
                        }
                        if nb {
                            assert(!(self.nfa.states@[state_id as int].instruction matches Some(
                                NfaInstruction::Backref(_),
                            )));
                        }
                        if gen {
                            assert(!(self.nfa.states@[state_id as int].instruction matches Some(
                                NfaInstruction::Backref(_),
                            )));
                        }
                        assert(match self.nfa.states@[state_id as int].instruction {
                            Some(NfaInstruction::Backref(i)) => i <= self.nfa.capture_count,
                            _ => true,
                        });
                    }
                    let start_slot = (*group as usize) * 2;
                    let end_slot = start_slot + 1;
                    proof {
                        lemma_slot(thread_idx as int, current.stride as int, start_slot as int);
                        lemma_slot(thread_idx as int, current.stride as int, end_slot as int);
                    }
                    let cap_start = current.get_capture(thread_idx, start_slot);
                    let cap_end = current.get_capture(thread_idx, end_slot);
                    if cap_start >= 0 && cap_end >= 0 && cap_start <= cap_end {
                        let cs = cap_start as usize;
                        let ce = cap_end as usize;
                        let cap_len = ce - cs;
                        if cap_len <= input.len() - pos && same_bytes(input, cs, pos, cap_len) {
                            let match_pos = pos + cap_len;
                            proof {
                                lemma_runs_step(
                                    *self.nfa,
                                    input@,
                                    (self.nfa.start as int, start as int),
                                    (state_id as int, pos as int),
                                    (state_id as int, match_pos as int),
                                );
                            }
                            if state.is_match {
                                let priority = flags & 0xFFFF;
                                let non_greedy = (flags & 0x10000) != 0;
                                if non_greedy {
                                    proof {
                                        assert(self.nfa.states@[state_id as int].is_match);
                                    }
                                    return Some(
                                        self.extract_captures_at_pos(
                                            &current,
                                            thread_idx,
                                            start,
                                            match_pos,
                                            Ghost(len),
                                        ),
                                    );
                                }
                                if best_end < 0 || priority >= best_priority {
                                    proof {
                                        assert(self.nfa.states@[state_id as int].is_match);
                                    }
                                    best_end = match_pos as i64;
                                    best_priority = priority;
                                    self.copy_best(&current, thread_idx, &mut best_captures, Ghost(len));
                                    best_captures.set(0, start as i64);
                                    best_captures.set(1, match_pos as i64);
                                }
                            }
                            let mut k: usize = 0;
                            while k < state.epsilon.len()
                                invariant
                                    memo_ok(*self.nfa, input@, memo@),
                                    interp_ready(*self.nfa),
                                    self.stride == stride_of(*self.nfa),
                                    len == input@.len(),
                                    len <= isize::MAX,
                                    pos <= match_pos <= len,
                                    list_ok(current, *self.nfa, len),
                                    list_ok(next, *self.nfa, len),
                                    thread_idx < current.count,
                                    k <= state.epsilon@.len(),
                                    (state_id as int) < self.nfa.states@.len(),
                                    *state == self.nfa.states@[state_id as int],
                                    state.instruction matches Some(NfaInstruction::Backref(_)),
                                    runs(
                                        *self.nfa,
                                        input@,
                                        (self.nfa.start as int, start as int),
                                        (state_id as int, pos as int),
                                    ),
                                    threads_run(next, *self.nfa, input@, start as int, pos + 1),
                                decreases state.epsilon@.len() - k,
                            {
                                let target = state.epsilon[k];
                                proof {
                                    assert(eps_to(self.nfa.states@[state_id as int], target as int))
                                        by {
                                        assert(state.epsilon@[k as int] == target);
                                    }
                                    lemma_runs_step(
                                        *self.nfa,
                                        input@,
                                        (self.nfa.start as int, start as int),
                                        (state_id as int, pos as int),
                                        (target as int, pos + 1),
                                    );
                                }
                                self.add_thread_with_captures(
                                    &mut next,
                                    target,
                                    flags,
                                    input,
                                    match_pos,
                                    &current,
                                    thread_idx,
                                    &mut memo,
                                    Ghost(start as int),
                                    Ghost(pos + 1),
                                    Ghost(Seq::empty()),
                                );
                                k = k + 1;
                            }
                        }
                    }
                    thread_idx = thread_idx + 1;
                    continue ;
                }
                proof {
                    if nb {
                        assert(checked_runs(
                            *self.nfa,
                            input@,
                            (self.nfa.start as int, start as int),
                            (current.states@[thread_idx as int] as int, pos as int),
                        ));
                        if self.nfa.states@[state_id as int].is_match {
                            assert(checked_accepts(*self.nfa, input@, start as int, pos as int));
                            if self.rec_ok() {
                                assert forall|j: int| 2 <= j < self.stride implies slot_kept(self.use_sparse_copy, *self.liveness, state_id as int, j) by {
                                    lemma_kept_at_match(self.use_sparse_copy, *self.liveness, *self.nfa, state_id as int, j);
                                }
                            }
                        }
                    }
                    if simple {
                        assert(flags == 0);
                        assert((flags & 0xFFFF) == 0 && (flags & 0x10000) == 0) by (bit_vector)
                            requires
                                flags == 0,
                        ;
                    }
                }
                if state.is_match {
                    let priority = flags & 0xFFFF;
                    let non_greedy = (flags & 0x10000) != 0;
                    if non_greedy {
                        proof {
                            assert(self.nfa.states@[state_id as int].is_match);
                        }
                        let caps = self.extract_captures(&current, thread_idx, start, pos, Ghost(len));
                        proof {
                            if nb && self.rec_ok() {
                                assert(sound_pass(*self.nfa, input@, pos as int, state_id as int));
                                assert forall|g: int| 1 <= g <= self.nfa.capture_count implies #[trigger] caps@[g]
                                    == slot_span(recorded(*self.nfa, pt, 2 * g), recorded(*self.nfa, pt, 2 * g + 1)) by {
                                    assert(caps@[g] == thread_group(current, thread_idx as int, g));
                                    assert(current.captures@[thread_idx * self.stride + 2 * g] == recorded(*self.nfa, pt, 2 * g));
                                    assert(current.captures@[thread_idx * self.stride + (2 * g + 1)] == recorded(*self.nfa, pt, 2 * g + 1));
                                }
                                assert(checked_path(*self.nfa, input@, pt, start as int, state_id as int, pos as int));
                            }
                        }
                        return Some(caps);
                    }
                    if best_end < 0 || priority >= best_priority {
                        proof {
                            assert(self.nfa.states@[state_id as int].is_match);
                        }
                        best_end = pos as i64;
                        best_priority = priority;
                        self.copy_best(&current, thread_idx, &mut best_captures, Ghost(len));
                        best_captures.set(0, start as i64);
                        best_captures.set(1, pos as i64);
                    }
                }
                proof {
                    if simple {
                        assert(plain_reach(*self.nfa, input@, start as int, pos as int, current.states@[thread_idx as int] as int));
                    }
                }
                if let Some(b) = byte {
                    let mut k: usize = 0;
                    while k < state.transitions.len()
                        invariant
                            memo_ok(*self.nfa, input@, memo@),
                            simple == simple_automaton(*self.nfa),
                            simple ==> gen && list_plain(current, *self.nfa, input@, start as int, pos as int)
                                && list_plain(next, *self.nfa, input@, start as int, pos + 1),
                            nb == no_backrefs(*self.nfa),
                            nb ==> list_checked(current, *self.nfa, input@, start as int, pos as int)
                                && list_checked(next, *self.nfa, input@, start as int, pos + 1),
                            nb ==> sound_pass(*self.nfa, input@, pos as int, state_id as int) && checked_runs(
                                *self.nfa,
                                input@,
                                (self.nfa.start as int, start as int),
                                (state_id as int, pos as int),
                            ),
                            nb && best_end >= 0 ==> checked_accepts(*self.nfa, input@, start as int, best_end as int),
                            nb && self.rec_ok() ==> list_recorded(current, *self.nfa, input@, start as int, pos as int, self.use_sparse_copy, *self.liveness)
                                && list_recorded(next, *self.nfa, input@, start as int, pos + 1, self.use_sparse_copy, *self.liveness) && checked_path(
                                *self.nfa,
                                input@,
                                pt,
                                start as int,
                                state_id as int,
                                pos as int,
                            ) && forall|k: int|
                                2 <= k < self.stride && slot_kept(self.use_sparse_copy, *self.liveness, state_id as int, k) ==> #[trigger] current.captures@[thread_idx
                                    * self.stride + k] == recorded(*self.nfa, pt, k),
                            nb && self.rec_ok() && best_end >= 0 ==> best_recorded(*self.nfa, input@, start as int, best_end as int, best_captures@),
                            simple ==> flags == 0 && plain_pass(*self.nfa, input@, pos as int, state_id as int)
                                && plain_reach(*self.nfa, input@, start as int, pos as int, state_id as int),
                            simple ==> best_priority == 0 && best_end == (if match_before(
                                current,
                                *self.nfa,
                                thread_idx + 1,
                            ) {
                                pos as int
                            } else {
                                last_end(*self.nfa, input@, start as int, pos as int)
                            }),
                            interp_ready(*self.nfa),
                            self.stride == stride_of(*self.nfa),
                            len == input@.len(),
                            len <= isize::MAX,
                            pos < len,
                            b == input@[pos as int],
                            list_ok(current, *self.nfa, len),
                            list_ok(next, *self.nfa, len),
                            thread_idx < current.count,
                            k <= state.transitions@.len(),
                            (state_id as int) < self.nfa.states@.len(),
                            *state == self.nfa.states@[state_id as int],
                            runs(
                                *self.nfa,
                                input@,
                                (self.nfa.start as int, start as int),
                                (state_id as int, pos as int),
                            ),
                            threads_run(next, *self.nfa, input@, start as int, pos + 1),
                            n == self.nfa.states@.len(),
                            current.states@[thread_idx as int] == state_id,
                            gen ==> closed_at(*self.nfa, input@, pos + 1, next, Set::empty()),
                            gen ==> next.count + unmarked(next.visited@, n) <= n,
                            gen ==> forall|t: int, c: int|
                                0 <= t < thread_idx && #[trigger] plain_byte(
                                    *self.nfa,
                                    input@,
                                    pos as int,
                                    current.states@[t] as int,
                                    c,
                                ) ==> bitmap_has(next.visited@, c),
                            gen ==> forall|j: int|
                                0 <= j < k && #[trigger] state.transitions@[j].0.start <= b
                                    <= state.transitions@[j].0.end && (state.transitions@[j].1 as int)
                                    < n ==> bitmap_has(next.visited@, state.transitions@[j].1 as int),
                        decreases state.transitions@.len() - k,
                    {
                        let ghost v0 = next.visited@;
                        let (range, target) = state.transitions[k];
                        if b >= range.start && b <= range.end {
                            proof {
                                assert(byte_to(self.nfa.states@[state_id as int], b, target as int))
                                    by {
                                    assert(state.transitions@[k as int] == (range, target));
                                }
                                lemma_runs_step(
                                    *self.nfa,
                                    input@,
                                    (self.nfa.start as int, start as int),
                                    (state_id as int, pos as int),
                                    (target as int, pos + 1),
                                );
                            }
                            proof {
                                if nb && self.rec_ok() {
                                    let p2 = pt.push((target as int, pos + 1));
                                    assert(p2.drop_last() =~= pt);
                                    assert(self.nfa.states@[state_id as int].transitions@[k as int].1 == target);
                                    assert((self.nfa.states@[state_id as int].transitions@[k as int].1 as int) < n);
                                    assert(has_edge(self.nfa.states@, state_id as int, target as int));
                                    assert forall|j: int| 2 <= j < self.stride && slot_kept(self.use_sparse_copy, *self.liveness, target as int, j)
                                        implies slot_kept(self.use_sparse_copy, *self.liveness, state_id as int, j) by {
                                        lemma_kept_along_edge(self.use_sparse_copy, *self.liveness, *self.nfa, state_id as int, target as int, j);
                                    }
                                    assert(checked_moves(
                                        *self.nfa,
                                        input@,
                                        (state_id as int, pos as int),
                                        (target as int, pos + 1),
                                    ));
                                    assert forall|i: int| 0 <= i < p2.len() - 1 implies #[trigger] checked_link(
                                        *self.nfa,
                                        input@,
                                        p2,
                                        i,
                                    ) by {
                                        if i < pt.len() - 1 {
                                            assert(checked_link(*self.nfa, input@, pt, i));
                                        }
                                    }
                                    assert(checked_path(*self.nfa, input@, p2, start as int, target as int, pos + 1));
                                }
                                if nb {
                                    assert(checked_moves(
                                        *self.nfa,
                                        input@,
                                        (state_id as int, pos as int),
                                        (target as int, pos + 1),
                                    ));
                                    lemma_checked_step(
                                        *self.nfa,
                                        input@,
                                        (self.nfa.start as int, start as int),
                                        (state_id as int, pos as int),
                                        (target as int, pos + 1),
                                    );
                                }
                                if simple {
                                    assert((self.nfa.states@[state_id as int].transitions@[k as int].1 as int)
                                        < n);
                                    assert(plain_byte(*self.nfa, input@, pos as int, state_id as int, target as int));
                                    lemma_reach_byte(*self.nfa, input@, start as int, pos as int, state_id as int, target as int);
                                }
                            }
                            self.add_thread_with_captures(
                                &mut next,
                                target,
                                flags,
                                input,
                                pos + 1,
                                &current,
                                thread_idx,
                                &mut memo,
                                Ghost(start as int),
                                Ghost(pos + 1),
                                Ghost(pt.push((target as int, pos + 1))),
                            );
                        }
                        proof {
                            if gen {
                                assert forall|j: int|
                                    0 <= j < k + 1 && #[trigger] state.transitions@[j].0.start <= b
                                        <= state.transitions@[j].0.end && (state.transitions@[j].1 as int)
                                        < n implies bitmap_has(next.visited@, state.transitions@[j].1 as int) by {
                                    if j < k {
                                        assert(bitmap_has(v0, state.transitions@[j].1 as int));
                                    }
                                }
                            }
                        }
                        k = k + 1;
                    }
                    proof {
                        if gen {
                            assert forall|t: int, c: int|
                                0 <= t < thread_idx + 1 && #[trigger] plain_byte(
                                    *self.nfa,
                                    input@,
                                    pos as int,
                                    current.states@[t] as int,
                                    c,
                                ) implies bitmap_has(next.visited@, c) by {
                                if t == thread_idx {
                                    let j = choose|j: int|
                                        0 <= j < state.transitions@.len() && state.transitions@[j].1 == c
                                            && state.transitions@[j].0.start <= b <= state.transitions@[j].0.end;
                                    assert(state.transitions@[j].0.start <= b);
                                }
                            }
                        }
                    }
                }
                thread_idx = thread_idx + 1;
            }
            proof {
                if gen {
                    assert forall|q: int|
                        0 <= q < n && #[trigger] plain_reach(*self.nfa, input@, start as int, pos + 1, q)
                            implies bitmap_has(next.visited@, q) by {
                        let (a, c) = choose|a: int, c: int|
                            #![trigger plain_byte(*self.nfa, input@, pos as int, a, c)]
                            plain_reach(*self.nfa, input@, start as int, pos as int, a) && plain_byte(
                                *self.nfa,
                                input@,
                                pos as int,
                                a,
                                c,
                            ) && plain_path(*self.nfa, input@, pos + 1, c, q);
                        assert(bitmap_has(current.visited@, a));
                        assert(plain_live(*self.nfa, input@, pos as int, a));
                        lemma_live_thread(*self.nfa, input@, pos as int, current, a);
                        let t = choose|t: int| 0 <= t < current.count && #[trigger] current.states@[t] == a;
                        assert(plain_byte(*self.nfa, input@, pos as int, current.states@[t] as int, c));
                        let p = choose|p: Seq<int>|
                            #![trigger p[0], p.last()]
                            p.len() >= 1 && p[0] == c && p.last() == q && forall|i: int|
                                0 <= i < p.len() - 1 ==> #[trigger] plain_link(*self.nfa, input@, pos + 1, p, i);
                        lemma_closed_path(*self.nfa, input@, pos + 1, next, p);
                    }
                }
                if simple {
                    if plain_end(*self.nfa, input@, start as int, pos as int) {
                        let m = choose|m: int|
                            #[trigger] plain_match(*self.nfa, input@, pos as int, m) && plain_reach(
                                *self.nfa,
                                input@,
                                start as int,
                                pos as int,
                                m,
                            );
                        assert(bitmap_has(current.visited@, m));
                        assert(plain_live(*self.nfa, input@, pos as int, m));
                        lemma_live_thread(*self.nfa, input@, pos as int, current, m);
                        let t = choose|t: int| 0 <= t < current.count && #[trigger] current.states@[t] == m;
                        assert(match_before(current, *self.nfa, current.count as int));
                    }
                    if match_before(current, *self.nfa, current.count as int) {
                        let u = choose|u: int|
                            0 <= u < current.count && (#[trigger] current.states@[u] as int)
                                < self.nfa.states@.len() && self.nfa.states@[current.states@[u] as int].is_match;
                        assert(plain_reach(*self.nfa, input@, start as int, pos as int, current.states@[u] as int));
                        assert(plain_match(*self.nfa, input@, pos as int, current.states@[u] as int));
                        assert(plain_end(*self.nfa, input@, start as int, pos as int));
                    }
                    assert(best_end == last_end(*self.nfa, input@, start as int, pos + 1));
                }
                if acc && pos == ew {
                    assert(bitmap_has(current.visited@, mw));
                    lemma_live_thread(*self.nfa, input@, pos as int, current, mw);
                    let t = choose|t: int| 0 <= t < current.count && #[trigger] current.states@[t] == mw;
                    assert(plain_match(*self.nfa, input@, pos as int, current.states@[t] as int));
                }
            }
            std::mem::swap(&mut current, &mut next);
            next.clear();
            proof {
                assert forall|v: int| !#[trigger] bitmap_has(next.visited@, v) by {
                    if 0 <= v && v / 64 < next.visited@.len() {
                        assert(next.visited@[v / 64] == 0);
                        lemma_bit_consts((v % 64) as u64);
                    }
                }
                assert forall|k: int| 0 <= k < next.captures@.len() implies -1
                    <= #[trigger] next.captures@[k] <= len by {}
            }
            pos = pos + 1;
        }
        proof {
            if simple && pos <= len {
                assert forall|e: int| pos <= e < len + 1 implies !#[trigger] plain_end(
                    *self.nfa,
                    input@,
                    start as int,
                    e,
                ) by {
                    if plain_end(*self.nfa, input@, start as int, e) {
                        let m = choose|m: int|
                            #[trigger] plain_match(*self.nfa, input@, e, m) && plain_reach(
                                *self.nfa,
                                input@,
                                start as int,
                                e,
                                m,
                            );
                        assert(plain_live(*self.nfa, input@, e, m));
                        lemma_reach_back(*self.nfa, input@, start as int, e, m, pos as int);
                        let q = choose|q: int|
                            plain_reach(*self.nfa, input@, start as int, pos as int, q) && #[trigger] plain_live(
                                *self.nfa,
                                input@,
                                pos as int,
                                q,
                            );
                        assert(bitmap_has(current.visited@, q));
                        lemma_live_thread(*self.nfa, input@, pos as int, current, q);
                    }
                }
                lemma_last_end_skip(*self.nfa, input@, start as int, pos as int, len + 1);
            }
            if simple {
                lemma_last_end_is_end(*self.nfa, input@, start as int, len + 1);
            }
            if acc && pos <= ew {
                assert(plain_live(*self.nfa, input@, ew, mw));
                lemma_reach_back(*self.nfa, input@, start as int, ew, mw, pos as int);
                let q = choose|q: int|
                    plain_reach(*self.nfa, input@, start as int, pos as int, q) && #[trigger] plain_live(
                        *self.nfa,
                        input@,
                        pos as int,
                        q,
                    );
                assert(bitmap_has(current.visited@, q));
                lemma_live_thread(*self.nfa, input@, pos as int, current, q);
            }
        }
        if best_end >= 0 {
            let mut result: Vec<Option<(usize, usize)>> = Vec::new();
            let mut group: usize = 0;
            while group <= capture_count as usize
                invariant
                    self.stride == stride_of(*self.nfa),
                    capture_count == self.nfa.capture_count,
                    len == input@.len(),
                    best_captures@.len() == self.stride,
                    forall|k: int| 0 <= k < best_captures@.len() ==> -1 <= #[trigger] best_captures@[k] <= len,
                    start <= best_end <= len,
                    best_captures@[0] == start,
                    best_captures@[1] == best_end,
                    accepts(*self.nfa, input@, start as int, best_end as int),
                    group <= capture_count + 1,
                    result@.len() == group,
                    group > 0 ==> result@[0] == Some((start, best_end as usize)),
                    nb && self.rec_ok() ==> best_recorded(*self.nfa, input@, start as int, best_end as int, best_captures@),
                    forall|g: int|
                        1 <= g < group ==> #[trigger] result@[g] == slot_span(
                            best_captures@[2 * g] as int,
                            best_captures@[2 * g + 1] as int,
                        ),
                    forall|g: int|
                        0 <= g < result@.len() ==> (#[trigger] result@[g] matches Some((s, e))
                            ==> s <= len && e <= len),
                decreases capture_count + 1 - group,
            {
                let s = best_captures[group * 2];
                let e = best_captures[group * 2 + 1];
                if s >= 0 && e >= 0 {
                    result.push(Some((s as usize, e as usize)));
                } else {
                    result.push(None);
                }
                group = group + 1;
            }
            proof {
                if nb && self.rec_ok() {
                    let (p, m) = choose|p: Seq<(int, int)>, m: int|
                        #[trigger] checked_path(*self.nfa, input@, p, start as int, m, best_end as int) && 0 <= m
                            < self.nfa.states@.len() && self.nfa.states@[m].is_match && sound_pass(
                            *self.nfa,
                            input@,
                            best_end as int,
                            m,
                        ) && forall|k: int|
                            2 <= k < best_captures@.len() ==> #[trigger] best_captures@[k] == recorded(*self.nfa, p, k);
                    assert forall|g: int| 1 <= g <= self.nfa.capture_count implies #[trigger] result@[g]
                        == slot_span(recorded(*self.nfa, p, 2 * g), recorded(*self.nfa, p, 2 * g + 1)) by {
                        assert(best_captures@[2 * g] == recorded(*self.nfa, p, 2 * g));
                        assert(best_captures@[2 * g + 1] == recorded(*self.nfa, p, 2 * g + 1));
                    }
                    assert(checked_path(*self.nfa, input@, p, start as int, m, (best_end as usize) as int));
                }
            }
            Some(result)
        } else {
            None
        }
    }

    /// Copies the capture slots of a thread into the best-match slots.
    fn copy_best(
        &self,
        list: &ThreadWorklist,
        thread_idx: usize,
        best: &mut Vec<i64>,
        Ghost(len): Ghost<int>,
    )
        requires
            list_ok(*list, *self.nfa, len),
            self.stride == stride_of(*self.nfa),
            thread_idx < MAX_THREADS,
            old(best)@.len() == self.stride,
        ensures
            final(best)@.len() == self.stride,
            forall|k: int|
                0 <= k < final(best)@.len() ==> -1 <= #[trigger] final(best)@[k] <= len,
            forall|k: int|
                0 <= k < self.stride ==> #[trigger] final(best)@[k] == list.captures@[thread_idx
                    * self.stride + k],
    {
        let mut slot: usize = 0;
        while slot < self.stride
            invariant
                list_ok(*list, *self.nfa, len),
                self.stride == stride_of(*self.nfa),
                thread_idx < MAX_THREADS,
                slot <= self.stride,
                best@.len() == self.stride,
                forall|k: int| 0 <= k < slot ==> -1 <= #[trigger] best@[k] <= len,
                forall|k: int|
                    0 <= k < slot ==> #[trigger] best@[k] == list.captures@[thread_idx * self.stride + k],
            decreases self.stride - slot,
        {
            proof {
                lemma_slot(thread_idx as int, list.stride as int, slot as int);
            }
            let v = list.get_capture(thread_idx, slot);
            best.set(slot, v);
            slot = slot + 1;
        }
    }

    /// Spawns a thread at `state` through its epsilon closure, with no
    /// captures carried over.
    fn add_thread(
        &self,
        worklist: &mut ThreadWorklist,
        state: StateId,
        flags: u32,
        input: &[u8],
        pos: usize,
        source: Option<(&ThreadWorklist, usize)>,
        memo: &mut HashMap<u128, bool>,
        Ghost(s0): Ghost<int>,
        Ghost(at): Ghost<int>,
        Ghost(path): Ghost<Seq<(int, int)>>,
    )
        requires
            no_backrefs(*self.nfa) && self.rec_ok() ==> {
                &&& checked_path(*self.nfa, input@, path, s0, state as int, pos as int)
                &&& forall|k: int|
                    2 <= k < self.stride && slot_kept(self.use_sparse_copy, *self.liveness, state as int, k) ==> #[trigger] recorded(*self.nfa, path.drop_last(), k) == seeded(
                        source,
                        Seq::empty(),
                        k,
                    )
                &&& list_recorded(*old(worklist), *self.nfa, input@, s0, pos as int, self.use_sparse_copy, *self.liveness)
                &&& (source is None ==> fresh_tail(*old(worklist)))
            },
            no_backrefs(*self.nfa) ==> at == pos && checked_runs(
                *self.nfa,
                input@,
                (self.nfa.start as int, s0),
                (state as int, pos as int),
            ) && list_checked(*old(worklist), *self.nfa, input@, s0, pos as int),
            simple_automaton(*self.nfa) ==> at == pos && flags == 0 && plain_reach(
                *self.nfa,
                input@,
                s0,
                pos as int,
                state as int,
            ) && list_plain(*old(worklist), *self.nfa, input@, s0, pos as int),
            memo_ok(*self.nfa, input@, old(memo)@),
            interp_ready(*self.nfa),
            self.stride == stride_of(*self.nfa),
            list_ok(*old(worklist), *self.nfa, input@.len() as int),
            pos <= input@.len(),
            input@.len() <= isize::MAX,
            source matches Some((src, idx)) ==> list_ok(*src, *self.nfa, input@.len() as int)
                && idx < MAX_THREADS,
            runs(*self.nfa, input@, (self.nfa.start as int, s0), (state as int, at)),
            threads_run(*old(worklist), *self.nfa, input@, s0, at),
        ensures
            no_backrefs(*self.nfa) && self.rec_ok() ==> list_recorded(*final(worklist), *self.nfa, input@, s0, pos as int, self.use_sparse_copy, *self.liveness) && (source
                is None ==> fresh_tail(*final(worklist))),
            no_backrefs(*self.nfa) ==> list_checked(*final(worklist), *self.nfa, input@, s0, pos as int),
            simple_automaton(*self.nfa) ==> list_plain(*final(worklist), *self.nfa, input@, s0, pos as int),
            memo_ok(*self.nfa, input@, final(memo)@),
            list_ok(*final(worklist), *self.nfa, input@.len() as int),
            threads_run(*final(worklist), *self.nfa, input@, s0, at),
            kept_threads(*old(worklist), *final(worklist)),
            forall|i: int| bitmap_has(old(worklist).visited@, i) ==> bitmap_has(final(worklist).visited@, i),
            (state as int) < self.automaton().states@.len() ==> bitmap_has(
                final(worklist).visited@,
                state as int,
            ),
            spawns_at(*self.nfa, state, *old(worklist), input@, pos as int, source, Seq::empty())
                ==> {
                &&& final(worklist).count > old(worklist).count
                &&& final(worklist).states@[old(worklist).count as int] == state
                &&& final(worklist).flags@[old(worklist).count as int] == spawn_flags(
                    self.nfa.states@[state as int].instruction,
                    flags,
                )
            },
            closed_at(*self.nfa, input@, pos as int, *old(worklist), Set::empty()) ==> closed_at(
                *self.nfa,
                input@,
                pos as int,
                *final(worklist),
                Set::empty(),
            ),
            old(worklist).count + unmarked(old(worklist).visited@, self.automaton().states@.len() as int)
                <= self.automaton().states@.len() ==> final(worklist).count + unmarked(
                final(worklist).visited@,
                self.automaton().states@.len() as int,
            ) <= self.automaton().states@.len(),
        decreases self.automaton(), 2int, 0int,
    {
        let mut pending: Vec<(usize, i64)> = Vec::new();
        proof {
            assert(pending@ =~= Seq::<(usize, i64)>::empty());
        }
        self.add_thread_inner(
            worklist,
            state,
            flags,
            input,
            pos,
            source,
            &mut pending,
            memo,
            Ghost(s0),
            Ghost(at),
            Ghost(Set::empty()),
            Ghost(path),
        );
    }

    /// Follows epsilon transitions from `state`, checking assertions and
    /// collecting capture updates, and adds a thread at each state that reads
    /// input or matches.
    #[verifier::spinoff_prover]
    #[verifier::rlimit(60)]
    fn add_thread_inner(
        &self,
        worklist: &mut ThreadWorklist,
        state: StateId,
        flags: u32,
        input: &[u8],
        pos: usize,
        source: Option<(&ThreadWorklist, usize)>,
        pending: &mut Vec<(usize, i64)>,
        memo: &mut HashMap<u128, bool>,
        Ghost(s0): Ghost<int>,
        Ghost(at): Ghost<int>,
        Ghost(stack): Ghost<Set<int>>,
        Ghost(path): Ghost<Seq<(int, int)>>,
    )
        requires
            no_backrefs(*self.nfa) && self.rec_ok() ==> {
                &&& checked_path(*self.nfa, input@, path, s0, state as int, pos as int)
                &&& forall|k: int|
                    2 <= k < self.stride && slot_kept(self.use_sparse_copy, *self.liveness, state as int, k) ==> #[trigger] recorded(*self.nfa, path.drop_last(), k) == seeded(
                        source,
                        old(pending)@,
                        k,
                    )
                &&& list_recorded(*old(worklist), *self.nfa, input@, s0, pos as int, self.use_sparse_copy, *self.liveness)
                &&& (source is None ==> fresh_tail(*old(worklist)))
            },
            no_backrefs(*self.nfa) ==> at == pos && checked_runs(
                *self.nfa,
                input@,
                (self.nfa.start as int, s0),
                (state as int, pos as int),
            ) && list_checked(*old(worklist), *self.nfa, input@, s0, pos as int),
            simple_automaton(*self.nfa) ==> at == pos && flags == 0 && plain_reach(
                *self.nfa,
                input@,
                s0,
                pos as int,
                state as int,
            ) && list_plain(*old(worklist), *self.nfa, input@, s0, pos as int),
            memo_ok(*self.nfa, input@, old(memo)@),
            interp_ready(*self.nfa),
            self.stride == stride_of(*self.nfa),
            list_ok(*old(worklist), *self.nfa, input@.len() as int),
            pos <= input@.len(),
            input@.len() <= isize::MAX,
            source matches Some((src, idx)) ==> list_ok(*src, *self.nfa, input@.len() as int)
                && idx < MAX_THREADS,
            pending_ok(old(pending)@, self.stride as int, input@.len() as int),
            runs(*self.nfa, input@, (self.nfa.start as int, s0), (state as int, at)),
            threads_run(*old(worklist), *self.nfa, input@, s0, at),
        ensures
            no_backrefs(*self.nfa) && self.rec_ok() ==> list_recorded(*final(worklist), *self.nfa, input@, s0, pos as int, self.use_sparse_copy, *self.liveness) && (source
                is None ==> fresh_tail(*final(worklist))),
            final(pending)@.subrange(0, old(pending)@.len() as int) == old(pending)@,
            no_backrefs(*self.nfa) ==> list_checked(*final(worklist), *self.nfa, input@, s0, pos as int),
            simple_automaton(*self.nfa) ==> list_plain(*final(worklist), *self.nfa, input@, s0, pos as int),
            memo_ok(*self.nfa, input@, final(memo)@),
            list_ok(*final(worklist), *self.nfa, input@.len() as int),
            threads_run(*final(worklist), *self.nfa, input@, s0, at),
            forall|i: int| bitmap_has(old(worklist).visited@, i) ==> bitmap_has(final(worklist).visited@, i),
            pending_ok(final(pending)@, self.stride as int, input@.len() as int),
            final(pending)@.len() >= old(pending)@.len(),
            kept_threads(*old(worklist), *final(worklist)),
            (state as int) < self.automaton().states@.len() ==> bitmap_has(
                final(worklist).visited@,
                state as int,
            ),
            spawns_at(*self.nfa, state, *old(worklist), input@, pos as int, source, old(pending)@)
                ==> {
                &&& final(worklist).count > old(worklist).count
                &&& final(worklist).states@[old(worklist).count as int] == state
                &&& final(worklist).flags@[old(worklist).count as int] == spawn_flags(
                    self.nfa.states@[state as int].instruction,
                    flags,
                )
            },
            closed_at(*self.nfa, input@, pos as int, *old(worklist), stack) ==> closed_at(
                *self.nfa,
                input@,
                pos as int,
                *final(worklist),
                stack,
            ),
            old(worklist).count + unmarked(old(worklist).visited@, self.automaton().states@.len() as int)
                <= self.automaton().states@.len() ==> final(worklist).count + unmarked(
                final(worklist).visited@,
                self.automaton().states@.len() as int,
            ) <= self.automaton().states@.len(),
        decreases self.automaton(), 1int, unmarked(old(worklist).visited@, self.automaton().states@.len() as int) as int,
    {
        let ghost len = input@.len() as int;
        let ghost n = self.nfa.states@.len() as int;
        let ghost entry = unmarked(worklist.visited@, n);
        if worklist.is_visited(state) {
            proof {
                if simple_automaton(*self.nfa) {
                    lemma_list_plain_same(*old(worklist), *worklist, *self.nfa, input@, s0, pos as int);
                }
                if no_backrefs(*self.nfa) {
                    lemma_list_checked_same(*old(worklist), *worklist, *self.nfa, input@, s0, pos as int);
                }
                if no_backrefs(*self.nfa) && self.rec_ok() {
                    lemma_list_recorded_keep(*old(worklist), *worklist, *self.nfa, input@, s0, pos as int, self.use_sparse_copy, *self.liveness);
                }
            }
            return;
        }
        let ghost before_mark = worklist.visited@;
        worklist.mark_visited(state);
        proof {
            lemma_unmarked_grow(before_mark, worklist.visited@, n);
            if closed_at(*self.nfa, input@, pos as int, *old(worklist), stack) {
                lemma_closed_mark(*self.nfa, input@, pos as int, *old(worklist), *worklist, stack, state as int);
            }
        }
        if state as usize >= self.nfa.states.len() {
            proof {
                if closed_at(*self.nfa, input@, pos as int, *old(worklist), stack) {
                    lemma_closed_drop(*self.nfa, input@, pos as int, *worklist, stack, state as int);
                }
            }
            proof {
                if simple_automaton(*self.nfa) {
                    lemma_list_plain_same(*old(worklist), *worklist, *self.nfa, input@, s0, pos as int);
                }
                if no_backrefs(*self.nfa) {
                    lemma_list_checked_same(*old(worklist), *worklist, *self.nfa, input@, s0, pos as int);
                }
                if no_backrefs(*self.nfa) && self.rec_ok() {
                    lemma_list_recorded_keep(*old(worklist), *worklist, *self.nfa, input@, s0, pos as int, self.use_sparse_copy, *self.liveness);
                }
            }
            return;
        }
        proof {
            lemma_word_in_map(state as int, n);
            lemma_unmarked_mark(before_mark, worklist.visited@, state as int, n);
            assert(bitmap_has(worklist.visited@, state as int));
        }
        let ghost w_marked = *worklist;
        proof {
            if simple_automaton(*self.nfa) {
                lemma_list_plain_same(*old(worklist), w_marked, *self.nfa, input@, s0, pos as int);
            }
            if no_backrefs(*self.nfa) {
                lemma_list_checked_same(*old(worklist), w_marked, *self.nfa, input@, s0, pos as int);
            }
            if no_backrefs(*self.nfa) && self.rec_ok() {
                lemma_list_recorded_keep(*old(worklist), w_marked, *self.nfa, input@, s0, pos as int, self.use_sparse_copy, *self.liveness);
            }
        }
        let nfa_state = &self.nfa.states[state as usize];
        proof {
            assert(match self.nfa.states@[state as int].instruction {
                Some(NfaInstruction::CaptureStart(i)) => i <= self.nfa.capture_count,
                Some(NfaInstruction::CaptureEnd(i)) => i <= self.nfa.capture_count,
                Some(NfaInstruction::Backref(i)) => i <= self.nfa.capture_count,
                Some(NfaInstruction::PositiveLookahead(b)) => interp_ready(*b),
                Some(NfaInstruction::NegativeLookahead(b)) => interp_ready(*b),
                Some(NfaInstruction::PositiveLookbehind(b)) => interp_ready(*b),
                Some(NfaInstruction::NegativeLookbehind(b)) => interp_ready(*b),
                _ => true,
            });
        }
        let mut new_flags = flags;
        let mut has_backref = false;
        let mut passes = true;
        if let Some(instr) = &nfa_state.instruction {
            match instr {
                NfaInstruction::CaptureStart(idx) => {
                    pending.push(((*idx as usize) * 2, pos as i64));
                },
                NfaInstruction::CaptureEnd(idx) => {
                    pending.push(((*idx as usize) * 2 + 1, pos as i64));
                },
                NfaInstruction::NonGreedyExit => {
                    new_flags = flags | 0x10000;
                },
                NfaInstruction::StartOfText => {
                    passes = pos == 0;
                },
                NfaInstruction::EndOfText => {
                    passes = pos == input.len();
                },
                NfaInstruction::StartOfLine => {
                    passes = pos == 0 || input[pos - 1] == 10u8;
                },
                NfaInstruction::EndOfLine => {
                    passes = pos == input.len() || input[pos] == 10u8;
                },
                NfaInstruction::WordBoundary => {
                    passes = word_boundary(input, pos);
                },
                NfaInstruction::NotWordBoundary => {
                    passes = !word_boundary(input, pos);
                },
                NfaInstruction::PositiveLookahead(inner) => {
                    passes = self.lookaround_result(memo, state, inner, input, pos, false, true);
                },
                NfaInstruction::NegativeLookahead(inner) => {
                    passes = self.lookaround_result(memo, state, inner, input, pos, false, false);
                },
                NfaInstruction::PositiveLookbehind(inner) => {
                    passes = self.lookaround_result(memo, state, inner, input, pos, true, true);
                },
                NfaInstruction::NegativeLookbehind(inner) => {
                    passes = self.lookaround_result(memo, state, inner, input, pos, true, false);
                },
                NfaInstruction::Backref(idx) => {
                    has_backref = true;
                    passes = self.backref_holds(*idx, input, pos, source, pending);
                },
                NfaInstruction::CodepointClass(_, _) => {},
            }
        }
        let ghost pend1 = pending@;
        proof {
            assert(pend1.subrange(0, old(pending)@.len() as int) =~= old(pending)@);
            if no_backrefs(*self.nfa) && self.rec_ok() {
                assert forall|k: int| 2 <= k < self.stride && slot_kept(self.use_sparse_copy, *self.liveness, state as int, k) implies #[trigger] recorded(*self.nfa, path, k)
                    == seeded(source, pend1, k) by {
                    assert(recorded(*self.nfa, path.drop_last(), k) == seeded(source, old(pending)@, k));
                    if pend1.len() > old(pending)@.len() {
                        assert(pend1.drop_last() =~= old(pending)@);
                    } else {
                        assert(pend1 =~= old(pending)@);
                    }
                }
            }
        }
        if !passes {
            proof {
                assert(!plain_pass(*self.nfa, input@, pos as int, state as int));
                if closed_at(*self.nfa, input@, pos as int, *old(worklist), stack) {
                    lemma_closed_drop(*self.nfa, input@, pos as int, *worklist, stack, state as int);
                }
            }
            proof {
                if simple_automaton(*self.nfa) {
                    lemma_list_plain_same(*old(worklist), *worklist, *self.nfa, input@, s0, pos as int);
                }
                if no_backrefs(*self.nfa) {
                    lemma_list_checked_same(*old(worklist), *worklist, *self.nfa, input@, s0, pos as int);
                }
                if no_backrefs(*self.nfa) && self.rec_ok() {
                    lemma_list_recorded_keep(*old(worklist), *worklist, *self.nfa, input@, s0, pos as int, self.use_sparse_copy, *self.liveness);
                }
            }
            return;
        }
        proof {
            if simple_automaton(*self.nfa) {
                assert(simple_instr(self.nfa.states@[state as int].instruction));
                assert(plain_pass(*self.nfa, input@, pos as int, state as int));
                assert(new_flags == 0);
            }
            if no_backrefs(*self.nfa) {
                assert(!(self.nfa.states@[state as int].instruction matches Some(NfaInstruction::Backref(_))));
                assert(sound_pass(*self.nfa, input@, pos as int, state as int));
            }
        }
        if nfa_state.transitions.len() > 0 || nfa_state.is_match || has_backref {
            let ghost visited_now = worklist.visited@;
            let ghost w0 = *worklist;
            if let Some(thread_idx) = worklist.add_thread(state, new_flags) {
                proof {
                    assert(thread_idx == old(worklist).count);
                    assert forall|t: int| 0 <= t < worklist.count implies runs(
                        *self.nfa,
                        input@,
                        (self.nfa.start as int, s0),
                        (#[trigger] worklist.states@[t] as int, at),
                    ) by {
                        if t < w0.count {
                            assert(worklist.states@[t] == w0.states@[t]);
                        }
                    }
                }
                let ghost w1 = *worklist;
                self.seed_thread(worklist, thread_idx, state, source, pending, Ghost(len));
                proof {
                    assert(worklist.visited@ == visited_now);
                    lemma_mul_le(
                        old(worklist).count as int,
                        MAX_THREADS as int,
                        old(worklist).stride as int,
                    );
                    assert forall|k: int|
                        0 <= k < old(worklist).count * old(worklist).stride implies #[trigger] worklist.captures@[k]
                        == old(worklist).captures@[k] by {
                        assert(w1.captures@[k] == old(worklist).captures@[k]);
                    }
                    assert(worklist.states@[thread_idx as int] == state);
                    assert(has_thread(*worklist, state as int));
                    if no_backrefs(*self.nfa) && self.rec_ok() {
                        lemma_list_recorded_keep(*old(worklist), *worklist, *self.nfa, input@, s0, pos as int, self.use_sparse_copy, *self.liveness);
                        assert forall|k: int| 2 <= k < worklist.stride && slot_kept(self.use_sparse_copy, *self.liveness, state as int, k) implies #[trigger] worklist.captures@[thread_idx
                            * worklist.stride + k] == recorded(*self.nfa, path, k) by {
                            lemma_slot(thread_idx as int, worklist.stride as int, k);
                            if source is None {
                                assert(old(worklist).count * old(worklist).stride <= thread_idx * worklist.stride + k);
                            }
                        }
                        assert(checked_path(*self.nfa, input@, path, s0, worklist.states@[thread_idx as int] as int, pos as int));
                        assert(thread_recorded(*worklist, *self.nfa, input@, s0, pos as int, thread_idx as int, self.use_sparse_copy, *self.liveness));
                        assert forall|t: int| 0 <= t < worklist.count implies #[trigger] thread_recorded(
                            *worklist,
                            *self.nfa,
                            input@,
                            s0,
                            pos as int,
                            t,
                            self.use_sparse_copy,
                            *self.liveness,
                        ) by {
                            if t < old(worklist).count {
                            } else {
                                assert(t == thread_idx);
                            }
                        }
                        if source is None {
                            assert forall|i: int| worklist.count * worklist.stride <= i < worklist.captures@.len()
                                implies #[trigger] worklist.captures@[i] == -1 by {
                                let oc = old(worklist).count as int;
                                let nc = worklist.count as int;
                                let st = self.stride as int;
                                let ti = thread_idx as int;
                                assert(oc * st <= i && !(ti * st <= i < ti * st + st)) by (nonlinear_arith)
                                    requires
                                        nc == oc + 1,
                                        ti == oc,
                                        nc * st <= i,
                                        st >= 0,
                                ;
                                assert(worklist.stride == self.stride);
                            }
                        }
                    }
                    if no_backrefs(*self.nfa) {
                        assert forall|t: int| 0 <= t < worklist.count implies checked_runs(
                            *self.nfa,
                            input@,
                            (self.nfa.start as int, s0),
                            (#[trigger] worklist.states@[t] as int, pos as int),
                        ) && sound_pass(*self.nfa, input@, pos as int, worklist.states@[t] as int) by {
                            if t < w0.count {
                                assert(w0.states@[t] == old(worklist).states@[t]);
                            }
                        }
                    }
                    if simple_automaton(*self.nfa) {
                        assert forall|t: int| 0 <= t < worklist.count implies plain_reach(
                            *self.nfa,
                            input@,
                            s0,
                            pos as int,
                            #[trigger] worklist.states@[t] as int,
                        ) && plain_pass(*self.nfa, input@, pos as int, worklist.states@[t] as int)
                            && worklist.flags@[t] == 0 by {
                            if t < w0.count {
                                assert(w0.states@[t] == old(worklist).states@[t]);
                                assert(w0.flags@[t] == old(worklist).flags@[t]);
                            }
                        }
                    }
                }
            }
        }
        proof {
            if closed_at(*self.nfa, input@, pos as int, *old(worklist), stack) {
                lemma_closed_keep(
                    *self.nfa,
                    input@,
                    pos as int,
                    w_marked,
                    *worklist,
                    stack.insert(state as int),
                );
            }
        }
        let pending_len = pending.len();
        let mut k: usize = 0;
        while k < nfa_state.epsilon.len()
            invariant
                interp_ready(*self.nfa),
                self.stride == stride_of(*self.nfa),
                len == input@.len(),
                len <= isize::MAX,
                n == self.nfa.states@.len(),
                pos <= len,
                list_ok(*worklist, *self.nfa, len),
                forall|i: int| bitmap_has(old(worklist).visited@, i) ==> bitmap_has(worklist.visited@, i),
                unmarked(worklist.visited@, n) < entry,
                entry == unmarked(old(worklist).visited@, n),
                source matches Some((src, idx)) ==> list_ok(*src, *self.nfa, len) && idx < MAX_THREADS,
                pending_ok(pending@, self.stride as int, len),
                memo_ok(*self.nfa, input@, memo@),
                simple_automaton(*self.nfa) ==> list_plain(*worklist, *self.nfa, input@, s0, pos as int)
                    && at == pos && new_flags == 0 && plain_pass(*self.nfa, input@, pos as int, state as int)
                    && plain_reach(*self.nfa, input@, s0, pos as int, state as int),
                pending@ == pend1,
                pending_len == pend1.len(),
                no_backrefs(*self.nfa) && self.rec_ok() ==> list_recorded(*worklist, *self.nfa, input@, s0, pos as int, self.use_sparse_copy, *self.liveness) && (source
                    is None ==> fresh_tail(*worklist)) && checked_path(*self.nfa, input@, path, s0, state as int, pos as int)
                    && forall|k: int|
                    2 <= k < self.stride && slot_kept(self.use_sparse_copy, *self.liveness, state as int, k) ==> #[trigger] recorded(*self.nfa, path, k) == seeded(source, pend1, k),
                no_backrefs(*self.nfa) ==> list_checked(*worklist, *self.nfa, input@, s0, pos as int)
                    && at == pos && sound_pass(*self.nfa, input@, pos as int, state as int) && checked_runs(
                    *self.nfa,
                    input@,
                    (self.nfa.start as int, s0),
                    (state as int, pos as int),
                ),
                pending@.len() >= pending_len,
                pending_len >= old(pending)@.len(),
                k <= nfa_state.epsilon@.len(),
                (state as int) < n,
                *nfa_state == self.nfa.states@[state as int],
                runs(*self.nfa, input@, (self.nfa.start as int, s0), (state as int, at)),
                threads_run(*worklist, *self.nfa, input@, s0, at),
                kept_threads(*old(worklist), *worklist),
                worklist.stride == old(worklist).stride,
                bitmap_has(worklist.visited@, state as int),
                new_flags == spawn_flags(self.nfa.states@[state as int].instruction, flags),
                spawns_at(*self.nfa, state, *old(worklist), input@, pos as int, source, old(pending)@)
                    ==> {
                    &&& worklist.count > old(worklist).count
                    &&& worklist.states@[old(worklist).count as int] == state
                    &&& worklist.flags@[old(worklist).count as int] == new_flags
                },
                closed_at(*self.nfa, input@, pos as int, *old(worklist), stack) ==> closed_at(
                    *self.nfa,
                    input@,
                    pos as int,
                    *worklist,
                    stack.insert(state as int),
                ),
                forall|j: int|
                    0 <= j < k && (nfa_state.epsilon@[j] as int) < n ==> #[trigger] bitmap_has(
                        worklist.visited@,
                        nfa_state.epsilon@[j] as int,
                    ),
                (nfa_state.transitions@.len() > 0 || nfa_state.is_match) && worklist.count
                    < MAX_THREADS ==> has_thread(*worklist, state as int),
                old(worklist).count + unmarked(old(worklist).visited@, n) <= n ==> worklist.count
                    + unmarked(worklist.visited@, n) <= n,
            decreases nfa_state.epsilon@.len() - k,
        {
            let ghost v0 = worklist.visited@;
            let ghost w1 = *worklist;
            let target = nfa_state.epsilon[k];
            proof {
                assert(eps_to(self.nfa.states@[state as int], target as int)) by {
                    assert(nfa_state.epsilon@[k as int] == target);
                }
                lemma_runs_step(
                    *self.nfa,
                    input@,
                    (self.nfa.start as int, s0),
                    (state as int, at),
                    (target as int, at),
                );
            }
            proof {
                if no_backrefs(*self.nfa) && self.rec_ok() {
                    let p2 = path.push((target as int, pos as int));
                    assert(p2.drop_last() =~= path);
                    assert(self.nfa.states@[state as int].epsilon@[k as int] == target);
                    assert((self.nfa.states@[state as int].epsilon@[k as int] as int) < n);
                    assert(has_edge(self.nfa.states@, state as int, target as int));
                    assert forall|j: int| 2 <= j < self.stride && slot_kept(self.use_sparse_copy, *self.liveness, target as int, j) implies slot_kept(
                        self.use_sparse_copy, *self.liveness,
                        state as int,
                        j,
                    ) by {
                        lemma_kept_along_edge(self.use_sparse_copy, *self.liveness, *self.nfa, state as int, target as int, j);
                    }
                    assert(checked_moves(*self.nfa, input@, (state as int, pos as int), (target as int, pos as int)));
                    assert forall|i: int| 0 <= i < p2.len() - 1 implies #[trigger] checked_link(*self.nfa, input@, p2, i) by {
                        if i < path.len() - 1 {
                            assert(checked_link(*self.nfa, input@, path, i));
                        }
                    }
                }
                if no_backrefs(*self.nfa) {
                    assert(eps_to(self.nfa.states@[state as int], target as int));
                    assert(checked_moves(*self.nfa, input@, (state as int, pos as int), (target as int, pos as int)));
                    lemma_checked_step(
                        *self.nfa,
                        input@,
                        (self.nfa.start as int, s0),
                        (state as int, pos as int),
                        (target as int, pos as int),
                    );
                }
                if simple_automaton(*self.nfa) {
                    assert((nfa_state.epsilon@[k as int] as int) < n);
                    assert(eps_to(self.nfa.states@[state as int], target as int));
                    assert(plain_step(*self.nfa, input@, pos as int, state as int, target as int));
                    lemma_reach_eps(*self.nfa, input@, s0, pos as int, state as int, target as int);
                }
            }
            self.add_thread_inner(
                worklist,
                target,
                new_flags,
                input,
                pos,
                source,
                pending,
                memo,
                Ghost(s0),
                Ghost(at),
                Ghost(stack.insert(state as int)),
                Ghost(path.push((target as int, pos as int))),
            );
            proof {
                lemma_unmarked_grow(v0, worklist.visited@, n);
                lemma_kept_trans(*old(worklist), w1, *worklist);
                assert forall|j: int|
                    0 <= j < k + 1 && (nfa_state.epsilon@[j] as int) < n implies #[trigger] bitmap_has(
                    worklist.visited@,
                    nfa_state.epsilon@[j] as int,
                ) by {
                    if j < k {
                        assert(bitmap_has(v0, nfa_state.epsilon@[j] as int));
                    }
                }
                if (nfa_state.transitions@.len() > 0 || nfa_state.is_match) && worklist.count
                    < MAX_THREADS {
                    let t = choose|t: int| 0 <= t < w1.count && #[trigger] w1.states@[t] == state as int;
                    assert(worklist.states@[t] == w1.states@[t]);
                }
            }
            let ghost pend2 = pending@;
            pending.truncate(pending_len);
            proof {
                assert(pending@ =~= pend2.subrange(0, pend1.len() as int));
                assert(pending@ =~= pend1);
            }
            k = k + 1;
        }
        proof {
            if closed_at(*self.nfa, input@, pos as int, *old(worklist), stack) {
                assert forall|b: int|
                    0 <= b < n && eps_to(self.nfa.states@[state as int], b) implies #[trigger] bitmap_has(
                    worklist.visited@,
                    b,
                ) by {
                    let i = choose|i: int|
                        0 <= i < nfa_state.epsilon@.len() && nfa_state.epsilon@[i] == b;
                    assert(bitmap_has(worklist.visited@, nfa_state.epsilon@[i] as int));
                }
                lemma_closed_drop(*self.nfa, input@, pos as int, *worklist, stack, state as int);
            }
        }
    }

    /// The result of a lookaround at `state` and `pos`: remembered, or
    /// evaluated and remembered. `positive` says whether the body must match.
    fn lookaround_result(
        &self,
        memo: &mut HashMap<u128, bool>,
        state: StateId,
        inner: &Nfa,
        input: &[u8],
        pos: usize,
        behind: bool,
        positive: bool,
    ) -> (b: bool)
        requires
            interp_ready(*inner),
            pos <= input@.len(),
            input@.len() <= isize::MAX,
            (state as int) < self.nfa.states@.len(),
            is_lookaround_of(self.nfa.states@[state as int].instruction, *inner, behind, positive),
            memo_ok(*self.nfa, input@, old(memo)@),
        ensures
            memo_ok(*self.nfa, input@, final(memo)@),
            check_known_to_pass(self.nfa.states@[state as int].instruction, input@, pos as int, None, Seq::empty())
                ==> b,
            b ==> sound_pass(*self.nfa, input@, pos as int, state as int),
            old(memo)@.contains_key(memo_key(state, pos)) ==> b == old(memo)@[memo_key(state, pos)]
                && final(memo)@ == old(memo)@,
            !old(memo)@.contains_key(memo_key(state, pos)) ==> final(memo)@ == old(memo)@.insert(
                memo_key(state, pos),
                b,
            ),
            !old(memo)@.contains_key(memo_key(state, pos)) ==> (b == positive ==> lookaround_holds(
                *inner,
                input@,
                pos as int,
                behind,
            )),
            !old(memo)@.contains_key(memo_key(state, pos)) && !behind && match_known_from(
                *inner,
                input@.subrange(pos as int, input@.len() as int),
                0,
            ) ==> b == positive,
        decreases *inner, 8int, 0int,
    {
        let key = memo_key_of(state, pos);
        if let Some(v) = memo.get(&key) {
            return *v;
        }
        let found = lookaround_found(inner, input, pos, behind);
        let v = if positive {
            found
        } else {
            !found
        };
        proof {
            let instr = self.nfa.states@[state as int].instruction;
            if check_known_to_pass(instr, input@, pos as int, None, Seq::empty()) {
                if positive && !behind {
                    let rest = input@.subrange(pos as int, input@.len() as int);
                    let e = choose|e: int|
                        0 <= e <= input@.len() - pos && #[trigger] accepts(*inner, rest, 0, e);
                    lemma_plain_accepts_known(*inner, rest, 0, e);
                }
            }
        }
        let ghost m0 = memo@;
        memo.insert(key, v);
        proof {
            assert forall|st: StateId, p: usize|
                (st as int) < self.nfa.states@.len() && (p as int) <= input@.len()
                    && memo@.contains_key(#[trigger] memo_key(st, p)) implies (check_known_to_pass(
                    self.nfa.states@[st as int].instruction,
                    input@,
                    p as int,
                    None,
                    Seq::empty(),
                ) ==> memo@[memo_key(st, p)]) && (memo@[memo_key(st, p)] ==> sound_pass(
                    *self.nfa,
                    input@,
                    p as int,
                    st as int,
                )) by {
                if memo_key(st, p) == key {
                    lemma_memo_key_injective(st, p, state, pos);
                } else {
                    assert(m0.contains_key(memo_key(st, p)));
                }
            }
        }
        v
    }

    /// Whether the text of a group, as recorded on the way here or by the
    /// source thread, comes next in the input.
    fn backref_holds(
        &self,
        group: u32,
        input: &[u8],
        pos: usize,
        source: Option<(&ThreadWorklist, usize)>,
        pending: &Vec<(usize, i64)>,
    ) -> (b: bool)
        requires
            group <= self.nfa.capture_count,
            self.stride == stride_of(*self.nfa),
            pos <= input@.len(),
            input@.len() <= isize::MAX,
            source matches Some((src, idx)) ==> list_ok(*src, *self.nfa, input@.len() as int)
                && idx < MAX_THREADS,
            pending_ok(pending@, self.stride as int, input@.len() as int),
        ensures
            b == backref_matches(
                input@,
                pos as int,
                bound_of(source, pending@, group * 2),
                bound_of(source, pending@, group * 2 + 1),
            ),
    {
        let ghost len = input@.len() as int;
        let start_slot = (group as usize) * 2;
        let end_slot = start_slot + 1;
        let mut cap_start: Option<i64> = None;
        let mut cap_end: Option<i64> = None;
        let mut i: usize = 0;
        proof {
            assert(pending@.take(0) =~= Seq::<(usize, i64)>::empty());
        }
        while i < pending.len()
            invariant
                i <= pending@.len(),
                end_slot == start_slot + 1,
                pending_ok(pending@, self.stride as int, len),
                cap_start == pending_last(pending@.take(i as int), start_slot as int),
                cap_end == pending_last(pending@.take(i as int), end_slot as int),
                cap_start matches Some(v) ==> 0 <= v <= len,
                cap_end matches Some(v) ==> 0 <= v <= len,
            decreases pending@.len() - i,
        {
            let (slot, val) = pending[i];
            proof {
                assert(pending@.take(i + 1).last() == pending@[i as int]);
                assert(pending@.take(i + 1).drop_last() =~= pending@.take(i as int));
            }
            if slot == start_slot {
                cap_start = Some(val);
            } else if slot == end_slot {
                cap_end = Some(val);
            }
            i = i + 1;
        }
        proof {
            assert(pending@.take(i as int) =~= pending@);
        }
        if let Some((src, src_idx)) = source {
            proof {
                lemma_slot(src_idx as int, src.stride as int, start_slot as int);
                lemma_slot(src_idx as int, src.stride as int, end_slot as int);
            }
            if cap_start.is_none() {
                let v = src.get_capture(src_idx, start_slot);
                if v >= 0 {
                    cap_start = Some(v);
                }
            }
            if cap_end.is_none() {
                let v = src.get_capture(src_idx, end_slot);
                if v >= 0 {
                    cap_end = Some(v);
                }
            }
        }
        match (cap_start, cap_end) {
            (Some(s), Some(e)) => {
                if s < 0 || e < 0 || s > e {
                    return false;
                }
                let cs = s as usize;
                let ce = e as usize;
                let cap_len = ce - cs;
                if cap_len > input.len() - pos {
                    return false;
                }
                same_bytes(input, cs, pos, cap_len)
            },
            _ => false,
        }
    }

    /// Whether spawning a thread at `state` copies capture slot `k` from the
    /// source thread: every slot without sparse copying, else group 0 and the
    /// groups in the state's copy mask.
    pub closed spec fn copies_slot(&self, state: StateId, k: int) -> bool {
        slot_kept(self.use_sparse_copy, *self.liveness, state as int, k)
    }

    /// Whether the capture groups reported are stated: always without sparse
    /// copying; with it, where the liveness is that of the automaton, there are
    /// fewer than 64 groups and every matching state is listed as one.
    pub closed spec fn rec_ok(&self) -> bool {
        !self.use_sparse_copy || (liveness_of(*self.nfa, *self.liveness) && self.nfa.capture_count < 64
            && matches_listed(*self.nfa))
    }

    /// The value that slot `k` of a thread spawned at `state` gets, where it
    /// held `prior`: the last pending update of the slot, else the source
    /// thread's slot where it is copied, else `prior`.
    pub open spec fn seed_value(
        &self,
        state: StateId,
        source: Option<(&ThreadWorklist, usize)>,
        pending: Seq<(usize, i64)>,
        prior: i64,
        k: int,
    ) -> i64 {
        match pending_last(pending, k) {
            Some(v) => v,
            None => match source {
                Some((src, idx)) => if self.copies_slot(state, k) {
                    src.captures@[idx * src.stride + k]
                } else {
                    prior
                },
                None => prior,
            },
        }
    }

    /// Fills the capture slots of a new thread: the live (or all) captures
    /// of the source thread, group 0, and the pending updates.
    fn seed_thread(
        &self,
        worklist: &mut ThreadWorklist,
        thread_idx: usize,
        state: StateId,
        source: Option<(&ThreadWorklist, usize)>,
        pending: &Vec<(usize, i64)>,
        Ghost(len): Ghost<int>,
    )
        requires
            self.stride == stride_of(*self.nfa),
            list_ok(*old(worklist), *self.nfa, len),
            thread_idx < MAX_THREADS,
            source matches Some((src, idx)) ==> list_ok(*src, *self.nfa, len) && idx < MAX_THREADS,
            pending_ok(pending@, self.stride as int, len),
        ensures
            list_ok(*final(worklist), *self.nfa, len),
            final(worklist).visited == old(worklist).visited,
            final(worklist).count == old(worklist).count,
            final(worklist).states == old(worklist).states,
            final(worklist).flags == old(worklist).flags,
            forall|k: int|
                0 <= k < final(worklist).captures@.len() && !(thread_idx * self.stride <= k
                    < thread_idx * self.stride + self.stride) ==> #[trigger] final(worklist).captures@[k]
                    == old(worklist).captures@[k],
            forall|k: int|
                0 <= k < self.stride ==> #[trigger] final(worklist).captures@[thread_idx * self.stride
                    + k] == self.seed_value(
                    state,
                    source,
                    pending@,
                    old(worklist).captures@[thread_idx * self.stride + k],
                    k,
                ),
    {
        let ghost w0 = *worklist;
        let ghost base = thread_idx * self.stride;
        let ghost stride = self.stride as int;
        proof {
            lemma_slot(thread_idx as int, stride, 0);
            lemma_slot(thread_idx as int, stride, stride - 1);
        }
        if let Some((src, src_idx)) = source {
            let ghost sbase = src_idx * src.stride;
            if self.use_sparse_copy {
                let m = self.liveness.copy_mask(state);
                let mask = m.iter();
                let mut j: usize = 0;
                while j < mask.len()
                    invariant
                        self.stride == stride_of(*self.nfa),
                        stride == self.stride,
                        base == thread_idx * self.stride,
                        sbase == src_idx * src.stride,
                        0 <= base,
                        base + stride <= w0.captures@.len(),
                        list_ok(*worklist, *self.nfa, len),
                        list_ok(*src, *self.nfa, len),
                        src_idx < MAX_THREADS,
                        thread_idx < MAX_THREADS,
                        worklist.visited == w0.visited,
                        worklist.count == w0.count,
                        worklist.states == w0.states,
                        worklist.flags == w0.flags,
                        worklist.captures@.len() == w0.captures@.len(),
                        j <= mask@.len(),
                        forall|k: int|
                            0 <= k < worklist.captures@.len() && !(base <= k < base + stride)
                                ==> #[trigger] worklist.captures@[k] == w0.captures@[k],
                        forall|k: int|
                            0 <= k < stride ==> #[trigger] worklist.captures@[base + k] == if in_prefix(
                                mask@,
                                j as int,
                                k / 2,
                            ) {
                                src.captures@[sbase + k]
                            } else {
                                w0.captures@[base + k]
                            },
                    decreases mask@.len() - j,
                {
                    let g = mask[j] as usize;
                    let ghost c0 = worklist.captures@;
                    if g < worklist.stride / 2 {
                        let start_slot = g * 2;
                        let end_slot = start_slot + 1;
                        proof {
                            lemma_slot(thread_idx as int, worklist.stride as int, start_slot as int);
                            lemma_slot(thread_idx as int, worklist.stride as int, end_slot as int);
                            lemma_slot(src_idx as int, src.stride as int, start_slot as int);
                            lemma_slot(src_idx as int, src.stride as int, end_slot as int);
                        }
                        let a = src.get_capture(src_idx, start_slot);
                        worklist.set_capture(thread_idx, start_slot, a);
                        let b = src.get_capture(src_idx, end_slot);
                        worklist.set_capture(thread_idx, end_slot, b);
                    }
                    proof {
                        assert forall|k: int| 0 <= k < stride implies #[trigger] worklist.captures@[base
                            + k] == if in_prefix(mask@, j + 1, k / 2) {
                            src.captures@[sbase + k]
                        } else {
                            w0.captures@[base + k]
                        } by {
                            lemma_in_prefix_step(mask@, j as int, k / 2);
                            assert(c0[base + k] == if in_prefix(mask@, j as int, k / 2) {
                                src.captures@[sbase + k]
                            } else {
                                w0.captures@[base + k]
                            });
                        }
                        assert forall|k: int|
                            0 <= k < worklist.captures@.len() && !(base <= k < base + stride)
                                implies #[trigger] worklist.captures@[k] == w0.captures@[k] by {
                            assert(c0[k] == w0.captures@[k]);
                        }
                    }
                    j = j + 1;
                }
                proof {
                    lemma_slot(thread_idx as int, worklist.stride as int, 0);
                    lemma_slot(thread_idx as int, worklist.stride as int, 1);
                    lemma_slot(src_idx as int, src.stride as int, 0);
                    lemma_slot(src_idx as int, src.stride as int, 1);
                }
                let ghost c1 = worklist.captures@;
                let a = src.get_capture(src_idx, 0);
                worklist.set_capture(thread_idx, 0, a);
                let b = src.get_capture(src_idx, 1);
                worklist.set_capture(thread_idx, 1, b);
                proof {
                    assert forall|k: int| 0 <= k < stride implies #[trigger] worklist.captures@[base + k]
                        == if self.copies_slot(state, k) {
                        src.captures@[sbase + k]
                    } else {
                        w0.captures@[base + k]
                    } by {
                        assert(c1[base + k] == if in_prefix(mask@, mask@.len() as int, k / 2) {
                            src.captures@[sbase + k]
                        } else {
                            w0.captures@[base + k]
                        });
                        assert(in_prefix(mask@, mask@.len() as int, k / 2) == m@.contains(k / 2));
                    }
                    assert forall|k: int|
                        0 <= k < worklist.captures@.len() && !(base <= k < base + stride)
                            implies #[trigger] worklist.captures@[k] == w0.captures@[k] by {
                        assert(c1[k] == w0.captures@[k]);
                    }
                }
            } else {
                let mut slot: usize = 0;
                while slot < worklist.stride
                    invariant
                        self.stride == stride_of(*self.nfa),
                        !self.use_sparse_copy,
                        stride == self.stride,
                        base == thread_idx * self.stride,
                        sbase == src_idx * src.stride,
                        0 <= base,
                        base + stride <= w0.captures@.len(),
                        list_ok(*worklist, *self.nfa, len),
                        list_ok(*src, *self.nfa, len),
                        src_idx < MAX_THREADS,
                        thread_idx < MAX_THREADS,
                        worklist.visited == w0.visited,
                        worklist.count == w0.count,
                        worklist.states == w0.states,
                        worklist.flags == w0.flags,
                        worklist.captures@.len() == w0.captures@.len(),
                        slot <= worklist.stride,
                        forall|k: int|
                            0 <= k < worklist.captures@.len() && !(base <= k < base + stride)
                                ==> #[trigger] worklist.captures@[k] == w0.captures@[k],
                        forall|k: int|
                            0 <= k < stride ==> #[trigger] worklist.captures@[base + k] == if k < slot {
                                src.captures@[sbase + k]
                            } else {
                                w0.captures@[base + k]
                            },
                    decreases worklist.stride - slot,
                {
                    proof {
                        lemma_slot(thread_idx as int, worklist.stride as int, slot as int);
                        lemma_slot(src_idx as int, src.stride as int, slot as int);
                    }
                    let v = src.get_capture(src_idx, slot);
                    worklist.set_capture(thread_idx, slot, v);
                    slot = slot + 1;
                }
            }
        }
        let ghost mid = worklist.captures@;
        proof {
            assert forall|k: int| 0 <= k < stride implies #[trigger] mid[base + k] == match source {
                Some((src, idx)) => if self.copies_slot(state, k) {
                    src.captures@[idx * src.stride + k]
                } else {
                    w0.captures@[base + k]
                },
                None => w0.captures@[base + k],
            } by {}
            assert(pending@.take(0) =~= Seq::<(usize, i64)>::empty());
        }
        let mut i: usize = 0;
        while i < pending.len()
            invariant
                self.stride == stride_of(*self.nfa),
                stride == self.stride,
                base == thread_idx * self.stride,
                0 <= base,
                base + stride <= w0.captures@.len(),
                list_ok(*worklist, *self.nfa, len),
                thread_idx < MAX_THREADS,
                pending_ok(pending@, self.stride as int, len),
                worklist.visited == w0.visited,
                worklist.count == w0.count,
                worklist.states == w0.states,
                worklist.flags == w0.flags,
                worklist.captures@.len() == w0.captures@.len(),
                mid.len() == w0.captures@.len(),
                i <= pending@.len(),
                forall|k: int|
                    0 <= k < worklist.captures@.len() && !(base <= k < base + stride) ==> #[trigger] worklist.captures@[k]
                        == mid[k],
                forall|k: int|
                    0 <= k < stride ==> #[trigger] worklist.captures@[base + k] == match pending_last(
                        pending@.take(i as int),
                        k,
                    ) {
                        Some(v) => v,
                        None => mid[base + k],
                    },
            decreases pending@.len() - i,
        {
            let (slot, val) = pending[i];
            let ghost c0 = worklist.captures@;
            proof {
                lemma_slot(thread_idx as int, worklist.stride as int, slot as int);
            }
            worklist.set_capture(thread_idx, slot, val);
            proof {
                assert(pending@.take(i + 1).last() == pending@[i as int]);
                assert(pending@.take(i + 1).drop_last() =~= pending@.take(i as int));
                assert forall|k: int| 0 <= k < stride implies #[trigger] worklist.captures@[base + k]
                    == match pending_last(pending@.take(i + 1), k) {
                    Some(v) => v,
                    None => mid[base + k],
                } by {
                    assert(c0[base + k] == match pending_last(pending@.take(i as int), k) {
                        Some(v) => v,
                        None => mid[base + k],
                    });
                }
                assert forall|k: int|
                    0 <= k < worklist.captures@.len() && !(base <= k < base + stride) implies #[trigger] worklist.captures@[k]
                        == mid[k] by {
                    assert(c0[k] == mid[k]);
                }
            }
            i = i + 1;
        }
        proof {
            assert(pending@.take(i as int) =~= pending@);
            assert forall|k: int| 0 <= k < stride implies #[trigger] worklist.captures@[thread_idx * self.stride + k]
                == self.seed_value(
                state,
                source,
                pending@,
                w0.captures@[thread_idx * self.stride + k],
                k,
            ) by {
                assert(worklist.captures@[base + k] == match pending_last(pending@, k) {
                    Some(v) => v,
                    None => mid[base + k],
                });
                assert(mid[base + k] == match source {
                    Some((src, idx)) => if self.copies_slot(state, k) {
                        src.captures@[idx * src.stride + k]
                    } else {
                        w0.captures@[base + k]
                    },
                    None => w0.captures@[base + k],
                });
            }
        }
    }

    /// Spawns a thread at `state`, carrying the captures of thread
    /// `src_thread` of `src_worklist`.
    fn add_thread_with_captures(
        &self,
        worklist: &mut ThreadWorklist,
        state: StateId,
        flags: u32,
        input: &[u8],
        pos: usize,
        src_worklist: &ThreadWorklist,
        src_thread: usize,
        memo: &mut HashMap<u128, bool>,
        Ghost(s0): Ghost<int>,
        Ghost(at): Ghost<int>,
        Ghost(path): Ghost<Seq<(int, int)>>,
    )
        requires
            no_backrefs(*self.nfa) && self.rec_ok() ==> {
                &&& checked_path(*self.nfa, input@, path, s0, state as int, pos as int)
                &&& forall|k: int|
                    2 <= k < self.stride && slot_kept(self.use_sparse_copy, *self.liveness, state as int, k) ==> #[trigger] recorded(*self.nfa, path.drop_last(), k) == seeded(
                        Some((src_worklist, src_thread)),
                        Seq::empty(),
                        k,
                    )
                &&& list_recorded(*old(worklist), *self.nfa, input@, s0, pos as int, self.use_sparse_copy, *self.liveness)
                &&& (Some((src_worklist, src_thread)) is None ==> fresh_tail(*old(worklist)))
            },
            no_backrefs(*self.nfa) ==> at == pos && checked_runs(
                *self.nfa,
                input@,
                (self.nfa.start as int, s0),
                (state as int, pos as int),
            ) && list_checked(*old(worklist), *self.nfa, input@, s0, pos as int),
            simple_automaton(*self.nfa) ==> at == pos && flags == 0 && plain_reach(
                *self.nfa,
                input@,
                s0,
                pos as int,
                state as int,
            ) && list_plain(*old(worklist), *self.nfa, input@, s0, pos as int),
            memo_ok(*self.nfa, input@, old(memo)@),
            interp_ready(*self.nfa),
            self.stride == stride_of(*self.nfa),
            list_ok(*old(worklist), *self.nfa, input@.len() as int),
            pos <= input@.len(),
            input@.len() <= isize::MAX,
            list_ok(*src_worklist, *self.nfa, input@.len() as int),
            src_thread < MAX_THREADS,
            runs(*self.nfa, input@, (self.nfa.start as int, s0), (state as int, at)),
            threads_run(*old(worklist), *self.nfa, input@, s0, at),
        ensures
            no_backrefs(*self.nfa) && self.rec_ok() ==> list_recorded(*final(worklist), *self.nfa, input@, s0, pos as int, self.use_sparse_copy, *self.liveness) && (Some((src_worklist, src_thread))
                is None ==> fresh_tail(*final(worklist))),
            no_backrefs(*self.nfa) ==> list_checked(*final(worklist), *self.nfa, input@, s0, pos as int),
            simple_automaton(*self.nfa) ==> list_plain(*final(worklist), *self.nfa, input@, s0, pos as int),
            memo_ok(*self.nfa, input@, final(memo)@),
            list_ok(*final(worklist), *self.nfa, input@.len() as int),
            threads_run(*final(worklist), *self.nfa, input@, s0, at),
            kept_threads(*old(worklist), *final(worklist)),
            forall|i: int| bitmap_has(old(worklist).visited@, i) ==> bitmap_has(final(worklist).visited@, i),
            (state as int) < self.automaton().states@.len() ==> bitmap_has(
                final(worklist).visited@,
                state as int,
            ),
            spawns_at(
                *self.nfa,
                state,
                *old(worklist),
                input@,
                pos as int,
                Some((src_worklist, src_thread)),
                Seq::empty(),
            ) ==> {
                &&& final(worklist).count > old(worklist).count
                &&& final(worklist).states@[old(worklist).count as int] == state
                &&& final(worklist).flags@[old(worklist).count as int] == spawn_flags(
                    self.nfa.states@[state as int].instruction,
                    flags,
                )
            },
            closed_at(*self.nfa, input@, pos as int, *old(worklist), Set::empty()) ==> closed_at(
                *self.nfa,
                input@,
                pos as int,
                *final(worklist),
                Set::empty(),
            ),
            old(worklist).count + unmarked(old(worklist).visited@, self.automaton().states@.len() as int)
                <= self.automaton().states@.len() ==> final(worklist).count + unmarked(
                final(worklist).visited@,
                self.automaton().states@.len() as int,
            ) <= self.automaton().states@.len(),
        decreases self.automaton(), 3int, 0int,
    {
        self.add_thread(
            worklist,
            state,
            flags,
            input,
            pos,
            Some((src_worklist, src_thread)),
            memo,
            Ghost(s0),
            Ghost(at),
            Ghost(path),
        );
    }

    /// The capture list of a thread's match from `start` to `end`.
    fn extract_captures(
        &self,
        worklist: &ThreadWorklist,
        thread_idx: usize,
        start: usize,
        end: usize,
        Ghost(len): Ghost<int>,
    ) -> (r: Vec<Option<(usize, usize)>>)
        requires
            self.stride == stride_of(*self.nfa),
            list_ok(*worklist, *self.nfa, len),
            thread_idx < MAX_THREADS,
            start <= end <= len,
        ensures
            match_captures(r@, self.nfa.capture_count + 1, start as int, len),
            r@[0] == Some((start, end)),
            forall|g: int|
                1 <= g <= self.nfa.capture_count ==> #[trigger] r@[g] == thread_group(
                    *worklist,
                    thread_idx as int,
                    g,
                ),
    {
        self.extract_captures_at_pos(worklist, thread_idx, start, end, Ghost(len))
    }

    /// The capture list of a thread's match from `start` to `end`: group 0
    /// is the match, the others what the thread recorded.
    fn extract_captures_at_pos(
        &self,
        worklist: &ThreadWorklist,
        thread_idx: usize,
        start: usize,
        end: usize,
        Ghost(len): Ghost<int>,
    ) -> (r: Vec<Option<(usize, usize)>>)
        requires
            self.stride == stride_of(*self.nfa),
            list_ok(*worklist, *self.nfa, len),
            thread_idx < MAX_THREADS,
            start <= end <= len,
        ensures
            match_captures(r@, self.nfa.capture_count + 1, start as int, len),
            r@[0] == Some((start, end)),
            forall|g: int|
                1 <= g <= self.nfa.capture_count ==> #[trigger] r@[g] == thread_group(
                    *worklist,
                    thread_idx as int,
                    g,
                ),
    {
        let capture_count = self.nfa.capture_count as usize;
        let mut result: Vec<Option<(usize, usize)>> = Vec::new();
        result.push(Some((start, end)));
        let mut group: usize = 1;
        while group <= capture_count
            invariant
                self.stride == stride_of(*self.nfa),
                capture_count == self.nfa.capture_count,
                list_ok(*worklist, *self.nfa, len),
                thread_idx < MAX_THREADS,
                start <= end <= len,
                1 <= group <= capture_count + 1,
                result@.len() == group,
                result@[0] == Some((start, end)),
                forall|g: int|
                    0 <= g < result@.len() ==> (#[trigger] result@[g] matches Some((s, e)) ==> s
                        <= len && e <= len),
                forall|g: int|
                    1 <= g < result@.len() ==> #[trigger] result@[g] == thread_group(
                        *worklist,
                        thread_idx as int,
                        g,
                    ),
            decreases capture_count + 1 - group,
        {
            proof {
                lemma_slot(thread_idx as int, worklist.stride as int, group * 2);
                lemma_slot(thread_idx as int, worklist.stride as int, group * 2 + 1);
            }
            let s = worklist.get_capture(thread_idx, group * 2);
            let e = worklist.get_capture(thread_idx, group * 2 + 1);
            if s >= 0 && e >= 0 {
                result.push(Some((s as usize, e as usize)));
            } else {
                result.push(None);
            }
            group = group + 1;
        }
        result
    }
}

} // verus!
