//! Thompson's construction: an NFA with epsilon transitions from a pattern.
use crate::error::Result;
use crate::hir::{
    CodepointClass, Hir, HirAnchor, HirCapture, HirClass, HirExpr, HirLookaround,
    HirLookaroundKind, HirProps, HirRepeat,
};
use crate::nfa::glushkov::class_bytes;
use crate::nfa::language::{
    anchor_instruction, ext, ext_state, hir_matches, iter_matches, lemma_concat_matches, lemma_ext_edit,
    lemma_ext_prefix, lemma_ext_refl, lemma_ext_runs, lemma_ext_state_grow, lemma_ext_trans,
    lemma_iter_last, lemma_iter_one, lemma_iter_one_intro, lemma_iter_split, lemma_iter_zero,
    lemma_iter_zero_intro, lemma_repeat_count,
    lemma_seq_empty, lemma_seq_last, seq_matches,
};
use crate::nfa::tagged::interpreter::nfa_interpreter::{
    accepts, byte_to, eps_to, lemma_runs_refl, lemma_runs_step, lemma_runs_trans, matches_listed, moves,
    runs,
};
use crate::nfa::state::{ranges_bytes, ByteRange, Nfa, NfaInstruction, NfaState, StateId};
use crate::nfa::tagged::liveness::{lemma_wf_ready, lookaround_total};
use crate::nfa::tagged::steps::lookaround_ready;
use vstd::prelude::*;

verus! {

// ---------------------------------------------------------------------------
// Shape of the automaton
// ---------------------------------------------------------------------------

/// Whether every state that `st` names lies in `lo..hi`.
pub open spec fn targets_in(st: NfaState, lo: int, hi: int) -> bool {
    &&& forall|i: int|
        0 <= i < st.transitions@.len() ==> lo <= (#[trigger] st.transitions@[i]).1 < hi
    &&& forall|i: int| 0 <= i < st.epsilon@.len() ==> lo <= #[trigger] st.epsilon@[i] < hi
    &&& (st.instruction matches Some(NfaInstruction::CodepointClass(_, t)) ==> lo <= t < hi)
    &&& lookaround_ready(st.instruction)
}

/// Whether every state from `base` on names only states from `base` to the end.
pub open spec fn closed_from(states: Seq<NfaState>, base: int) -> bool {
    forall|s: int| base <= s < states.len() ==> #[trigger] targets_in(states[s], base, states.len() as int)
}

/// Whether `new` keeps `old` as its prefix, and its added states name only
/// added states and are not match states.
pub open spec fn grown(old: Seq<NfaState>, new: Seq<NfaState>) -> bool {
    &&& new.len() >= old.len()
    &&& new.subrange(0, old.len() as int) == old
    &&& closed_from(new, old.len() as int)
    &&& forall|s: int| old.len() <= s < new.len() ==> !(#[trigger] new[s]).is_match
}

/// Whether byte ranges are each non-empty, in increasing order, and neither
/// overlap nor touch.
pub open spec fn ranges_separated(rs: Seq<ByteRange>) -> bool {
    &&& forall|j: int| 0 <= j < rs.len() ==> (#[trigger] rs[j]).start <= rs[j].end
    &&& forall|j: int, k: int|
        0 <= j < k < rs.len() ==> (#[trigger] rs[j]).end + 1 < (#[trigger] rs[k]).start
}

/// The instructions whose states the construction counts.
pub enum InstrTag {
    /// Start of capture group `g`.
    CaptureStart(u32),
    /// End of capture group `g`.
    CaptureEnd(u32),
    /// Backreference to group `g`.
    Backref(u32),
    /// Any lookaround.
    Lookaround,
}

/// Whether an instruction carries the tag.
pub open spec fn has_tag(i: Option<NfaInstruction>, t: InstrTag) -> bool {
    match t {
        InstrTag::CaptureStart(g) => i == Some(NfaInstruction::CaptureStart(g)),
        InstrTag::CaptureEnd(g) => i == Some(NfaInstruction::CaptureEnd(g)),
        InstrTag::Backref(g) => i == Some(NfaInstruction::Backref(g)),
        InstrTag::Lookaround => {
            ||| i matches Some(NfaInstruction::PositiveLookahead(_))
            ||| i matches Some(NfaInstruction::NegativeLookahead(_))
            ||| i matches Some(NfaInstruction::PositiveLookbehind(_))
            ||| i matches Some(NfaInstruction::NegativeLookbehind(_))
        },
    }
}

/// Number of states whose instruction carries the tag.
pub open spec fn tag_count(states: Seq<NfaState>, t: InstrTag) -> nat
    decreases states.len(),
{
    if states.len() == 0 {
        0
    } else {
        tag_count(states.drop_last(), t) + if has_tag(states.last().instruction, t) {
            1nat
        } else {
            0nat
        }
    }
}

/// The lookaround states that liveness counts are the states tagged as lookarounds.
pub proof fn lemma_lookaround_total_tags(states: Seq<NfaState>)
    ensures
        lookaround_total(states) == tag_count(states, InstrTag::Lookaround),
    decreases states.len(),
{
    if states.len() > 0 {
        lemma_lookaround_total_tags(states.drop_last());
    }
}

proof fn lemma_tags_same(a: Seq<NfaState>, b: Seq<NfaState>)
    requires
        a.len() == b.len(),
        forall|i: int| 0 <= i < a.len() ==> #[trigger] b[i].instruction == a[i].instruction,
    ensures
        forall|t: InstrTag| #[trigger] tag_count(b, t) == tag_count(a, t),
    decreases a.len(),
{
    if a.len() > 0 {
        lemma_tags_same(a.drop_last(), b.drop_last());
        assert(b.last().instruction == a.last().instruction);
        assert forall|t: InstrTag| #[trigger] tag_count(b, t) == tag_count(a, t) by {
            assert(tag_count(b.drop_last(), t) == tag_count(a.drop_last(), t));
        }
    }
}

proof fn lemma_tags_push(a: Seq<NfaState>, x: NfaState)
    ensures
        forall|t: InstrTag|
            #[trigger] tag_count(a.push(x), t) == tag_count(a, t) + if has_tag(x.instruction, t) {
                1nat
            } else {
                0nat
            },
{
    assert(a.push(x).drop_last() =~= a);
}

proof fn lemma_tags_set(a: Seq<NfaState>, b: Seq<NfaState>, i: int, instr: NfaInstruction)
    requires
        a.len() == b.len(),
        0 <= i < a.len(),
        forall|j: int| 0 <= j < a.len() && j != i ==> #[trigger] b[j].instruction == a[j].instruction,
        a[i].instruction is None,
        b[i].instruction == Some(instr),
    ensures
        forall|t: InstrTag|
            #[trigger] tag_count(b, t) == tag_count(a, t) + if has_tag(Some(instr), t) {
                1nat
            } else {
                0nat
            },
    decreases a.len(),
{
    if i == a.len() - 1 {
        lemma_tags_same(a.drop_last(), b.drop_last());
        assert forall|t: InstrTag|
            #[trigger] tag_count(b, t) == tag_count(a, t) + if has_tag(Some(instr), t) {
                1nat
            } else {
                0nat
            } by {
            assert(tag_count(b.drop_last(), t) == tag_count(a.drop_last(), t));
        }
    } else {
        lemma_tags_set(a.drop_last(), b.drop_last(), i, instr);
        assert(b.last().instruction == a.last().instruction);
        assert forall|t: InstrTag|
            #[trigger] tag_count(b, t) == tag_count(a, t) + if has_tag(Some(instr), t) {
                1nat
            } else {
                0nat
            } by {
            assert(tag_count(b.drop_last(), t) == tag_count(a.drop_last(), t) + if has_tag(
                Some(instr),
                t,
            ) {
                1nat
            } else {
                0nat
            });
        }
    }
}

/// Whether `b` differs from `a` at most at index `i`.
pub open spec fn edited(a: Seq<NfaState>, b: Seq<NfaState>, i: int) -> bool {
    &&& a.len() == b.len()
    &&& forall|j: int| 0 <= j < a.len() && j != i ==> #[trigger] b[j] == a[j]
}

/// Whether a state has no transition, no instruction, and does not match.
pub open spec fn blank_state(st: NfaState) -> bool {
    &&& st.transitions@.len() == 0
    &&& st.epsilon@.len() == 0
    &&& !st.is_match
    &&& st.instruction is None
}

/// Whether an automaton is well formed: every state it names exists.
pub open spec fn nfa_wf(nfa: Nfa) -> bool {
    &&& nfa.states@.len() <= u32::MAX
    &&& closed_from(nfa.states@, 0)
    &&& (nfa.start as int) < nfa.states@.len()
    &&& forall|i: int|
        0 <= i < nfa.matches@.len() ==> (#[trigger] nfa.matches@[i] as int) < nfa.states@.len()
}

/// Whether two automata agree on everything but their states.
pub open spec fn same_header(a: Nfa, b: Nfa) -> bool {
    &&& a.start == b.start
    &&& a.matches == b.matches
    &&& a.capture_count == b.capture_count
    &&& a.has_backrefs == b.has_backrefs
    &&& a.has_lookaround == b.has_lookaround
    &&& a.epsilon_closures == b.epsilon_closures
}

proof fn lemma_grown_refl(a: Seq<NfaState>)
    ensures
        grown(a, a),
{
    assert(a.subrange(0, a.len() as int) =~= a);
}

proof fn lemma_grown_push(a: Seq<NfaState>, b: Seq<NfaState>, st: NfaState)
    requires
        grown(a, b),
        blank_state(st),
    ensures
        grown(a, b.push(st)),
{
    let c = b.push(st);
    assert(c.subrange(0, a.len() as int) =~= b.subrange(0, a.len() as int));
    assert forall|s: int| a.len() <= s < c.len() implies #[trigger] targets_in(
        c[s],
        a.len() as int,
        c.len() as int,
    ) by {
        if s < b.len() {
            assert(targets_in(b[s], a.len() as int, b.len() as int));
        }
    }
}

proof fn lemma_grown_edit(a: Seq<NfaState>, b: Seq<NfaState>, c: Seq<NfaState>, i: int)
    requires
        grown(a, b),
        a.len() <= i < b.len(),
        edited(b, c, i),
        targets_in(c[i], a.len() as int, c.len() as int),
        c[i].is_match == b[i].is_match,
    ensures
        grown(a, c),
{
    assert forall|s: int| a.len() <= s < c.len() implies !(#[trigger] c[s]).is_match by {
        assert(!b[s].is_match);
    }
    assert(c.subrange(0, a.len() as int) =~= b.subrange(0, a.len() as int));
    assert forall|s: int| a.len() <= s < c.len() implies #[trigger] targets_in(
        c[s],
        a.len() as int,
        c.len() as int,
    ) by {
        if s != i {
            assert(targets_in(b[s], a.len() as int, b.len() as int));
        }
    }
}

proof fn lemma_grown_trans(a: Seq<NfaState>, b: Seq<NfaState>, c: Seq<NfaState>)
    requires
        grown(a, b),
        grown(b, c),
    ensures
        grown(a, c),
{
    assert(c.subrange(0, a.len() as int) =~= c.subrange(0, b.len() as int).subrange(
        0,
        a.len() as int,
    ));
    assert forall|s: int| a.len() <= s < c.len() implies #[trigger] targets_in(
        c[s],
        a.len() as int,
        c.len() as int,
    ) by {
        if s < b.len() {
            assert(c[s] == c.subrange(0, b.len() as int)[s]);
            assert(targets_in(b[s], a.len() as int, b.len() as int));
        } else {
            assert(targets_in(c[s], b.len() as int, c.len() as int));
        }
    }
    assert forall|s: int| a.len() <= s < c.len() implies !(#[trigger] c[s]).is_match by {
        if s < b.len() {
            assert(c[s] == c.subrange(0, b.len() as int)[s]);
            assert(!b[s].is_match);
        }
    }
}

// ---------------------------------------------------------------------------
// Number of states
// ---------------------------------------------------------------------------

/// Number of states added for an optional `e?` whose body adds `s`.
pub open spec fn t_size_optional(s: nat, greedy: bool) -> nat {
    s + 2 + if greedy { 0nat } else { 1nat }
}

/// Number of states added for `e*` whose body adds `s`.
pub open spec fn t_size_star(s: nat, greedy: bool) -> nat {
    s + 2 + if greedy { 0nat } else { 2nat }
}

/// Number of states added for `e+` whose body adds `s`.
pub open spec fn t_size_plus(s: nat, greedy: bool) -> nat {
    s + 1 + if greedy { 0nat } else { 1nat }
}

/// Number of states added for `e{n}` whose body adds `s`.
pub open spec fn t_size_exactly(s: nat, n: nat) -> nat {
    if n == 0 {
        1
    } else {
        n * s
    }
}

/// Number of states added for `e{n,m}` whose body adds `s`.
pub open spec fn t_size_bounded(s: nat, n: u32, m: u32, greedy: bool) -> nat {
    if n > m {
        1
    } else {
        (if n > 0 {
            (n as nat) * s
        } else {
            0nat
        }) + ((m - n) as nat) * t_size_optional(s, greedy) + (if m == 0 {
            1nat
        } else {
            0nat
        })
    }
}

/// Number of states added for a repetition whose body adds `s`.
pub open spec fn t_size_repeat(s: nat, min: u32, max: Option<u32>, greedy: bool) -> nat {
    match max {
        Some(m) => if min == 0 && m == 1 {
            t_size_optional(s, greedy)
        } else if min == m {
            t_size_exactly(s, min as nat)
        } else {
            t_size_bounded(s, min, m, greedy)
        },
        None => if min == 0 {
            t_size_star(s, greedy)
        } else if min == 1 {
            t_size_plus(s, greedy)
        } else {
            t_size_exactly(s, min as nat) + t_size_star(s, greedy)
        },
    }
}

/// Number of states the construction adds for `e`.
pub open spec fn t_size(e: HirExpr) -> nat
    decreases e, 1nat,
{
    match e {
        HirExpr::Empty => 1,
        HirExpr::Literal(b) => b@.len() + 1,
        HirExpr::Class(_) => 2,
        HirExpr::UnicodeCpClass(_) => 2,
        HirExpr::Concat(es) => if es@.len() == 0 {
            1
        } else {
            t_size_seq(es@)
        },
        HirExpr::Alt(es) => if es@.len() == 0 {
            1
        } else if es@.len() == 1 {
            t_size_seq(es@)
        } else {
            2 + t_size_seq(es@)
        },
        HirExpr::Repeat(r) => t_size_repeat(t_size(r.expr), r.min, r.max, r.greedy),
        HirExpr::Capture(c) => 3 + t_size(c.expr),
        HirExpr::Anchor(_) => 1,
        HirExpr::Lookaround(_) => 1,
        HirExpr::Backref(_) => 1,
    }
}

/// Number of states the construction adds for a sequence of expressions.
pub open spec fn t_size_seq(es: Seq<HirExpr>) -> nat
    decreases es, 0nat,
{
    if es.len() == 0 {
        0
    } else {
        t_size_seq(es.drop_last()) + t_size(es.last())
    }
}

/// Number of tagged states added for a repetition whose body adds `c`.
pub open spec fn t_tags_repeat(c: nat, min: u32, max: Option<u32>) -> nat {
    match max {
        Some(m) => if min == 0 && m == 1 {
            c
        } else if min == m {
            (min as nat) * c
        } else if min > m {
            0
        } else {
            (min as nat) * c + ((m - min) as nat) * c
        },
        None => if min == 0 || min == 1 {
            c
        } else {
            (min as nat) * c + c
        },
    }
}

/// Number of states carrying the tag that the construction adds for `e`.
pub open spec fn t_tags(e: HirExpr, t: InstrTag) -> nat
    decreases e, 1nat,
{
    match e {
        HirExpr::Concat(es) => t_tags_seq(es@, t),
        HirExpr::Alt(es) => t_tags_seq(es@, t),
        HirExpr::Repeat(r) => t_tags_repeat(t_tags(r.expr, t), r.min, r.max),
        HirExpr::Capture(c) => t_tags(c.expr, t) + (if t == InstrTag::CaptureStart(c.index) {
            1nat
        } else {
            0nat
        }) + (if t == InstrTag::CaptureEnd(c.index) {
            1nat
        } else {
            0nat
        }),
        HirExpr::Lookaround(_) => if t is Lookaround {
            1
        } else {
            0
        },
        HirExpr::Backref(n) => if t == InstrTag::Backref(n) {
            1
        } else {
            0
        },
        _ => 0,
    }
}

/// Number of states carrying the tag that the construction adds for a sequence.
pub open spec fn t_tags_seq(es: Seq<HirExpr>, t: InstrTag) -> nat
    decreases es, 0nat,
{
    if es.len() == 0 {
        0
    } else {
        t_tags_seq(es.drop_last(), t) + t_tags(es.last(), t)
    }
}

proof fn lemma_tags_seq_prefix(es: Seq<HirExpr>, k: int)
    requires
        0 <= k < es.len(),
    ensures
        forall|t: InstrTag|
            #[trigger] t_tags_seq(es.take(k + 1), t) == t_tags_seq(es.take(k), t) + t_tags(es[k], t),
{
    assert(es.take(k + 1).drop_last() =~= es.take(k));
}

/// Whether the body of every lookaround in `e` builds with state ids that fit in 32 bits.
pub open spec fn t_fits(e: HirExpr) -> bool
    decreases e, 1nat,
{
    match e {
        HirExpr::Concat(es) => t_fits_seq(es@),
        HirExpr::Alt(es) => t_fits_seq(es@),
        HirExpr::Repeat(r) => t_fits(r.expr),
        HirExpr::Capture(c) => t_fits(c.expr),
        HirExpr::Lookaround(la) => t_size(la.expr) <= u32::MAX && t_fits(la.expr),
        _ => true,
    }
}

/// Whether every expression of the sequence satisfies `t_fits`.
pub open spec fn t_fits_seq(es: Seq<HirExpr>) -> bool
    decreases es, 0nat,
{
    if es.len() == 0 {
        true
    } else {
        t_fits_seq(es.drop_last()) && t_fits(es.last())
    }
}

proof fn lemma_seq_prefix(es: Seq<HirExpr>, k: int)
    requires
        0 <= k < es.len(),
    ensures
        t_size_seq(es.take(k + 1)) == t_size_seq(es.take(k)) + t_size(es[k]),
        t_fits_seq(es.take(k + 1)) == (t_fits_seq(es.take(k)) && t_fits(es[k])),
        t_size_seq(es.take(k + 1)) <= t_size_seq(es),
        t_fits_seq(es) ==> t_fits_seq(es.take(k + 1)),
    decreases es.len() - k,
{
    assert(es.take(k + 1).drop_last() =~= es.take(k));
    if k + 1 < es.len() {
        lemma_seq_prefix(es, k + 1);
    } else {
        assert(es.take(k + 1) =~= es);
    }
}

/// An NFA fragment: its entry and its exit state.
#[derive(Clone, Copy)]
struct Fragment {
    start: StateId,
    end: StateId,
}

/// Whether the automaton runs through the fragment: from its start at `i`
/// to its end at `j`.
spec fn through(nfa: Nfa, f: Fragment, input: Seq<u8>, i: int, j: int) -> bool {
    runs(nfa, input, (f.start as int, i), (f.end as int, j))
}

/// Whether the automaton runs through the fragment wherever `e` matches.
spec fn frag_ok(nfa: Nfa, f: Fragment, e: HirExpr) -> bool {
    forall|input: Seq<u8>, i: int, j: int|
        #[trigger] hir_matches(e, input, i, j) ==> through(nfa, f, input, i, j)
}

/// Runs through a fragment survive the addition of transitions.
proof fn lemma_frag_ext(n1: Nfa, n2: Nfa, f: Fragment, e: HirExpr)
    requires
        frag_ok(n1, f, e),
        ext(n1.states@, n2.states@),
    ensures
        frag_ok(n2, f, e),
{
    lemma_ext_runs(n1, n2);
    assert forall|input: Seq<u8>, i: int, j: int|
        #[trigger] hir_matches(e, input, i, j) implies through(n2, f, input, i, j) by {
        assert(through(n1, f, input, i, j));
    }
}

/// An epsilon transition is a run at every position.
proof fn lemma_eps_runs(n: Nfa, x: StateId, y: StateId)
    requires
        (x as int) < n.states@.len(),
        eps_to(n.states@[x as int], y as int),
    ensures
        forall|input: Seq<u8>, p: int| #[trigger] runs(n, input, (x as int, p), (y as int, p)),
{
    assert forall|input: Seq<u8>, p: int| #[trigger] runs(n, input, (x as int, p), (y as int, p)) by {
        lemma_runs_refl(n, input, (x as int, p));
        assert(moves(n, input, (x as int, p), (y as int, p)));
        lemma_runs_step(n, input, (x as int, p), (x as int, p), (y as int, p));
    }
}

/// Whether the automaton moves from `x` to `y` without reading, at every position.
spec fn eps_path(nfa: Nfa, x: StateId, y: StateId) -> bool {
    forall|input: Seq<u8>, p: int| #[trigger] runs(nfa, input, (x as int, p), (y as int, p))
}

/// Whether the automaton runs through the fragment wherever `n` matches of
/// `e` do, for every `n` from `lo` to `hi` (no upper bound when `hi` is `None`).
spec fn frag_iter_ok(nfa: Nfa, f: Fragment, e: HirExpr, lo: nat, hi: Option<nat>) -> bool {
    forall|n: nat, input: Seq<u8>, i: int, j: int|
        lo <= n && (hi matches Some(h) ==> n <= h) && #[trigger] iter_matches(e, n, input, i, j)
            ==> through(nfa, f, input, i, j)
}

proof fn lemma_eps_chain(nfa: Nfa, x: StateId, y: StateId, z: StateId)
    requires
        eps_path(nfa, x, y),
        eps_path(nfa, y, z),
    ensures
        eps_path(nfa, x, z),
{
    assert forall|input: Seq<u8>, p: int| #[trigger] runs(nfa, input, (x as int, p), (z as int, p)) by {
        assert(runs(nfa, input, (x as int, p), (y as int, p)));
        assert(runs(nfa, input, (y as int, p), (z as int, p)));
        lemma_runs_trans(nfa, input, (x as int, p), (y as int, p), (z as int, p));
    }
}

proof fn lemma_eps_path_ext(n1: Nfa, n2: Nfa, x: StateId, y: StateId)
    requires
        eps_path(n1, x, y),
        ext(n1.states@, n2.states@),
    ensures
        eps_path(n2, x, y),
{
    lemma_ext_runs(n1, n2);
    assert forall|input: Seq<u8>, p: int| #[trigger] runs(n2, input, (x as int, p), (y as int, p)) by {
        assert(runs(n1, input, (x as int, p), (y as int, p)));
    }
}

proof fn lemma_link_path(n: Nfa, x: StateId, y: StateId)
    requires
        (x as int) < n.states@.len(),
        eps_to(n.states@[x as int], y as int),
    ensures
        eps_path(n, x, y),
{
    lemma_eps_runs(n, x, y);
}

/// Whether every listed pair of states is joined by an epsilon path.
spec fn paths_ok(nfa: Nfa, edges: Seq<(StateId, StateId)>) -> bool {
    forall|k: int| 0 <= k < edges.len() ==> eps_path(nfa, (#[trigger] edges[k]).0, edges[k].1)
}

/// A fragment's runs and a list of epsilon paths survive a step that extends the states.
proof fn lemma_keep(n1: Nfa, n2: Nfa, f: Fragment, e: HirExpr, edges: Seq<(StateId, StateId)>)
    requires
        ext(n1.states@, n2.states@),
        frag_ok(n1, f, e),
        paths_ok(n1, edges),
    ensures
        frag_ok(n2, f, e),
        paths_ok(n2, edges),
{
    lemma_frag_ext(n1, n2, f, e);
    assert forall|k: int| 0 <= k < edges.len() implies eps_path(n2, (#[trigger] edges[k]).0, edges[k].1) by {
        lemma_eps_path_ext(n1, n2, edges[k].0, edges[k].1);
    }
}

/// A new epsilon transition joins the list of paths.
proof fn lemma_add_edge(n: Nfa, edges: Seq<(StateId, StateId)>, x: StateId, y: StateId)
    requires
        paths_ok(n, edges),
        (x as int) < n.states@.len(),
        eps_to(n.states@[x as int], y as int),
    ensures
        paths_ok(n, edges.push((x, y))),
        eps_path(n, x, y),
{
    lemma_link_path(n, x, y);
    assert forall|k: int| 0 <= k < edges.len() + 1 implies eps_path(
        n,
        (#[trigger] edges.push((x, y))[k]).0,
        edges.push((x, y))[k].1,
    ) by {
        if k < edges.len() {
            assert(edges.push((x, y))[k] == edges[k]);
        }
    }
}

/// Around a fragment with a way back from its end to its start, any number
/// (at least one) of matches of its expression run from its start to its end.
proof fn lemma_loop_runs(n: Nfa, f: Fragment, e: HirExpr, k: nat, input: Seq<u8>, i: int, j: int)
    requires
        eps_path(n, f.end, f.start),
        frag_ok(n, f, e),
        k >= 1,
        iter_matches(e, k, input, i, j),
    ensures
        through(n, f, input, i, j),
    decreases k,
{
    lemma_iter_last(e, k, input, i, j);
    let m = choose|m: int|
        iter_matches(e, (k - 1) as nat, input, i, m) && #[trigger] hir_matches(e, input, m, j);
    assert(through(n, f, input, m, j));
    if k == 1 {
        lemma_iter_zero(e, input, i, m);
    } else {
        lemma_loop_runs(n, f, e, (k - 1) as nat, input, i, m);
        assert(runs(n, input, (f.end as int, m), (f.start as int, m)));
        lemma_runs_trans(n, input, (f.start as int, i), (f.end as int, m), (f.start as int, m));
        lemma_runs_trans(n, input, (f.start as int, i), (f.start as int, m), (f.end as int, j));
    }
}

/// `e?`: a way past the body and a way through it.
proof fn lemma_optional_runs(n: Nfa, g: Fragment, f: Fragment, e: HirExpr)
    requires
        frag_ok(n, g, e),
        eps_path(n, f.start, f.end),
        eps_path(n, f.start, g.start),
        eps_path(n, g.end, f.end),
    ensures
        frag_iter_ok(n, f, e, 0, Some(1)),
{
    assert forall|k: nat, input: Seq<u8>, i: int, j: int|
        0 <= k && (Some(1nat) matches Some(h) ==> k <= h) && #[trigger] iter_matches(e, k, input, i, j)
            implies through(n, f, input, i, j) by {
        if k == 0 {
            lemma_iter_zero(e, input, i, j);
            assert(runs(n, input, (f.start as int, i), (f.end as int, i)));
        } else {
            lemma_iter_one(e, input, i, j);
            assert(through(n, g, input, i, j));
            assert(runs(n, input, (f.start as int, i), (g.start as int, i)));
            assert(runs(n, input, (g.end as int, j), (f.end as int, j)));
            lemma_runs_trans(n, input, (f.start as int, i), (g.start as int, i), (g.end as int, j));
            lemma_runs_trans(n, input, (f.start as int, i), (g.end as int, j), (f.end as int, j));
        }
    }
}

/// `e*`: a way past the body, a way into it, and from its end back to its start or out.
proof fn lemma_star_runs(n: Nfa, g: Fragment, f: Fragment, e: HirExpr)
    requires
        frag_ok(n, g, e),
        eps_path(n, f.start, f.end),
        eps_path(n, f.start, g.start),
        eps_path(n, g.end, g.start),
        eps_path(n, g.end, f.end),
    ensures
        frag_iter_ok(n, f, e, 0, None),
{
    assert forall|k: nat, input: Seq<u8>, i: int, j: int|
        0 <= k && (None::<nat> matches Some(h) ==> k <= h) && #[trigger] iter_matches(e, k, input, i, j)
            implies through(n, f, input, i, j) by {
        if k == 0 {
            lemma_iter_zero(e, input, i, j);
            assert(runs(n, input, (f.start as int, i), (f.end as int, i)));
        } else {
            lemma_loop_runs(n, g, e, k, input, i, j);
            assert(runs(n, input, (f.start as int, i), (g.start as int, i)));
            assert(runs(n, input, (g.end as int, j), (f.end as int, j)));
            lemma_runs_trans(n, input, (f.start as int, i), (g.start as int, i), (g.end as int, j));
            lemma_runs_trans(n, input, (f.start as int, i), (g.end as int, j), (f.end as int, j));
        }
    }
}

/// `e+`: the body, and from its end back to its start or out.
proof fn lemma_plus_runs(n: Nfa, g: Fragment, f: Fragment, e: HirExpr)
    requires
        frag_ok(n, g, e),
        f.start == g.start,
        eps_path(n, g.end, g.start),
        eps_path(n, g.end, f.end),
    ensures
        frag_iter_ok(n, f, e, 1, None),
{
    assert forall|k: nat, input: Seq<u8>, i: int, j: int|
        1 <= k && (None::<nat> matches Some(h) ==> k <= h) && #[trigger] iter_matches(e, k, input, i, j)
            implies through(n, f, input, i, j) by {
        lemma_loop_runs(n, g, e, k, input, i, j);
        assert(runs(n, input, (g.end as int, j), (f.end as int, j)));
        lemma_runs_trans(n, input, (g.start as int, i), (g.end as int, j), (f.end as int, j));
    }
}

/// Runs through a fragment over iterations survive the addition of transitions.
proof fn lemma_frag_iter_ext(n1: Nfa, n2: Nfa, f: Fragment, e: HirExpr, lo: nat, hi: Option<nat>)
    requires
        frag_iter_ok(n1, f, e, lo, hi),
        ext(n1.states@, n2.states@),
    ensures
        frag_iter_ok(n2, f, e, lo, hi),
{
    lemma_ext_runs(n1, n2);
    assert forall|k: nat, input: Seq<u8>, i: int, j: int|
        lo <= k && (hi matches Some(h) ==> k <= h) && #[trigger] iter_matches(e, k, input, i, j)
            implies through(n2, f, input, i, j) by {
        assert(through(n1, f, input, i, j));
    }
}

/// A grown state sequence extends the one it grew from.
proof fn lemma_grown_ext(a: Seq<NfaState>, b: Seq<NfaState>)
    requires
        grown(a, b),
    ensures
        ext(a, b),
{
    lemma_ext_prefix(a, b);
}

/// Builds an NFA with Thompson's construction.
pub struct NfaBuilder {
    nfa: Nfa,
}

impl NfaBuilder {
    /// Whether the builder holds no partial automaton.
    pub closed spec fn is_fresh(&self) -> bool {
        self.nfa.is_blank()
    }

    /// Whether a fragment lies among the states added since `old`.
    spec fn frag_in(&self, old: Seq<NfaState>, f: Fragment) -> bool {
        &&& old.len() <= f.start < self.nfa.states@.len()
        &&& old.len() <= f.end < self.nfa.states@.len()
    }

    /// What every construction step ensures.
    spec fn step_done(&self, old: Nfa, size: nat, f: Fragment) -> bool {
        &&& same_header(old, self.nfa)
        &&& grown(old.states@, self.nfa.states@)
        &&& self.nfa.states@.len() == old.states@.len() + size
        &&& self.frag_in(old.states@, f)
    }

    /// Creates a builder.
    pub fn new() -> (b: Self)
        ensures
            b.is_fresh(),
    {
        NfaBuilder { nfa: Nfa::new() }
    }

    /// Adds a blank state.
    fn add_state(&mut self) -> (id: StateId)
        requires
            old(self).nfa.states@.len() < u32::MAX,
        ensures
            id == old(self).nfa.states@.len(),
            same_header(old(self).nfa, final(self).nfa),
            final(self).nfa.states@.len() == old(self).nfa.states@.len() + 1,
            final(self).nfa.states@.drop_last() == old(self).nfa.states@,
            blank_state(final(self).nfa.states@.last()),
    {
        let id = self.nfa.add_state(NfaState::new());
        proof {
            assert(self.nfa.states@.drop_last() =~= old(self).nfa.states@);
        }
        id
    }

    /// Adds an epsilon transition between two existing states.
    fn add_eps(&mut self, from: StateId, to: StateId)
        requires
            (from as int) < old(self).nfa.states@.len(),
        ensures
            same_header(old(self).nfa, final(self).nfa),
            edited(old(self).nfa.states@, final(self).nfa.states@, from as int),
            forall|lo: int, hi: int|
                targets_in(old(self).nfa.states@[from as int], lo, hi) && lo <= to < hi
                    ==> #[trigger] targets_in(final(self).nfa.states@[from as int], lo, hi),
            final(self).nfa.states@[from as int].epsilon@ == old(self).nfa.states@[
                from as int].epsilon@.push(to),
            final(self).nfa.states@[from as int].transitions == old(self).nfa.states@[
                from as int].transitions,
            final(self).nfa.states@[from as int].instruction == old(self).nfa.states@[
                from as int].instruction,
            final(self).nfa.states@[from as int].is_match == old(self).nfa.states@[
                from as int].is_match,
    {
        if let Some(state) = self.nfa.get_mut(from) {
            state.add_epsilon(to);
        }
        proof {
            let a = old(self).nfa.states@[from as int];
            let b = self.nfa.states@[from as int];
            assert forall|lo: int, hi: int|
                targets_in(a, lo, hi) && lo <= to < hi implies #[trigger] targets_in(
                b,
                lo,
                hi,
            ) by {
                assert forall|i: int| 0 <= i < b.epsilon@.len() implies lo <= #[trigger] b.epsilon@[i]
                    < hi by {
                    if i < a.epsilon@.len() {
                        assert(b.epsilon@[i] == a.epsilon@[i]);
                    }
                }
            }
        }
    }

    /// Adds a byte transition between two existing states.
    fn add_trans(&mut self, from: StateId, range: ByteRange, to: StateId)
        requires
            (from as int) < old(self).nfa.states@.len(),
        ensures
            same_header(old(self).nfa, final(self).nfa),
            edited(old(self).nfa.states@, final(self).nfa.states@, from as int),
            forall|lo: int, hi: int|
                targets_in(old(self).nfa.states@[from as int], lo, hi) && lo <= to < hi
                    ==> #[trigger] targets_in(final(self).nfa.states@[from as int], lo, hi),
            final(self).nfa.states@[from as int].transitions@ == old(self).nfa.states@[
                from as int].transitions@.push((range, to)),
            final(self).nfa.states@[from as int].epsilon == old(self).nfa.states@[
                from as int].epsilon,
            final(self).nfa.states@[from as int].instruction == old(self).nfa.states@[
                from as int].instruction,
            final(self).nfa.states@[from as int].is_match == old(self).nfa.states@[
                from as int].is_match,
    {
        if let Some(state) = self.nfa.get_mut(from) {
            state.add_transition(range, to);
        }
        proof {
            let a = old(self).nfa.states@[from as int];
            let b = self.nfa.states@[from as int];
            assert forall|lo: int, hi: int|
                targets_in(a, lo, hi) && lo <= to < hi implies #[trigger] targets_in(
                b,
                lo,
                hi,
            ) by {
                assert forall|i: int| 0 <= i < b.transitions@.len() implies lo <= (
                #[trigger] b.transitions@[i]).1 < hi by {
                    if i < a.transitions@.len() {
                        assert(b.transitions@[i] == a.transitions@[i]);
                    }
                }
            }
        }
    }

    /// Sets the instruction of an existing state.
    fn set_instruction(&mut self, id: StateId, instruction: NfaInstruction)
        requires
            (id as int) < old(self).nfa.states@.len(),
        ensures
            same_header(old(self).nfa, final(self).nfa),
            edited(old(self).nfa.states@, final(self).nfa.states@, id as int),
            final(self).nfa.states@[id as int].instruction == Some(instruction),
            final(self).nfa.states@[id as int].epsilon == old(self).nfa.states@[id as int].epsilon,
            final(self).nfa.states@[id as int].transitions == old(self).nfa.states@[
                id as int].transitions,
            final(self).nfa.states@[id as int].is_match == old(self).nfa.states@[id as int].is_match,
    {
        if let Some(state) = self.nfa.get_mut(id) {
            state.instruction = Some(instruction);
        }
    }
}

impl NfaBuilder {
    /// Adds a blank state among those added since `base`.
    fn new_state(&mut self, Ghost(base): Ghost<Seq<NfaState>>) -> (id: StateId)
        requires
            grown(base, old(self).nfa.states@),
            old(self).nfa.states@.len() < u32::MAX,
        ensures
            id == old(self).nfa.states@.len(),
            same_header(old(self).nfa, final(self).nfa),
            final(self).nfa.states@.len() == old(self).nfa.states@.len() + 1,
            grown(base, final(self).nfa.states@),
            grown(old(self).nfa.states@, final(self).nfa.states@),
            blank_state(final(self).nfa.states@[id as int]),
            ext(old(self).nfa.states@, final(self).nfa.states@),
            forall|t: InstrTag|
                #[trigger] tag_count(final(self).nfa.states@, t) == tag_count(old(self).nfa.states@, t),
    {
        let id = self.add_state();
        proof {
            assert(self.nfa.states@ =~= old(self).nfa.states@.push(self.nfa.states@.last()));
            lemma_tags_push(old(self).nfa.states@, self.nfa.states@.last());
            assert(self.nfa.states@.subrange(0, old(self).nfa.states@.len() as int) =~= old(
                self,
            ).nfa.states@);
            lemma_ext_prefix(old(self).nfa.states@, self.nfa.states@);
            assert(self.nfa.states@ =~= old(self).nfa.states@.push(self.nfa.states@.last()));
            lemma_grown_push(base, old(self).nfa.states@, self.nfa.states@.last());
            lemma_grown_refl(old(self).nfa.states@);
            lemma_grown_push(old(self).nfa.states@, old(self).nfa.states@, self.nfa.states@.last());
        }
        id
    }

    /// Adds an epsilon transition between two states added since `base`.
    fn link(&mut self, from: StateId, to: StateId, Ghost(base): Ghost<Seq<NfaState>>)
        requires
            grown(base, old(self).nfa.states@),
            base.len() <= from < old(self).nfa.states@.len(),
            base.len() <= to < old(self).nfa.states@.len(),
        ensures
            same_header(old(self).nfa, final(self).nfa),
            final(self).nfa.states@.len() == old(self).nfa.states@.len(),
            grown(base, final(self).nfa.states@),
            edited(old(self).nfa.states@, final(self).nfa.states@, from as int),
            final(self).nfa.states@[from as int].instruction == old(self).nfa.states@[
                from as int].instruction,
            final(self).nfa.states@[from as int].transitions == old(self).nfa.states@[
                from as int].transitions,
            final(self).nfa.states@[from as int].epsilon@ == old(self).nfa.states@[
                from as int].epsilon@.push(to),
            ext(old(self).nfa.states@, final(self).nfa.states@),
            eps_to(final(self).nfa.states@[from as int], to as int),
            forall|t: InstrTag|
                #[trigger] tag_count(final(self).nfa.states@, t) == tag_count(old(self).nfa.states@, t),
    {
        let ghost a = self.nfa.states@;
        proof {
            assert(targets_in(a[from as int], base.len() as int, a.len() as int));
        }
        self.add_eps(from, to);
        proof {
            let st = self.nfa.states@[from as int];
            assert(st.epsilon@[st.epsilon@.len() - 1] == to);
        }
        proof {
            assert(targets_in(self.nfa.states@[from as int], base.len() as int, a.len() as int));
            lemma_grown_edit(base, a, self.nfa.states@, from as int);
            lemma_ext_state_grow(a[from as int], self.nfa.states@[from as int]);
            lemma_ext_edit(a, self.nfa.states@, from as int);
            lemma_tags_same(a, self.nfa.states@);
        }
    }

    /// Sets the instruction of a state added since `base`.
    fn mark(&mut self, id: StateId, instruction: NfaInstruction, Ghost(base): Ghost<Seq<NfaState>>)
        requires
            grown(base, old(self).nfa.states@),
            base.len() <= id < old(self).nfa.states@.len(),
            instruction matches NfaInstruction::CodepointClass(_, t) ==> base.len() <= t
                < old(self).nfa.states@.len(),
            lookaround_ready(Some(instruction)),
            old(self).nfa.states@[id as int].instruction is None,
        ensures
            same_header(old(self).nfa, final(self).nfa),
            final(self).nfa.states@.len() == old(self).nfa.states@.len(),
            grown(base, final(self).nfa.states@),
            edited(old(self).nfa.states@, final(self).nfa.states@, id as int),
            final(self).nfa.states@[id as int].instruction == Some(instruction),
            final(self).nfa.states@[id as int].epsilon == old(self).nfa.states@[id as int].epsilon,
            ext(old(self).nfa.states@, final(self).nfa.states@),
            forall|t: InstrTag|
                #[trigger] tag_count(final(self).nfa.states@, t) == tag_count(old(self).nfa.states@, t)
                    + if has_tag(Some(instruction), t) {
                    1nat
                } else {
                    0nat
                },
    {
        let ghost a = self.nfa.states@;
        proof {
            assert(targets_in(a[id as int], base.len() as int, a.len() as int));
        }
        self.set_instruction(id, instruction);
        proof {
            let b = self.nfa.states@[id as int];
            assert(b.transitions == a[id as int].transitions);
            assert(b.epsilon == a[id as int].epsilon);
            assert(targets_in(b, base.len() as int, a.len() as int));
            lemma_grown_edit(base, a, self.nfa.states@, id as int);
            lemma_ext_state_grow(a[id as int], b);
            lemma_ext_edit(a, self.nfa.states@, id as int);
            lemma_tags_set(a, self.nfa.states@, id as int, instruction);
        }
    }

    /// Builds the fragment of `expr`.
    fn build_expr(&mut self, expr: &HirExpr) -> (f: Fragment)
        requires
            old(self).nfa.states@.len() + t_size(*expr) <= u32::MAX,
            t_fits(*expr),
        ensures
            forall|t: InstrTag|
                #[trigger] tag_count(final(self).nfa.states@, t) == tag_count(old(self).nfa.states@, t)
                    + t_tags(*expr, t),
            final(self).step_done(old(self).nfa, t_size(*expr), f),
            frag_ok(final(self).nfa, f, *expr),
        decreases expr, 0nat,
    {
        match expr {
            HirExpr::Empty => {
                let f = self.build_empty();
                proof {
                    assert forall|input: Seq<u8>, i: int, j: int|
                        #[trigger] hir_matches(*expr, input, i, j) implies through(self.nfa, f, input, i, j) by {
                        lemma_runs_refl(self.nfa, input, (f.start as int, i));
                    }
                }
                f
            },
            HirExpr::Literal(bytes) => {
                let f = self.build_literal(bytes);
                proof {
                    assert forall|input: Seq<u8>, i: int, j: int|
                        #[trigger] hir_matches(*expr, input, i, j) implies through(self.nfa, f, input, i, j) by {
                        assert(through(self.nfa, f, input, i, i + bytes@.len()));
                    }
                }
                f
            },
            HirExpr::Class(class) => {
                let f = self.build_class(class);
                proof {
                    assert forall|input: Seq<u8>, i: int, j: int|
                        #[trigger] hir_matches(*expr, input, i, j) implies through(self.nfa, f, input, i, j) by {
                        assert(through(self.nfa, f, input, i, i + 1));
                    }
                }
                f
            },
            HirExpr::UnicodeCpClass(cpclass) => self.build_codepoint_class(cpclass),
            HirExpr::Concat(exprs) => {
                proof {
                    assert(decreases_to!(*expr => expr->Concat_0));
                }
                let f = self.build_concat(exprs);
                proof {
                    assert forall|input: Seq<u8>, i: int, j: int|
                        #[trigger] hir_matches(*expr, input, i, j) implies through(self.nfa, f, input, i, j) by {
                        lemma_concat_matches(*exprs, input, i, j);
                    }
                }
                f
            },
            HirExpr::Alt(exprs) => {
                proof {
                    assert(decreases_to!(*expr => expr->Alt_0));
                }
                let f = self.build_alt(exprs);
                proof {
                    assert forall|input: Seq<u8>, i: int, j: int|
                        #[trigger] hir_matches(*expr, input, i, j) implies through(self.nfa, f, input, i, j) by {
                        let k = choose|k: int| 0 <= k < exprs@.len() && hir_matches(#[trigger] exprs@[k], input, i, j);
                        assert(hir_matches(exprs@[k], input, i, j));
                    }
                }
                f
            },
            HirExpr::Repeat(rep) => {
                proof {
                    assert(decreases_to!(*expr => expr->Repeat_0));
                }
                let f = self.build_repeat(rep);
                proof {
                    assert forall|input: Seq<u8>, i: int, j: int|
                        #[trigger] hir_matches(*expr, input, i, j) implies through(self.nfa, f, input, i, j) by {
                        lemma_repeat_count(*rep, input, i, j);
                        let n = choose|n: nat|
                            rep.min <= n && (rep.max matches Some(m) ==> n <= m) && #[trigger] iter_matches(
                                rep.expr,
                                n,
                                input,
                                i,
                                j,
                            );
                        assert(iter_matches(rep.expr, n, input, i, j));
                    }
                }
                f
            },
            HirExpr::Capture(cap) => {
                proof {
                    assert(decreases_to!(*expr => expr->Capture_0));
                }
                let f = self.build_capture(cap);
                proof {
                    assert forall|input: Seq<u8>, i: int, j: int|
                        #[trigger] hir_matches(*expr, input, i, j) implies through(self.nfa, f, input, i, j) by {
                        assert(hir_matches(cap.expr, input, i, j));
                    }
                }
                f
            },
            HirExpr::Anchor(anchor) => {
                let f = self.build_anchor(*anchor);
                proof {
                    assert forall|input: Seq<u8>, i: int, j: int|
                        #[trigger] hir_matches(*expr, input, i, j) implies through(self.nfa, f, input, i, j) by {
                        lemma_runs_refl(self.nfa, input, (f.start as int, i));
                    }
                }
                f
            },
            HirExpr::Lookaround(la) => {
                proof {
                    assert(decreases_to!(*expr => expr->Lookaround_0));
                }
                let f = self.build_lookaround(la);
                proof {
                    assert forall|input: Seq<u8>, i: int, j: int|
                        #[trigger] hir_matches(*expr, input, i, j) implies through(self.nfa, f, input, i, j) by {
                        lemma_runs_refl(self.nfa, input, (f.start as int, i));
                    }
                }
                f
            },
            HirExpr::Backref(n) => self.build_backref(*n),
        }
    }

    /// Builds a fragment that matches the empty string: one state.
    fn build_empty(&mut self) -> (f: Fragment)
        requires
            old(self).nfa.states@.len() + 1 <= u32::MAX,
        ensures
            forall|t: InstrTag|
                #[trigger] tag_count(final(self).nfa.states@, t) == tag_count(old(self).nfa.states@, t)
                    + 0,
            final(self).step_done(old(self).nfa, 1, f),
            f.start == f.end,
    {
        let ghost base = self.nfa.states@;
        proof {
            lemma_grown_refl(base);
        }
        let state = self.new_state(Ghost(base));
        Fragment { start: state, end: state }
    }

    /// Builds a chain of states, one byte transition each.
    fn build_literal(&mut self, bytes: &Vec<u8>) -> (f: Fragment)
        requires
            old(self).nfa.states@.len() + bytes@.len() + 1 <= u32::MAX,
        ensures
            forall|t: InstrTag|
                #[trigger] tag_count(final(self).nfa.states@, t) == tag_count(old(self).nfa.states@, t)
                    + 0,
            final(self).step_done(old(self).nfa, bytes@.len() + 1, f),
            forall|input: Seq<u8>, i: int|
                0 <= i && i + bytes@.len() <= input.len() && input.subrange(i, i + bytes@.len())
                    == bytes@ ==> #[trigger] through(final(self).nfa, f, input, i, i + bytes@.len()),
    {
        if bytes.len() == 0 {
            let f = self.build_empty();
            proof {
                assert forall|input: Seq<u8>, i: int|
                    0 <= i && i + bytes@.len() <= input.len() && input.subrange(i, i + bytes@.len())
                        == bytes@ implies #[trigger] through(self.nfa, f, input, i, i + bytes@.len()) by {
                    lemma_runs_refl(self.nfa, input, (f.start as int, i));
                }
            }
            return f;
        }
        let ghost base = self.nfa.states@;
        proof {
            lemma_grown_refl(base);
        }
        let start = self.new_state(Ghost(base));
        let mut current = start;
        let mut i: usize = 0;
        proof {
            assert forall|input: Seq<u8>, p: int|
                0 <= p && p + bytes@.len() <= input.len() && input.subrange(p, p + bytes@.len())
                    == bytes@ implies #[trigger] runs(
                    self.nfa,
                    input,
                    (start as int, p),
                    (current as int, p + i),
                ) by {
                lemma_runs_refl(self.nfa, input, (start as int, p));
            }
        }
        while i < bytes.len()
            invariant
                i <= bytes@.len(),
                base.len() + bytes@.len() + 1 <= u32::MAX,
                same_header(old(self).nfa, self.nfa),
                base == old(self).nfa.states@,
                grown(base, self.nfa.states@),
                self.nfa.states@.len() == base.len() + 1 + i,
                start == base.len(),
                current == base.len() + i,
                forall|t: InstrTag| #[trigger] tag_count(self.nfa.states@, t) == tag_count(base, t),
                forall|input: Seq<u8>, p: int|
                    0 <= p && p + bytes@.len() <= input.len() && input.subrange(p, p + bytes@.len())
                        == bytes@ ==> #[trigger] runs(
                        self.nfa,
                        input,
                        (start as int, p),
                        (current as int, p + i),
                    ),
            decreases bytes@.len() - i,
        {
            let byte = bytes[i];
            let ghost n0 = self.nfa;
            let next = self.new_state(Ghost(base));
            let ghost a = self.nfa.states@;
            let ghost n1 = self.nfa;
            proof {
                assert(targets_in(a[current as int], base.len() as int, a.len() as int));
            }
            let range = ByteRange::single(byte);
            self.add_trans(current, range, next);
            proof {
                assert(targets_in(self.nfa.states@[current as int], base.len() as int, a.len() as int));
                lemma_grown_edit(base, a, self.nfa.states@, current as int);
                lemma_ext_state_grow(a[current as int], self.nfa.states@[current as int]);
                lemma_ext_edit(a, self.nfa.states@, current as int);
                lemma_tags_same(a, self.nfa.states@);
                lemma_ext_trans(n0.states@, a, self.nfa.states@);
                lemma_ext_runs(n0, self.nfa);
                let st = self.nfa.states@[current as int];
                let k = st.transitions@.len() - 1;
                assert(st.transitions@[k] == (range, next));
                assert forall|input: Seq<u8>, p: int|
                    0 <= p && p + bytes@.len() <= input.len() && input.subrange(p, p + bytes@.len())
                        == bytes@ implies #[trigger] runs(
                        self.nfa,
                        input,
                        (start as int, p),
                        (next as int, p + (i + 1)),
                    ) by {
                    assert(runs(n0, input, (start as int, p), (current as int, p + i)));
                    assert(input[p + i] == input.subrange(p, p + bytes@.len())[i as int]);
                    assert(byte_to(st, input[p + i], next as int));
                    assert(moves(self.nfa, input, (current as int, p + i), (next as int, p + i + 1)));
                    lemma_runs_step(
                        self.nfa,
                        input,
                        (start as int, p),
                        (current as int, p + i),
                        (next as int, p + i + 1),
                    );
                    assert(p + i + 1 == p + (i + 1));
                }
            }
            current = next;
            i = i + 1;
        }
        let f = Fragment { start, end: current };
        proof {
            assert forall|input: Seq<u8>, p: int|
                0 <= p && p + bytes@.len() <= input.len() && input.subrange(p, p + bytes@.len())
                    == bytes@ implies #[trigger] through(self.nfa, f, input, p, p + bytes@.len()) by {
                assert(runs(self.nfa, input, (start as int, p), (current as int, p + i)));
            }
        }
        f
    }

    /// Builds a byte class: two states, with one transition per range of the class.
    fn build_class(&mut self, class: &HirClass) -> (f: Fragment)
        requires
            old(self).nfa.states@.len() + 2 <= u32::MAX,
        ensures
            forall|t: InstrTag|
                #[trigger] tag_count(final(self).nfa.states@, t) == tag_count(old(self).nfa.states@, t)
                    + 0,
            final(self).step_done(old(self).nfa, 2, f),
            ranges_bytes(final(self).nfa.states@[f.start as int].transitions@.map_values(
                |t: (ByteRange, StateId)| t.0,
            )) == class_bytes(*class),
            forall|i: int|
                0 <= i < final(self).nfa.states@[f.start as int].transitions@.len() ==> (
                #[trigger] final(self).nfa.states@[f.start as int].transitions@[i]).1 == f.end,
            f.start != f.end,
            final(self).nfa.states@[f.end as int].transitions@.len() == 0,
            class.negated ==> ranges_separated(
                final(self).nfa.states@[f.start as int].transitions@.map_values(
                    |t: (ByteRange, StateId)| t.0,
                ),
            ),
            forall|input: Seq<u8>, p: int|
                0 <= p < input.len() && class_bytes(*class).contains(input[p]) ==> #[trigger] through(
                    final(self).nfa,
                    f,
                    input,
                    p,
                    p + 1,
                ),
    {
        let ghost base = self.nfa.states@;
        proof {
            lemma_grown_refl(base);
        }
        let start = self.new_state(Ghost(base));
        let end = self.new_state(Ghost(base));
        let ghost plain = Set::new(
            |b: u8|
                exists|i: int|
                    0 <= i < class.ranges@.len() && (#[trigger] class.ranges@[i]).0 <= b
                        <= class.ranges@[i].1,
        );
        let mut ranges: Vec<ByteRange> = Vec::new();
        if class.negated {
            let mut covered: Vec<bool> = vec![false; 256];
            let mut k: usize = 0;
            while k < class.ranges.len()
                invariant
                    k <= class.ranges@.len(),
                    covered@.len() == 256,
                    forall|b: int|
                        0 <= b < 256 ==> #[trigger] covered@[b] == exists|i: int|
                            0 <= i < k && (#[trigger] class.ranges@[i]).0 <= b
                                <= class.ranges@[i].1,
                decreases class.ranges@.len() - k,
            {
                let (lo, hi) = class.ranges[k];
                let mut b: u16 = lo as u16;
                while b <= hi as u16
                    invariant
                        lo <= b <= 256,
                        (lo, hi) == class.ranges@[k as int],
                        k < class.ranges@.len(),
                        covered@.len() == 256,
                        forall|x: int|
                            0 <= x < 256 ==> #[trigger] covered@[x] == ((exists|i: int|
                                0 <= i < k && (#[trigger] class.ranges@[i]).0 <= x
                                    <= class.ranges@[i].1) || (lo <= x < b && x <= hi)),
                    decreases 256 - b,
                {
                    covered.set(b as usize, true);
                    b = b + 1;
                }
                proof {
                    assert forall|x: int| 0 <= x < 256 implies #[trigger] covered@[x] == exists|i: int|
                        0 <= i < k + 1 && (#[trigger] class.ranges@[i]).0 <= x
                            <= class.ranges@[i].1 by {
                        if covered@[x] && !(exists|i: int|
                            0 <= i < k && (#[trigger] class.ranges@[i]).0 <= x
                                <= class.ranges@[i].1) {
                            assert(class.ranges@[k as int].0 <= x <= class.ranges@[k as int].1);
                        }
                    }
                }
                k = k + 1;
            }
            let mut i: usize = 0;
            while i < 256
                invariant
                    i <= 256,
                    covered@.len() == 256,
                    forall|b: int|
                        0 <= b < 256 ==> #[trigger] covered@[b] == plain.contains(b as u8),
                    forall|b: u8|
                        #[trigger] ranges_bytes(ranges@).contains(b) <==> (b < i
                            && !covered@[b as int]),
                    ranges_separated(ranges@),
                    ranges@.len() > 0 ==> ranges@.last().end < i && (ranges@.last().end + 1 == i
                        ==> (i == 256 || covered@[i as int])),
                decreases 256 - i,
            {
                if !covered[i] {
                    let range_start = i as u8;
                    assert(range_start == i);
                    while i < 256 && !covered[i]
                        invariant
                            range_start <= i <= 256,
                            covered@.len() == 256,
                            !covered@[range_start as int],
                            forall|b: int| range_start <= b < i ==> !#[trigger] covered@[b],
                            forall|b: int|
                                0 <= b < 256 ==> #[trigger] covered@[b] == plain.contains(b as u8),
                            forall|b: u8|
                                #[trigger] ranges_bytes(ranges@).contains(b) <==> (b < range_start
                                    && !covered@[b as int]),
                            ranges_separated(ranges@),
                            ranges@.len() > 0 ==> ranges@.last().end + 1 < range_start,
                        decreases 256 - i,
                    {
                        i = i + 1;
                    }
                    assert(i > range_start);
                    let range_end = (i - 1) as u8;
                    let ghost before = ranges@;
                    ranges.push(ByteRange::new(range_start, range_end));
                    proof {
                        assert forall|j: int, k: int|
                            0 <= j < k < ranges@.len() implies (#[trigger] ranges@[j]).end + 1 < (
                        #[trigger] ranges@[k]).start by {
                            if k < before.len() {
                                assert(ranges@[j] == before[j] && ranges@[k] == before[k]);
                            } else {
                                assert(ranges@[j] == before[j]);
                                assert(before[j].end <= before.last().end) by {
                                    if j < before.len() - 1 {
                                        assert(before[j].end + 1 < before[before.len() - 1].start);
                                    }
                                }
                            }
                        }
                        assert forall|b: u8|
                            #[trigger] ranges_bytes(ranges@).contains(b) <==> (b < i
                                && !covered@[b as int]) by {
                            if ranges_bytes(ranges@).contains(b) {
                                let j = choose|j: int|
                                    0 <= j < ranges@.len() && #[trigger] ranges@[j].bytes().contains(b);
                                if j < before.len() {
                                    assert(before[j].bytes().contains(b));
                                    assert(ranges_bytes(before).contains(b));
                                }
                            }
                            if b < i && !covered@[b as int] {
                                if b >= range_start {
                                    assert(ranges@[before.len() as int].bytes().contains(b));
                                } else {
                                    assert(ranges_bytes(before).contains(b));
                                    let j = choose|j: int|
                                        0 <= j < before.len() && #[trigger] before[j].bytes().contains(b);
                                    assert(ranges@[j] == before[j]);
                                }
                            }
                        }
                    }
                } else {
                    proof {
                        assert forall|b: u8|
                            #[trigger] ranges_bytes(ranges@).contains(b) <==> (b < i + 1
                                && !covered@[b as int]) by {
                            if b == i {
                                assert(covered@[b as int]);
                            }
                        }
                    }
                    i = i + 1;
                }
            }
            proof {
                assert forall|b: u8| ranges_bytes(ranges@).contains(b) == class_bytes(*class).contains(b) by {
                    assert(covered@[b as int] == plain.contains(b));
                }
                assert(ranges_bytes(ranges@) =~= class_bytes(*class));
            }
        } else {
            let mut k: usize = 0;
            while k < class.ranges.len()
                invariant
                    k <= class.ranges@.len(),
                    ranges@.len() == k,
                    forall|j: int|
                        0 <= j < k ==> (#[trigger] ranges@[j]).start == class.ranges@[j].0
                            && ranges@[j].end == class.ranges@[j].1,
                decreases class.ranges@.len() - k,
            {
                let (lo, hi) = class.ranges[k];
                ranges.push(ByteRange::new(lo, hi));
                k = k + 1;
            }
            proof {
                assert forall|b: u8| ranges_bytes(ranges@).contains(b) == class_bytes(*class).contains(b) by {
                    if ranges_bytes(ranges@).contains(b) {
                        let j = choose|j: int| 0 <= j < ranges@.len() && #[trigger] ranges@[j].bytes().contains(b);
                        assert(class.ranges@[j].0 <= b <= class.ranges@[j].1);
                    }
                    if class_bytes(*class).contains(b) {
                        let j = choose|j: int|
                            0 <= j < class.ranges@.len() && (#[trigger] class.ranges@[j]).0 <= b
                                <= class.ranges@[j].1;
                        assert(ranges@[j].bytes().contains(b));
                    }
                }
                assert(ranges_bytes(ranges@) =~= class_bytes(*class));
            }
        }
        let ghost s0 = self.nfa.states@;
        let mut k: usize = 0;
        while k < ranges.len()
            invariant
                k <= ranges@.len(),
                ranges_bytes(ranges@) == class_bytes(*class),
                same_header(old(self).nfa, self.nfa),
                base == old(self).nfa.states@,
                grown(base, self.nfa.states@),
                self.nfa.states@.len() == base.len() + 2,
                start == base.len(),
                end == base.len() + 1,
                self.nfa.states@[end as int].transitions@.len() == 0,
                forall|t: InstrTag| #[trigger] tag_count(self.nfa.states@, t) == tag_count(base, t),
                self.nfa.states@[start as int].transitions@.len() == k,
                forall|j: int|
                    0 <= j < k ==> #[trigger] self.nfa.states@[start as int].transitions@[j] == (
                    ranges@[j], end),
            decreases ranges@.len() - k,
        {
            let ghost a = self.nfa.states@;
            proof {
                assert(targets_in(a[start as int], base.len() as int, a.len() as int));
            }
            self.add_trans(start, ranges[k], end);
            proof {
                assert(targets_in(self.nfa.states@[start as int], base.len() as int, a.len() as int));
                lemma_grown_edit(base, a, self.nfa.states@, start as int);
                lemma_tags_same(a, self.nfa.states@);
            }
            k = k + 1;
        }
        let f = Fragment { start, end };
        proof {
            let tr = self.nfa.states@[start as int].transitions@.map_values(
                |t: (ByteRange, StateId)| t.0,
            );
            assert(tr =~= ranges@);
            let st = self.nfa.states@[start as int];
            assert forall|input: Seq<u8>, p: int|
                0 <= p < input.len() && class_bytes(*class).contains(input[p]) implies #[trigger] through(
                    self.nfa,
                    f,
                    input,
                    p,
                    p + 1,
                ) by {
                let x = input[p];
                assert(ranges_bytes(ranges@).contains(x));
                let j = choose|j: int| 0 <= j < ranges@.len() && #[trigger] ranges@[j].bytes().contains(x);
                assert(st.transitions@[j] == (ranges@[j], end));
                assert(byte_to(st, x, end as int));
                lemma_runs_refl(self.nfa, input, (start as int, p));
                lemma_runs_step(self.nfa, input, (start as int, p), (start as int, p), (end as int, p + 1));
            }
        }
        f
    }

    /// Builds a code point class: a state whose instruction consumes one code point.
    fn build_codepoint_class(&mut self, cpclass: &CodepointClass) -> (f: Fragment)
        requires
            old(self).nfa.states@.len() + 2 <= u32::MAX,
        ensures
            forall|t: InstrTag|
                #[trigger] tag_count(final(self).nfa.states@, t) == tag_count(old(self).nfa.states@, t)
                    + 0,
            final(self).step_done(old(self).nfa, 2, f),
            final(self).nfa.states@[f.start as int].instruction matches Some(
                NfaInstruction::CodepointClass(_, t),
            ) && t == f.end,
    {
        let ghost base = self.nfa.states@;
        proof {
            lemma_grown_refl(base);
        }
        let start = self.new_state(Ghost(base));
        let end = self.new_state(Ghost(base));
        self.mark(start, NfaInstruction::CodepointClass(cpclass.clone(), end), Ghost(base));
        Fragment { start, end }
    }
}

proof fn lemma_mul_zero(s: nat)
    ensures
        0 * s == 0,
{
    assert(0 * s == 0) by (nonlinear_arith);
}

proof fn lemma_mul_step(k: nat, n: nat, s: nat)
    requires
        k < n,
    ensures
        (k + 1) * s == k * s + s,
        (k + 1) * s <= n * s,
        k * s <= n * s,
{
    assert((k + 1) * s == k * s + s) by (nonlinear_arith);
    assert((k + 1) * s <= n * s) by (nonlinear_arith)
        requires
            k + 1 <= n,
    ;
    assert(k * s <= n * s) by (nonlinear_arith)
        requires
            k <= n,
    ;
}

impl NfaBuilder {
    /// Builds a concatenation: the fragments of the parts, chained by epsilon transitions.
    fn build_concat(&mut self, exprs: &Vec<HirExpr>) -> (f: Fragment)
        requires
            old(self).nfa.states@.len() + (if exprs@.len() == 0 {
                1
            } else {
                t_size_seq(exprs@)
            }) <= u32::MAX,
            t_fits_seq(exprs@),
        ensures
            forall|t: InstrTag|
                #[trigger] tag_count(final(self).nfa.states@, t) == tag_count(old(self).nfa.states@, t)
                    + t_tags_seq(exprs@, t),
            final(self).step_done(
                old(self).nfa,
                if exprs@.len() == 0 {
                    1
                } else {
                    t_size_seq(exprs@)
                },
                f,
            ),
            forall|input: Seq<u8>, i: int, j: int|
                #[trigger] seq_matches(exprs@, input, i, j) ==> through(final(self).nfa, f, input, i, j),
        decreases exprs, 0nat,
    {
        if exprs.len() == 0 {
            let f = self.build_empty();
            proof {
                assert forall|input: Seq<u8>, i: int, j: int|
                    #[trigger] seq_matches(exprs@, input, i, j) implies through(self.nfa, f, input, i, j) by {
                    lemma_seq_empty(exprs@, input, i, j);
                    lemma_runs_refl(self.nfa, input, (f.start as int, i));
                }
            }
            return f;
        }
        let ghost base = self.nfa.states@;
        proof {
            lemma_grown_refl(base);
        }
        let mut fragments: Vec<Fragment> = Vec::new();
        let mut k: usize = 0;
        while k < exprs.len()
            invariant
                k <= exprs@.len(),
                base == old(self).nfa.states@,
                base.len() + t_size_seq(exprs@) <= u32::MAX,
                t_fits_seq(exprs@),
                same_header(old(self).nfa, self.nfa),
                grown(base, self.nfa.states@),
                self.nfa.states@.len() == base.len() + t_size_seq(exprs@.take(k as int)),
                forall|t: InstrTag| #[trigger] tag_count(self.nfa.states@, t) == tag_count(base, t) + t_tags_seq(exprs@.take(k as int), t),
                fragments@.len() == k,
                forall|j: int|
                    0 <= j < k ==> base.len() <= (#[trigger] fragments@[j]).start
                        < self.nfa.states@.len() && base.len() <= fragments@[j].end
                        < self.nfa.states@.len(),
                forall|j: int| 0 <= j < k ==> frag_ok(self.nfa, #[trigger] fragments@[j], exprs@[j]),
            decreases exprs@.len() - k,
        {
            proof {
                lemma_seq_prefix(exprs@, k as int);
                assert(exprs@.take(k as int + 1).last() == exprs@[k as int]);
                assert(decreases_to!(*exprs => exprs@));
                assert(decreases_to!(exprs@ => exprs@[k as int]));
            }
            let ghost a = self.nfa.states@;
            let ghost n0 = self.nfa;
            let f = self.build_expr(&exprs[k]);
            proof {
                lemma_grown_trans(base, a, self.nfa.states@);
                lemma_grown_ext(a, self.nfa.states@);
                lemma_tags_seq_prefix(exprs@, k as int);
                assert forall|j: int| 0 <= j < k implies frag_ok(self.nfa, #[trigger] fragments@[j], exprs@[j]) by {
                    lemma_frag_ext(n0, self.nfa, fragments@[j], exprs@[j]);
                }
            }
            fragments.push(f);
            k = k + 1;
        }
        proof {
            assert(exprs@.take(exprs@.len() as int) =~= exprs@);
            let es = exprs@.take(1);
            assert(es.drop_last() =~= Seq::<HirExpr>::empty());
            assert(es.last() == exprs@[0]);
            assert forall|input: Seq<u8>, a: int, b: int|
                #[trigger] seq_matches(exprs@.take(1), input, a, b) implies runs(
                    self.nfa,
                    input,
                    (fragments@[0].start as int, a),
                    (fragments@[0].end as int, b),
                ) by {
                lemma_seq_last(es, input, a, b);
                let m = choose|m: int|
                    seq_matches(es.drop_last(), input, a, m) && hir_matches(es.last(), input, m, b);
                lemma_seq_empty(es.drop_last(), input, a, m);
                assert(frag_ok(self.nfa, fragments@[0], exprs@[0]));
                assert(through(self.nfa, fragments@[0], input, a, b));
            }
        }
        let mut i: usize = 1;
        while i < fragments.len()
            invariant
                fragments@.len() == exprs@.len(),
                fragments@.len() >= 1,
                1 <= i <= fragments@.len(),
                base == old(self).nfa.states@,
                same_header(old(self).nfa, self.nfa),
                grown(base, self.nfa.states@),
                self.nfa.states@.len() == base.len() + t_size_seq(exprs@),
                forall|t: InstrTag| #[trigger] tag_count(self.nfa.states@, t) == tag_count(base, t) + t_tags_seq(exprs@, t),
                forall|j: int|
                    0 <= j < fragments@.len() ==> base.len() <= (#[trigger] fragments@[j]).start
                        < self.nfa.states@.len() && base.len() <= fragments@[j].end
                        < self.nfa.states@.len(),
                forall|j: int|
                    0 <= j < fragments@.len() ==> frag_ok(self.nfa, #[trigger] fragments@[j], exprs@[j]),
                forall|input: Seq<u8>, a: int, b: int|
                    #[trigger] seq_matches(exprs@.take(i as int), input, a, b) ==> runs(
                        self.nfa,
                        input,
                        (fragments@[0].start as int, a),
                        (fragments@[i - 1].end as int, b),
                    ),
            decreases fragments@.len() - i,
        {
            let from_end = fragments[i - 1].end;
            let to_start = fragments[i].start;
            let ghost n0 = self.nfa;
            self.link(from_end, to_start, Ghost(base));
            proof {
                lemma_ext_runs(n0, self.nfa);
                assert forall|j: int|
                    0 <= j < fragments@.len() implies frag_ok(self.nfa, #[trigger] fragments@[j], exprs@[j]) by {
                    lemma_frag_ext(n0, self.nfa, fragments@[j], exprs@[j]);
                }
                let es = exprs@.take(i + 1);
                assert(es.drop_last() =~= exprs@.take(i as int));
                assert(es.last() == exprs@[i as int]);
                let lk = self.nfa.states@[from_end as int].epsilon@.len() - 1;
                assert(self.nfa.states@[from_end as int].epsilon@[lk] == to_start);
                assert(eps_to(self.nfa.states@[from_end as int], to_start as int));
                assert forall|input: Seq<u8>, a: int, b: int|
                    #[trigger] seq_matches(exprs@.take(i + 1), input, a, b) implies runs(
                        self.nfa,
                        input,
                        (fragments@[0].start as int, a),
                        (fragments@[i as int].end as int, b),
                    ) by {
                    lemma_seq_last(es, input, a, b);
                    let m = choose|m: int|
                        seq_matches(es.drop_last(), input, a, m) && hir_matches(es.last(), input, m, b);
                    assert(seq_matches(exprs@.take(i as int), input, a, m));
                    assert(runs(n0, input, (fragments@[0].start as int, a), (from_end as int, m)));
                    lemma_runs_step(
                        self.nfa,
                        input,
                        (fragments@[0].start as int, a),
                        (from_end as int, m),
                        (to_start as int, m),
                    );
                    assert(frag_ok(self.nfa, fragments@[i as int], exprs@[i as int]));
                    assert(hir_matches(exprs@[i as int], input, m, b));
                    assert(through(self.nfa, fragments@[i as int], input, m, b));
                    lemma_runs_trans(
                        self.nfa,
                        input,
                        (fragments@[0].start as int, a),
                        (to_start as int, m),
                        (fragments@[i as int].end as int, b),
                    );
                }
            }
            i = i + 1;
        }
        let last = fragments.len() - 1;
        let f = Fragment { start: fragments[0].start, end: fragments[last].end };
        proof {
            assert(exprs@.take(fragments@.len() as int) =~= exprs@);
        }
        f
    }

    /// Builds an alternation: a fork state and a join state around the alternatives.
    fn build_alt(&mut self, exprs: &Vec<HirExpr>) -> (f: Fragment)
        requires
            old(self).nfa.states@.len() + (if exprs@.len() == 0 {
                1
            } else if exprs@.len() == 1 {
                t_size_seq(exprs@)
            } else {
                2 + t_size_seq(exprs@)
            }) <= u32::MAX,
            t_fits_seq(exprs@),
        ensures
            forall|t: InstrTag|
                #[trigger] tag_count(final(self).nfa.states@, t) == tag_count(old(self).nfa.states@, t)
                    + t_tags_seq(exprs@, t),
            final(self).step_done(
                old(self).nfa,
                if exprs@.len() == 0 {
                    1
                } else if exprs@.len() == 1 {
                    t_size_seq(exprs@)
                } else {
                    2 + t_size_seq(exprs@)
                },
                f,
            ),
            forall|k: int, input: Seq<u8>, i: int, j: int|
                0 <= k < exprs@.len() && #[trigger] hir_matches(exprs@[k], input, i, j) ==> through(
                    final(self).nfa,
                    f,
                    input,
                    i,
                    j,
                ),
        decreases exprs, 0nat,
    {
        if exprs.len() == 0 {
            return self.build_empty();
        }
        if exprs.len() == 1 {
            proof {
                lemma_seq_prefix(exprs@, 0);
                assert(exprs@.take(1) =~= exprs@);
                assert(exprs@.take(0).len() == 0);
                assert(decreases_to!(*exprs => exprs@));
                assert(decreases_to!(exprs@ => exprs@[0]));
            }
            let f = self.build_expr(&exprs[0]);
            proof {
                assert(exprs@.drop_last().len() == 0);
                assert(exprs@.last() == exprs@[0]);
                assert forall|t: InstrTag| #[trigger] t_tags_seq(exprs@, t) == t_tags(exprs@[0], t) by {
                    assert(t_tags_seq(exprs@.drop_last(), t) == 0);
                }
                assert forall|k: int, input: Seq<u8>, i: int, j: int|
                    0 <= k < exprs@.len() && #[trigger] hir_matches(exprs@[k], input, i, j) implies through(
                        self.nfa,
                        f,
                        input,
                        i,
                        j,
                    ) by {
                    assert(k == 0);
                }
            }
            return f;
        }
        let ghost base = self.nfa.states@;
        proof {
            lemma_grown_refl(base);
        }
        let start = self.new_state(Ghost(base));
        let end = self.new_state(Ghost(base));
        let mut k: usize = 0;
        while k < exprs.len()
            invariant
                k <= exprs@.len(),
                base == old(self).nfa.states@,
                base.len() + 2 + t_size_seq(exprs@) <= u32::MAX,
                t_fits_seq(exprs@),
                same_header(old(self).nfa, self.nfa),
                grown(base, self.nfa.states@),
                self.nfa.states@.len() == base.len() + 2 + t_size_seq(exprs@.take(k as int)),
                forall|t: InstrTag| #[trigger] tag_count(self.nfa.states@, t) == tag_count(base, t) + t_tags_seq(exprs@.take(k as int), t),
                start == base.len(),
                end == base.len() + 1,
                forall|k2: int, input: Seq<u8>, i: int, j: int|
                    0 <= k2 < k && #[trigger] hir_matches(exprs@[k2], input, i, j) ==> runs(
                        self.nfa,
                        input,
                        (start as int, i),
                        (end as int, j),
                    ),
            decreases exprs@.len() - k,
        {
            proof {
                lemma_seq_prefix(exprs@, k as int);
                assert(decreases_to!(*exprs => exprs@));
                assert(decreases_to!(exprs@ => exprs@[k as int]));
            }
            let ghost a = self.nfa.states@;
            let ghost n0 = self.nfa;
            let fragment = self.build_expr(&exprs[k]);
            proof {
                lemma_grown_trans(base, a, self.nfa.states@);
                lemma_grown_ext(a, self.nfa.states@);
                lemma_ext_runs(n0, self.nfa);
                lemma_tags_seq_prefix(exprs@, k as int);
            }
            let ghost n1 = self.nfa;
            self.link(start, fragment.start, Ghost(base));
            let ghost n2 = self.nfa;
            proof {
                lemma_ext_runs(n1, n2);
                lemma_eps_runs(n2, start, fragment.start);
            }
            self.link(fragment.end, end, Ghost(base));
            proof {
                lemma_ext_runs(n2, self.nfa);
                lemma_eps_runs(self.nfa, fragment.end, end);
                assert forall|k2: int, input: Seq<u8>, i: int, j: int|
                    0 <= k2 < k + 1 && #[trigger] hir_matches(exprs@[k2], input, i, j) implies runs(
                        self.nfa,
                        input,
                        (start as int, i),
                        (end as int, j),
                    ) by {
                    if k2 < k {
                        assert(runs(n0, input, (start as int, i), (end as int, j)));
                    } else {
                        assert(through(n1, fragment, input, i, j));
                        assert(runs(n2, input, (start as int, i), (fragment.start as int, i)));
                        assert(runs(self.nfa, input, (fragment.end as int, j), (end as int, j)));
                        lemma_runs_trans(
                            self.nfa,
                            input,
                            (start as int, i),
                            (fragment.start as int, i),
                            (fragment.end as int, j),
                        );
                        lemma_runs_trans(
                            self.nfa,
                            input,
                            (start as int, i),
                            (fragment.end as int, j),
                            (end as int, j),
                        );
                    }
                }
            }
            k = k + 1;
        }
        proof {
            assert(exprs@.take(exprs@.len() as int) =~= exprs@);
        }
        Fragment { start, end }
    }

    /// Builds a repetition, by the shape of its bounds.
    fn build_repeat(&mut self, rep: &HirRepeat) -> (f: Fragment)
        requires
            old(self).nfa.states@.len() + t_size_repeat(t_size(rep.expr), rep.min, rep.max, rep.greedy)
                <= u32::MAX,
            t_fits(rep.expr),
        ensures
            forall|t: InstrTag|
                #[trigger] tag_count(final(self).nfa.states@, t) == tag_count(old(self).nfa.states@, t)
                    + t_tags_repeat(t_tags(rep.expr, t), rep.min, rep.max),
            final(self).step_done(
                old(self).nfa,
                t_size_repeat(t_size(rep.expr), rep.min, rep.max, rep.greedy),
                f,
            ),
            frag_iter_ok(
                final(self).nfa,
                f,
                rep.expr,
                rep.min as nat,
                match rep.max {
                    Some(m) => Some(m as nat),
                    None => None,
                },
            ),
        decreases rep.expr, 3nat,
    {
        let min = rep.min;
        match rep.max {
            Some(m) => {
                if min == 0 && m == 1 {
                    self.build_optional(&rep.expr, rep.greedy)
                } else if min == m {
                    self.build_exactly(&rep.expr, min)
                } else {
                    self.build_bounded(&rep.expr, min, m, rep.greedy)
                }
            },
            None => {
                if min == 0 {
                    self.build_star(&rep.expr, rep.greedy)
                } else if min == 1 {
                    self.build_plus(&rep.expr, rep.greedy)
                } else {
                    self.build_at_least(&rep.expr, min, rep.greedy)
                }
            },
        }
    }

    /// Builds `e?`: a fork to the body or past it; a non-greedy fork first
    /// tries the way past, through a marked state.
    fn build_optional(&mut self, expr: &HirExpr, greedy: bool) -> (f: Fragment)
        requires
            old(self).nfa.states@.len() + t_size_optional(t_size(*expr), greedy) <= u32::MAX,
            t_fits(*expr),
        ensures
            forall|t: InstrTag|
                #[trigger] tag_count(final(self).nfa.states@, t) == tag_count(old(self).nfa.states@, t)
                    + t_tags(*expr, t),
            final(self).step_done(old(self).nfa, t_size_optional(t_size(*expr), greedy), f),
            frag_iter_ok(final(self).nfa, f, *expr, 0, Some(1)),
        decreases expr, 1nat,
    {
        let ghost base = self.nfa.states@;
        let fragment = self.build_expr(expr);
        let ghost mut cur = self.nfa;
        let ghost mut edges: Seq<(StateId, StateId)> = Seq::empty();
        let start = self.new_state(Ghost(base));
        proof {
            lemma_keep(cur, self.nfa, fragment, *expr, edges);
            cur = self.nfa;
        }
        let end = self.new_state(Ghost(base));
        proof {
            lemma_keep(cur, self.nfa, fragment, *expr, edges);
            cur = self.nfa;
        }
        if greedy {
            self.link(start, fragment.start, Ghost(base));
            proof {
                lemma_keep(cur, self.nfa, fragment, *expr, edges);
                lemma_add_edge(self.nfa, edges, start, fragment.start);
                edges = edges.push((start, fragment.start));
                cur = self.nfa;
            }
            self.link(start, end, Ghost(base));
            proof {
                lemma_keep(cur, self.nfa, fragment, *expr, edges);
                lemma_add_edge(self.nfa, edges, start, end);
                edges = edges.push((start, end));
                cur = self.nfa;
            }
            proof {
                assert(edges[0] == (start, fragment.start));
                assert(edges[1] == (start, end));
            }
        } else {
            let marker = self.new_state(Ghost(base));
            proof {
                lemma_keep(cur, self.nfa, fragment, *expr, edges);
                cur = self.nfa;
            }
            self.mark(marker, NfaInstruction::NonGreedyExit, Ghost(base));
            proof {
                lemma_keep(cur, self.nfa, fragment, *expr, edges);
                cur = self.nfa;
            }
            self.link(marker, end, Ghost(base));
            proof {
                lemma_keep(cur, self.nfa, fragment, *expr, edges);
                lemma_add_edge(self.nfa, edges, marker, end);
                edges = edges.push((marker, end));
                cur = self.nfa;
            }
            self.link(start, marker, Ghost(base));
            proof {
                lemma_keep(cur, self.nfa, fragment, *expr, edges);
                lemma_add_edge(self.nfa, edges, start, marker);
                edges = edges.push((start, marker));
                cur = self.nfa;
            }
            self.link(start, fragment.start, Ghost(base));
            proof {
                lemma_keep(cur, self.nfa, fragment, *expr, edges);
                lemma_add_edge(self.nfa, edges, start, fragment.start);
                edges = edges.push((start, fragment.start));
                cur = self.nfa;
            }
            proof {
                assert(edges[0] == (marker, end));
                assert(edges[1] == (start, marker));
                assert(edges[2] == (start, fragment.start));
                lemma_eps_chain(self.nfa, start, marker, end);
            }
        }
        let ghost nb = self.nfa;
        self.link(fragment.end, end, Ghost(base));
        let f = Fragment { start, end };
        proof {
            lemma_frag_ext(nb, self.nfa, fragment, *expr);
            lemma_eps_path_ext(nb, self.nfa, start, end);
            lemma_eps_path_ext(nb, self.nfa, start, fragment.start);
            lemma_link_path(self.nfa, fragment.end, end);
            lemma_optional_runs(self.nfa, fragment, f, *expr);
        }
        f
    }

    /// Builds `e*`: a fork to the body or past it, and a loop from the body's end.
    fn build_star(&mut self, expr: &HirExpr, greedy: bool) -> (f: Fragment)
        requires
            old(self).nfa.states@.len() + t_size_star(t_size(*expr), greedy) <= u32::MAX,
            t_fits(*expr),
        ensures
            forall|t: InstrTag|
                #[trigger] tag_count(final(self).nfa.states@, t) == tag_count(old(self).nfa.states@, t)
                    + t_tags(*expr, t),
            final(self).step_done(old(self).nfa, t_size_star(t_size(*expr), greedy), f),
            frag_iter_ok(final(self).nfa, f, *expr, 0, None),
        decreases expr, 1nat,
    {
        let ghost base = self.nfa.states@;
        let fragment = self.build_expr(expr);
        let ghost mut cur = self.nfa;
        let ghost mut edges: Seq<(StateId, StateId)> = Seq::empty();
        let start = self.new_state(Ghost(base));
        proof {
            lemma_keep(cur, self.nfa, fragment, *expr, edges);
            cur = self.nfa;
        }
        let end = self.new_state(Ghost(base));
        proof {
            lemma_keep(cur, self.nfa, fragment, *expr, edges);
            cur = self.nfa;
        }
        if greedy {
            self.link(start, fragment.start, Ghost(base));
            proof {
                lemma_keep(cur, self.nfa, fragment, *expr, edges);
                lemma_add_edge(self.nfa, edges, start, fragment.start);
                edges = edges.push((start, fragment.start));
                cur = self.nfa;
            }
            self.link(start, end, Ghost(base));
            proof {
                lemma_keep(cur, self.nfa, fragment, *expr, edges);
                lemma_add_edge(self.nfa, edges, start, end);
                edges = edges.push((start, end));
                cur = self.nfa;
            }
            proof {
                assert(edges[0] == (start, fragment.start));
                assert(edges[1] == (start, end));
            }
        } else {
            let marker = self.new_state(Ghost(base));
            proof {
                lemma_keep(cur, self.nfa, fragment, *expr, edges);
                cur = self.nfa;
            }
            self.mark(marker, NfaInstruction::NonGreedyExit, Ghost(base));
            proof {
                lemma_keep(cur, self.nfa, fragment, *expr, edges);
                cur = self.nfa;
            }
            self.link(marker, end, Ghost(base));
            proof {
                lemma_keep(cur, self.nfa, fragment, *expr, edges);
                lemma_add_edge(self.nfa, edges, marker, end);
                edges = edges.push((marker, end));
                cur = self.nfa;
            }
            self.link(start, marker, Ghost(base));
            proof {
                lemma_keep(cur, self.nfa, fragment, *expr, edges);
                lemma_add_edge(self.nfa, edges, start, marker);
                edges = edges.push((start, marker));
                cur = self.nfa;
            }
            self.link(start, fragment.start, Ghost(base));
            proof {
                lemma_keep(cur, self.nfa, fragment, *expr, edges);
                lemma_add_edge(self.nfa, edges, start, fragment.start);
                edges = edges.push((start, fragment.start));
                cur = self.nfa;
            }
            proof {
                assert(edges[0] == (marker, end));
                assert(edges[1] == (start, marker));
                assert(edges[2] == (start, fragment.start));
                lemma_eps_chain(self.nfa, start, marker, end);
            }
        }
        proof {
            edges = seq![(start, end), (start, fragment.start)];
            cur = self.nfa;
            assert forall|k: int| 0 <= k < edges.len() implies eps_path(
                self.nfa,
                (#[trigger] edges[k]).0,
                edges[k].1,
            ) by {}
        }
        if greedy {
            self.link(fragment.end, fragment.start, Ghost(base));
            proof {
                lemma_keep(cur, self.nfa, fragment, *expr, edges);
                lemma_add_edge(self.nfa, edges, fragment.end, fragment.start);
                edges = edges.push((fragment.end, fragment.start));
                cur = self.nfa;
            }
            self.link(fragment.end, end, Ghost(base));
            proof {
                lemma_keep(cur, self.nfa, fragment, *expr, edges);
                lemma_add_edge(self.nfa, edges, fragment.end, end);
                edges = edges.push((fragment.end, end));
                cur = self.nfa;
            }
            proof {
                assert(edges[0] == (start, end));
                assert(edges[1] == (start, fragment.start));
                assert(edges[2] == (fragment.end, fragment.start));
                assert(edges[3] == (fragment.end, end));
            }
        } else {
            let loop_marker = self.new_state(Ghost(base));
            proof {
                lemma_keep(cur, self.nfa, fragment, *expr, edges);
                cur = self.nfa;
            }
            self.mark(loop_marker, NfaInstruction::NonGreedyExit, Ghost(base));
            proof {
                lemma_keep(cur, self.nfa, fragment, *expr, edges);
                cur = self.nfa;
            }
            self.link(loop_marker, end, Ghost(base));
            proof {
                lemma_keep(cur, self.nfa, fragment, *expr, edges);
                lemma_add_edge(self.nfa, edges, loop_marker, end);
                edges = edges.push((loop_marker, end));
                cur = self.nfa;
            }
            self.link(fragment.end, loop_marker, Ghost(base));
            proof {
                lemma_keep(cur, self.nfa, fragment, *expr, edges);
                lemma_add_edge(self.nfa, edges, fragment.end, loop_marker);
                edges = edges.push((fragment.end, loop_marker));
                cur = self.nfa;
            }
            self.link(fragment.end, fragment.start, Ghost(base));
            proof {
                lemma_keep(cur, self.nfa, fragment, *expr, edges);
                lemma_add_edge(self.nfa, edges, fragment.end, fragment.start);
                edges = edges.push((fragment.end, fragment.start));
                cur = self.nfa;
            }
            proof {
                assert(edges[0] == (start, end));
                assert(edges[1] == (start, fragment.start));
                assert(edges[2] == (loop_marker, end));
                assert(edges[3] == (fragment.end, loop_marker));
                assert(edges[4] == (fragment.end, fragment.start));
                lemma_eps_chain(self.nfa, fragment.end, loop_marker, end);
            }
        }
        let f = Fragment { start, end };
        proof {
            lemma_star_runs(self.nfa, fragment, f, *expr);
        }
        f
    }

    /// Builds `e+`: the body, with a loop from its end back to its start.
    fn build_plus(&mut self, expr: &HirExpr, greedy: bool) -> (f: Fragment)
        requires
            old(self).nfa.states@.len() + t_size_plus(t_size(*expr), greedy) <= u32::MAX,
            t_fits(*expr),
        ensures
            forall|t: InstrTag|
                #[trigger] tag_count(final(self).nfa.states@, t) == tag_count(old(self).nfa.states@, t)
                    + t_tags(*expr, t),
            final(self).step_done(old(self).nfa, t_size_plus(t_size(*expr), greedy), f),
            frag_iter_ok(final(self).nfa, f, *expr, 1, None),
        decreases expr, 1nat,
    {
        let ghost base = self.nfa.states@;
        let fragment = self.build_expr(expr);
        let ghost mut cur = self.nfa;
        let ghost mut edges: Seq<(StateId, StateId)> = Seq::empty();
        let end = self.new_state(Ghost(base));
        proof {
            lemma_keep(cur, self.nfa, fragment, *expr, edges);
            cur = self.nfa;
        }
        if greedy {
            self.link(fragment.end, fragment.start, Ghost(base));
            proof {
                lemma_keep(cur, self.nfa, fragment, *expr, edges);
                lemma_add_edge(self.nfa, edges, fragment.end, fragment.start);
                edges = edges.push((fragment.end, fragment.start));
                cur = self.nfa;
            }
            self.link(fragment.end, end, Ghost(base));
            proof {
                lemma_keep(cur, self.nfa, fragment, *expr, edges);
                lemma_add_edge(self.nfa, edges, fragment.end, end);
                edges = edges.push((fragment.end, end));
                cur = self.nfa;
            }
            proof {
                assert(edges[0] == (fragment.end, fragment.start));
                assert(edges[1] == (fragment.end, end));
            }
        } else {
            let marker = self.new_state(Ghost(base));
            proof {
                lemma_keep(cur, self.nfa, fragment, *expr, edges);
                cur = self.nfa;
            }
            self.mark(marker, NfaInstruction::NonGreedyExit, Ghost(base));
            proof {
                lemma_keep(cur, self.nfa, fragment, *expr, edges);
                cur = self.nfa;
            }
            self.link(marker, end, Ghost(base));
            proof {
                lemma_keep(cur, self.nfa, fragment, *expr, edges);
                lemma_add_edge(self.nfa, edges, marker, end);
                edges = edges.push((marker, end));
                cur = self.nfa;
            }
            self.link(fragment.end, marker, Ghost(base));
            proof {
                lemma_keep(cur, self.nfa, fragment, *expr, edges);
                lemma_add_edge(self.nfa, edges, fragment.end, marker);
                edges = edges.push((fragment.end, marker));
                cur = self.nfa;
            }
            self.link(fragment.end, fragment.start, Ghost(base));
            proof {
                lemma_keep(cur, self.nfa, fragment, *expr, edges);
                lemma_add_edge(self.nfa, edges, fragment.end, fragment.start);
                edges = edges.push((fragment.end, fragment.start));
                cur = self.nfa;
            }
            proof {
                assert(edges[0] == (marker, end));
                assert(edges[1] == (fragment.end, marker));
                assert(edges[2] == (fragment.end, fragment.start));
                lemma_eps_chain(self.nfa, fragment.end, marker, end);
            }
        }
        let f = Fragment { start: fragment.start, end };
        proof {
            lemma_plus_runs(self.nfa, fragment, f, *expr);
        }
        f
    }

    /// Builds `e{n}`: `n` copies of the body, chained.
    fn build_exactly(&mut self, expr: &HirExpr, n: u32) -> (f: Fragment)
        requires
            old(self).nfa.states@.len() + t_size_exactly(t_size(*expr), n as nat) <= u32::MAX,
            t_fits(*expr),
        ensures
            forall|t: InstrTag|
                #[trigger] tag_count(final(self).nfa.states@, t) == tag_count(old(self).nfa.states@, t)
                    + (n as nat) * t_tags(*expr, t),
            final(self).step_done(old(self).nfa, t_size_exactly(t_size(*expr), n as nat), f),
            frag_iter_ok(final(self).nfa, f, *expr, n as nat, Some(n as nat)),
        decreases expr, 1nat,
    {
        if n == 0 {
            let f = self.build_empty();
            proof {
                assert forall|t: InstrTag| #[trigger] tag_count(self.nfa.states@, t) == tag_count(
                    old(self).nfa.states@,
                    t,
                ) + (n as nat) * t_tags(*expr, t) by {
                    lemma_mul_zero(t_tags(*expr, t));
                }
                assert forall|k: nat, input: Seq<u8>, i: int, j: int|
                    n <= k && (Some(n as nat) matches Some(h) ==> k <= h) && #[trigger] iter_matches(
                        *expr,
                        k,
                        input,
                        i,
                        j,
                    ) implies through(self.nfa, f, input, i, j) by {
                    lemma_iter_zero(*expr, input, i, j);
                    lemma_runs_refl(self.nfa, input, (f.start as int, i));
                }
            }
            return f;
        }
        let ghost base = self.nfa.states@;
        let ghost s = t_size(*expr);
        proof {
            lemma_grown_refl(base);
        }
        let mut fragments: Vec<Fragment> = Vec::new();
        let mut k: u32 = 0;
        proof {
            assert forall|t: InstrTag| #[trigger] tag_count(self.nfa.states@, t) == tag_count(base, t)
                + (k as nat) * t_tags(*expr, t) by {
                lemma_mul_zero(t_tags(*expr, t));
            }
        }
        while k < n
            invariant
                k <= n,
                base == old(self).nfa.states@,
                base.len() + (n as nat) * s <= u32::MAX,
                s == t_size(*expr),
                t_fits(*expr),
                same_header(old(self).nfa, self.nfa),
                grown(base, self.nfa.states@),
                self.nfa.states@.len() == base.len() + (k as nat) * s,
                forall|t: InstrTag| #[trigger] tag_count(self.nfa.states@, t) == tag_count(base, t) + (k as nat) * t_tags(*expr, t),
                fragments@.len() == k,
                forall|j: int|
                    0 <= j < k ==> base.len() <= (#[trigger] fragments@[j]).start
                        < self.nfa.states@.len() && base.len() <= fragments@[j].end
                        < self.nfa.states@.len(),
                forall|j: int| 0 <= j < k ==> frag_ok(self.nfa, #[trigger] fragments@[j], *expr),
            decreases n - k,
        {
            proof {
                lemma_mul_step(k as nat, n as nat, s);
            }
            let ghost a = self.nfa.states@;
            let ghost n0 = self.nfa;
            let f = self.build_expr(expr);
            proof {
                lemma_grown_trans(base, a, self.nfa.states@);
                lemma_grown_ext(a, self.nfa.states@);
                assert forall|t: InstrTag| #[trigger] tag_count(self.nfa.states@, t) == tag_count(base, t)
                    + ((k + 1) as nat) * t_tags(*expr, t) by {
                    lemma_mul_step(k as nat, n as nat, t_tags(*expr, t));
                }
                assert forall|j: int| 0 <= j < k implies frag_ok(self.nfa, #[trigger] fragments@[j], *expr) by {
                    lemma_frag_ext(n0, self.nfa, fragments@[j], *expr);
                }
            }
            fragments.push(f);
            k = k + 1;
        }
        proof {
            assert forall|input: Seq<u8>, a: int, b: int|
                #[trigger] iter_matches(*expr, 1, input, a, b) implies runs(
                    self.nfa,
                    input,
                    (fragments@[0].start as int, a),
                    (fragments@[0].end as int, b),
                ) by {
                lemma_iter_one(*expr, input, a, b);
                assert(frag_ok(self.nfa, fragments@[0], *expr));
                assert(through(self.nfa, fragments@[0], input, a, b));
            }
        }
        let mut i: usize = 1;
        while i < fragments.len()
            invariant
                fragments@.len() == n,
                n >= 1,
                1 <= i <= fragments@.len(),
                base == old(self).nfa.states@,
                same_header(old(self).nfa, self.nfa),
                grown(base, self.nfa.states@),
                self.nfa.states@.len() == base.len() + (n as nat) * s,
                forall|t: InstrTag| #[trigger] tag_count(self.nfa.states@, t) == tag_count(base, t) + (n as nat) * t_tags(*expr, t),
                forall|j: int|
                    0 <= j < fragments@.len() ==> base.len() <= (#[trigger] fragments@[j]).start
                        < self.nfa.states@.len() && base.len() <= fragments@[j].end
                        < self.nfa.states@.len(),
                forall|j: int|
                    0 <= j < fragments@.len() ==> frag_ok(self.nfa, #[trigger] fragments@[j], *expr),
                forall|input: Seq<u8>, a: int, b: int|
                    #[trigger] iter_matches(*expr, i as nat, input, a, b) ==> runs(
                        self.nfa,
                        input,
                        (fragments@[0].start as int, a),
                        (fragments@[i - 1].end as int, b),
                    ),
            decreases fragments@.len() - i,
        {
            let from_end = fragments[i - 1].end;
            let to_start = fragments[i].start;
            let ghost n0 = self.nfa;
            self.link(from_end, to_start, Ghost(base));
            proof {
                lemma_ext_runs(n0, self.nfa);
                assert forall|j: int|
                    0 <= j < fragments@.len() implies frag_ok(self.nfa, #[trigger] fragments@[j], *expr) by {
                    lemma_frag_ext(n0, self.nfa, fragments@[j], *expr);
                }
                lemma_eps_runs(self.nfa, from_end, to_start);
                assert forall|input: Seq<u8>, a: int, b: int|
                    #[trigger] iter_matches(*expr, (i + 1) as nat, input, a, b) implies runs(
                        self.nfa,
                        input,
                        (fragments@[0].start as int, a),
                        (fragments@[i as int].end as int, b),
                    ) by {
                    lemma_iter_last(*expr, (i + 1) as nat, input, a, b);
                    let m = choose|m: int|
                        iter_matches(*expr, i as nat, input, a, m) && #[trigger] hir_matches(
                            *expr,
                            input,
                            m,
                            b,
                        );
                    assert(runs(n0, input, (fragments@[0].start as int, a), (from_end as int, m)));
                    assert(runs(self.nfa, input, (from_end as int, m), (to_start as int, m)));
                    lemma_runs_trans(
                        self.nfa,
                        input,
                        (fragments@[0].start as int, a),
                        (from_end as int, m),
                        (to_start as int, m),
                    );
                    assert(frag_ok(self.nfa, fragments@[i as int], *expr));
                    assert(through(self.nfa, fragments@[i as int], input, m, b));
                    lemma_runs_trans(
                        self.nfa,
                        input,
                        (fragments@[0].start as int, a),
                        (to_start as int, m),
                        (fragments@[i as int].end as int, b),
                    );
                }
            }
            i = i + 1;
        }
        let last = fragments.len() - 1;
        let f = Fragment { start: fragments[0].start, end: fragments[last].end };
        proof {
            assert forall|k: nat, input: Seq<u8>, a: int, b: int|
                n <= k && (Some(n as nat) matches Some(h) ==> k <= h) && #[trigger] iter_matches(
                    *expr,
                    k,
                    input,
                    a,
                    b,
                ) implies through(self.nfa, f, input, a, b) by {
                assert(k == i);
            }
        }
        f
    }

    /// Builds `e{n,}`: `n` copies of the body, then `e*`.
    fn build_at_least(&mut self, expr: &HirExpr, n: u32, greedy: bool) -> (f: Fragment)
        requires
            old(self).nfa.states@.len() + t_size_exactly(t_size(*expr), n as nat) + t_size_star(
                t_size(*expr),
                greedy,
            ) <= u32::MAX,
            t_fits(*expr),
        ensures
            forall|t: InstrTag|
                #[trigger] tag_count(final(self).nfa.states@, t) == tag_count(old(self).nfa.states@, t)
                    + (n as nat) * t_tags(*expr, t) + t_tags(*expr, t),
            final(self).step_done(
                old(self).nfa,
                t_size_exactly(t_size(*expr), n as nat) + t_size_star(t_size(*expr), greedy),
                f,
            ),
            frag_iter_ok(final(self).nfa, f, *expr, n as nat, None),
        decreases expr, 2nat,
    {
        let ghost base = self.nfa.states@;
        let required = self.build_exactly(expr, n);
        let ghost a = self.nfa.states@;
        let ghost n1 = self.nfa;
        let star = self.build_star(expr, greedy);
        proof {
            lemma_grown_trans(base, a, self.nfa.states@);
            lemma_grown_ext(a, self.nfa.states@);
        }
        let ghost n2 = self.nfa;
        self.link(required.end, star.start, Ghost(base));
        let f = Fragment { start: required.start, end: star.end };
        proof {
            lemma_ext_trans(n1.states@, n2.states@, self.nfa.states@);
            lemma_frag_iter_ext(n1, self.nfa, required, *expr, n as nat, Some(n as nat));
            lemma_frag_iter_ext(n2, self.nfa, star, *expr, 0, None);
            lemma_eps_runs(self.nfa, required.end, star.start);
            assert forall|k: nat, input: Seq<u8>, i: int, j: int|
                n <= k && (None::<nat> matches Some(h) ==> k <= h) && #[trigger] iter_matches(
                    *expr,
                    k,
                    input,
                    i,
                    j,
                ) implies through(self.nfa, f, input, i, j) by {
                lemma_iter_split(*expr, k, n as nat, input, i, j);
                let m = choose|m: int|
                    #[trigger] iter_matches(*expr, n as nat, input, i, m) && iter_matches(
                        *expr,
                        (k - n) as nat,
                        input,
                        m,
                        j,
                    );
                assert(through(self.nfa, required, input, i, m));
                assert(through(self.nfa, star, input, m, j));
                assert(runs(self.nfa, input, (required.end as int, m), (star.start as int, m)));
                lemma_runs_trans(
                    self.nfa,
                    input,
                    (required.start as int, i),
                    (required.end as int, m),
                    (star.start as int, m),
                );
                lemma_runs_trans(
                    self.nfa,
                    input,
                    (required.start as int, i),
                    (star.start as int, m),
                    (star.end as int, j),
                );
            }
        }
        f
    }

    /// Builds `e{n,m}`: `n` copies of the body, then `m - n` optional copies.
    fn build_bounded(&mut self, expr: &HirExpr, n: u32, m: u32, greedy: bool) -> (f: Fragment)
        requires
            old(self).nfa.states@.len() + t_size_bounded(t_size(*expr), n, m, greedy) <= u32::MAX,
            t_fits(*expr),
        ensures
            forall|t: InstrTag|
                #[trigger] tag_count(final(self).nfa.states@, t) == tag_count(old(self).nfa.states@, t)
                    + (if n > m {
                    0nat
                } else {
                    (n as nat) * t_tags(*expr, t) + ((m - n) as nat) * t_tags(*expr, t)
                }),
            final(self).step_done(old(self).nfa, t_size_bounded(t_size(*expr), n, m, greedy), f),
            frag_iter_ok(final(self).nfa, f, *expr, n as nat, Some(m as nat)),
        decreases expr, 2nat,
    {
        if n > m {
            return self.build_empty();
        }
        let ghost base = self.nfa.states@;
        let ghost s = t_size(*expr);
        let ghost o = t_size_optional(s, greedy);
        let ghost req_size: nat = if n > 0 {
            (n as nat) * s
        } else {
            0nat
        };
        proof {
            lemma_grown_refl(base);
        }
        let ghost n0 = self.nfa;
        let required = if n > 0 {
            Some(self.build_exactly(expr, n))
        } else {
            None
        };
        let ghost nr = self.nfa;
        let optional_count = m - n;
        let mut optional_fragments: Vec<Fragment> = Vec::new();
        let mut k: u32 = 0;
        proof {
            assert forall|t: InstrTag| #[trigger] tag_count(self.nfa.states@, t) == tag_count(base, t)
                + (n as nat) * t_tags(*expr, t) + (k as nat) * t_tags(*expr, t) by {
                lemma_mul_zero(t_tags(*expr, t));
            }
        }
        while k < optional_count
            invariant
                k <= optional_count,
                optional_count == m - n,
                forall|t: InstrTag| #[trigger] tag_count(self.nfa.states@, t) == tag_count(base, t) + (n as nat) * t_tags(*expr, t) + (k as nat) * t_tags(*expr, t),
                base == old(self).nfa.states@,
                base.len() + req_size + (optional_count as nat) * o <= u32::MAX,
                o == t_size_optional(t_size(*expr), greedy),
                s == t_size(*expr),
                t_fits(*expr),
                same_header(old(self).nfa, self.nfa),
                grown(base, self.nfa.states@),
                self.nfa.states@.len() == base.len() + req_size + (k as nat) * o,
                required matches Some(r) ==> base.len() <= r.start < self.nfa.states@.len()
                    && base.len() <= r.end < self.nfa.states@.len(),
                required is Some <==> n > 0,
                optional_fragments@.len() == k,
                forall|j: int|
                    0 <= j < k ==> base.len() <= (#[trigger] optional_fragments@[j]).start
                        < self.nfa.states@.len() && base.len() <= optional_fragments@[j].end
                        < self.nfa.states@.len(),
                forall|j: int|
                    0 <= j < k ==> frag_iter_ok(
                        self.nfa,
                        #[trigger] optional_fragments@[j],
                        *expr,
                        0,
                        Some(1),
                    ),
                ext(nr.states@, self.nfa.states@),
            decreases optional_count - k,
        {
            proof {
                lemma_mul_step(k as nat, optional_count as nat, o);
            }
            let ghost a = self.nfa.states@;
            let ghost n1 = self.nfa;
            let f = self.build_optional(expr, greedy);
            proof {
                lemma_grown_trans(base, a, self.nfa.states@);
                lemma_grown_ext(a, self.nfa.states@);
                lemma_ext_trans(nr.states@, a, self.nfa.states@);
                assert forall|t: InstrTag| #[trigger] tag_count(self.nfa.states@, t) == tag_count(base, t)
                    + (n as nat) * t_tags(*expr, t) + ((k + 1) as nat) * t_tags(*expr, t) by {
                    lemma_mul_step(k as nat, optional_count as nat, t_tags(*expr, t));
                }
                assert forall|j: int| 0 <= j < k implies frag_iter_ok(
                    self.nfa,
                    #[trigger] optional_fragments@[j],
                    *expr,
                    0,
                    Some(1),
                ) by {
                    lemma_frag_iter_ext(n1, self.nfa, optional_fragments@[j], *expr, 0, Some(1));
                }
            }
            optional_fragments.push(f);
            k = k + 1;
        }
        proof {
            if optional_count > 0 {
                assert forall|r: nat, input: Seq<u8>, a: int, b: int|
                    r <= 1 && #[trigger] iter_matches(*expr, r, input, a, b) implies runs(
                        self.nfa,
                        input,
                        (optional_fragments@[0].start as int, a),
                        (optional_fragments@[0].end as int, b),
                    ) by {
                    assert(frag_iter_ok(self.nfa, optional_fragments@[0], *expr, 0, Some(1)));
                    assert(through(self.nfa, optional_fragments@[0], input, a, b));
                }
            }
        }
        let mut i: usize = 1;
        while i < optional_fragments.len()
            invariant
                optional_fragments@.len() == optional_count,
                1 <= i,
                forall|t: InstrTag| #[trigger] tag_count(self.nfa.states@, t) == tag_count(base, t) + (n as nat) * t_tags(*expr, t) + (optional_count as nat) * t_tags(*expr, t),
                base == old(self).nfa.states@,
                same_header(old(self).nfa, self.nfa),
                grown(base, self.nfa.states@),
                self.nfa.states@.len() == base.len() + req_size + (optional_count as nat) * o,
                required matches Some(r) ==> base.len() <= r.start < self.nfa.states@.len()
                    && base.len() <= r.end < self.nfa.states@.len(),
                forall|j: int|
                    0 <= j < optional_fragments@.len() ==> base.len() <= (
                    #[trigger] optional_fragments@[j]).start < self.nfa.states@.len() && base.len()
                        <= optional_fragments@[j].end < self.nfa.states@.len(),
                forall|j: int|
                    0 <= j < optional_fragments@.len() ==> frag_iter_ok(
                        self.nfa,
                        #[trigger] optional_fragments@[j],
                        *expr,
                        0,
                        Some(1),
                    ),
                ext(nr.states@, self.nfa.states@),
                optional_count > 0 ==> i <= optional_fragments@.len(),
                optional_count > 0 ==> forall|r: nat, input: Seq<u8>, a: int, b: int|
                    r <= i && #[trigger] iter_matches(*expr, r, input, a, b) ==> runs(
                        self.nfa,
                        input,
                        (optional_fragments@[0].start as int, a),
                        (optional_fragments@[i - 1].end as int, b),
                    ),
            decreases optional_fragments@.len() - i,
        {
            let from_end = optional_fragments[i - 1].end;
            let to_start = optional_fragments[i].start;
            let ghost n1 = self.nfa;
            self.link(from_end, to_start, Ghost(base));
            proof {
                lemma_ext_trans(nr.states@, n1.states@, self.nfa.states@);
                lemma_ext_runs(n1, self.nfa);
                assert forall|j: int| 0 <= j < optional_fragments@.len() implies frag_iter_ok(
                    self.nfa,
                    #[trigger] optional_fragments@[j],
                    *expr,
                    0,
                    Some(1),
                ) by {
                    lemma_frag_iter_ext(n1, self.nfa, optional_fragments@[j], *expr, 0, Some(1));
                }
                lemma_eps_runs(self.nfa, from_end, to_start);
                let g = optional_fragments@[i as int];
                assert(frag_iter_ok(self.nfa, g, *expr, 0, Some(1)));
                assert forall|r: nat, input: Seq<u8>, a: int, b: int|
                    r <= i + 1 && #[trigger] iter_matches(*expr, r, input, a, b) implies runs(
                        self.nfa,
                        input,
                        (optional_fragments@[0].start as int, a),
                        (g.end as int, b),
                    ) by {
                    let s0 = optional_fragments@[0].start as int;
                    if r <= i {
                        assert(runs(n1, input, (s0, a), (from_end as int, b)));
                        assert(runs(self.nfa, input, (from_end as int, b), (to_start as int, b)));
                        lemma_iter_zero_intro(*expr, input, b);
                        assert(through(self.nfa, g, input, b, b));
                        lemma_runs_trans(self.nfa, input, (s0, a), (from_end as int, b), (to_start as int, b));
                        lemma_runs_trans(self.nfa, input, (s0, a), (to_start as int, b), (g.end as int, b));
                    } else {
                        lemma_iter_last(*expr, r, input, a, b);
                        let mm = choose|mm: int|
                            iter_matches(*expr, (r - 1) as nat, input, a, mm) && #[trigger] hir_matches(
                                *expr,
                                input,
                                mm,
                                b,
                            );
                        assert(runs(n1, input, (s0, a), (from_end as int, mm)));
                        assert(runs(self.nfa, input, (from_end as int, mm), (to_start as int, mm)));
                        lemma_iter_one_intro(*expr, input, mm, b);
                        assert(through(self.nfa, g, input, mm, b));
                        lemma_runs_trans(self.nfa, input, (s0, a), (from_end as int, mm), (to_start as int, mm));
                        lemma_runs_trans(self.nfa, input, (s0, a), (to_start as int, mm), (g.end as int, b));
                    }
                }
            }
            i = i + 1;
        }
        let count = optional_fragments.len();
        proof {
            if n > 0 {
                let req = required->0;
                lemma_frag_iter_ext(nr, self.nfa, req, *expr, n as nat, Some(n as nat));
            }
        }
        match required {
            Some(req) => {
                if count > 0 {
                    let ghost n1 = self.nfa;
                    let opt0 = optional_fragments[0].start;
                    self.link(req.end, opt0, Ghost(base));
                    let f = Fragment { start: req.start, end: optional_fragments[count - 1].end };
                    proof {
                        lemma_ext_runs(n1, self.nfa);
                        lemma_frag_iter_ext(n1, self.nfa, req, *expr, n as nat, Some(n as nat));
                        lemma_eps_runs(self.nfa, req.end, opt0);
                        assert forall|k2: nat, input: Seq<u8>, a: int, b: int|
                            n <= k2 && (Some(m as nat) matches Some(h) ==> k2 <= h) && #[trigger] iter_matches(
                                *expr,
                                k2,
                                input,
                                a,
                                b,
                            ) implies through(self.nfa, f, input, a, b) by {
                            lemma_iter_split(*expr, k2, n as nat, input, a, b);
                            let mid = choose|mid: int|
                                #[trigger] iter_matches(*expr, n as nat, input, a, mid) && iter_matches(
                                    *expr,
                                    (k2 - n) as nat,
                                    input,
                                    mid,
                                    b,
                                );
                            assert(through(self.nfa, req, input, a, mid));
                            assert(runs(n1, input, (opt0 as int, mid), (f.end as int, b)));
                            assert(runs(self.nfa, input, (req.end as int, mid), (opt0 as int, mid)));
                            lemma_runs_trans(self.nfa, input, (req.start as int, a), (req.end as int, mid), (opt0 as int, mid));
                            lemma_runs_trans(self.nfa, input, (req.start as int, a), (opt0 as int, mid), (f.end as int, b));
                        }
                    }
                    f
                } else {
                    let f = Fragment { start: req.start, end: req.end };
                    proof {
                        assert forall|k2: nat, input: Seq<u8>, a: int, b: int|
                            n <= k2 && (Some(m as nat) matches Some(h) ==> k2 <= h) && #[trigger] iter_matches(
                                *expr,
                                k2,
                                input,
                                a,
                                b,
                            ) implies through(self.nfa, f, input, a, b) by {
                            assert(through(self.nfa, req, input, a, b));
                        }
                    }
                    f
                }
            },
            None => {
                if count > 0 {
                    let f = Fragment {
                        start: optional_fragments[0].start,
                        end: optional_fragments[count - 1].end,
                    };
                    proof {
                        assert forall|k2: nat, input: Seq<u8>, a: int, b: int|
                            n <= k2 && (Some(m as nat) matches Some(h) ==> k2 <= h) && #[trigger] iter_matches(
                                *expr,
                                k2,
                                input,
                                a,
                                b,
                            ) implies through(self.nfa, f, input, a, b) by {
                            assert(runs(self.nfa, input, (f.start as int, a), (f.end as int, b)));
                        }
                    }
                    f
                } else {
                    let state = self.new_state(Ghost(base));
                    let f = Fragment { start: state, end: state };
                    proof {
                        assert forall|k2: nat, input: Seq<u8>, a: int, b: int|
                            n <= k2 && (Some(m as nat) matches Some(h) ==> k2 <= h) && #[trigger] iter_matches(
                                *expr,
                                k2,
                                input,
                                a,
                                b,
                            ) implies through(self.nfa, f, input, a, b) by {
                            lemma_iter_zero(*expr, input, a, b);
                            lemma_runs_refl(self.nfa, input, (state as int, a));
                        }
                    }
                    f
                }
            },
        }
    }

    /// Builds a capture group: a start state and an end state marked with the
    /// group index, around the body.
    fn build_capture(&mut self, cap: &HirCapture) -> (f: Fragment)
        requires
            old(self).nfa.states@.len() + 3 + t_size(cap.expr) <= u32::MAX,
            t_fits(cap.expr),
        ensures
            forall|t: InstrTag|
                #[trigger] tag_count(final(self).nfa.states@, t) == tag_count(old(self).nfa.states@, t)
                    + t_tags(cap.expr, t) + (if t == InstrTag::CaptureStart(cap.index) {
                    1nat
                } else {
                    0nat
                }) + (if t == InstrTag::CaptureEnd(cap.index) {
                    1nat
                } else {
                    0nat
                }),
            final(self).step_done(old(self).nfa, 3 + t_size(cap.expr), f),
            frag_ok(final(self).nfa, f, cap.expr),
        decreases cap.expr, 1nat,
    {
        let ghost base = self.nfa.states@;
        proof {
            lemma_grown_refl(base);
        }
        let start = self.new_state(Ghost(base));
        let end = self.new_state(Ghost(base));
        self.mark(start, NfaInstruction::CaptureStart(cap.index), Ghost(base));
        let ghost a = self.nfa.states@;
        let ghost n1 = self.nfa;
        let inner = self.build_expr(&cap.expr);
        proof {
            lemma_grown_trans(base, a, self.nfa.states@);
        }
        let ghost n2 = self.nfa;
        self.link(start, inner.start, Ghost(base));
        let ghost n3 = self.nfa;
        proof {
            lemma_ext_runs(n2, n3);
            lemma_eps_runs(n3, start, inner.start);
        }
        let cap_end = self.new_state(Ghost(base));
        let ghost n4 = self.nfa;
        proof {
            lemma_ext_runs(n3, n4);
        }
        self.mark(cap_end, NfaInstruction::CaptureEnd(cap.index), Ghost(base));
        let ghost n5 = self.nfa;
        proof {
            lemma_ext_runs(n4, n5);
        }
        self.link(cap_end, end, Ghost(base));
        let ghost n6 = self.nfa;
        proof {
            lemma_ext_runs(n5, n6);
            lemma_eps_runs(n6, cap_end, end);
        }
        self.link(inner.end, cap_end, Ghost(base));
        let f = Fragment { start, end };
        proof {
            lemma_ext_runs(n6, self.nfa);
            lemma_eps_runs(self.nfa, inner.end, cap_end);
            assert forall|input: Seq<u8>, i: int, j: int|
                #[trigger] hir_matches(cap.expr, input, i, j) implies through(self.nfa, f, input, i, j) by {
                assert(through(n2, inner, input, i, j));
                assert(runs(n3, input, (start as int, i), (inner.start as int, i)));
                assert(runs(n6, input, (cap_end as int, j), (end as int, j)));
                assert(runs(self.nfa, input, (inner.end as int, j), (cap_end as int, j)));
                lemma_runs_trans(
                    self.nfa,
                    input,
                    (start as int, i),
                    (inner.start as int, i),
                    (inner.end as int, j),
                );
                lemma_runs_trans(
                    self.nfa,
                    input,
                    (start as int, i),
                    (inner.end as int, j),
                    (cap_end as int, j),
                );
                lemma_runs_trans(
                    self.nfa,
                    input,
                    (start as int, i),
                    (cap_end as int, j),
                    (end as int, j),
                );
            }
        }
        f
    }

    /// Builds an anchor: one state with the matching assertion.
    fn build_anchor(&mut self, anchor: HirAnchor) -> (f: Fragment)
        requires
            old(self).nfa.states@.len() + 1 <= u32::MAX,
        ensures
            forall|t: InstrTag|
                #[trigger] tag_count(final(self).nfa.states@, t) == tag_count(old(self).nfa.states@, t)
                    + 0,
            final(self).step_done(old(self).nfa, 1, f),
            f.start == f.end,
            f.start < final(self).nfa.states@.len(),
            final(self).nfa.states@[f.start as int].instruction == Some(anchor_instruction(anchor)),
    {
        let ghost base = self.nfa.states@;
        proof {
            lemma_grown_refl(base);
        }
        let state = self.new_state(Ghost(base));
        let instruction = match anchor {
            HirAnchor::Start => NfaInstruction::StartOfText,
            HirAnchor::End => NfaInstruction::EndOfText,
            HirAnchor::StartLine => NfaInstruction::StartOfLine,
            HirAnchor::EndLine => NfaInstruction::EndOfLine,
            HirAnchor::WordBoundary => NfaInstruction::WordBoundary,
            HirAnchor::NotWordBoundary => NfaInstruction::NotWordBoundary,
        };
        self.mark(state, instruction, Ghost(base));
        Fragment { start: state, end: state }
    }

    /// Builds a lookaround: one state holding the automaton of the body.
    fn build_lookaround(&mut self, la: &HirLookaround) -> (f: Fragment)
        requires
            old(self).nfa.states@.len() + 1 <= u32::MAX,
            t_size(la.expr) <= u32::MAX,
            t_fits(la.expr),
        ensures
            forall|t: InstrTag|
                #[trigger] tag_count(final(self).nfa.states@, t) == tag_count(old(self).nfa.states@, t)
                    + (if t is Lookaround {
                    1nat
                } else {
                    0nat
                }),
            final(self).step_done(old(self).nfa, 1, f),
            f.start == f.end,
        decreases la.expr, 2nat,
    {
        let mut inner_builder = NfaBuilder::new();
        let inner_nfa = inner_builder.build_from(&la.expr, HirProps::new());
        proof {
            lemma_wf_ready(inner_nfa);
        }
        let ghost base = self.nfa.states@;
        proof {
            lemma_grown_refl(base);
        }
        let state = self.new_state(Ghost(base));
        let instruction = match la.kind {
            HirLookaroundKind::PositiveLookahead => NfaInstruction::PositiveLookahead(
                Box::new(inner_nfa),
            ),
            HirLookaroundKind::NegativeLookahead => NfaInstruction::NegativeLookahead(
                Box::new(inner_nfa),
            ),
            HirLookaroundKind::PositiveLookbehind => NfaInstruction::PositiveLookbehind(
                Box::new(inner_nfa),
            ),
            HirLookaroundKind::NegativeLookbehind => NfaInstruction::NegativeLookbehind(
                Box::new(inner_nfa),
            ),
        };
        self.mark(state, instruction, Ghost(base));
        Fragment { start: state, end: state }
    }

    /// Builds a backreference: one state with the instruction.
    fn build_backref(&mut self, n: u32) -> (f: Fragment)
        requires
            old(self).nfa.states@.len() + 1 <= u32::MAX,
        ensures
            forall|t: InstrTag|
                #[trigger] tag_count(final(self).nfa.states@, t) == tag_count(old(self).nfa.states@, t)
                    + (if t == InstrTag::Backref(n) {
                    1nat
                } else {
                    0nat
                }),
            final(self).step_done(old(self).nfa, 1, f),
    {
        let ghost base = self.nfa.states@;
        proof {
            lemma_grown_refl(base);
        }
        let state = self.new_state(Ghost(base));
        self.mark(state, NfaInstruction::Backref(n), Ghost(base));
        Fragment { start: state, end: state }
    }

    /// Builds the automaton of an expression, with the given properties.
    fn build_from(&mut self, expr: &HirExpr, props: HirProps) -> (nfa: Nfa)
        requires
            old(self).is_fresh(),
            t_size(*expr) <= u32::MAX,
            t_fits(*expr),
        ensures
            final(self).is_fresh(),
            thompson_result(nfa, *expr, props),
        decreases expr, 1nat,
    {
        self.nfa.capture_count = props.capture_count;
        self.nfa.has_backrefs = props.has_backrefs;
        self.nfa.has_lookaround = props.has_lookaround;
        let ghost before = self.nfa;
        let fragment = self.build_expr(expr);
        let ghost nb = self.nfa;
        self.nfa.start = fragment.start;
        let ghost a = self.nfa.states@;
        if let Some(end_state) = self.nfa.get_mut(fragment.end) {
            end_state.is_match = true;
        }
        proof {
            lemma_ext_state_grow(a[fragment.end as int], self.nfa.states@[fragment.end as int]);
            lemma_ext_edit(a, self.nfa.states@, fragment.end as int);
            lemma_frag_ext(nb, self.nfa, fragment, *expr);
            lemma_tags_same(a, self.nfa.states@);
            assert forall|t: InstrTag| #[trigger] tag_count(self.nfa.states@, t) == t_tags(*expr, t) by {
                assert(tag_count(before.states@, t) == 0);
            }
        }
        proof {
            assert forall|s: int| 0 <= s < self.nfa.states@.len() implies #[trigger] targets_in(
                self.nfa.states@[s],
                0,
                self.nfa.states@.len() as int,
            ) by {
                assert(targets_in(a[s], 0, a.len() as int));
            }
            assert forall|s: int| 0 <= s < self.nfa.states@.len() implies (
            #[trigger] self.nfa.states@[s].is_match <==> s == fragment.end) by {
                if s != fragment.end {
                    assert(!a[s].is_match);
                }
            }
        }
        let ghost nm = self.nfa;
        self.nfa.matches.push(fragment.end);
        let mut out = Nfa::new();
        std::mem::swap(&mut out, &mut self.nfa);
        proof {
            assert(out.matches@ =~= seq![fragment.end]);
            assert(out.states == nm.states);
            assert forall|input: Seq<u8>, i: int, j: int|
                #[trigger] hir_matches(*expr, input, i, j) implies accepts(out, input, i, j) by {
                assert(through(nm, fragment, input, i, j));
                assert(runs(out, input, (out.start as int, i), (fragment.end as int, j))) by {
                    lemma_ext_refl(nm.states@);
                    lemma_ext_runs(nm, out);
                }
                assert(out.states@[fragment.end as int].is_match);
            }
        }
        out
    }

    /// Builds the automaton of a pattern.
    ///
    /// The builder is left empty, ready for another pattern.
    pub fn build(&mut self, hir: &Hir) -> (r: Result<Nfa>)
        requires
            old(self).is_fresh(),
            t_size(hir.expr) <= u32::MAX,
            t_fits(hir.expr),
        ensures
            final(self).is_fresh(),
            r matches Ok(nfa) && thompson_result(nfa, hir.expr, hir.props),
    {
        Ok(self.build_from(&hir.expr, hir.props))
    }
}

/// What Thompson's construction gives for an expression: a well-formed
/// automaton with one state per construction step, exactly one match state,
/// the pattern's properties, a run to the match state over every stretch of
/// input that the expression matches, and as many capture, backreference and
/// lookaround states as the construction makes for the expression.
pub open spec fn thompson_result(nfa: Nfa, e: HirExpr, props: HirProps) -> bool {
    &&& nfa_wf(nfa)
    &&& nfa.states@.len() == t_size(e)
    &&& nfa.capture_count == props.capture_count
    &&& nfa.has_backrefs == props.has_backrefs
    &&& nfa.has_lookaround == props.has_lookaround
    &&& nfa.epsilon_closures is None
    &&& nfa.matches@.len() == 1
    &&& forall|i: int|
        0 <= i < nfa.states@.len() ==> (#[trigger] nfa.states@[i].is_match <==> i
            == nfa.matches@[0])
    &&& forall|input: Seq<u8>, i: int, j: int|
        #[trigger] hir_matches(e, input, i, j) ==> accepts(nfa, input, i, j)
    &&& forall|t: InstrTag| #[trigger] tag_count(nfa.states@, t) == t_tags(e, t)
}

/// What Thompson's construction yields, field by field: one match state,
/// which is the only state marked as matching; a start state that is a state;
/// the expression's capture count, backreference and lookaround flags; and
/// every transition and epsilon target a state.
pub proof fn lemma_thompson_shape(nfa: Nfa, e: HirExpr, props: HirProps)
    requires
        thompson_result(nfa, e, props),
    ensures
        nfa.matches@.len() == 1,
        forall|i: int|
            0 <= i < nfa.states@.len() ==> (#[trigger] nfa.states@[i].is_match <==> i
                == nfa.matches@[0] as int),
        (nfa.matches@[0] as int) < nfa.states@.len(),
        (nfa.start as int) < nfa.states@.len(),
        nfa.capture_count == props.capture_count,
        nfa.has_backrefs == props.has_backrefs,
        nfa.has_lookaround == props.has_lookaround,
        forall|s: int, i: int|
            0 <= s < nfa.states@.len() && 0 <= i < nfa.states@[s].epsilon@.len() ==> (
            #[trigger] nfa.states@[s].epsilon@[i] as int) < nfa.states@.len(),
        forall|s: int, i: int|
            0 <= s < nfa.states@.len() && 0 <= i < nfa.states@[s].transitions@.len() ==> (
            #[trigger] nfa.states@[s].transitions@[i].1 as int) < nfa.states@.len(),
        matches_listed(nfa),
{
    assert forall|s: int| 0 <= s < nfa.states@.len() && #[trigger] nfa.states@[s].is_match implies nfa.matches@.contains(
        s as StateId,
    ) by {
        assert(nfa.matches@[0] == s as StateId);
    }
    assert forall|s: int, i: int|
        0 <= s < nfa.states@.len() && 0 <= i < nfa.states@[s].epsilon@.len() implies (
        #[trigger] nfa.states@[s].epsilon@[i] as int) < nfa.states@.len() by {
        assert(targets_in(nfa.states@[s], 0, nfa.states@.len() as int));
    }
    assert forall|s: int, i: int|
        0 <= s < nfa.states@.len() && 0 <= i < nfa.states@[s].transitions@.len() implies (
        #[trigger] nfa.states@[s].transitions@[i].1 as int) < nfa.states@.len() by {
        assert(targets_in(nfa.states@[s], 0, nfa.states@.len() as int));
    }
}

impl Default for NfaBuilder {
    fn default() -> (b: Self)
        ensures
            b.is_fresh(),
    {
        NfaBuilder::new()
    }
}

/// `x`, or 2^32 where `x` is more: sizes as far as the size limit needs them.
pub open spec fn size_cap(x: nat) -> nat {
    if x < 0x1_0000_0000 {
        x
    } else {
        0x1_0000_0000
    }
}

proof fn lemma_cap_add(a: nat, b: nat)
    ensures
        size_cap(a + b) == size_cap(size_cap(a) + size_cap(b)),
{
}

proof fn lemma_cap_mul(n: nat, a: nat)
    ensures
        size_cap(n * a) == size_cap(n * size_cap(a)),
{
    if a >= 0x1_0000_0000 && n >= 1 {
        assert(n * a >= a && n * 0x1_0000_0000 >= 0x1_0000_0000) by (nonlinear_arith)
            requires
                n >= 1,
                a >= 0,
        ;
    } else if n == 0 {
        assert(n * a == 0 && n * size_cap(a) == 0) by (nonlinear_arith)
            requires
                n == 0,
        ;
    }
}

/// Saturating sum of two capped sizes.
fn cap_add(a: u64, b: u64) -> (r: u64)
    requires
        a <= 0x1_0000_0000,
        b <= 0x1_0000_0000,
    ensures
        r == size_cap((a + b) as nat),
{
    let s = a + b;
    if s < 0x1_0000_0000 {
        s
    } else {
        0x1_0000_0000
    }
}

/// Saturating product of a count and a capped size.
fn cap_mul(n: u64, a: u64) -> (r: u64)
    requires
        n <= u32::MAX,
        a <= 0x1_0000_0000,
    ensures
        r == size_cap((n * a) as nat),
{
    assert(n * a <= 0xffff_ffff * 0x1_0000_0000) by (nonlinear_arith)
        requires
            n <= 0xffff_ffff,
            a <= 0x1_0000_0000,
    ;
    let p = n * a;
    if p < 0x1_0000_0000 {
        p
    } else {
        0x1_0000_0000
    }
}

/// The capped number of states the construction adds for a repetition whose
/// body adds `x` states, given `s`, the capped `x`.
fn repeat_size_capped(s: u64, min: u32, max: Option<u32>, greedy: bool, Ghost(x): Ghost<nat>) -> (r: u64)
    requires
        s == size_cap(x),
    ensures
        r == size_cap(t_size_repeat(x, min, max, greedy)),
{
    let ng2: u64 = if greedy { 0 } else { 2 };
    let ng1: u64 = if greedy { 0 } else { 1 };
    proof {
        lemma_cap_add(x, (2 + ng1) as nat);
        lemma_cap_add(x, (2 + ng2) as nat);
        lemma_cap_add(x, (1 + ng1) as nat);
        lemma_cap_mul(min as nat, x);
    }
    match max {
        Some(m) => {
            if min == 0 && m == 1 {
                cap_add(s, 2 + ng1)
            } else if min == m {
                if min == 0 {
                    1
                } else {
                    cap_mul(min as u64, s)
                }
            } else if min > m {
                1
            } else {
                let opt = cap_add(s, 2 + ng1);
                let d = (m - min) as u64;
                proof {
                    lemma_cap_mul(d as nat, t_size_optional(x, greedy));
                }
                let a: u64 = if min > 0 {
                    cap_mul(min as u64, s)
                } else {
                    0
                };
                let b = cap_mul(d, opt);
                let c: u64 = if m == 0 {
                    1
                } else {
                    0
                };
                let ab = cap_add(a, b);
                proof {
                    let ra: nat = if min > 0 {
                        (min as nat) * x
                    } else {
                        0nat
                    };
                    let rb: nat = d as nat * t_size_optional(x, greedy);
                    lemma_cap_add(ra, rb);
                    lemma_cap_add(ra + rb, c as nat);
                }
                cap_add(ab, c)
            }
        },
        None => {
            if min == 0 {
                cap_add(s, 2 + ng2)
            } else if min == 1 {
                cap_add(s, 1 + ng1)
            } else {
                let a = cap_mul(min as u64, s);
                let b = cap_add(s, 2 + ng2);
                proof {
                    lemma_cap_add((min as nat) * x, t_size_star(x, greedy));
                }
                cap_add(a, b)
            }
        },
    }
}

/// The capped number of states the construction adds for a sequence.
fn seq_size_capped(es: &Vec<HirExpr>) -> (r: u64)
    ensures
        r == size_cap(t_size_seq(es@)),
    decreases es,
{
    let mut acc: u64 = 0;
    let mut i: usize = 0;
    while i < es.len()
        invariant
            i <= es@.len(),
            acc == size_cap(t_size_seq(es@.take(i as int))),
        decreases es@.len() - i,
    {
        proof {
            assert(decreases_to!(es => es@));
            assert(decreases_to!(es@ => es@[i as int]));
        }
        let k = size_capped(&es[i]);
        proof {
            let t = es@.take(i + 1);
            assert(t.drop_last() =~= es@.take(i as int));
            assert(t.last() == es@[i as int]);
            lemma_cap_add(t_size_seq(es@.take(i as int)), t_size(es@[i as int]));
        }
        acc = cap_add(acc, k);
        i = i + 1;
    }
    proof {
        assert(es@.take(es@.len() as int) =~= es@);
    }
    acc
}

/// The capped number of states the construction adds for `e`.
fn size_capped(e: &HirExpr) -> (r: u64)
    ensures
        r == size_cap(t_size(*e)),
    decreases e,
{
    match e {
        HirExpr::Empty => 1,
        HirExpr::Literal(b) => {
            let l = b.len() as u64;
            if l >= 0x1_0000_0000 {
                0x1_0000_0000
            } else {
                cap_add(l, 1)
            }
        },
        HirExpr::Class(_) => 2,
        HirExpr::UnicodeCpClass(_) => 2,
        HirExpr::Concat(es) => {
            if es.len() == 0 {
                1
            } else {
                seq_size_capped(es)
            }
        },
        HirExpr::Alt(es) => {
            if es.len() == 0 {
                1
            } else if es.len() == 1 {
                seq_size_capped(es)
            } else {
                let acc = seq_size_capped(es);
                proof {
                    lemma_cap_add(2, t_size_seq(es@));
                }
                cap_add(2, acc)
            }
        },
        HirExpr::Repeat(r) => {
            let s = size_capped(&r.expr);
            repeat_size_capped(s, r.min, r.max, r.greedy, Ghost(t_size(r.expr)))
        },
        HirExpr::Capture(c) => {
            let s = size_capped(&c.expr);
            proof {
                lemma_cap_add(3, t_size(c.expr));
            }
            cap_add(3, s)
        },
        HirExpr::Anchor(_) => 1,
        HirExpr::Lookaround(_) => 1,
        HirExpr::Backref(_) => 1,
    }
}

/// Each expression of a sequence that fits fits.
proof fn lemma_fits_elem(es: Seq<HirExpr>, k: int)
    requires
        0 <= k < es.len(),
        t_fits_seq(es),
    ensures
        t_fits(es[k]),
    decreases es.len(),
{
    if k < es.len() - 1 {
        lemma_fits_elem(es.drop_last(), k);
    }
}

/// Whether `t_fits_seq` holds of a sequence.
fn seq_fits(es: &Vec<HirExpr>) -> (b: bool)
    ensures
        b == t_fits_seq(es@),
    decreases es,
{
    let mut i: usize = 0;
    while i < es.len()
        invariant
            i <= es@.len(),
            t_fits_seq(es@.take(i as int)),
        decreases es@.len() - i,
    {
        proof {
            assert(decreases_to!(es => es@));
            assert(decreases_to!(es@ => es@[i as int]));
        }
        let ok = fits(&es[i]);
        proof {
            let t = es@.take(i + 1);
            assert(t.drop_last() =~= es@.take(i as int));
            assert(t.last() == es@[i as int]);
        }
        if !ok {
            proof {
                if t_fits_seq(es@) {
                    lemma_fits_elem(es@, i as int);
                }
            }
            return false;
        }
        i = i + 1;
    }
    proof {
        assert(es@.take(es@.len() as int) =~= es@);
    }
    true
}

/// Whether `t_fits` holds of `e`.
fn fits(e: &HirExpr) -> (b: bool)
    ensures
        b == t_fits(*e),
    decreases e,
{
    match e {
        HirExpr::Concat(es) => seq_fits(es),
        HirExpr::Alt(es) => seq_fits(es),
        HirExpr::Repeat(r) => fits(&r.expr),
        HirExpr::Capture(c) => fits(&c.expr),
        HirExpr::Lookaround(la) => size_capped(&la.expr) < 0x1_0000_0000 && fits(&la.expr),
        _ => true,
    }
}

/// Whether Thompson's construction can number the states of the pattern in
/// 32 bits, which `compile` asks of its argument.
pub fn thompson_fits(hir: &Hir) -> (b: bool)
    ensures
        b == (t_size(hir.expr) <= u32::MAX && t_fits(hir.expr)),
{
    size_capped(&hir.expr) < 0x1_0000_0000 && fits(&hir.expr)
}

/// Compiles a pattern to an NFA with Thompson's construction.
pub fn compile(hir: &Hir) -> (r: Result<Nfa>)
    requires
        t_size(hir.expr) <= u32::MAX,
        t_fits(hir.expr),
    ensures
        r matches Ok(nfa) && thompson_result(nfa, hir.expr, hir.props),
{
    let mut builder = NfaBuilder::new();
    builder.build(hir)
}

} // verus!
