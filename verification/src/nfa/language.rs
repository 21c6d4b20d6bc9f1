//! What an expression matches, and how runs of an automaton survive the
//! addition of transitions.
//!
//! Anchors and lookarounds match the empty string where their condition
//! holds. Backreferences and code point classes match nothing here: the
//! runs of an automaton (see `moves`) do not model them.
use crate::hir::{HirAnchor, HirExpr, HirLookaroundKind, HirRepeat};
use crate::nfa::glushkov::class_bytes;
use crate::nfa::state::{Nfa, NfaInstruction, NfaState};
use crate::nfa::tagged::interpreter::nfa_interpreter::{
    byte_to, check_known_to_pass, eps_to, move_link, moves, runs, sound_pass,
};
use crate::nfa::tagged::shared::ThreadWorklist;
use crate::nfa::tagged::interpreter::step_interpreter::word_boundary_at;
use vstd::prelude::*;

verus! {

/// Whether an anchor holds at `pos`.
pub open spec fn anchor_holds(a: HirAnchor, input: Seq<u8>, pos: int) -> bool {
    match a {
        HirAnchor::Start => pos == 0,
        HirAnchor::End => pos == input.len(),
        HirAnchor::StartLine => pos == 0 || input[pos - 1] == 10,
        HirAnchor::EndLine => pos == input.len() || input[pos] == 10,
        HirAnchor::WordBoundary => word_boundary_at(input, pos),
        HirAnchor::NotWordBoundary => !word_boundary_at(input, pos),
    }
}

/// The assertion by which an automaton tests an anchor.
pub open spec fn anchor_instruction(a: HirAnchor) -> NfaInstruction {
    match a {
        HirAnchor::Start => NfaInstruction::StartOfText,
        HirAnchor::End => NfaInstruction::EndOfText,
        HirAnchor::StartLine => NfaInstruction::StartOfLine,
        HirAnchor::EndLine => NfaInstruction::EndOfLine,
        HirAnchor::WordBoundary => NfaInstruction::WordBoundary,
        HirAnchor::NotWordBoundary => NfaInstruction::NotWordBoundary,
    }
}

/// The interpreter tests each anchor's assertion as the anchor is defined:
/// its check before a thread is added, and the check that a run through a
/// state holding the assertion must pass, both hold at `pos` exactly where
/// the anchor holds there. So `$` in multi-line mode holds at the end of the
/// input and before a `\n`, and nowhere else.
pub proof fn lemma_anchor_checks_agree(
    a: HirAnchor,
    nfa: Nfa,
    v: int,
    input: Seq<u8>,
    pos: int,
    source: Option<(&ThreadWorklist, usize)>,
    pending: Seq<(usize, i64)>,
)
    requires
        0 <= v < nfa.states@.len(),
        nfa.states@[v].instruction == Some(anchor_instruction(a)),
    ensures
        check_known_to_pass(Some(anchor_instruction(a)), input, pos, source, pending) == anchor_holds(a, input, pos),
        sound_pass(nfa, input, pos, v) == anchor_holds(a, input, pos),
{
}

/// Whether `cuts` splits `input[i..j]` into `n` pieces: it starts at `i`,
/// ends at `j` and has `n + 1` entries.
pub open spec fn cuts_span(cuts: Seq<int>, n: int, i: int, j: int) -> bool {
    cuts.len() == n + 1 && cuts[0] == i && cuts[n] == j
}

/// Every position (a name for positions in quantifiers).
pub open spec fn pos_at(k: int) -> bool {
    true
}

/// Whether `e` matches the bytes `input[i..j]`.
pub open spec fn hir_matches(e: HirExpr, input: Seq<u8>, i: int, j: int) -> bool
    decreases e,
{
    match e {
        HirExpr::Empty => i == j,
        HirExpr::Literal(b) => 0 <= i && j == i + b@.len() && j <= input.len() && input.subrange(
            i,
            j,
        ) == b@,
        HirExpr::Class(c) => 0 <= i < input.len() && j == i + 1 && class_bytes(c).contains(
            input[i],
        ),
        HirExpr::UnicodeCpClass(_) => false,
        HirExpr::Concat(es) => exists|cuts: Seq<int>|
            #[trigger] cuts_span(cuts, es@.len() as int, i, j) && forall|t: int|
                0 <= t < es@.len() ==> hir_matches(es@[t], input, #[trigger] cuts[t], cuts[t + 1]),
        HirExpr::Alt(es) => exists|k: int|
            0 <= k < es@.len() && hir_matches(#[trigger] es@[k], input, i, j),
        HirExpr::Repeat(r) => exists|n: nat, cuts: Seq<int>|
            r.min <= n && (r.max matches Some(m) ==> n <= m) && #[trigger] cuts_span(
                cuts,
                n as int,
                i,
                j,
            ) && forall|t: int| 0 <= t < n ==> hir_matches(r.expr, input, #[trigger] cuts[t], cuts[t + 1]),
        HirExpr::Capture(c) => hir_matches(c.expr, input, i, j),
        HirExpr::Anchor(a) => i == j && anchor_holds(a, input, i),
        HirExpr::Lookaround(la) => i == j && match la.kind {
            HirLookaroundKind::PositiveLookahead => exists|k: int| #[trigger] pos_at(k) && hir_matches(la.expr, input, i, k),
            HirLookaroundKind::NegativeLookahead => !exists|k: int| #[trigger] pos_at(k) && hir_matches(la.expr, input, i, k),
            HirLookaroundKind::PositiveLookbehind => exists|k: int| #[trigger] pos_at(k) && hir_matches(la.expr, input, k, i),
            HirLookaroundKind::NegativeLookbehind => !exists|k: int| #[trigger] pos_at(k) && hir_matches(la.expr, input, k, i),
        },
        HirExpr::Backref(_) => false,
    }
}

/// Whether the expressions of `es`, one after another, match `input[i..j]`.
pub open spec fn seq_matches(es: Seq<HirExpr>, input: Seq<u8>, i: int, j: int) -> bool {
    exists|cuts: Seq<int>|
        #[trigger] cuts_span(cuts, es.len() as int, i, j) && forall|t: int|
            0 <= t < es.len() ==> hir_matches(es[t], input, #[trigger] cuts[t], cuts[t + 1])
}

/// Whether `n` matches of `e`, one after another, match `input[i..j]`.
pub open spec fn iter_matches(e: HirExpr, n: nat, input: Seq<u8>, i: int, j: int) -> bool {
    exists|cuts: Seq<int>|
        #[trigger] cuts_span(cuts, n as int, i, j) && forall|t: int|
            0 <= t < n ==> hir_matches(e, input, #[trigger] cuts[t], cuts[t + 1])
}

/// A concatenation matches only where its parts match one after another.
pub proof fn lemma_concat_matches(es: Vec<HirExpr>, input: Seq<u8>, i: int, j: int)
    requires
        hir_matches(HirExpr::Concat(es), input, i, j),
    ensures
        seq_matches(es@, input, i, j),
{
    let cuts = choose|cuts: Seq<int>|
        #[trigger] cuts_span(cuts, es@.len() as int, i, j) && forall|t: int|
            0 <= t < es@.len() ==> hir_matches(es@[t], input, #[trigger] cuts[t], cuts[t + 1]);
    assert(cuts_span(cuts, es@.len() as int, i, j));
    assert forall|t: int| 0 <= t < es@.len() implies hir_matches(es@[t], input, #[trigger] cuts[t], cuts[t + 1]) by {
    }
}

/// A repetition matches only where an allowed number of matches of its body do.
pub proof fn lemma_repeat_count(r: Box<HirRepeat>, input: Seq<u8>, i: int, j: int)
    requires
        hir_matches(HirExpr::Repeat(r), input, i, j),
    ensures
        exists|n: nat|
            r.min <= n && (r.max matches Some(m) ==> n <= m) && #[trigger] iter_matches(
                r.expr,
                n,
                input,
                i,
                j,
            ),
{
    let (n, cuts) = choose|n: nat, cuts: Seq<int>|
        r.min <= n && (r.max matches Some(m) ==> n <= m) && #[trigger] cuts_span(cuts, n as int, i, j)
            && forall|t: int| 0 <= t < n ==> hir_matches(r.expr, input, #[trigger] cuts[t], cuts[t + 1]);
    assert(cuts_span(cuts, n as int, i, j));
    assert(iter_matches(r.expr, n, input, i, j));
}

/// No parts match only the empty stretch.
pub proof fn lemma_seq_empty(es: Seq<HirExpr>, input: Seq<u8>, i: int, j: int)
    requires
        es.len() == 0,
        seq_matches(es, input, i, j),
    ensures
        i == j,
{
    let cuts = choose|cuts: Seq<int>|
        #[trigger] cuts_span(cuts, es.len() as int, i, j) && forall|t: int|
            0 <= t < es.len() ==> hir_matches(es[t], input, #[trigger] cuts[t], cuts[t + 1]);
}

/// A match of parts splits into a match of all but the last and a match of the last.
pub proof fn lemma_seq_last(es: Seq<HirExpr>, input: Seq<u8>, i: int, j: int)
    requires
        es.len() > 0,
        seq_matches(es, input, i, j),
    ensures
        exists|m: int|
            seq_matches(es.drop_last(), input, i, m) && #[trigger] hir_matches(es.last(), input, m, j),
{
    let n = es.len() as int;
    let cuts = choose|cuts: Seq<int>|
        #[trigger] cuts_span(cuts, n, i, j) && forall|t: int|
            0 <= t < n ==> hir_matches(es[t], input, #[trigger] cuts[t], cuts[t + 1]);
    let c2 = cuts.take(n);
    assert(cuts_span(c2, es.drop_last().len() as int, i, cuts[n - 1]));
    assert forall|t: int| 0 <= t < n - 1 implies hir_matches(
        es.drop_last()[t],
        input,
        #[trigger] c2[t],
        c2[t + 1],
    ) by {
        assert(hir_matches(es[t], input, cuts[t], cuts[t + 1]));
    }
    assert(seq_matches(es.drop_last(), input, i, cuts[n - 1]));
    assert(hir_matches(es[n - 1], input, cuts[n - 1], cuts[n]));
    assert(hir_matches(es.last(), input, cuts[n - 1], j));
}

/// No matches match only the empty stretch.
pub proof fn lemma_iter_zero(e: HirExpr, input: Seq<u8>, i: int, j: int)
    requires
        iter_matches(e, 0, input, i, j),
    ensures
        i == j,
{
    let cuts = choose|cuts: Seq<int>|
        #[trigger] cuts_span(cuts, 0, i, j) && forall|t: int|
            0 <= t < 0 ==> hir_matches(e, input, #[trigger] cuts[t], cuts[t + 1]);
}

/// `n` matches split into `n - 1` matches and one more.
pub proof fn lemma_iter_last(e: HirExpr, n: nat, input: Seq<u8>, i: int, j: int)
    requires
        n > 0,
        iter_matches(e, n, input, i, j),
    ensures
        exists|m: int|
            iter_matches(e, (n - 1) as nat, input, i, m) && #[trigger] hir_matches(e, input, m, j),
{
    let cuts = choose|cuts: Seq<int>|
        #[trigger] cuts_span(cuts, n as int, i, j) && forall|t: int|
            0 <= t < n ==> hir_matches(e, input, #[trigger] cuts[t], cuts[t + 1]);
    let c2 = cuts.take(n as int);
    assert(cuts_span(c2, (n - 1) as nat as int, i, cuts[n - 1]));
    assert forall|t: int| 0 <= t < n - 1 implies hir_matches(e, input, #[trigger] c2[t], c2[t + 1]) by {
        assert(hir_matches(e, input, cuts[t], cuts[t + 1]));
    }
    assert(iter_matches(e, (n - 1) as nat, input, i, cuts[n - 1]));
    assert(hir_matches(e, input, cuts[n - 1], cuts[n as int]));
}

/// `n` matches split into `k` matches and `n - k` more.
pub proof fn lemma_iter_split(e: HirExpr, n: nat, k: nat, input: Seq<u8>, i: int, j: int)
    requires
        k <= n,
        iter_matches(e, n, input, i, j),
    ensures
        exists|m: int|
            #[trigger] iter_matches(e, k, input, i, m) && iter_matches(e, (n - k) as nat, input, m, j),
{
    let cuts = choose|cuts: Seq<int>|
        #[trigger] cuts_span(cuts, n as int, i, j) && forall|t: int|
            0 <= t < n ==> hir_matches(e, input, #[trigger] cuts[t], cuts[t + 1]);
    let m = cuts[k as int];
    let c1 = cuts.take(k as int + 1);
    let c2 = cuts.skip(k as int);
    assert(cuts_span(c1, k as int, i, m));
    assert forall|t: int| 0 <= t < k implies hir_matches(e, input, #[trigger] c1[t], c1[t + 1]) by {
        assert(hir_matches(e, input, cuts[t], cuts[t + 1]));
    }
    assert(cuts_span(c2, (n - k) as nat as int, m, j));
    assert forall|t: int| 0 <= t < n - k implies hir_matches(e, input, #[trigger] c2[t], c2[t + 1]) by {
        assert(hir_matches(e, input, cuts[t + k], cuts[t + k + 1]));
        assert(c2[t] == cuts[t + k]);
        assert(c2[t + 1] == cuts[t + k + 1]);
    }
    assert(iter_matches(e, k, input, i, m));
    assert(iter_matches(e, (n - k) as nat, input, m, j));
}

/// One match is a match.
pub proof fn lemma_iter_one(e: HirExpr, input: Seq<u8>, i: int, j: int)
    requires
        iter_matches(e, 1, input, i, j),
    ensures
        hir_matches(e, input, i, j),
{
    lemma_iter_last(e, 1, input, i, j);
    let m = choose|m: int| iter_matches(e, 0, input, i, m) && #[trigger] hir_matches(e, input, m, j);
    lemma_iter_zero(e, input, i, m);
}

/// No matches match the empty stretch.
pub proof fn lemma_iter_zero_intro(e: HirExpr, input: Seq<u8>, i: int)
    ensures
        iter_matches(e, 0, input, i, i),
{
    let cuts = seq![i];
    assert(cuts_span(cuts, 0, i, i));
}

/// A match is one match.
pub proof fn lemma_iter_one_intro(e: HirExpr, input: Seq<u8>, i: int, j: int)
    requires
        hir_matches(e, input, i, j),
    ensures
        iter_matches(e, 1, input, i, j),
{
    let cuts = seq![i, j];
    assert(cuts_span(cuts, 1, i, j));
    assert forall|t: int| 0 <= t < 1 implies hir_matches(e, input, #[trigger] cuts[t], cuts[t + 1]) by {
        assert(t == 0);
    }
}

/// Whether `b` has every move of `a`: its epsilon and byte transitions, and
/// its backreference if it has one.
pub open spec fn ext_state(a: NfaState, b: NfaState) -> bool {
    &&& forall|t: int| eps_to(a, t) ==> eps_to(b, t)
    &&& forall|x: u8, t: int| byte_to(a, x, t) ==> byte_to(b, x, t)
    &&& (a.instruction matches Some(NfaInstruction::Backref(_)) ==> b.instruction matches Some(
        NfaInstruction::Backref(_),
    ))
}

/// Whether the states `b` extend the states `a`: no fewer states, and each
/// state of `a` with every move it had.
pub open spec fn ext(a: Seq<NfaState>, b: Seq<NfaState>) -> bool {
    &&& a.len() <= b.len()
    &&& forall|s: int| 0 <= s < a.len() ==> ext_state(a[s], #[trigger] b[s])
}

pub proof fn lemma_ext_refl(a: Seq<NfaState>)
    ensures
        ext(a, a),
{
}

pub proof fn lemma_ext_trans(a: Seq<NfaState>, b: Seq<NfaState>, c: Seq<NfaState>)
    requires
        ext(a, b),
        ext(b, c),
    ensures
        ext(a, c),
{
    assert forall|s: int| 0 <= s < a.len() implies ext_state(a[s], #[trigger] c[s]) by {
        assert(ext_state(a[s], b[s]));
        assert(ext_state(b[s], c[s]));
    }
}

/// Keeping a prefix extends it.
pub proof fn lemma_ext_prefix(a: Seq<NfaState>, b: Seq<NfaState>)
    requires
        a.len() <= b.len(),
        b.subrange(0, a.len() as int) == a,
    ensures
        ext(a, b),
{
    assert forall|s: int| 0 <= s < a.len() implies ext_state(a[s], #[trigger] b[s]) by {
        assert(b[s] == b.subrange(0, a.len() as int)[s]);
    }
}

/// Editing one state so that it keeps its moves extends the states.
pub proof fn lemma_ext_edit(a: Seq<NfaState>, b: Seq<NfaState>, i: int)
    requires
        a.len() == b.len(),
        forall|j: int| 0 <= j < a.len() && j != i ==> #[trigger] b[j] == a[j],
        0 <= i < a.len() ==> ext_state(a[i], b[i]),
    ensures
        ext(a, b),
{
    assert forall|s: int| 0 <= s < a.len() implies ext_state(a[s], #[trigger] b[s]) by {
        if s != i {
            assert(b[s] == a[s]);
        }
    }
}

/// A state whose transition lists only grow keeps its moves.
pub proof fn lemma_ext_state_grow(a: NfaState, b: NfaState)
    requires
        a.epsilon@.len() <= b.epsilon@.len(),
        forall|k: int| 0 <= k < a.epsilon@.len() ==> b.epsilon@[k] == a.epsilon@[k],
        a.transitions@.len() <= b.transitions@.len(),
        forall|k: int| 0 <= k < a.transitions@.len() ==> b.transitions@[k] == a.transitions@[k],
        !(a.instruction matches Some(NfaInstruction::Backref(_))) || b.instruction == a.instruction,
    ensures
        ext_state(a, b),
{
    assert forall|t: int| eps_to(a, t) implies eps_to(b, t) by {
        let k = choose|k: int| 0 <= k < a.epsilon@.len() && a.epsilon@[k] == t;
        assert(b.epsilon@[k] == t);
    }
    assert forall|x: u8, t: int| byte_to(a, x, t) implies byte_to(b, x, t) by {
        let k = choose|k: int|
            0 <= k < a.transitions@.len() && a.transitions@[k].1 == t && a.transitions@[k].0.start
                <= x <= a.transitions@[k].0.end;
        assert(b.transitions@[k] == a.transitions@[k]);
    }
}

/// Every run of an automaton is a run of any automaton whose states extend its states.
pub proof fn lemma_ext_runs(n1: Nfa, n2: Nfa)
    requires
        ext(n1.states@, n2.states@),
    ensures
        forall|input: Seq<u8>, a: (int, int), b: (int, int)|
            #[trigger] runs(n1, input, a, b) ==> runs(n2, input, a, b),
{
    assert forall|input: Seq<u8>, a: (int, int), b: (int, int)|
        #[trigger] runs(n1, input, a, b) implies runs(n2, input, a, b) by {
        let p = choose|p: Seq<(int, int)>|
            #![trigger p[0], p.last()]
            p.len() >= 1 && p[0] == a && p.last() == b && forall|i: int|
                0 <= i < p.len() - 1 ==> #[trigger] move_link(n1, input, p, i);
        assert forall|i: int| 0 <= i < p.len() - 1 implies #[trigger] move_link(n2, input, p, i) by {
            assert(move_link(n1, input, p, i));
            let s = p[i].0;
            assert(ext_state(n1.states@[s], n2.states@[s]));
        }
        assert(p[0] == a && p.last() == b);
    }
}

} // verus!
