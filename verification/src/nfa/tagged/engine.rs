//! A tagged-NFA engine: pattern steps when the automaton flattens to them,
//! simulation of the automaton otherwise and for capture groups.
use crate::nfa::state::{Nfa, NfaInstruction};
use crate::nfa::tagged::interpreter::nfa_interpreter::{
    accepts, captures_recorded, checked_accepts, first_plain_match, interp_ready, longest_end,
    match_captures, match_known_from, matches_listed, no_backrefs, plain_checks, simple_automaton,
    stride_of, TaggedNfaInterpreter,
};
use crate::nfa::tagged::interpreter::step_interpreter::{
    first_match, lookahead_runnable, lookbehind_runnable, match_steps, step_runnable,
    StepInterpreter,
};
use crate::nfa::tagged::liveness::{analyze_liveness, liveness_of, NfaLiveness};
use crate::nfa::tagged::shared::PatternStep;
use crate::nfa::tagged::extraction::{
    all_runnable_v, combine_v, lemma_runnable_view, lemma_svs_index, step_runnable_v, svs, walked,
};
use crate::nfa::tagged::steps::{
    body_ready, fused_all, runs_to_stop, steps_ok, steps_ready, StepExtractor,
};
use vstd::prelude::*;

verus! {

/// An automaton that can be simulated is also one that steps can be read off.
pub proof fn lemma_interp_steps_ready(nfa: Nfa)
    requires
        interp_ready(nfa),
    ensures
        steps_ready(nfa),
{
    assert forall|s: int| 0 <= s < nfa.states@.len() implies #[trigger] body_ready(nfa.states@[s]) by {
        assert(match nfa.states@[s].instruction {
            Some(NfaInstruction::CaptureStart(i)) => i <= nfa.capture_count,
            Some(NfaInstruction::CaptureEnd(i)) => i <= nfa.capture_count,
            Some(NfaInstruction::Backref(i)) => i <= nfa.capture_count,
            Some(NfaInstruction::PositiveLookahead(b)) => interp_ready(*b),
            Some(NfaInstruction::NegativeLookahead(b)) => interp_ready(*b),
            Some(NfaInstruction::PositiveLookbehind(b)) => interp_ready(*b),
            Some(NfaInstruction::NegativeLookbehind(b)) => interp_ready(*b),
            _ => true,
        });
    }
}

/// Whether every step of a lookahead body is one the step interpreter runs.
fn lookahead_body_runnable(body: &Vec<PatternStep>) -> (b: bool)
    ensures
        b == forall|j: int| 0 <= j < body@.len() ==> lookahead_runnable(#[trigger] body@[j]),
{
    let mut j: usize = 0;
    while j < body.len()
        invariant
            j <= body@.len(),
            forall|k: int| 0 <= k < j ==> lookahead_runnable(#[trigger] body@[k]),
        decreases body@.len() - j,
    {
        let ok = match &body[j] {
            PatternStep::Byte(_) => true,
            PatternStep::ByteClass(_) => true,
            PatternStep::WordBoundary => true,
            PatternStep::EndOfText => true,
            _ => false,
        };
        if !ok {
            return false;
        }
        j = j + 1;
    }
    true
}

/// Whether every step of a lookbehind body is one the step interpreter runs.
fn lookbehind_body_runnable(body: &Vec<PatternStep>) -> (b: bool)
    ensures
        b == forall|j: int| 0 <= j < body@.len() ==> lookbehind_runnable(#[trigger] body@[j]),
{
    let mut j: usize = 0;
    while j < body.len()
        invariant
            j <= body@.len(),
            forall|k: int| 0 <= k < j ==> lookbehind_runnable(#[trigger] body@[k]),
        decreases body@.len() - j,
    {
        let ok = match &body[j] {
            PatternStep::Byte(_) => true,
            PatternStep::ByteClass(_) => true,
            PatternStep::WordBoundary => true,
            PatternStep::StartOfText => true,
            _ => false,
        };
        if !ok {
            return false;
        }
        j = j + 1;
    }
    true
}

/// Whether the step interpreter runs every step.
fn steps_runnable(steps: &Vec<PatternStep>) -> (b: bool)
    ensures
        b == forall|i: int| 0 <= i < steps@.len() ==> step_runnable(#[trigger] steps@[i]),
{
    let mut i: usize = 0;
    while i < steps.len()
        invariant
            i <= steps@.len(),
            forall|k: int| 0 <= k < i ==> step_runnable(#[trigger] steps@[k]),
        decreases steps@.len() - i,
    {
        let ok = match &steps[i] {
            PatternStep::Byte(_) => true,
            PatternStep::ByteClass(_) => true,
            PatternStep::GreedyPlus(_) => true,
            PatternStep::GreedyStar(_) => true,
            PatternStep::GreedyPlusLookahead(_, la, _) => lookahead_body_runnable(la),
            PatternStep::GreedyStarLookahead(_, la, _) => lookahead_body_runnable(la),
            PatternStep::PositiveLookahead(la) => lookahead_body_runnable(la),
            PatternStep::NegativeLookahead(la) => lookahead_body_runnable(la),
            PatternStep::PositiveLookbehind(body, _) => lookbehind_body_runnable(body),
            PatternStep::NegativeLookbehind(body, _) => lookbehind_body_runnable(body),
            PatternStep::WordBoundary => true,
            PatternStep::NotWordBoundary => true,
            PatternStep::StartOfText => true,
            PatternStep::EndOfText => true,
            PatternStep::CaptureStart(_) => true,
            PatternStep::CaptureEnd(_) => true,
            _ => false,
        };
        if !ok {
            return false;
        }
        i = i + 1;
    }
    true
}

/// Owns an automaton, the steps read off it (when it flattens to steps) and
/// its capture liveness; matches with the steps when it has them and by
/// simulation otherwise.
pub struct TaggedNfaEngine {
    /// Steps for matching without simulation, when the automaton flattens to them.
    steps: Option<Vec<PatternStep>>,
    /// The automaton, for simulation and capture groups.
    nfa: Nfa,
    /// Capture liveness of the automaton.
    liveness: NfaLiveness,
}

impl TaggedNfaEngine {
    /// The automaton.
    pub closed spec fn automaton(&self) -> Nfa {
        self.nfa
    }

    /// The steps matching goes by, when the automaton flattens to steps.
    pub closed spec fn steps_of(&self) -> Option<Seq<PatternStep>> {
        match self.steps {
            Some(s) => Some(s@),
            None => None,
        }
    }

    /// Whether the pattern matches somewhere in the input: by its steps when
    /// it has them, and by a checked run of the automaton otherwise.
    pub open spec fn has_match(&self, input: Seq<u8>) -> bool {
        match self.steps_of() {
            Some(s) => exists|t: int| 0 <= t <= input.len() && #[trigger] match_steps(s, input, t) is Some,
            None => exists|s: int, e: int|
                0 <= s <= e <= input.len() && #[trigger] checked_accepts(self.automaton(), input, s, e),
        }
    }

    /// Whether the engine is as `new` makes it.
    pub closed spec fn wf(&self) -> bool {
        &&& interp_ready(self.nfa)
        &&& liveness_of(self.nfa, self.liveness)
        &&& (self.steps matches Some(s) ==> {
            &&& s@.len() > 0
            &&& steps_ok(s@)
            &&& fused_all(s@)
            &&& forall|i: int| 0 <= i < s@.len() ==> step_runnable(#[trigger] s@[i])
            &&& forall|input: Seq<u8>, p: int|
                0 <= p <= input.len() && #[trigger] match_steps(s@, input, p) is Some
                    ==> runs_to_stop(self.nfa, input, p, match_steps(s@, input, p)->0)
        })
    }

    /// Creates an engine for the automaton. It matches by pattern steps when
    /// the automaton flattens to steps that the step interpreter runs, and
    /// by simulating the automaton otherwise.
    pub fn new(nfa: Nfa) -> (e: Self)
        requires
            interp_ready(nfa),
        ensures
            e.wf(),
            e.automaton() == nfa,
            e.steps_of() matches Some(s) ==> svs(s) == combine_v(walked(nfa)),
            e.steps_of() is Some <==> walked(nfa).len() > 0 && all_runnable_v(
                combine_v(walked(nfa)),
            ),
    {
        proof {
            lemma_interp_steps_ready(nfa);
        }
        let steps = match StepExtractor::new(&nfa).extract() {
            Some(s) => {
                proof {
                    lemma_svs_index(s@);
                    assert forall|i: int| 0 <= i < s@.len() implies step_runnable(s@[i])
                        == step_runnable_v(svs(s@)[i]) by {
                        lemma_runnable_view(s@[i]);
                    }
                }
                if steps_runnable(&s) {
                    Some(s)
                } else {
                    proof {
                        let i = choose|i: int| 0 <= i < s@.len() && !step_runnable(#[trigger] s@[i]);
                        assert(!step_runnable_v(svs(s@)[i]));
                    }
                    None
                }
            },
            None => None,
        };
        let liveness = analyze_liveness(&nfa);
        TaggedNfaEngine { steps, nfa, liveness }
    }

    /// Whether the pattern matches somewhere in the input.
    pub fn is_match(&self, input: &[u8]) -> (b: bool)
        requires
            self.wf(),
            input@.len() <= isize::MAX,
        ensures
            self.steps_of() matches Some(s) ==> (b <==> exists|t: int|
                0 <= t <= input@.len() && #[trigger] match_steps(s, input@, t) is Some),
            b ==> exists|s: int, e: int|
                #![trigger accepts(self.automaton(), input@, s, e)]
                #![trigger runs_to_stop(self.automaton(), input@, s, e)]
                0 <= s <= e <= input@.len() && (accepts(self.automaton(), input@, s, e)
                    || runs_to_stop(self.automaton(), input@, s, e)),
            self.steps_of() is None && (exists|s: int|
                0 <= s <= input@.len() && #[trigger] match_known_from(self.automaton(), input@, s))
                ==> b,
            self.steps_of() is Some || plain_checks(self.automaton()) ==> (b == self.has_match(input@)),
            self.steps_of() is None && no_backrefs(self.automaton()) && b ==> exists|s: int, e: int|
                0 <= s <= e <= input@.len() && #[trigger] checked_accepts(self.automaton(), input@, s, e),
    {
        let r = self.find(input);
        proof {
            if let Some(s) = self.steps_of() {
                if let Some((a, _)) = r {
                    assert(match_steps(s, input@, a as int) is Some);
                }
            }
            if let Some((a, e)) = r {
                if self.steps_of() is Some {
                    assert(runs_to_stop(self.automaton(), input@, a as int, e as int));
                } else {
                    assert(accepts(self.automaton(), input@, a as int, e as int));
                }
            }
        }
        proof {
            if let Some(s) = self.steps_of() {
                if r is None {
                    assert(!self.has_match(input@));
                }
            }
        }
        r.is_some()
    }

    /// Finds the first match: its start and end.
    pub fn find(&self, input: &[u8]) -> (r: Option<(usize, usize)>)
        requires
            self.wf(),
            input@.len() <= isize::MAX,
        ensures
            self.steps_of() matches Some(s) ==> first_match(s, input@, 0, r),
            self.steps_of() is Some ==> (r matches Some((a, b)) ==> runs_to_stop(
                self.automaton(),
                input@,
                a as int,
                b as int,
            )),
            self.steps_of() is None ==> (r matches Some((a, b)) ==> accepts(
                self.automaton(),
                input@,
                a as int,
                b as int,
            )),
            r matches Some((a, b)) ==> a <= b <= input@.len(),
            self.steps_of() is None ==> forall|s: int|
                0 <= s <= input@.len() && #[trigger] match_known_from(self.automaton(), input@, s)
                    ==> (r matches Some((a, _)) && a <= s),
            self.steps_of() is None && simple_automaton(self.automaton()) ==> first_plain_match(
                self.automaton(),
                input@,
                0,
                r,
            ),
            self.steps_of() is Some || plain_checks(self.automaton()) ==> (r is Some == self.has_match(
                input@,
            )),
            self.steps_of() is None && no_backrefs(self.automaton()) ==> (r matches Some((a, b))
                ==> checked_accepts(self.automaton(), input@, a as int, b as int)),
    {
        if let Some(steps) = &self.steps {
            let r = StepInterpreter::find(steps.as_slice(), input);
            proof {
                if let Some((a, _)) = r {
                    assert(match_steps(self.steps_of()->0, input@, a as int) is Some);
                }
            }
            return r;
        }
        let interp = TaggedNfaInterpreter::new(&self.nfa, &self.liveness);
        interp.find(input)
    }

    /// Finds the first match that starts at or after `start`.
    pub fn find_at(&self, input: &[u8], start: usize) -> (r: Option<(usize, usize)>)
        requires
            self.wf(),
            input@.len() <= isize::MAX,
        ensures
            self.steps_of() matches Some(s) ==> first_match(s, input@, start as int, r),
            self.steps_of() is Some ==> (r matches Some((a, b)) ==> runs_to_stop(
                self.automaton(),
                input@,
                a as int,
                b as int,
            )),
            self.steps_of() is None ==> (r matches Some((a, b)) ==> accepts(
                self.automaton(),
                input@,
                a as int,
                b as int,
            )),
            r matches Some((a, b)) ==> start <= a <= b <= input@.len(),
            self.steps_of() is None ==> forall|s: int|
                start <= s <= input@.len() && #[trigger] match_known_from(self.automaton(), input@, s)
                    ==> (r matches Some((a, _)) && a <= s),
            self.steps_of() is None && simple_automaton(self.automaton()) ==> first_plain_match(
                self.automaton(),
                input@,
                start as int,
                r,
            ),
            self.steps_of() is None && no_backrefs(self.automaton()) ==> (r matches Some((a, b))
                ==> checked_accepts(self.automaton(), input@, a as int, b as int)),
    {
        if let Some(steps) = &self.steps {
            return StepInterpreter::find_at(steps.as_slice(), input, start);
        }
        if start > input.len() {
            return None;
        }
        let interp = TaggedNfaInterpreter::new(&self.nfa, &self.liveness);
        let mut s = start;
        loop
            invariant
                start <= s <= input@.len(),
                input@.len() <= isize::MAX,
                interp_ready(interp.automaton()),
                interp.stride_ok(),
                interp.automaton() == self.nfa,
                self.steps is None,
                forall|t: int| start <= t < s ==> !#[trigger] match_known_from(self.nfa, input@, t),
                simple_automaton(self.nfa) ==> forall|t: int|
                    start <= t < s ==> #[trigger] longest_end(self.nfa, input@, t) < 0,
            decreases input@.len() - s,
        {
            if let Some(caps) = interp.captures_at(input, s) {
                if let Some((_, end)) = caps[0] {
                    return Some((s, end));
                }
            }
            if s == input.len() {
                return None;
            }
            s = s + 1;
        }
    }

    /// The capture groups of the first match: group 0 is the whole match.
    pub fn captures(&self, input: &[u8]) -> (r: Option<Vec<Option<(usize, usize)>>>)
        requires
            self.wf(),
            input@.len() <= isize::MAX,
        ensures
            r matches Some(c) ==> exists|s: int|
                0 <= s <= input@.len() && #[trigger] match_captures(
                    c@,
                    self.automaton().capture_count + 1,
                    s,
                    input@.len() as int,
                ) && (c@[0] matches Some((_, e)) && accepts(
                    self.automaton(),
                    input@,
                    s,
                    e as int,
                )),
            forall|s: int|
                0 <= s <= input@.len() && #[trigger] match_known_from(self.automaton(), input@, s)
                    ==> (r matches Some(c) && c@[0] matches Some((a, _)) && a <= s),
            simple_automaton(self.automaton()) ==> match r {
                Some(c) => c@[0] matches Some(m) && first_plain_match(self.automaton(), input@, 0, Some(m)),
                None => first_plain_match(self.automaton(), input@, 0, None),
            },
            no_backrefs(self.automaton()) ==> (r matches Some(c) ==> c@[0] matches Some((s, e))
                && checked_accepts(self.automaton(), input@, s as int, e as int)),
            no_backrefs(self.automaton()) && self.automaton().capture_count < 64 && matches_listed(
                self.automaton(),
            ) ==> (r matches Some(c) ==> c@[0] matches Some((s, _)) && captures_recorded(
                self.automaton(),
                input@,
                s as int,
                c@,
            )),
    {
        let interp = TaggedNfaInterpreter::new(&self.nfa, &self.liveness);
        interp.captures(input)
    }
}

} // verus!
