//! Matching by pattern steps.
//!
//! A pattern that the step extractor could flatten is matched here by running
//! its steps one after another at each candidate start position.
use crate::nfa::state::ByteClass;
use crate::nfa::tagged::shared::{is_word_char, word_byte, PatternStep};
use vstd::prelude::*;

verus! {

// ---------------------------------------------------------------------------
// What the steps mean
// ---------------------------------------------------------------------------

/// Whether `pos` lies between a word byte and a non-word byte (either side may
/// be the edge of the input).
pub open spec fn word_boundary_at(input: Seq<u8>, pos: int) -> bool {
    let prev = pos > 0 && word_byte(input[pos - 1]);
    let curr = pos < input.len() && word_byte(input[pos]);
    prev != curr
}

/// Where a lookahead body, run from its step `i` at position `p`, ends; `None`
/// when it fails. A body holds bytes, byte classes, `\b` and end of text only:
/// any other step fails.
pub open spec fn lookahead_from(steps: Seq<PatternStep>, i: int, input: Seq<u8>, p: int) -> Option<
    int,
>
    decreases steps.len() - i,
{
    if i >= steps.len() {
        Some(p)
    } else {
        let next = match steps[i] {
            PatternStep::Byte(b) => if p < input.len() && input[p] == b {
                Some(p + 1)
            } else {
                None
            },
            PatternStep::ByteClass(c) => if p < input.len() && c@.contains(input[p]) {
                Some(p + 1)
            } else {
                None
            },
            PatternStep::WordBoundary => if word_boundary_at(input, p) {
                Some(p)
            } else {
                None
            },
            PatternStep::EndOfText => if p == input.len() {
                Some(p)
            } else {
                None
            },
            _ => None,
        };
        match next {
            Some(q) => lookahead_from(steps, i + 1, input, q),
            None => None,
        }
    }
}

/// Whether a lookahead body matches at `pos`.
pub open spec fn lookahead_holds(steps: Seq<PatternStep>, input: Seq<u8>, pos: int) -> bool {
    lookahead_from(steps, 0, input, pos) is Some
}

/// Whether a lookbehind body, run from its step `i` at position `p`, ends
/// exactly at `pos` without reading at or past `pos`. A body holds bytes, byte
/// classes, `\b` and start of text only.
pub open spec fn lookbehind_from(
    steps: Seq<PatternStep>,
    i: int,
    input: Seq<u8>,
    pos: int,
    p: int,
) -> bool
    decreases steps.len() - i,
{
    if i >= steps.len() {
        p == pos
    } else {
        let next = match steps[i] {
            PatternStep::Byte(b) => if p < pos && input[p] == b {
                Some(p + 1)
            } else {
                None
            },
            PatternStep::ByteClass(c) => if p < pos && c@.contains(input[p]) {
                Some(p + 1)
            } else {
                None
            },
            PatternStep::WordBoundary => if word_boundary_at(input, p) {
                Some(p)
            } else {
                None
            },
            PatternStep::StartOfText => if p == 0 {
                Some(p)
            } else {
                None
            },
            _ => None,
        };
        match next {
            Some(q) => lookbehind_from(steps, i + 1, input, pos, q),
            None => false,
        }
    }
}

/// Whether a lookbehind body of length `len` matches the bytes just before `pos`.
pub open spec fn lookbehind_holds(steps: Seq<PatternStep>, input: Seq<u8>, pos: int, len: int) -> bool {
    pos >= len && lookbehind_from(steps, 0, input, pos, pos - len)
}

/// The end of the longest run of bytes of the class that starts at `p`.
pub open spec fn run_end(c: ByteClass, input: Seq<u8>, p: int) -> int
    decreases input.len() - p,
{
    if 0 <= p < input.len() && c@.contains(input[p]) {
        run_end(c, input, p + 1)
    } else {
        p
    }
}

/// The greatest position in `lo..=q` at which the lookahead body holds (when
/// `positive`) or fails (otherwise).
pub open spec fn back_off(
    la: Seq<PatternStep>,
    positive: bool,
    input: Seq<u8>,
    lo: int,
    q: int,
) -> Option<int>
    decreases q - lo,
{
    if lookahead_holds(la, input, q) == positive {
        Some(q)
    } else if q <= lo {
        None
    } else {
        back_off(la, positive, input, lo, q - 1)
    }
}

/// Where one step, taken at position `p`, leaves the match; `None` when it fails.
pub open spec fn step_at(step: PatternStep, input: Seq<u8>, p: int) -> Option<int> {
    let has = p < input.len();
    match step {
        PatternStep::Byte(b) => if has && input[p] == b {
            Some(p + 1)
        } else {
            None
        },
        PatternStep::ByteClass(c) => if has && c@.contains(input[p]) {
            Some(p + 1)
        } else {
            None
        },
        PatternStep::GreedyPlus(c) => if has && c@.contains(input[p]) {
            Some(run_end(c, input, p + 1))
        } else {
            None
        },
        PatternStep::GreedyStar(c) => Some(run_end(c, input, p)),
        PatternStep::GreedyPlusLookahead(c, la, positive) => if has && c@.contains(input[p]) {
            back_off(la@, positive, input, p + 1, run_end(c, input, p + 1))
        } else {
            None
        },
        PatternStep::GreedyStarLookahead(c, la, positive) => back_off(
            la@,
            positive,
            input,
            p,
            run_end(c, input, p),
        ),
        PatternStep::PositiveLookahead(la) => if lookahead_holds(la@, input, p) {
            Some(p)
        } else {
            None
        },
        PatternStep::NegativeLookahead(la) => if lookahead_holds(la@, input, p) {
            None
        } else {
            Some(p)
        },
        PatternStep::WordBoundary => if word_boundary_at(input, p) {
            Some(p)
        } else {
            None
        },
        PatternStep::NotWordBoundary => if word_boundary_at(input, p) {
            None
        } else {
            Some(p)
        },
        PatternStep::StartOfText => if p == 0 {
            Some(p)
        } else {
            None
        },
        PatternStep::EndOfText => if p == input.len() {
            Some(p)
        } else {
            None
        },
        PatternStep::PositiveLookbehind(body, len) => if lookbehind_holds(
            body@,
            input,
            p,
            len as int,
        ) {
            Some(p)
        } else {
            None
        },
        PatternStep::NegativeLookbehind(body, len) => if lookbehind_holds(
            body@,
            input,
            p,
            len as int,
        ) {
            None
        } else {
            Some(p)
        },
        PatternStep::CaptureStart(_) => Some(p),
        PatternStep::CaptureEnd(_) => Some(p),
        _ => None,
    }
}

/// Where the steps from step `i` on, run at position `p`, end the match.
pub open spec fn match_from(steps: Seq<PatternStep>, i: int, input: Seq<u8>, p: int) -> Option<int>
    decreases steps.len() - i,
{
    if i >= steps.len() {
        Some(p)
    } else {
        match step_at(steps[i], input, p) {
            Some(q) => match_from(steps, i + 1, input, q),
            None => None,
        }
    }
}

/// Where a match of the steps that starts at `start` ends; `None` when there is none.
pub open spec fn match_steps(steps: Seq<PatternStep>, input: Seq<u8>, start: int) -> Option<int> {
    match_from(steps, 0, input, start)
}

/// Whether a lookahead body step is one the interpreter runs (any other fails).
pub open spec fn lookahead_runnable(s: PatternStep) -> bool {
    s is Byte || s is ByteClass || s is WordBoundary || s is EndOfText
}

/// Whether a lookbehind body step is one the interpreter runs (any other fails).
pub open spec fn lookbehind_runnable(s: PatternStep) -> bool {
    s is Byte || s is ByteClass || s is WordBoundary || s is StartOfText
}

proof fn lemma_lookahead_from_matches(steps: Seq<PatternStep>, i: int, input: Seq<u8>, p: int)
    requires
        0 <= i,
        forall|j: int| 0 <= j < steps.len() ==> lookahead_runnable(#[trigger] steps[j]),
    ensures
        lookahead_from(steps, i, input, p) == match_from(steps, i, input, p),
    decreases steps.len() - i,
{
    if i < steps.len() {
        assert(lookahead_runnable(steps[i]));
        match step_at(steps[i], input, p) {
            Some(q) => lemma_lookahead_from_matches(steps, i + 1, input, q),
            None => {},
        }
    }
}

/// A lookahead body of bytes, byte classes, `\b` and end of text holds at
/// `pos` exactly when its steps, run as a pattern of their own, match from
/// `pos`: each step means inside a lookahead what it means outside.
pub proof fn lemma_lookahead_is_match(steps: Seq<PatternStep>, input: Seq<u8>, pos: int)
    requires
        forall|j: int| 0 <= j < steps.len() ==> lookahead_runnable(#[trigger] steps[j]),
    ensures
        lookahead_holds(steps, input, pos) <==> match_steps(steps, input, pos) is Some,
{
    lemma_lookahead_from_matches(steps, 0, input, pos);
}

/// Whether a step reads one byte: a byte or a byte class.
pub open spec fn byte_step(s: PatternStep) -> bool {
    s is Byte || s is ByteClass
}

/// Whether the byte `x` is one that step `s` reads: the byte itself, or a
/// member of the class.
pub open spec fn step_takes(s: PatternStep, x: u8) -> bool {
    match s {
        PatternStep::Byte(b) => x == b,
        PatternStep::ByteClass(c) => c@.contains(x),
        _ => false,
    }
}

proof fn lemma_byte_steps_from(steps: Seq<PatternStep>, i: int, input: Seq<u8>, pos: int)
    requires
        0 <= i <= steps.len(),
        0 <= pos,
        pos + i <= input.len(),
        forall|j: int| 0 <= j < steps.len() ==> byte_step(#[trigger] steps[j]),
    ensures
        lookahead_from(steps, i, input, pos + i) == if pos + steps.len() <= input.len() && forall|k: int|
            i <= k < steps.len() ==> step_takes(#[trigger] steps[k], input[pos + k]) {
            Some(pos + steps.len())
        } else {
            None::<int>
        },
    decreases steps.len() - i,
{
    if i < steps.len() {
        assert(byte_step(steps[i]));
        if pos + i < input.len() && step_takes(steps[i], input[pos + i]) {
            lemma_byte_steps_from(steps, i + 1, input, pos);
            assert(lookahead_from(steps, i, input, pos + i) == lookahead_from(steps, i + 1, input, pos + i + 1));
            if pos + steps.len() <= input.len() && forall|k: int|
                i + 1 <= k < steps.len() ==> step_takes(#[trigger] steps[k], input[pos + k]) {
                assert forall|k: int| i <= k < steps.len() implies step_takes(#[trigger] steps[k], input[pos + k]) by {
                    if k == i {
                    }
                }
            }
        } else {
            assert(lookahead_from(steps, i, input, pos + i) is None);
            if pos + steps.len() <= input.len() {
                assert(!step_takes(steps[i], input[pos + i]));
            }
        }
    }
}

/// A lookahead body of bytes and byte classes holds at `pos` exactly when
/// the bytes from `pos` on are, one by one, the body's bytes or members of
/// its classes; and its steps, run as a pattern, then end the match right
/// after those bytes.
pub proof fn lemma_byte_lookahead(steps: Seq<PatternStep>, input: Seq<u8>, pos: int)
    requires
        0 <= pos <= input.len(),
        forall|j: int| 0 <= j < steps.len() ==> byte_step(#[trigger] steps[j]),
    ensures
        lookahead_holds(steps, input, pos) <==> (pos + steps.len() <= input.len() && forall|k: int|
            0 <= k < steps.len() ==> step_takes(#[trigger] steps[k], input[pos + k])),
        match_steps(steps, input, pos) == if lookahead_holds(steps, input, pos) {
            Some(pos + steps.len())
        } else {
            None::<int>
        },
{
    lemma_byte_steps_from(steps, 0, input, pos);
    assert forall|j: int| 0 <= j < steps.len() implies lookahead_runnable(#[trigger] steps[j]) by {
        assert(byte_step(steps[j]));
    }
    lemma_lookahead_from_matches(steps, 0, input, pos);
}

proof fn lemma_behind_grows(steps: Seq<PatternStep>, i: int, input: Seq<u8>, p: int)
    requires
        0 <= i,
        forall|j: int| 0 <= j < steps.len() ==> lookbehind_runnable(#[trigger] steps[j]),
    ensures
        match_from(steps, i, input, p) matches Some(r) ==> r >= p,
    decreases steps.len() - i,
{
    if i < steps.len() {
        assert(lookbehind_runnable(steps[i]));
        match step_at(steps[i], input, p) {
            Some(q) => lemma_behind_grows(steps, i + 1, input, q),
            None => {},
        }
    }
}

proof fn lemma_lookbehind_from_matches(steps: Seq<PatternStep>, i: int, input: Seq<u8>, pos: int, p: int)
    requires
        0 <= i,
        pos <= input.len(),
        forall|j: int| 0 <= j < steps.len() ==> lookbehind_runnable(#[trigger] steps[j]),
    ensures
        lookbehind_from(steps, i, input, pos, p) <==> match_from(steps, i, input, p) == Some(pos),
    decreases steps.len() - i,
{
    if i < steps.len() {
        assert(lookbehind_runnable(steps[i]));
        match step_at(steps[i], input, p) {
            Some(q) => {
                lemma_lookbehind_from_matches(steps, i + 1, input, pos, q);
                lemma_behind_grows(steps, i + 1, input, q);
            },
            None => {},
        }
    }
}

/// A lookbehind body of `len` bytes, byte classes, `\b` and start of text
/// holds at `pos` exactly when its steps, run as a pattern of their own from
/// `len` bytes before `pos`, match and end at `pos`.
pub proof fn lemma_lookbehind_is_match(steps: Seq<PatternStep>, input: Seq<u8>, pos: int, len: int)
    requires
        pos <= input.len(),
        forall|j: int| 0 <= j < steps.len() ==> lookbehind_runnable(#[trigger] steps[j]),
    ensures
        lookbehind_holds(steps, input, pos, len) <==> (pos >= len && match_steps(steps, input, pos - len) == Some(
            pos,
        )),
{
    lemma_lookbehind_from_matches(steps, 0, input, pos, pos - len);
}

/// Whether a step, and each step of its lookaround body, is one the
/// interpreter runs; any other step, such as an alternation, fails.
pub open spec fn step_runnable(s: PatternStep) -> bool {
    match s {
        PatternStep::Byte(_) => true,
        PatternStep::ByteClass(_) => true,
        PatternStep::GreedyPlus(_) => true,
        PatternStep::GreedyStar(_) => true,
        PatternStep::GreedyPlusLookahead(_, la, _) => forall|j: int|
            0 <= j < la@.len() ==> lookahead_runnable(#[trigger] la@[j]),
        PatternStep::GreedyStarLookahead(_, la, _) => forall|j: int|
            0 <= j < la@.len() ==> lookahead_runnable(#[trigger] la@[j]),
        PatternStep::PositiveLookahead(la) => forall|j: int|
            0 <= j < la@.len() ==> lookahead_runnable(#[trigger] la@[j]),
        PatternStep::NegativeLookahead(la) => forall|j: int|
            0 <= j < la@.len() ==> lookahead_runnable(#[trigger] la@[j]),
        PatternStep::PositiveLookbehind(body, _) => forall|j: int|
            0 <= j < body@.len() ==> lookbehind_runnable(#[trigger] body@[j]),
        PatternStep::NegativeLookbehind(body, _) => forall|j: int|
            0 <= j < body@.len() ==> lookbehind_runnable(#[trigger] body@[j]),
        PatternStep::WordBoundary => true,
        PatternStep::NotWordBoundary => true,
        PatternStep::StartOfText => true,
        PatternStep::EndOfText => true,
        PatternStep::CaptureStart(_) => true,
        PatternStep::CaptureEnd(_) => true,
        _ => false,
    }
}

/// An `Option<usize>` as an `Option<int>`.
pub open spec fn opt_int(r: Option<usize>) -> Option<int> {
    match r {
        Some(v) => Some(v as int),
        None => None,
    }
}

/// `r` is the first match that starts at or after `from`: its start, and
/// where the match from there ends.
pub open spec fn first_match(
    steps: Seq<PatternStep>,
    input: Seq<u8>,
    from: int,
    r: Option<(usize, usize)>,
) -> bool {
    match r {
        Some((s, e)) => {
            &&& from <= s <= input.len()
            &&& match_steps(steps, input, s as int) == Some(e as int)
            &&& forall|t: int| from <= t < s ==> #[trigger] match_steps(steps, input, t) is None
        },
        None => forall|t: int|
            from <= t <= input.len() ==> #[trigger] match_steps(steps, input, t) is None,
    }
}

// ---------------------------------------------------------------------------
// The interpreter
// ---------------------------------------------------------------------------

/// Matcher that runs pattern steps directly, without simulating the NFA.
pub struct StepInterpreter;

impl StepInterpreter {
    /// Finds the first match in the input: its start and end.
    pub fn find(steps: &[PatternStep], input: &[u8]) -> (r: Option<(usize, usize)>)
        ensures
            first_match(steps@, input@, 0, r),
            r matches Some((s, e)) ==> s <= e <= input@.len(),
    {
        Self::find_at(steps, input, 0)
    }

    /// Finds the first match that starts at or after `start_from`.
    pub fn find_at(steps: &[PatternStep], input: &[u8], start_from: usize) -> (r: Option<
        (usize, usize),
    >)
        ensures
            first_match(steps@, input@, start_from as int, r),
            r matches Some((s, e)) ==> start_from <= s <= e <= input@.len(),
    {
        if start_from > input.len() {
            return None;
        }
        let mut start = start_from;
        loop
            invariant
                start_from <= start <= input.len(),
                forall|t: int|
                    start_from <= t < start ==> #[trigger] match_steps(steps@, input@, t) is None,
            decreases input.len() - start,
        {
            if let Some(end) = Self::match_at(steps, input, start) {
                return Some((start, end));
            }
            if start == input.len() {
                return None;
            }
            start = start + 1;
        }
    }

    /// Runs the steps from `start`, returning where the match ends.
    fn match_at(steps: &[PatternStep], input: &[u8], start: usize) -> (r: Option<usize>)
        requires
            start <= input.len(),
        ensures
            opt_int(r) == match_steps(steps@, input@, start as int),
            r matches Some(e) ==> start <= e <= input@.len(),
    {
        let mut pos = start;
        let mut i: usize = 0;
        while i < steps.len()
            invariant
                i <= steps@.len(),
                start <= pos <= input.len(),
                match_steps(steps@, input@, start as int) == match_from(
                    steps@,
                    i as int,
                    input@,
                    pos as int,
                ),
            decreases steps@.len() - i,
        {
            let ghost p0 = pos as int;
            let next: Option<usize> = match &steps[i] {
                PatternStep::Byte(b) => {
                    if pos >= input.len() || input[pos] != *b {
                        None
                    } else {
                        Some(pos + 1)
                    }
                },
                PatternStep::ByteClass(class) => {
                    if pos >= input.len() || !class.contains(input[pos]) {
                        None
                    } else {
                        Some(pos + 1)
                    }
                },
                PatternStep::GreedyPlus(class) => {
                    if pos >= input.len() || !class.contains(input[pos]) {
                        None
                    } else {
                        Some(Self::run_end_from(class, input, pos + 1))
                    }
                },
                PatternStep::GreedyStar(class) => Some(Self::run_end_from(class, input, pos)),
                PatternStep::GreedyPlusLookahead(class, la, positive) => {
                    if pos >= input.len() || !class.contains(input[pos]) {
                        None
                    } else {
                        let min_pos = pos + 1;
                        let end = Self::run_end_from(class, input, min_pos);
                        Self::back_off_until(la.as_slice(), *positive, input, min_pos, end)
                    }
                },
                PatternStep::GreedyStarLookahead(class, la, positive) => {
                    let end = Self::run_end_from(class, input, pos);
                    Self::back_off_until(la.as_slice(), *positive, input, pos, end)
                },
                PatternStep::PositiveLookahead(inner) => {
                    if Self::check_lookahead(inner.as_slice(), input, pos) {
                        Some(pos)
                    } else {
                        None
                    }
                },
                PatternStep::NegativeLookahead(inner) => {
                    if Self::check_lookahead(inner.as_slice(), input, pos) {
                        None
                    } else {
                        Some(pos)
                    }
                },
                PatternStep::WordBoundary => {
                    if Self::is_word_boundary(input, pos) {
                        Some(pos)
                    } else {
                        None
                    }
                },
                PatternStep::NotWordBoundary => {
                    if Self::is_word_boundary(input, pos) {
                        None
                    } else {
                        Some(pos)
                    }
                },
                PatternStep::StartOfText => {
                    if pos != 0 {
                        None
                    } else {
                        Some(pos)
                    }
                },
                PatternStep::EndOfText => {
                    if pos != input.len() {
                        None
                    } else {
                        Some(pos)
                    }
                },
                PatternStep::PositiveLookbehind(inner, min_len) => {
                    if Self::check_lookbehind(inner.as_slice(), input, pos, *min_len) {
                        Some(pos)
                    } else {
                        None
                    }
                },
                PatternStep::NegativeLookbehind(inner, min_len) => {
                    if Self::check_lookbehind(inner.as_slice(), input, pos, *min_len) {
                        None
                    } else {
                        Some(pos)
                    }
                },
                PatternStep::CaptureStart(_) => Some(pos),
                PatternStep::CaptureEnd(_) => Some(pos),
                _ => None,
            };
            proof {
                assert(opt_int(next) == step_at(steps@[i as int], input@, p0));
            }
            match next {
                None => {
                    return None;
                },
                Some(q) => {
                    pos = q;
                },
            }
            i = i + 1;
        }
        Some(pos)
    }

    /// The end of the longest run of bytes of the class from `from`.
    fn run_end_from(class: &ByteClass, input: &[u8], from: usize) -> (e: usize)
        requires
            from <= input.len(),
        ensures
            e as int == run_end(*class, input@, from as int),
            from <= e <= input.len(),
    {
        let mut pos = from;
        while pos < input.len() && class.contains(input[pos])
            invariant
                from <= pos <= input.len(),
                run_end(*class, input@, pos as int) == run_end(*class, input@, from as int),
            decreases input.len() - pos,
        {
            pos = pos + 1;
        }
        pos
    }

    /// Gives back bytes from `hi` down to `lo` until the lookahead holds (or,
    /// when not `positive`, fails).
    fn back_off_until(
        la: &[PatternStep],
        positive: bool,
        input: &[u8],
        lo: usize,
        hi: usize,
    ) -> (r: Option<usize>)
        requires
            lo <= hi <= input.len(),
        ensures
            opt_int(r) == back_off(la@, positive, input@, lo as int, hi as int),
            r matches Some(v) ==> lo <= v <= hi,
    {
        let mut pos = hi;
        loop
            invariant
                lo <= pos <= hi,
                hi <= input.len(),
                back_off(la@, positive, input@, lo as int, pos as int) == back_off(
                    la@,
                    positive,
                    input@,
                    lo as int,
                    hi as int,
                ),
            decreases pos,
        {
            let holds = Self::check_lookahead(la, input, pos);
            if positive == holds {
                return Some(pos);
            }
            if pos <= lo {
                return None;
            }
            pos = pos - 1;
        }
    }

    /// Whether the lookahead body matches at `pos`.
    fn check_lookahead(steps: &[PatternStep], input: &[u8], pos: usize) -> (b: bool)
        requires
            pos <= input.len(),
        ensures
            b == lookahead_holds(steps@, input@, pos as int),
    {
        let mut p = pos;
        let mut i: usize = 0;
        while i < steps.len()
            invariant
                i <= steps@.len(),
                p <= input.len(),
                lookahead_from(steps@, 0, input@, pos as int) == lookahead_from(
                    steps@,
                    i as int,
                    input@,
                    p as int,
                ),
            decreases steps@.len() - i,
        {
            match &steps[i] {
                PatternStep::Byte(b) => {
                    if p >= input.len() || input[p] != *b {
                        return false;
                    }
                    p = p + 1;
                },
                PatternStep::ByteClass(class) => {
                    if p >= input.len() || !class.contains(input[p]) {
                        return false;
                    }
                    p = p + 1;
                },
                PatternStep::WordBoundary => {
                    if !Self::is_word_boundary(input, p) {
                        return false;
                    }
                },
                PatternStep::EndOfText => {
                    if p != input.len() {
                        return false;
                    }
                },
                _ => {
                    return false;
                },
            }
            i = i + 1;
        }
        true
    }

    /// Whether the lookbehind body, `min_len` bytes long, matches just before `pos`.
    fn check_lookbehind(steps: &[PatternStep], input: &[u8], pos: usize, min_len: usize) -> (b:
        bool)
        requires
            pos <= input.len(),
        ensures
            b == lookbehind_holds(steps@, input@, pos as int, min_len as int),
    {
        if pos < min_len {
            return false;
        }
        let start = pos - min_len;
        let mut p = start;
        let mut i: usize = 0;
        while i < steps.len()
            invariant
                i <= steps@.len(),
                start <= p <= pos,
                pos <= input.len(),
                start == pos - min_len,
                lookbehind_from(steps@, 0, input@, pos as int, start as int) == lookbehind_from(
                    steps@,
                    i as int,
                    input@,
                    pos as int,
                    p as int,
                ),
            decreases steps@.len() - i,
        {
            match &steps[i] {
                PatternStep::Byte(b) => {
                    if p >= pos || input[p] != *b {
                        return false;
                    }
                    p = p + 1;
                },
                PatternStep::ByteClass(class) => {
                    if p >= pos || !class.contains(input[p]) {
                        return false;
                    }
                    p = p + 1;
                },
                PatternStep::WordBoundary => {
                    if !Self::is_word_boundary(input, p) {
                        return false;
                    }
                },
                PatternStep::StartOfText => {
                    if p != 0 {
                        return false;
                    }
                },
                _ => {
                    return false;
                },
            }
            i = i + 1;
        }
        p == pos
    }

    /// Whether `pos` is at a word boundary.
    fn is_word_boundary(input: &[u8], pos: usize) -> (b: bool)
        requires
            pos <= input.len(),
        ensures
            b == word_boundary_at(input@, pos as int),
    {
        let prev_word = pos > 0 && is_word_char(input[pos - 1]);
        let curr_word = pos < input.len() && is_word_char(input[pos]);
        prev_word != curr_word
    }
}

} // verus!
