# regex_nfa

A regular-expression front end and NFA toolkit, written in Verus and
verified.

- `parser`: a lexer and a recursive-descent parser from pattern text to a
  syntax tree (`parse`), and the tree written back as pattern text
  (`Expr::to_string`). `parser::syntax` states, over values, what parsing
  gives (`parse_result`); `parser::numbering` proves that capture groups
  are numbered 1 to n.
- `hir`: the syntax tree lowered to byte- and code-point-level expressions
  (`translate`).
- `nfa::thompson`: Thompson's construction (`compile`); `nfa::state`: the
  automaton, byte classes and epsilon closures; `nfa::glushkov`: the
  epsilon-free position automaton and its shift-or masks.
- `nfa::tagged`: capture liveness (`analyze_liveness`), pattern steps read off
  an automaton (`StepExtractor`, with the walk it makes stated over values in
  `nfa::tagged::extraction`), a step interpreter, a thread-by-thread
  simulation with capture slots (`TaggedNfaInterpreter`), and the engine that
  picks between them (`TaggedNfaEngine`).

`nfa::language` states what an expression matches (`hir_matches`);
Thompson's automaton is proved to accept every match of its expression, and
`thompson_fits` tests the size bound that `compile` asks for.

For the simulation (`TaggedNfaInterpreter`, and `TaggedNfaEngine` where it
simulates), on automata without backreferences every match returned is one of
a checked run (`checked_accepts`): a run that passes text assertions only where
they hold and positive lookarounds only where their bodies match. Its capture
groups are those such a run records (`captures_recorded`): each group spans
the positions where the run last entered and left it (with sparse copying,
when the automaton has fewer than 64 groups and lists its match states). For
automata that check nothing but text assertions, the result is exact: the
leftmost start with a match, and from there the longest match
(`first_plain_match`), since every thread carries the same priority. For
automata without lookarounds or backreferences, a match is found exactly when
a checked run exists, so `is_match` agrees with `find`; elsewhere success is
owed wherever a match is known from plain runs and known lookaround outcomes.

Verus proves every contract. Some contracts leave things open: which of
several runs gives the capture groups, which match is returned for automata
with lookarounds, backreferences or non-greedy repetition, and what the
automaton accepts beyond the matches of its expression. The tests under
`tests/` run the library on concrete patterns.
