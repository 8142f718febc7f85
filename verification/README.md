# re_finite_automata

Constructing and simulating finite-state automata, with a focus on regex
matches on byte arrays, verified with Verus.

Two kinds of automata are provided: deterministic (`Dfa`) and
nondeterministic (`Nfa`). Both can be built by primitive composition, run on
input, inspected state by state, and converted into one another.
`Dfa::run` and `Nfa::run_shortest` read any finite iterator of bytes; `Nfa::run`,
which backtracks, reads a byte slice.

## Layout

- `src/lib.rs`: the shared `Transition` rule and the two final state values.
- `src/dfa.rs`: deterministic automata, their constructions and their run;
  the laws of `append`, `invert` and `switch` over the run, and when a run
  ends.
- `src/nfa.rs`: nondeterministic automata, their constructions, the
  depth-first run (`run`) and the breadth-first run (`run_shortest`), with
  the laws that tie them to the matches of an input.
- `src/composition.rs`: what the NFA constructions (`append`, `combine`,
  `switch`, `repeat_greedy`, `repeat_lazy`) match and find, in terms of their
  parts, and when the depth-first run is decided.
- `src/powerset.rs`: the powerset construction behind `Dfa::from_nfa` and
  `Dfa::try_from_nfa`, and the proof that the DFA it builds accepts at the
  shortest match.
- `src/switch_table.rs`: symbol tables and the decision trees built from them.
- `src/bitset.rs`: a bit set of state numbers over a `SmallVec` of words.
- `tests/`: tests of the public API on concrete automata and inputs.

## Verifying and testing

The library is verified with Verus; the tests run with the real
`smallvec` and `try_index` crates linked.
