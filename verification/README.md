# fuzzy_regex

The matching engines of a fuzzy regular-expression library, written in Verus
and proved against their contracts:

- `dfa`, `prefilter`, `state_set`, `nfa`: a lazily built DFA over a Thompson
  NFA, with literal and first-byte prefilters, forward and reverse search,
  and minimization.
- `bitap`: bit-parallel approximate matching of short literals (at most 64
  characters) with insertions, deletions, substitutions and transpositions.
- `damlev`, `osa`: a Damerau-Levenshtein automaton with beam search, and the
  optimal-string-alignment distance it is measured against.
- `edit_scan`, `fuzzy_nfa`, `guard_nfa`: a compact edit automaton that reports
  the first approximate occurrence of a literal.
- `captures`, `cached`: capture-group bookkeeping, and fuzzy literal matches
  kept by pattern and start position.
- `text`, `bytesearch`, `simd_class`, `hash`: UTF-8 offsets, byte searches
  (through `memchr`), byte-class scans and hashing.

Not included: a backtracking engine for recursive patterns, backreferences
and lookaround, the bridge that checks edit-class restrictions such as
`{e<=1:[a-z]}` and dispatches several fuzzy literals at once, and the search
for many literals at once by bit-parallel automata.  Patterns that need them
are outside what this library matches.

Scores are floating point in the library's users; the verified code works
with their places in a common order (`ScoreRanks`, `SimilarityRanks`,
`EditRanks`, acceptance tables), which `app/` computes from a threshold.

Layout: `src/` is the verified library, `tests/` its tests, and `app/` the
thin unverified layer that turns thresholds into those tables and calls the
library.
