# levenstein

Levenshtein (edit) distance between two words, written in Verus. Every function
is proved to compute what its contract states.

- `src/distance.rs`: the distance as a recurrence over sequences, and the facts
  proved about it (symmetry, recursion from the front agrees with recursion from
  the back, the distance depends only on which elements match, bounds).
- `src/two_row.rs`: what the two-row table of `dynamic_ascii_case_sensitive`
  computes, and how it compares with the distance.
- `src/lanes.rs`, `src/wavefront.rs`: fixed-width vectors of `u32` lanes and the
  layout of the anti-diagonal table of `dynamic_simd_wasteful`.
- `src/levenstein.rs`: the five public functions.
- `app/main.rs`: a small program that prints one distance.
