# fleet_holographic

Holographic distributed storage for multi-agent systems: every agent holds a
random projection of every stored pattern, and any single agent's fragment
suffices to find the best-matching pattern again.

The verified library (`src/`, checked by Verus) holds the integer core:

- `lcg` — the linear congruential generator behind the projections, with its
  step and state-after-n-steps specifications, and the fact that generators
  started apart stay apart;
- `projection` — the raw draws that fill each agent's projection matrix, and
  the law that distinct agents get different draws at every entry;
- `selection` — the best-match rule every retrieval applies to the confidences
  of the stored patterns, expressed over order keys;
- `layout` — the capacity estimate and the pairing of stored patterns for the
  interference analysis, with its counting and ordering law.

`app/` holds the floating-point side: the pattern, fragment and retrieval
types, the store with its projections and per-agent state, the similarity
measures, and the conversion of raw draws into weights in `[-1, 1]`.
