# foxlite

A verified engine for Fox in the Forest **Lite** (33 cards in three suits,
13 tricks a round, matches to 21) and the integer machinery of its
self-play training tools, written in Verus.

## Layout

- `src/` — the verified library.
  - `rules` — cards, hands, legal moves, trick winners, scoring, dealing,
    playing, closing tricks and rounds; `StateModel` is the mathematical
    state every contract speaks of.
  - `round_laws`, `match_play`, `world_laws` — laws of a round, of a whole
    match (at most 7 rounds, decisive winner) and of hidden worlds (the
    opponent can always be redealt consistently with what the searcher saw).
  - `encode`, `onehot` — canonical suit/card indices and the two network
    encodings, each stated entry by entry.
  - `determinize`, `cross_search`, `mcts` — hidden-world sampling and the
    integer parts of information-set search.
  - `pipeline`, `cohort`, `frames` — per-game seeding, the ply-bucketed
    priority queue, the cohort bookkeeping of the batched self-play pipeline
    (it never wedges, and closes only once every match finished), and the
    byte layouts of cohort files and streamed frames.
  - `chance` — the random source, the only trusted code besides the outside
    types it names.
- `tests/` — scenarios and laws on concrete values.
- `app/` — the command-line tools: network forward (tch), floating-point
  move choice and search statistics, threads, files and stdout.
