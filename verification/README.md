# updater

Tools for the travelling-santa tour problem: a closed tour through all
cities that starts and ends at city 0, where every tenth step is 10% longer
unless it starts at a prime city.

The library (`src/`) is verified with Verus. It holds the integer side of
the optimisers:

- `primes` — the prime sieve that decides which steps are not penalised;
- `union_find` — disjoint sets, used to build spanning trees (`spanning`);
- `two_edges`, `tour` — a tour with each city's position and its two
  neighbour slots; testing a k-opt move by carrying it out on the slots
  (`Tour::test_changes`), by counting the cycles it leaves
  (`Tour::count_cycles`), and by working it out on the positions alone
  (`Tour::test_changes_fast`, whose plan of stretches and jumps the caller
  prices with prefix sums);
- `edge_moves`, `cycles` — the specifications and executable walks behind
  those tests;
- `agreement` — the proof that the three tests agree on every move that
  removes tour edges away from city 0 and leaves each city two neighbours
  (`Tour::lemma_fast_matches_slow`, `Tour::lemma_count_matches_slow`);
- `rewire` — why a move that the slots accept gives a closed tour whose
  edges are the old ones less the removed plus the added
  (`Tour::lemma_rewired_tour`), and why every sequential k-opt move can be
  carried out on the slots (`Tour::lemma_balanced_move_agrees`,
  `Tour::lemma_chain_move_agrees`);
- `components`, `cycle_count` — the number of cycles of the graph the
  slots hold, and the proof that `Tour::count_cycles` counts exactly those
  cycles for every sequential move (`Tour::lemma_count_is_cycle_count`);
- `crossover` — edge-recombination crossovers of two tours (crossing a tour
  with itself gives it back: `lemma_erxt_self`, `lemma_erxta_self`).

`app/` is the program around it: reading cities and tours, floating-point
lengths and penalties, prefix sums, exhaustive re-optimisation of short
stretches, the randomised k-opt searches and the statistics of a saved tour. `tests/` exercises the library,
including the agreement of the slow and fast tests on random moves.
