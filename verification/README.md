# akari

A logic solver and difficulty rater for Akari (Light Up) puzzles, written in
Verus: every function of the library carries a contract that Verus proves.

A grid is given in row order: 0 a white cell, 1 a wall, 2 to 6 a numbered wall
with clue 0 to 4. The solver works on a state per cell (0 undecided, 1 lamp,
2 no lamp) and raises its level while its technique chain stalls: numbered
wall constraints, lamp beams and unique sources first, then placements that
break the board, case analyses around clues and around unlit cells, and
finally trial placements (plain, then nested). When cells stay undecided it
counts the solutions by search. The result carries a search score and a
difficulty rating.

Layout:

- `src/grid.rs`, `src/board.rs`: the board built from a grid (neighbours,
  beams, reach, numbered walls), the rules of a solution, consistency,
  and the clue and beam techniques.
- `src/rules.rs`: what a deduction promises (every solution survives, a
  contradiction means there is none) and the laws about boards.
- `src/answer_methods.rs`, `src/answer_model.rs`: the technique record, the
  solving model and trial placement.
- `src/techniques/`: unique source, placements that break, clue case
  analysis, source case analysis.
- `src/solution.rs`: the bounded solution count.
- `src/lib.rs`: the search, its specification, and the rating curve.
- `app/`: the raw-pointer entry point and the serialisable result types.

The technique record (`Methods`) keeps one counter per technique in a
fixed table of eight slots, indexed by the technique, rather than in a hash
map keyed by `Technique`: with an enum key whose `Eq` and `Hash` are
derived, Verus proves nothing about what such a map holds (not even its
length after one insertion), while the table lets every contract say exactly
which counter each technique moved.
