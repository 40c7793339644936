# infinite_chess

Endgame search on an unbounded chessboard: White's pieces against a lone black king, with
the position stored relative to the black king. The library, written in Verus, proves its
contracts:

- `board`, `chess`: squares, positions, piece layouts, legal positions, attacks and moves.
- `scenario`, `scenarios`: search configurations and the built-in ones.
- `search`: candidate enumeration, the maximal inescapable trap, the tempo (Büchi) trap,
  forced mates with distance to mate, strategies and bounded counts, under resource budgets.
- `solution`: the exported solution bundle, its binary table codec, and interactive play.
- `coord`, `pieces`, `region`, `state`, `game`, `rules`, `arena`, `solve`: a finite-region
  model with packed states, a game arena and safety, attractor and Büchi solvers.

`app/` holds the command-line program: argument handling, file I/O and JSON.
