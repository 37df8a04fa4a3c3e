# rubik_lib

Data structures and algorithms for the Rubik's cube, written in Verus: each
function carries a contract, and Verus proves that the code meets it.

Layout of `src/`:

- `cube_core`: the state of the cube (positions and orientations of the
  pieces packed in two words), the moves, their composition and inverse,
  parsing a cube from its stickers, scrambling, the text of a state, and the
  bit fields and serialization they rest on.
- `state`, `moves`: the older state layout, where positions tell where each
  piece comes from, with its own moves, composition and inverse.
- `algebra::coord`: coordinates of the cube group (orientations, permutations,
  the slice between faces L and R), with their sample states.
- `algebra::move_table`: raw move tables and symmetry tables for the
  coordinates that can be read from any state (corner orientation, edge
  orientation, corner permutation).
- `model`: the model layer: bit helpers, coordinates, moves and the symmetries
  of the cube.
- `algo::moves`: sequences of moves packed in one integer, and their
  enumeration by depth.
- `solve::kociemba`: the two-phase solver. Its tables are plain data
  (`coords::Tables`, checked entry by entry); the search goes deeper level by
  level, first to the subgroup of the second phase, then to the solved cube,
  and each solution it returns is shorter than the one before. Also pruning
  tables of raw coordinates: distances found breadth first through a move
  table, kept modulo 3, four to a byte.
- `trie`: a trie of states keyed by their pieces, its compressed form, and
  walks through it in the order of the keys or of a coset, which reach the
  states in that order.
- `canonical`: for each state within a depth, the first of the shortest
  move sequences that reach it, breadth first.
- `permutation`: permutations, their parity and its computation.

`app/main.rs` prints the canonical move sequences up to depth 5; with the
arguments `tables <folder>` it builds the raw move tables and pruning tables
and writes them to that folder; with `solve <folder> <cube>` it reads the
tables of the two-phase solver from the folder and solves the cube given by
its stickers, improving the solution for one second.

## What is not here

- The building of the tables of the two-phase solver that are reduced by
  symmetry, and the four-list solver with its sorted products. They need
  the set of 16 symmetries that the tables are reduced by, a state type of
  the model layer, and the trie of the four-list search, which this crate
  does not define; the solver reads its tables as plain data.
- Vision code working on images in floating point.

## Conventions

The symmetries of the model layer are states of `cube_core::state::State`,
whose product `a * b` applies `a` first. A conjugate by a symmetry `s` is
therefore `s * m * s⁻¹`. The symmetry of index `((a * 3 + b) * 2 + c) * 2 + d`
is the turn of the whole cube about the L axis `a` times, then the half turn
about the U axis `c` times, then the turn about the LBD corner `b` times, then
the mirror `d` times; these 48 states are the 48 symmetries of the cube.
