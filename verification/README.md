# connect_four

A bitboard Connect Four library with machine-checked contracts, and a small
terminal front end around it.

The library (`src/`) is written in Verus:

- `board` -- the 7x6 bitboard: making and unmaking moves, legality, win
  detection and the position code. A board is well formed exactly when it is
  the position its legal move history reaches.
- `tt` -- the two-entry-per-slot transposition table, its replacement policy
  and the column-mirror normalisation of position codes.
- `search` -- the alpha-beta solver (threat-aware candidate moves,
  history-ordered search, table probing and storing). Proved: its answer is
  the game-theoretic value on every position it settles without branching,
  and, with a sound table of at least 2^23 slots (a fresh one is sound),
  every WIN or LOSS it answers or stores is the game-theoretic value of its
  position. A DRAW answer on a searched position is not proved exact.
- `mirror` -- left-right symmetry: reflecting a game keeps its value, which
  is what lets the table share an entry between a position and its mirror
  image.
- `value` -- the game-theoretic value of a position, and the positions whose
  value the solver settles without searching (an immediate win, a lost
  position, a loss that cannot be avoided, the last two moves).
- `eval`, `minimax` -- a window-counting evaluation and a depth-limited
  alpha-beta negamax proved to agree with plain minimax.
- `mcts` -- the tree side of Monte Carlo Tree Search: expansion, random
  rollouts, backpropagation and the final move choice.
- `play`, `ai` -- the state of an interactive game: seats, the falling coin,
  wins and draws, and the per-frame step that decides which keys count and
  when an AI seat's search starts.

`app/` holds what stays outside the proofs: the terminal drawing and event
loop, command-line handling, the stdin solving driver, floating-point statistics and the UCB1
child selection of Monte Carlo Tree Search.
