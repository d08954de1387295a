# Peras

A chess engine for standard chess, Chess960 and five other variants, verified with Verus.

- `src/` is the library, all of it verified: board and rules (`types`, `bitboard`, `position`,
  `rules`, `movegen`, `makemove`, `legal`), texts (`fen`, `notation`, `command`, `options`),
  evaluation (`hce`, `mopup`, `varianteval`, `eval`, `network`, `nnue`, `threats`,
  `snapshot`), and search (`tt`, `history`, `learning`, `movepick`, `see`, `search`,
  `negamax`, `moveloop`, `root`, `outcome`). A search keeps a journal (`journal`), which
  exists in proofs alone: what the host was asked and answered, what was written to the
  table, and what every node came to; `records` and `replies` say what accounts for each
  entry. `reached` and `fenlaw` state what a game of legal moves keeps and what a FEN text
  tells of it.
- `tests/` runs it.
- `app/` is the program around it: the command loop, threads, the shared table, the clock,
  the file of the network, and what is computed in floating point.

The network is not part of the repository; the program reads it from `nets/peras.nnue`, or
from the file that `EVALFILE` names.
