# AlphaCheckers

A checkers engine with its search, its self-play training and an arena for a human
player, written in Rust and verified with Verus.

## Layout

- `src/rules.rs` states the rules of the game over sets of squares. `chains.rs`,
  `legality.rs`, `listing.rs` and `games.rs` prove what follows from them: which chains of
  jumps are generated, what the legal moves are, that none is listed twice, and what holds
  in whole games.
- `src/engine.rs` is the board of three words of bits, with move generation, on top of
  `bits.rs` and `geometry.rs`.
- `src/playouts.rs` weighs positions and runs random playouts; `src/search.rs` is the Monte
  Carlo search on top of them, and `choices.rs` proves what its reports hold and that equal
  arguments give equal reports.
- `src/ml.rs` encodes positions and policies for the network.
- `src/cache.rs` remembers the moves that searches found, each for its own position only.
- `src/training.rs` keeps the games a player has with itself and the samples that come out
  of them.
- `src/arena.rs` is the game of a human against the machine, and the styles of the board and
  of the heat map.
- `app/` is the dashboard: pages, the network, and everything that computes with floats.

## Numbers

The library stores and orders single-precision numbers as bit patterns (`src/single.rs`)
and never computes with them. Where a sum, a score, a mean or a share is needed, the caller
hands in a function for it, and the contracts say what it is called with. Losses and the
network's output are computed in `app/`.

## Chains of captures

A move record has room for seven captures. A few positions with a king allow longer chains;
their moves cannot be listed. `BitBoard::captures_fit`, `BitBoard::checked_perft`,
`GameState::is_judgeable` and `search::is_evaluable` tell such positions apart.

A man that touches down on the far row in the middle of a capture jumps on as a king. It is
crowned only if its capture ends there.
