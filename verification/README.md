# slidy

Utilities for working with sliding puzzles, specifically arbitrary-sized variants of the
15 puzzle. The library's functions are verified by Verus against their contracts, except a
few small trusted wrappers around outside code (`str::parse`, collecting
characters into a `String`, and `rand`'s `random_range` and index sampling), whose contracts
are taken on trust from those functions' documentation.

- `src/` is the library: puzzle sizes, the general `Puzzle` and the packed `small::Puzzle`,
  moves, labels, solvability and solved states, scramblers, parsing and display, and the
  geometry of color schemes (which tile, split or grid a position falls in). The proof
  functions named `lemma_*` that are public state the laws that the library keeps, such as
  that a move is undone by the opposite move, that moves and the scramblers keep solvability,
  and that reading back the text of a puzzle or a size gives it back.
- `tests/` holds the tests.
- `app/` holds what works with floating point colors (`palette`, `enterpolation`), SVG
  rendering (`svg`) and the thread-local random number generator, on top of the library.
