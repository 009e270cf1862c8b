# poker_arena

The verified core of a poker bot competition arena and of its reference bot,
written in Verus: every function in `src/` carries a contract, Verus proves
all but those of three trusted wrappers (below), and the library's laws stand as proof functions beside the code.

## Layout

- `src/` — the library, verified but for three small trusted wrappers
  over outside calls (`text::push_char` over `String::push`,
  `text::json_string` over `serde_json::to_string`, and
  `botspec::debug_string` over `str`'s `Debug` formatting), whose
  contracts Verus takes on trust:
  - `tree`, `abstraction`, `blueprint`, `iso`, `deuce`, `sim`, `discards`,
    `table` — the reference bot: public game-tree counts, the lossy action
    and bucket abstraction, information-set keys, lossless suit isomorphism,
    2-7 value classes, the heads-up hand simulator its trainer solves, draw
    and stud ordering heuristics, and table tracking off the event stream.
  - `seating`, `ledger`, `bot`, `ofc`, `behavior`, `log`, `selective`,
    `wire` — the arena: seat rotation, match bookkeeping, the baseline bots
    and fault substitutes, OFC placement enumeration and board tracking,
    behavioral counts, which hands a hand-history log keeps, and what the
    arena does with each line an out-of-process bot sends.
  - `botspec`, `ofc_cli`, `arena_cli`, `run_flags`, `text` — the operator
    surface: `--bot` specs, bot naming, match seeds, flag checks, and the
    string building they share.
- `tests/` — tests of the library on concrete values.
- `app/` — a small command-line front end over the library.

Random choices (the random bots' draws, shuffled decks) are arguments of
the functions that use them, so each is verified for every value drawn.
