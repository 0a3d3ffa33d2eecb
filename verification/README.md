# rinsai

A shogi engine that speaks USI, with its rules, its search and its protocol
written in Verus: what each function returns and changes is stated in its
contract and proved.

- `src/` is the verified library.
  - `shogi`, `diagram`: the vocabulary of the game and positions as mathematics.
  - `position`, `board`: positions for the referee and for the search. The work
    is done by `shogi_core`, `shogi_usi_parser`, `shogi_legality_lite`,
    `shogi_official_kifu` and `shunsai`; what is believed of these crates stands
    in the contracts of the functions of these two modules, and nowhere else.
  - `referee`: games with their rules. Every move is checked, repetition and
    perpetual check are adjudicated, and declarations are counted.
  - `search`: evaluation, move ordering, the transposition table and the
    searcher. `search::model` says as mathematics what a search computes, and
    `search::negamax` is proved to compute it.
  - `usi`: commands, options and the engine, a machine from what is heard to
    what is said and ordered.
  - `bench`: fixed positions and the node counts that they take.
- `tests/` runs the library.
- `app/` is the program around it: arguments, streams and the search thread.
