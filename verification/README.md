# Fructosita

A UCI chess engine whose library is written and proved in Verus.

- `src/` — the verified library: bitboards and attack sets (`bitboard`,
  `magic`), the board and its moves (`types`, `moves`, `board`, `zobrist`,
  `fen`, `movegen`), node counting (`perft`), evaluation (`eval`, `see`,
  with its colour symmetry in `symmetry`), reading back written FEN records
  (`fen_roundtrip`),
  search (`search`, `tt`, `time_management`), opening books (`book`), EPD
  suites and SAN (`epd`), and the arguments of UCI commands (`uci`).
- `app/` — the program around it: the UCI loop and its search thread,
  Lazy SMP over several threads, and the command-line modes (perft, bench,
  self-play, EPD files, the search for magic numbers). The transposition
  table is used through `&mut`, so under Lazy SMP each helper thread
  searches with a table of its own; only the main thread's table persists
  between searches.
- `tests/` — tests run against the compiled library.

The opening book needs the standard Polyglot table of 781 random keys; the
program reads it from the file named like the book with `.keys` appended
(one hexadecimal value per line).
