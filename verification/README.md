# chessehc

A chess tournament manager's core, verified with Verus.

- `src/models/`: players, rounds, games, byes, points (counted in half points),
  titles and the tournament, with their text codes.
- `src/utils.rs`: the rankings of players (starting ranking, standings) and the
  stable sort that puts players in them.
- `src/trf.rs`: the players' lines of the pairing engine's input and of the
  tournament report (FIDE TRF), and the input file's content.
- `src/pairing.rs`: reading the pairing engine's output, turning its pairings into
  games and byes, the starting ranks, and the checks before a round is paired.
- `src/text.rs`: decimal numbers, right-aligned fields, joining, name order.
- `src/types.rs`: the error that commands report.
- `app/`: the desktop application around the library: the SQLite tournament file,
  the pairing engine process, the front end's commands and the HTTP client.
