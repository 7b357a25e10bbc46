# turbo_hearts

The rules engine of Turbo Hearts (hearts with passing, charging of the queen of spades, jack of
diamonds, ten of clubs and ace of hearts, and claims), written in Verus with its behaviour stated
in `requires` / `ensures` contracts and proved.

## Layout

- `src/cards.rs`, `src/suits.rs`, `src/bits.rs`: cards and sets of cards as 64-bit masks, viewed as
  `Set<Card>`; the text form of a set (`Q9S JD`) and its parsing, proved to read back.
- `src/game/`: the state of a game (`GameState::apply` against the relation `applied`), charges,
  claims, tricks, who is done, what each seat has taken and the scores; the events and how each
  seat sees them.
- `src/game.rs`: a game at the table: checks of passes, charges and plays, the events a pass or a
  play brings about, and what the table announces after each event.
- `src/seed.rs`: the seed of a game and the generator keyed by its hash, which deals each hand and
  scatters the keeper pass; every deal splits the full deck in four.
- `src/bot.rs`, `src/bot/`: the bots (duck, gotta-try, heuristic, random, simulating) and the
  runner that follows a game for a bot and says what it must do.
- `src/summary.rs`: replays of stored events: the leaderboard of finished games and the record
  of one hand.
- `src/lobby.rs`, `src/config.rs`: the lobby's events and subscriptions; the server's settings.
- `app/main.rs`: a program that plays a game among four bots and prints its events.
- `tests/`: tests on concrete values.

Calls into `rand`, `rand_chacha`, `sha2` and `uuid` stand behind small trusted wrappers whose
contracts say what those crates promise.
