# among_us_server

The server of a social-deduction party game: players join a lobby over a
websocket, roles are dealt (imposters and crewmates), imposters kill,
bodies are reported, meetings vote players out, and the game ends when one
side has nobody left alive.

## Layout

- `src/` is the game logic, written and proved with Verus.
  - `game.rs`: the game and every request it answers. Each request is a
    transition of the game that appends what it causes (messages to
    players, websockets to close, the timer that ends a vote) to a list of
    `effects::Effect` values, with a contract that says exactly which.
  - `meeting.rs`: votes, their tally, and who is ejected.
  - `player.rs`: a player, their message history, and the imposters' kill
    cooldown.
  - `confidential_data.rs`: a value with a public and a private version.
  - `*_messages.rs`, `effects.rs`: the messages the game exchanges.
  - `clock.rs`, `rng.rs`: the calls into the standard clock, `rand`,
    `rand_pcg` and `uuid`, with the contracts the proofs rely on.
- `app/` is the HTTPS and websocket front end (actix-web): it turns JSON
  into requests, runs them against the game, and carries out the effects.
- `tests/` exercises the library from outside.
