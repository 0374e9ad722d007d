# blackjack_backend

A multiplayer Blackjack server. Clients create a room over HTTP
(`POST /game/create`), then play over a WebSocket (`/ws/{game_id}`), with
JSON messages `{ "action": ..., "payload": ... }` one way and
`{ "event": ..., "data": ... }` the other.

The rules of a room are a library verified with Verus; the server around it
is ordinary Rust.

## Layout

- `src/` — the verified library.
  - `cards.rs`: cards, the standard deck, hand values (aces count 11 or 1).
  - `types.rs`, `messages.rs`: players, hands, settings and the messages.
  - `deck.rs`: the shoe of `deck_count` decks, dealt from the end and
    reshuffled when it runs out.
  - `model.rs`: the rules as functions on the mathematical state of a room;
    `step_rel` relates a room before and after one message.
  - `actor.rs`: `GameActor`, the executable room; `handle_message` is proved
    to follow `step_rel` and hands back the messages to deliver.
  - `laws.rs`: properties proved of every step (phase order, the dealer
    standing on 17, admin-only commands, turn order, session persistence,
    announcements, error scoping, ...).
  - `lobby.rs`: room ids, admission of connections, reconnection requests.
  - `chance.rs`, `ids.rs`: the calls into `rand` and `uuid`, with the
    contracts the proofs rely on.
- `tests/` — tests of the library.
- `app/` — the server: routes, WebSocket plumbing, one task per room, and
  the JSON forms of the library's types.
