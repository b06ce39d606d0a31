# faritany

The rules and the room logic of an online Faritany (dots) game server, as a
verified library, with a thin server around it.

- `src/point.rs`: board points, their `"x,y"` keys (written and read back),
  and the ray-casting test for a point inside a polygon.
- `src/grid.rs`: the board. Placing a stone finds its group, prunes the group
  to its closed loops, traces the loop as a polygon and captures the opponent
  stones inside; a stone put inside an opponent's empty polygon is captured
  by that polygon.
- `src/faritany_logique.rs`, `src/game_logic.rs`: one game — seats, turns and
  the turn timer — and the interface a room's game offers.
- `src/lobby.rs`: who is connected, who is in which room, and which message
  goes to whom; sending is left to the caller.
- `src/web.rs`, `src/clock.rs`: tokens of query strings and `Authorization`
  headers, the port setting, password hashes, and moments of the clock.
- `app/`: the actix server: settings, JSON forms of the messages, and the
  lobby actor that sends what the library decides.
