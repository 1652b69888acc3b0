# maze_wars

A multiplayer maze shooter over UDP: a server that owns the game, and a
graphical client with a lobby, a 3-D view and a minimap.

- `src/` is the game's logic, verified with Verus: maze generation and its
  spawn tiles, the player-name field and packet size rule of the protocol,
  sequence/ack numbering, the server's game state (players, shots, frags,
  levels) and client registry, and on the client the lobby form, the
  session's reactions to keys and snapshots, prediction and interpolation
  buffers, leaderboard order, and the texts shown.
- `tests/` runs the library on concrete values.
- `app/` is the program around it: the UDP socket and packet encoding, the
  floating-point movement and hitscan geometry, the server loop, and the
  macroquad client. `maze_wars server` starts the server; without an
  argument the client starts.
