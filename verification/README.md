# t51core

The core of an entity-component game server, written in Verus.

- `src/` is the verified library: entity identities and component sets (`identity`), shards of
  entities with the same components (`shard`), transaction contexts that record additions and
  deletions (`transaction`), the game state they are applied to and the shard events systems
  hear (`world`), columns of component values kept section by section (`column`), the shards
  each system runs over (`system`), the message bus (`messagebus`),
  pools (`pool`), the take-and-put sentinel (`sentinel`), read-write cells (`sync`), the parser
  of system definitions (`sysdef`), and the network layer: frames, channel and connection-token
  protocol state, byte buffers and connections (`net`, `networking`).
- `app/` is the server program and what talks to the operating system: moving bytes between
  sockets and buffers, the clock, waiting for locks, raw pointers, JSON and serde forms.
- `tests/` exercise the library.
