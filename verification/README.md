# fmc

The server side of a voxel game, as a library verified with Verus, and a thin layer of
ordinary Rust around it.

- `src/` is the library. Every function in it carries a `requires`/`ensures` contract that
  Verus proves: blocks and their states and rotations, chunks and the world map, terrain
  features and blueprints, chunk subscriptions and the chunks each player can see, entity and
  model bookkeeping, item stacks, message framing and the connection buffers, the handshake
  with new clients, the client's packet framing and message queues, and the random number
  generators. The few calls into outside crates (zstd, rand, `str::trim`) stand behind small
  trusted wrappers whose contracts say what the outside code is taken to do.
- `app/` holds what Verus cannot take: the database, the sockets, the terminal, reading the
  configuration files and asset archives, and the parts computed with floating point numbers.
  It hands the library plain values and takes plain values back; `app/world.rs` drives one
  tick of the world (subscriptions, chunk loading, block updates) through the library.
- `tests/` runs the library on concrete values.
