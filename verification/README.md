# v_m_io

Storage, channel and configuration logic of the v-m.io services, verified with
Verus, and the programs around it.

- `src/db` - the runtime database: blob files and the sealing of chunks
  (`blob`), the split of the master key (`key`), what the database is asked
  (`sql`), background upkeep (`upkeep`), and that the store as a whole stays
  together (`store`).
- `src/chan` - channels: named requests over HTTP, on the server and the client
  side, and the config requests among them.
- `src/cfg` - the config server: its master key, its initial values, and its
  handlers.
- `src/srv`, `src/back`, `src/cli` - the greeting server and clusters, the cache
  of compiled scripts, and the command line client.
- `src/api`, `src/reply`, `src/text`, `src/hexa`, `src/crypto` - payloads, HTTP
  replies, text, hexadecimal notation, and cryptographic primitives.
- `app` - one program with a subcommand for each service: sockets, files, the
  database connections and the running of scripts.
- `tests` - the library joined to a database in memory, without a network.
