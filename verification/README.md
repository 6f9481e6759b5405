# mini_redis

A small key-value server that speaks part of the Redis protocol (RESP):
PING, SET, GET, DEL and SAVE, over a store whose keys hold lists of tagged
elements, kept on disk as JSON.

- `src/` is the library, verified with Verus: the protocol reader and
  writer (`resp`), the store (`store`), the commands and the choice of a
  command for a received buffer (`commands`), the JSON text of the store
  (`json`, through `serde_json`), and properties that relate the commands
  to one another (`laws`).
- `app/` is the server program: the TCP listener, the thread pool, the
  per-client loop, and the storage file.
- `tests/` runs the library on concrete requests.
