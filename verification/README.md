# vlc_relay

A loopback HTTP relay for players that cannot attach arbitrary HTTP headers to their own
network requests. The player is handed an address on `127.0.0.1`; every request that it
makes there is re-issued against the original origin with the required headers attached,
and the answer is streamed back byte for byte.

- `src/` is the library, verified with Verus: reading request heads (`head`), the URLs
  (`origin`), what becomes of a request (`relay`), what the player gets back (`response`),
  the text operations underneath (`text`), and laws of heads (`laws`).
- `app/` is the running relay: sockets, timeouts and the upstream client.
- `tests/` runs the library, with an origin in memory.
