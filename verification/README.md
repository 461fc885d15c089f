# brioche_cache

A caching proxy in front of the Brioche cache store: chunks and artifacts are
kept as unlinked files on disk, project sources and bake outputs in memory,
each in a least-recently-used cache.

- `src/` is the verified library. `models` and `filename` read and write
  hashes and file names (with their round-trip laws); `capacity` accounts for
  disk space; `lru_cache` gives the `lru` crate's cache its contract;
  `cache` is the cache state machine (lookup, wait on a fetch, fill, give
  up, make room, end a hold on a file) and its laws; `cache_store` sizes the caches from the configuration and the
  open-file limit; `upstream`, `response`, `errors` and `config` hold the
  decisions of the HTTP side.
- `app/` is the server: configuration loading, the axum router, the
  reqwest-based upstream store and the async cache store that runs the state
  machine around file and network I/O.
- `tests/` runs the library on concrete values.
