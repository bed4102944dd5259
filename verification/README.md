# taodb

A temporal-spatial memory engine for LLM agents: memories are anchored in
narrative time and in containers (`人物:桑安歌`, `feature:auth`), and recalled
in three layers — constraints (world rules that never decay), senses
(impressions such as `涩` that connect memories across containers and time)
and narrative (events around the story's current moment).

## Layout

- `src/` — the verified library (Verus). Every public function states its
  result in `ensures`; the laws of the engine are public proof functions.
  - `crc.rs` — CRC-32 framing of stored records, checked and tolerant decoding.
  - `timeline.rs` — timeline keys (the time with its sign bit flipped, then
    the id, big-endian), so that keys sort as times do, negative times
    included; a range scan finds exactly the memories of a time window, for
    every `i64` time (ids whose first byte is `0xff` aside).
  - `model.rs` — the float-free memory model (`MemoryMeta`, requests,
    energy order keys).
  - `store.rs` — queries over the cache, the sense index's id lists, container
    normalization and the narrative clock (`第N回`, `sprint-N`, `day-N`).
  - `recall.rs`, `sensory.rs`, `rank.rs` — the three recall layers and their
    orderings, with the narrative window over the most recent chapters.
  - `memorize.rs` — the time and containers a memorized memory gets, and the
    warnings and suggestions a memorize call answers with.
  - `tenant.rs`, `api.rs` — users, projects, their isolated paths, tokens,
    request authentication and the ingest rule (event ids read as ULIDs).
  - `text.rs` — character-level text helpers, hexadecimal and decimal formatting.
- `tests/` — tests of the library on concrete values.
- `app/` — the program around the library: the redb store, the float energy
  scoring and decay, the HTTP (axum) and MCP (rmcp) servers and the CLI.
