# lrc_rs

Synced lyrics in the LRC format, with the A2 extension (timestamped segments inside a
line): parsing, serializing, checking the order of timestamps, unsyncing, and finding
the line or segment active at a given time. The library under `src/` is verified with
Verus: every public function carries a contract, and `src/laws.rs` proves properties
that span functions (what the order checks accept, what adding tags keeps, which tag
is active at a time, how stripping tags relates to unsyncing parsed lyrics), and
`src/rescan.rs` proves that serialized lyrics scan back.

Layout:

- `src/duration.rs`: a duration with nanosecond precision, the unit of every timestamp.
- `src/tags.rs`, `src/lyrics.rs`: segments, lines and synced lyrics, with their order
  rules; `src/format.rs` and `src/error.rs` write them and their errors as text.
- `src/parser.rs`: the LRC grammar as spec functions; `src/scanner.rs`: the verified
  scanner that follows it; `src/assemble.rs`: ID tags, offsets and the assembly of
  lyrics from scanned text and the measures of its timestamps; `src/rescan.rs`: the
  proof that serialized lyrics scan back as their tags, comments and lines.
- `app/lib.rs`: `SyncedLyrics::parse`, which measures the seconds of each timestamp as
  a single precision float (outside the verified library) and assembles the lyrics;
  and an error type that implements `Display`.
- `tests/`: tests of the library.
