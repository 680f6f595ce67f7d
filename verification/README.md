# rusty_json

A JSON library whose core is verified with Verus: a `Value` tree, a parser
from JSON text with 1-based line/column error positions, a compact writer,
a sorted string-keyed map with an entry API, pluggable output formatters,
and a stream reader for whitespace-separated values.

## Layout

- `src/grammar.rs` — the JSON grammar (RFC 8259) as spec functions over the
  characters of a text, including every error and where it is reported.
- `src/parser.rs` — the executable parser, proved to compute exactly what the
  grammar says, whole values at a time or one step at a time (open and close
  a container, the next element or key, the start of an enum).
- `src/de.rs` — reading documents from strings and bytes, the stream reader,
  object keys read as booleans or integers, and enum values.
- `src/ser.rs`, `src/formatter.rs` — the compact writer and the formatter
  trait with its compact and pretty implementations.
- `src/value.rs`, `src/map.rs`, `src/number.rs`, `src/error.rs`,
  `src/text.rs` — the data types, their views, and shared helpers.
- `src/laws.rs` — properties that span functions: reading back written text
  gives the same value, parsed values are well formed, bytes and text read
  alike, a finished stream stays finished.
- `app/` — serde integration (driving the parser's steps), `f64`
  conversions, `Display` and I/O, which Verus does not check.
