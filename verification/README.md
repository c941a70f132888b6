# rustine

A parser and runtime for the Gel grammar language, written in Verus. A Gel
document defines regular expressions and grammars; running a grammar over a
text builds an output tree, which the library serializes as JSON, XML or
YAML. Each function carries a `requires` / `ensures` contract that Verus
proves.

## Layout

- `src/parser/` — the lexer, the parser into a document, validation, regex
  compilation, and the JSON, XML and YAML renderings of a document.
- `src/exec/` — the runner (statements, actions, triggers), the output tree
  and its flattening, the serializers, the byte scanners for common skip
  patterns, and the streaming runner.
- `src/stream/` — the lexer that reads its source chunk by chunk.
- `src/bridge.rs`, `src/lib.rs` — the entry points: parse, run, serialize.
- `src/pattern.rs`, `src/jsonv.rs`, `src/xmlw.rs`, `src/bytes.rs`,
  `src/text.rs` — the calls into `regex`, `serde_json`, `quick-xml`,
  `memchr` and std, each behind a small function whose contract states what
  the outside code does.
- `app/` — the command-line program, file and memory-mapped chunk readers,
  and the Python bindings.
- `tests/` — the tests, run against the compiled library.
