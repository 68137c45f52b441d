# logmix

Merge structured log streams by timestamp — JSON lines, logfmt and plain
text — with per-source tagging. The library is written in Verus: each public
function carries a contract over a mathematical model of its input and
output, and Verus proves the code against it.

## Layout

- `src/record.rs` — `Record`, one log line, and `Fields`, its key/value map
  (no key twice).
- `src/ts.rs` — `parse_timestamp`: RFC 3339, ISO 8601, Unix seconds and
  milliseconds, specified against a calendar day count from 1970.
- `src/parser.rs`, `src/json.rs` — reading a line as JSON, logfmt or plain
  text. `serde_json` reads the JSON text; what the reader does with the
  members it hands out is verified.
- `src/merger.rs` — the merge: `MergeState` for streaming and `merge` for
  whole streams, with the laws that the merge keeps every record, keeps each
  stream's order, and is in timestamp order when its inputs are.
- `src/output.rs` — the three output formats and JSON string escaping.
- `src/text.rs` — white space, decimal digits and numbers.
- `app/main.rs` — the command line: reads files, drives `MergeState`, writes
  to stdout.
- `tests/` — tests of the library.

## Output formats (`--format`)

| Value | Line |
|-------|------|
| `passthrough` | `[source] raw` (default) |
| `jsonl` | `{"source":…,"ts":number or null,"raw":…}` |
| `tagged` | `source<TAB>ts<TAB>raw`, `ts` empty when unknown |

Unrecognized values fall back to `passthrough`.
