# datacartridge

Structured-data primitives for a capability cartridge, written in Verus:
format detection, lenient JSON repair, CSV repair and conversion, type
coercion, the transform-program engine, and the argument checks of the
judgment operations together with the checks on the model's replies. Each public function states its result in its
contract, and the library's laws are proved as proof functions.

## Layout

- `src/` — the verified library.
  - `text.rs`, `numeric.rs`, `number.rs` — characters, integers and number
    literals.
  - `json.rs`, `json_ops.rs` — the JSON value, its equality, order and
    compact text.
  - `repair.rs`, `repair_reader.rs`, `strict_json.rs` — JSON repair, its
    reader, and the proof that strict JSON needs no repair.
  - `csv_repair.rs`, `tabular.rs`, `textlist.rs`, `yaml.rs`, `formats.rs` —
    CSV repair, CSV/JSON/text-list conversion, YAML values as JSON and the
    choice of conversion.
  - `transform.rs`, `schema.rs` — transform programs and their schema.
  - `coerce.rs`, `judgment.rs`, `grounding.rs`, `sequence.rs`, `adapter.rs`
    — coercion, judgment arguments and reply checks, the grounding of
    quoted evidence, the decimate gate and format detection.
- `tests/` — tests of the library.
- `app/` — the cartridge program: stream plumbing over the capability
  runtime, YAML parsing and writing, and the coercions that go through
  floating point.
