# kelpyshark_stdlib

The standard library of the KelpyShark language, as a Verus crate.

`src/` is the verified library:

- `text.rs`: strings as character sequences, decimal rendering, and the
  Unicode `White_Space` test used for trimming.
- `strings.rs`: the string functions (`str_upper` to `str_reverse`) with
  their contracts, and the laws that relate splitting, joining, replacing,
  trimming and reversing.
- `value.rs`: the values the library reads and builds, and their model.
- `json.rs`: JSON text of a value (`value_to_json`, `json_encode`).
- `json_parse.rs`: reading a value back from JSON text (`parse_json_value`,
  `json_decode`).
- `json_laws.rs`: decoding the encoding of a value gives the value back; the
  shape of the JSON text of each kind of value; how the reader dispatches on
  the first character of a value.
- `io.rs`: the line-ending handling of console input.

`app/` holds what Verus does not check: the interpreter's value type and the
tables of native functions, argument handling, files, console, environment,
clock, network (ureq) and floating-point arithmetic.
