# jsonl-peek

Health checks for JSONL (newline-delimited JSON) files, in one streaming pass
and with bounded memory. The library is written in Verus: every function in
`src/` is proved to meet its contract.

```
jsonl-peek head   [-n N] [FILE]
jsonl-peek sample [-n N] [--seed S] [FILE]
jsonl-peek stats  [--field PATH]... [--top N] [--max-errors N] [--json] [FILE]
jsonl-peek schema [--depth N] [--min-rate R] [--json] [FILE]
```

A field path is made of keys (`meta.source`), indices (`messages[-1]`) and
wildcards (`messages[].role`). A key that is empty or holds `.`, `[` or `]`, and
no other, is written as a JSON string between brackets: `meta["file.name"]`.

| Directory | What it holds |
| --- | --- |
| `src/` | the verified library |
| `app/` | the program: arguments, files, standard input and output |
| `tests/` | tests of the library |

What the library promises as a whole, and where it is proved:

- A written JSON value is read back as itself: `roundtrip`.
- An error points into the document; what is read fits the limits: `laws`.
- Lines cover the input; CRLF endings, a leading byte order mark and a missing
  final newline change nothing but the bytes: `lines`, `exact`.
- Every count is exact, and nothing is left out of a table that has room:
  `exact` for statistics, `found` for schemas.
- A path that a schema prints is parsed as a field path and selects what the
  schema counted, whatever the keys are, and every path of keys and `[]` that
  selects something is printed while the table has room: `agreement`, `found`.
- A step written behind a path is one segment more, and a path behind another
  selects out of what the first selects: `path_laws`.
- Whitespace around a document does not matter: `laws`.
- Quantiles are off by less than one part in 32, lie between the extremes and
  grow with the share; the mean is exact: `hist`.
- Samples are uniform, reproducible and in the order of the file; different
  seeds draw differently, and no draw repeats within a period: `rng`, `excerpt`.

Three functions of the standard library are believed rather than proved:
`String::push`, `char::from_u32` and `str::from_utf8`. They are declared in
`text`.
