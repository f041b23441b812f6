# tuc

Cut text (or bytes) where a delimiter matches, then keep the desired parts.

The library under `src/` is written in Verus: every function carries a
`requires` / `ensures` contract over a mathematical model (sequences of
bytes, sides, bounds, fields) and is proved against it.

- `side`, `userbounds`, `userboundslist`, `parse`: the bound language
  (`1`, `-2:`, `{1}-{3}`, `2=fallback`), its parser and its printer.
- `search`, `finders`, `pattern`, `plan`: where delimiters occur (fixed,
  greedy or regular-expression delimiters) and which fields a line holds.
- `cut_str`, `fast_lane`, `cut_lines`, `cut_bytes`, `stream`, `cut`: cutting
  fields, characters, lines and bytes; the streaming path of
  `--fixed-memory` is a step function from state and chunk to output,
  proved to print the same whatever the chunk size.
- `stream_fields`: what the stream prints for a line, told field by field.
- `options`: turning the command line into a working configuration.
- `json`: escaping text for the JSON output.
- `laws`: properties that span several functions, stated and proved.

Calls into `memchr`, `bstr`, `regex` and `serde_json` go through small
trusted wrappers whose contracts are written next to them.

`app/` is the command-line program around the library: argument parsing,
files, memory maps, standard input and output.
