# vdf_fmt

An opinionated formatter for Valve's [KeyValues](https://developer.valvesoftware.com/wiki/KeyValues)
("VDF") files, verified with Verus.

The formatter puts every brace on its own line, indents four spaces per depth, quotes every
value (or, with `--bare-literals`, leaves `true`, `false` and numbers bare), keeps keys bare
unless they need their quotes, aligns the values of adjacent pairs and the comments of
adjacent lines, turns every line break into `\n`, and drops trailing whitespace and blank
lines at the end. With `--reflow-comments`, comments that read as commented-out pairs are
laid out like pairs.

## Layout

- `src/` is the library, verified by Verus.
  - `text.rs`: character classes, UTF-8 widths, text helpers.
  - `syntax.rs`: the tokenizer for one line and the normalization of keys and values.
  - `formatter.rs`: the model of the output (`spec_format`), and `format` and
    `format_with_options`, whose contracts state that they compute it exactly.
  - `properties.rs`: proved properties of the output (no `\r`, no trailing whitespace,
    the final line break kept, no blank lines at the end, quoting, column alignment).
  - `idempotence.rs`: the proof that formatting formatted text changes nothing.
  - `cli.rs`: the command line's switches and what they select.
- `app/` is the program around it: argument parsing, file I/O, logging, and the WebAssembly
  entry point.
- `tests/` holds the tests.

## Usage

```sh
# to stdout
vdf-fmt path/to/file.vdf

# write back to file
vdf-fmt -w path/to/file.vdf

# multiple files are written in place
vdf-fmt file-a.vdf file-b.vdf

# also reflow comments that look like disabled key-value pairs
vdf-fmt --reflow-comments path/to/file.vdf

# leave booleans and numbers unquoted
vdf-fmt --bare-literals path/to/file.vdf
```
