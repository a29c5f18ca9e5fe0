# tent

Indentation-based HTML and CSS templates, compiled ahead of time, and the
buffers they render into. The library is written in Verus: each function
states what it returns in its contract, and the contracts are proved.

## Layout

- `src/chars.rs`: character sequences, UTF-8 byte lengths, trimming and
  searching.
- `src/body.rs`: the `Sink` trait and `Body`, a segmented buffer whose
  length is always the byte length of its text.
- `src/markup.rs`: the `Html` trait, which writes values into a sink raw or
  with HTML escaping.
- `src/text.rs`: camel case to dashed names, quoted literals and escapes.
- `src/source.rs`: the lines of a template with their indentation, and the
  Rust tokens of a line (lexed by `proc_macro2`).
- `src/indent.rs`: nesting lines by indentation.
- `src/html/`: the HTML language: parsing a line into content, and emitting
  a tree as fixed markup or as statements that write into a sink.
- `src/css.rs`: the CSS language: selectors, declarations and `$variables`,
  flattened into plain rules.
- `src/compile.rs`: the whole path from template text to expansion.
- `app/lib.rs`: the macro bodies around the library: reading the macro's
  literal or the file it names, and turning the expansion into Rust tokens.

Laws that relate several functions stand as public proof functions whose
names begin with `law_`.
