# diag_lang

Compiler diagnostics and their rendering with source context, verified with
Verus.

A `Diagnostic` holds a severity, a headline message, a primary label, optional
secondary labels, and trailing note and help lines. `Renderer::render` turns it,
together with a `source_lang::SourceMap`, into caret-annotated text:

```text
error: cannot find value `foo` in this scope
 --> main.rs:2:13
  |
2 |     let x = foo();
  |             ^^^ not found in this scope
  |
```

## Layout

- `src/severity.rs`, `src/span.rs`, `src/label.rs`, `src/diagnostic.rs`: the
  diagnostic model, each type with a view its contracts speak of.
- `src/text.rs`: the column model (`visual_width`, `expand_tabs`,
  `floor_boundary`, `decimal_width`) and the string operations output is built
  from.
- `src/sources.rs`: what the renderer takes from `source_lang` (the sources of
  a map, locating a global position) and `span_lang` (line and column
  resolution), stated over plain values.
- `src/render.rs`: the complete layout as spec functions (`rendered`) and the
  renderer proved to produce exactly it.
- `src/properties.rs`: what every rendering guarantees, proved over `rendered`.
- `src/reorder.rs`: what the order in which secondary labels were added does,
  and does not, change in a rendering.
- `src/plain.rs`: terminal styling (`Renderer::with_color`) only adds. Every
  character of the unstyled rendering is printable ASCII, a line break, or a
  character one of its input texts holds, so it holds an escape only where an
  input does; and for inputs without escapes, stripping the escapes from a
  styled rendering gives the plain one back.
- `app/`: the `fmt::Write` output seam, `Display` for severities and spans, and
  conversions to and from `span_lang::Span`.
