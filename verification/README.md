# veloct

The front end of the Veloct spatial engine, with contracts checked by Verus.

- `src/ingest.rs`: the schema ingestion pipeline. A lexer over `&str` that hands
  out slices of the source, a parser for `module <name>; <key> = <number>;`
  headers, and a generator that flattens a header into a byte stream.
- `src/vct.rs`: the kernel language. A lexer over `&[char]` (keywords,
  identifiers, integer and float literals, symbols, `//` comments), a parser for
  modules of functions and GPU kernels, and a bytecode emitter with a symbol table.
- `src/dispatch.rs`: the workgroup count of a GPU compute dispatch.
- `src/chars.rs`, `src/text.rs`: the character classes and string building the
  lexers rely on, and UTF-8 lemmas.
- `app/`: the executable around the library, and the parts that work on floating
  point, CPU intrinsics or raw platform handles (audio synthesis, SIMD math,
  windowing, GPU context).

Float literals are kept in the library as the text they were written with;
`app/vct_demo.rs` turns them into `f32` values.
