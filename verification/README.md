# bruhlang

bruh-lang is a small esoteric language: three signed 64-bit variables
(`bruh.`, `bruh!`, `bruh?`) that start at zero, wrapping arithmetic, output of
numbers and characters, and loops one level deep. This crate holds its
front end, an interpreter and a WebAssembly back end, verified with Verus.

Layout of `src/`:

- `text.rs`: decimal rendering, UTF-8 widths, Unicode white space.
- `token.rs`, `ast.rs`, `error.rs`: tokens, statements, diagnostics.
- `lexer.rs`: lines and words of the source; the tokens of each line.
- `parser.rs`: one statement, loop header or loop end per line.
- `sema.rs`: pairs loop headers with loop ends; builds loop bodies.
- `diag.rs`: the stable order of diagnostics by line.
- `lib.rs`: `compile_src`, the whole front end.
- `interp.rs`: the interpreter and its semantics.
- `codegen/wasm.rs`: the WebAssembly text of a program, and its binary form
  through the `wat` crate.
- `cli.rs`: the output formats of the `build` command.

`app/main.rs` is the command-line program (`run`, `check`, `build`).
