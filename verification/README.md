# cobra

A compiler for a small expression language (numbers, booleans, `let`, `if`,
`loop`/`break`, `set!`, `block`, and `define` at the prompt), written in Verus.

- `src/` is the verified library: the s-expression reader interface
  (`sexpr`, over the `sexp` crate), the surface-syntax parser (`parser`), two
  code generators (`textgen` for assembly text, `jitgen` for an instruction
  list assembled in memory), the value encoding (`values`, `runtime`), the
  decisions of the interactive prompt (`repl`), and the label-soundness laws
  of the generated code (`labels`).
- `app/` is the command-line driver: file and terminal I/O, in-memory
  assembly with `dynasmrt`, and running the generated code.
- `tests/` exercise the library on concrete programs.

Flags of the driver: `-c in out` writes assembly text, `-e in [input]` runs
the program in memory, `-g in out [input]` does both, `-i` starts the prompt.
