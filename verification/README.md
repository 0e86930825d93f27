# Fiasco LSP proxy

A language server proxy for the Fiasco microkernel: the editor sees the
Fiasco sources, clangd sees the files that Fiasco's preprocessing makes from
them, and the proxy maps the document positions and locations of the
messages it handles between the two (navigation requests and their
responses, references, workspace symbols, code actions); other messages pass
unchanged.

## Layout

- `src/` — the verified library
  - `source_mapping.rs`: per-file line blocks in both directions, lookups of
    lines and line ranges, sorting and overlap checks, and the round trip
    through a block and its reversal;
  - `extract.rs`: reading the blocks out of a preprocessed file (`#line`
    directives, section markers, the closing `#endif`) and the module list of
    a build directory;
  - `lsp.rs`, `handler.rs`: mapping positions, ranges and locations, the
    routing of requests and responses by method, and the rewriting of
    document positions, references, goto, workspace symbol, code action and
    workspace edit messages;
  - `preprocess/`: the syntax tree of a Fiasco source file, its construction
    from the grammar's parse tree, the source scanners it needs, and the
    generation of the public header, private header and implementation file;
  - `text.rs`: string helpers with their specifications;
  - `global_state.rs`: the direction of a message.
- `tests/` — tests of the library on concrete inputs.
- `app/` — the program: command line, build directory, reading files, the
  connections to editor and clangd, and the conversions between protocol
  types and the library's types.
