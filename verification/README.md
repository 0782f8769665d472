# rust2seq

Sequence diagrams (PlantUML) from annotated Rust code. Types marked
`#[seq::participant]` become lanes, fns marked `#[seq::msg]` become arrows when
a diagram's walk reaches them, `if`/`match`/loops become `alt`/`opt`/`loop`
blocks, and `seq::diagram! { name = ..., entry = ... }` declares a diagram.

## Layout

- `src/` — the library, verified with Verus:
  - `model.rs`, `config.rs` — the diagram model and the rendering settings;
  - `emit.rs` — PlantUML text of a flow, stated character by character;
  - `markers.rs` — the source the attribute macros and `diagram!` expand to;
  - `discover.rs` — marker payloads, diagram declarations, the report of a
    scan, and resolution of entry paths relative to the declaring module;
  - `walker.rs` — the walk of an entry fn's body over a plain expression
    tree, with its result stated as a spec function;
  - `walk_laws.rs` — what holds of every walk (arrows between listed lanes,
    no empty blocks, lanes listed once with the entry's lane first);
  - `callbacks.rs`, `plugin.rs` — planning and placing each diagram;
  - `example.rs` — the OAuth example program.
- `tests/` — tests of the library.
- `app/` — the command-line binary and the rustc glue: reading the crate
  through rustc's HIR into the library's plain values, the proc-macro entry
  points, and the file writes.
