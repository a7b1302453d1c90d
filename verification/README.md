# cop

A spreadsheet engine whose logic is proved correct with Verus.

- `src/` is the verified library. A grid of cells holds formulas (numbers,
  references, `a op b`, `SLEEP(x)`, `SUM/MIN/MAX/AVG/STDEV(range)`, `COPY(range)`);
  assigning a formula records the cells it reads as dependents, refuses a
  formula that would close a cycle, and re-evaluates the reached cells in
  topological order. A `COPY` pastes the values of its range as constants,
  each through an ordinary assignment, so the pasted cells drop their old
  dependencies and their dependents are recomputed. `src/laws.rs` states and
  proves what holds across operations: every accepted assignment, `COPY`
  included, keeps the grid consistent and its dependents exact, values are
  determined by formulas, errors cascade, a formula that reads its own cell
  is refused, and undo restores what the assignments since the last undo
  changed (a second undo redoes them). `src/reparse.rs`
  proves that a formula written back as text parses to the same command, and
  `src/saved.rs` that rebuilding a saved grid gives back its formulas,
  values and undo history, and `src/csv_trip.rs` that loading a grid's CSV
  export gives back its size and values.
- Around the grid: command parsing (`command.rs`), cell names (`naming.rs`),
  the text view (`display.rs`), scrolling (`scroll.rs`), CSV/XLSX export
  (`downloader.rs`), CSV/Excel import (`loader.rs`), rebuilding a saved
  grid from its formulas and undo history (`saved.rs`), graph ranges
  (`graph_data.rs`), accounts and sessions (`login.rs`) and sheet sharing
  (`sharing.rs`). Calls into `argon2`, `rand`, `uuid` and `rust_xlsxwriter`
  stand behind small trusted wrappers whose contracts say what those crates
  document.
- `app/` is the program around the library: the terminal interface
  (`cli ROWS COLS`), the web server (axum), files on disk, graph drawing
  (plotters) and e-mail (lettre).
- `tests/` runs the library on concrete inputs.
