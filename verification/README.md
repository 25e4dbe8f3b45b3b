# bluecsv

CSV tooling for editors: align / unalign, column and row operations, a
markdown pipe-table round trip, cell-type inference, diagnostics and the
editing logic of a CSV language server, with the library's behaviour stated
in contracts and proved with Verus.

## Layout

- `src/` — the verified library.
  - `text`, `csv`: characters and strings, the CSV reader (a state machine
    over characters), the writer, align and unalign (which keep every
    row's line break as it was: `\n`, `\r\n` or `\r`).
  - `roundtrip`: what the reader makes of the writer's text and the writer
    of the reader's rows; the laws of align and unalign over any text.
  - `transforms`: add / delete column, duplicate row, sort by column,
    quoting.
  - `markdown`, `md_roundtrip`: CSV to pipe table and back, and the law that
    simple canonical CSV comes back unchanged.
  - `types`, `columns`, `stats`: cell kinds, column inference tallies and
    column summaries.
  - `model`, `diagnostics`, `editor`: the positioned cell model of a buffer,
    its diagnostics, and the decisions behind code actions, hover,
    completion, navigation and commands.
  - `stream`: the incremental reader and writers behind the streaming align
    and unalign, with the laws that they agree with the buffered ones.
  - `cli`, `release`: argument handling and release asset names.
- `tests/` — tests of the library.
- `app/` — the command-line program, the language server and the editor
  extension: I/O, the protocol, floating-point statistics and confidence.
