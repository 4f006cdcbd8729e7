# Patchwork

A small terminal UI toolkit: a cell buffer, drawable shapes and text, a tree
of panes, and a double-buffered renderer that emits only the cells that
changed, as ANSI escapes. Each function states what it does in its
`requires` / `ensures` contract, and the laws that tie the functions
together are proof functions beside them.

## Layout

- `src/buffer.rs` — `Buffer`, its mathematical view `Grid`, and the lemmas
  about writing cells (`paint`) and stamping regions (`stamp`).
- `src/shape.rs` — `Rect` (with exact, tiling splits), `Dot`, `Line`
  (Bresenham's walk, `bresenham_from`, taken from the left end so that a
  line does not depend on the order of its endpoints), and `RectShape`.
- `src/text.rs` — `TextBox` and its character-wrap layout `lay_out`.
- `src/pane.rs` — `Pane`: content, then children, each relative to the pane.
- `src/renderer.rs` — `diff`, the ANSI rendering of a diff, and `Renderer`;
  the laws that a diff, written over the old frame, yields the new one.
- `src/terminal.rs` — terminal events and the decisions of the event loop.
- `src/raw_mode.rs` — the terminal settings raw mode asks for.
- `src/demo.rs` — the demo's geometry (quadrants, insets, the frame, dot
  and diagonal of each quadrant) and what it does with each event.
- `app/` — the demo program: the TTY session over `libc` (raw mode, the
  alternate screen, the `SIGWINCH` self-pipe, `poll` and `read`), writing
  frames to stdout, and the four-quadrant demo scene, which echoes the last
  key pressed along its top edge and repaints on resize. `q` quits; the
  terminal is restored on every way out, a failed setup included.

Coordinates are `(x, y)`: column `x` of row `y`; cells are stored row-major.
