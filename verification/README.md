# Linux TUI Monitor

A system monitor for the terminal. Once a second it shows the load of the processor, the
memory, the graphics cards and the network, and the ten processes that use the processor most.
`q` or Esc ends it.

- `src/` is the library, verified with Verus. It reads the texts of `/proc` and of
  `dmidecode` and `nvidia-smi`, keeps the state from one refresh to the next, and composes
  what the panels show. Shares and rates are binary64 numbers kept as integers
  (`src/double.rs`), so that what is shown of them is proved to the last digit. Only the
  utilisation of graphics cards stays floating point, in `app/`.
- `app/` is the program around it: it opens files, runs commands, draws with ratatui and
  waits for keys with crossterm.
- `tests/` runs the library on concrete values, among them comparisons with the floating
  point, the text functions and the sort of the standard library.

What is taken on trust are four items: `String::push`, `String::from_utf8_lossy`, the
formatting of a date by chrono, and the division of an area by ratatui.
