# tui_mcp

An MCP server for remote-controlling and observing terminal programs, with its
logic verified by Verus. A program runs under a pseudo terminal with an embedded
terminal emulator, or with plain pipes. It is driven with simulated keyboard and
mouse input, and its screen is read back as text or as a picture.

## Layout

- `src/` is the library. Every function in it is verified; what it takes from
  outside crates stands behind wrappers whose contracts are believed.
  - `keys`, `mouse`, `input`: what key presses, mouse events, typed text and
    pastes write, and in which bursts.
  - `kitty`, `osc8`: what is read out of a program's output stream: keyboard
    protocol negotiation, bracketed paste, cursor report requests, hyperlinks.
  - `emulator`, `canvas`, `pattern`: the terminal emulator and its screen, the
    picture buffer and regular expressions, with the contracts of the crates behind
    them.
  - `session`, `registry`: the state of a session and the registry of sessions.
  - `render`, `scrollback`: the screen as a picture, the history by pages and by
    search.
  - `wait`, `tools`, `error`: when a wait is over, and what callers are told.
  - `schema`, `dev_tools`, `text`: tool input schemas, build identity, and the
    text helpers that the rest is made of.
- `app/` is the program around it: processes, terminals, threads, timers, the
  rasterizer of glyphs and the protocol server.
- `tests/` runs the library with the real crates.

## What is proved

Each function's contract gives its result exactly. Beyond that the modules prove
laws that relate several functions, among them: a session shows what its emulator
makes of the output and the sizes that it was given, in order, as long as its
terminal has two rows and three columns and has not become narrower with
double-width text on it; how output is cut into chunks does not matter to any
scanner or buffer; every scanner stays within its limits;
every byte string can be written with escapes and comes back; the pages of the
history hold every line exactly once; a quoted path is read back by a shell;
hyperlinks keep one entry for each occurrence on the screen; every wait ends with
its time.

## The font

Screenshots need `assets/DejaVuSansMono.ttf`, beside the executable or in the
working directory.
