# dracoshell

A GPU-drawn tiling terminal. The crate is split in two:

- `src/` is the library, verified with Verus: the tiling tree of panes
  (`layout`), tabs and pane ids (`session`), key encoding and shortcuts
  (`input`), the first-run wizard (`onboard`), text selection (`selection`),
  terminal colours (`colors`), the glyph atlas packer (`atlas`), the window
  icon decoder (`icon`, through the `image` crate), configuration defaults
  and the edit that records a chosen theme in the configuration text
  (`config`, through the `toml` crate), and the answers typed at the setup
  prompts (`prompt`).
- `app/` is the program around it: the window and event loop, the GPU
  renderer, the PTY, the clipboard, file I/O, and the pixel geometry, which is
  floating point.

`tests/` runs the library on concrete inputs.
