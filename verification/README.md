# slipstream

The rules of the Slipstream desktop, as a library verified with Verus, and the binary's file and
socket edges around it.

- `src/screen.rs` — which workspace each screen shows, where the keyboard is, and how screens
  and workspaces follow each other as outputs come and go.
- `src/session.rs`, `src/calendar.rs` — the session record, the one-line grammar its tiling
  trees are written in, and the UTC stamp it carries.
- `src/share.rs`, `src/screencopy.rs` — the share picker's list and choice, and the programs
  allowed to capture the screen.
- `src/screenshot.rs` — screenshot names, folders and crops.
- `src/settings.rs` — the wallpaper list the environment can give.
- `src/sheet.rs` — the key sheet's answers to the keyboard, and the rows a typed filter keeps.
- `src/saver/` — the living wallpaper's integer parts: its character grid, Braille dots,
  pseudo-random numbers, circuit routes, mazes, the Game of Life board, the frost's glass, the split-flap board's
  text, preview shrinking, and which variation takes the next turn.
- `src/text.rs`, `src/layout.rs` — characters, numbers and lines, and the shared geometry types.
- `app/` — the `slipstream` binary's edges: TOML on disk, the clock and environment, the share
  chooser's socket.
- `tests/` — the library's tests.
