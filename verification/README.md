# omni_keymap

Layout-aware keystroke translation: which physical keys (W3C `KeyboardEvent.code` names) and
modifiers produce a given character on a given operating-system keyboard layout.

The library under `src/` is verified with Verus:

- `model` — key presses, keystrokes, layout files, their validation, and `KeymapDb`, the
  database of layouts indexed by `platform/name[+variant]`, with its lookups.
- `strmap` — the insertion-ordered string map that holds mappings and layouts.
- `android` — the `.kl` and `.kcm` parsers and the Android layout builder.
- `linux`, `macos`, `windows` — the layouts built from what each platform's keyboard API
  reports for every W3C key.
- `batch` — the XKB `evdev.lst` parser, the list of batch jobs, and the batch summary.
- `clock` — ISO-8601 timestamps from Unix time.
- `cli` — the command line's platforms, tasks and output file names.
- `w3c_keys` — the W3C code to scancode/keycode table.
- `text` — the string helpers the parsers are built on.

`app/` is the `omni-keymap-extract` command: argument parsing, file and JSON I/O, and the calls
into libxkbcommon, Carbon and the Windows API.
