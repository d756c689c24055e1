# coil

The panels of a terminal editor, verified with Verus: a sidebar with tabs on the files of a
project, on what git sees changed and on its history; the older file tree beside it; the dialogs
and menus over both; and the layout of JSON and XML for when no formatter is there to do it.

- `src/` is the library. Every function states in its contract what it returns or how it changes
  what it is handed. The laws, which relate several functions, are the public proof functions
  whose names start with `law_`.
- `app/` is what surrounds it: running git, reading and writing the disk, keeping widths and
  sessions, putting what was laid out on the screen, and the editor the panels act on. The editor
  and its surface are traits the terminal implements.
- `tests/` runs the library.

The library asks for nothing by itself. What it wants done it hands back as a value (`Step`,
`Turn`, `Act`, `Reply`), and what came of it is handed in with the next call.

What is believed of other code stands in `src/text.rs` (reading bytes as text, quoting, lower
case, pushing a character) and in `src/json.rs` (whether a text is JSON).
