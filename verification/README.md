# rustline

A line editor for interactive terminal programs: Emacs-style editing, reverse
history search, completion, hints, a kill ring and UTF-8 editing over ANSI
escape sequences.

The library in `src/` holds everything that decides what the editor does, each
function with a contract proved by Verus:

- `buffer` — the line being edited and every editing operation on it;
- `parser` — the resumable decoder from terminal bytes to keys;
- `history` — the history list, its search, and its file format;
- `state`, `edit`, `editor` — the per-key state machine (`Rustline::dispatch`),
  reverse search, completion cycling and the kill ring;
- `completion`, `hints` — completion providers, ranges and column layout;
- `render`, `display` — laying the prompt and line out on a window of a given
  width and the text that draws it;
- `terminal`, `unicode` — window geometry, terminal replies, character widths;
- `repl` — the state and command reading of the demonstration REPL.

`app/` is the terminal front end: raw mode, signals, reading and writing the
descriptors, the history file on disk, and the demonstration REPL. It performs
the commands the library hands back and never decides anything itself.
