# ghcitty

A fast, friendly front end for GHCi: syntax highlighting, structured error
display, completion and ghost hints, a pretty-printer for `Show` output,
Hoogle lookups, resumable sessions and a JSON mode for tools.

## Layout

- `src/` is the library, verified with Verus. Every function there carries a
  contract, and the properties that span several functions are proved as
  `law_*` proof functions next to the code they speak of:
  - `text` — the character-level model (trimming, lines, searching) shared by
    all other modules;
  - `highlight`, `style` — the tokenizer and the styles it paints with;
  - `input`, `repl`, `dbg_input` — when a typed line is finished, what command
    it is, completion words and hints, the `(dbg)` prompt's keys;
  - `parse`, `ghc` — what is sent to GHCi and how its answers are read, as
    step functions that the program drives;
  - `render`, `pretty`, `debugger`, `dump` — everything that is shown;
  - `config`, `session`, `hoogle`, `error`.
- `app/` is the program around the library: the GHCi process and its
  pseudo-terminal, files, the line editor's hooks, the terminal of the
  `(dbg)` prompt, and JSON output.
- `tests/` runs the library on concrete inputs.
