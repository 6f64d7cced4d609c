# ricon

A terminal console with vertical tabs. Each tab holds one or more shells; the sidebar
shows folder, path, running process and activity, and the status bar the branch and the
AI agent at work in the shell.

Everything the console decides is a Verus library: what a key or a click does, what is
drawn where, what is copied, saved, transcribed, and when an idle agent is nudged. Every
function of it carries a contract over a mathematical model of its state, and the laws
that span functions stand beside them as proof functions.

- `src/` — the library
  - `text`, `base64`, `labels`, `style` — characters, encodings, short texts, styled rows
  - `keys`, `mouse`, `selection`, `screen` — input, cells, and the terminal emulator
  - `session`, `stamp`, `transcript` — what is saved, the calendar, session transcripts
  - `probe` — what the files of an agent and of its process say
  - `shell`, `tab`, `footer` — a shell and its agent, a tab, and how they are drawn
  - `app`, `events`, `turn` — the console, what events do to it, and its loop
- `app/` — the program around it: processes, threads, files, the clipboard and drawing
- `tests/` — the library's tests

The library calls the terminal emulator, SQLite and the Unicode width tables through a
few wrappers, each with the contract it is trusted for.
