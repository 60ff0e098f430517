# wotwot

A tiny terminal dashboard (todos, an info stack, docker CPU figures and
ccusage token counts) with a local HTTP API and a command-line client.

The logic lives in the verified library under `src/`:

- `board` – the todo list and the info stack: adding, removing by id or by
  1-based position, reordering by ids, push and pop, with the laws that the
  reorder keeps every entry and moves the named ones to the front.
- `dashboard` – the rotating cursors, the info/quote pane, docker rows,
  the layout of the todo pane and list numbering.
- `docker` – reading `docker stats` output.
- `http` – the client's requests and the reading of replies.
- `json` – reading JSON text into a small JSON model, the numbered listing
  of a reply and the usage figures of a ccusage report.
- `numfmt` – compact counts (`1.2k`, `3.4M`), computed exactly as the
  floating-point formatting would.
- `paths` – where the state file lives and the address the client
  reaches the API at (`127.0.0.1:47291`, or `WOTWOT_URL`).
- `text` – numerals, whitespace, lines, padding and truncation.

`app/` holds the program around it: argument parsing, the axum server, the
terminal UI, the collectors that run external commands, and the state file.
