# fkill

An interactive process killer for the terminal: it lists the processes you own
as a tree, filters them as you type, and kills what you select after a
confirmation.

The decisions are a library verified with Verus (`src/`); the terminal program
around it (`app/`) lists processes with `ps`, draws with ratatui, reads keys
with crossterm and kills with `kill -9`.

- `src/text.rs`: the text operations the rest relies on (splitting, trimming,
  joining, substring search, number reading and writing).
- `src/procs.rs`: the process table, kept ordered by pid.
- `src/ps.rs`: reading the `ps` listing into the table, and process names.
- `src/tree.rs`: the children lists, the tree layout, the subtree search texts
  and the user's own session chain.
- `src/filter.rs`: multi-term, smart-case matching.
- `src/app.rs`: the browser state and what each key does to it.
- `src/cpu.rs`: CPU times and the rates between two listings.
- `src/ui.rs`: what the screen shows (styles, status line, details, dialog).
- `src/subtree.rs`, `src/laws.rs`: properties of the whole, proved: every
  process gets exactly one row, and a process whose ancestors reach a root is
  drawn under its parent; the list keeps tree order; an extra search term only
  narrows it; a refresh with the same listing keeps the list and the cursor
  still; the session chain is never a kill target; nothing is killed without
  confirmation. Parents are shown with their matches in the selection view,
  and otherwise when the process names (or just the parent's search text) are
  ASCII or every term holds an uppercase letter; for other texts lowercasing is left to `str::to_lowercase`,
  of which nothing beyond ASCII is stated, so the law is not proved there.
