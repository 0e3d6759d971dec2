# ratto

The core of a terminal dashboard: a board is declared in KDL, checked
and resolved into a registry of sources and panes, and laid out on a
grid of cells. Parsing a board, checking it, ordering and classifying
its variables, deciding which variable is derived next and with which
command, and building the registry are written in Verus and proved
against their contracts; reading files, spawning commands and waiting
on pipes live in `app/`. Rendering panes to the terminal is not part
of this crate.

Layout of `src/`:

- `text` — the string facts everything else is specified over.
- `duration`, `key_spelling` — the small grammars a board writes
  (`1h 33m`, `500ms`, `Alt-x`), each with its inverse.
- `kdl_doc` — the KDL document as plain values, parsed through the
  `kdl` crate.
- `dashboard_kdl` — the walk from KDL nodes to a `DashboardFile`.
- `variables`, `variable_graph`, `template` — the `variables` block:
  references, dependency order, cycles, and load/spawn tiers.
- `dashboard_file` — resolving a declaration (defaults, shells,
  scripts, triggers, layout, bindings) into a `Registry`.
- `registry`, `box_model`, `layout`, `trigger` — what the loop runs:
  sources, pane boxes, row allocation and pane rectangles.
- `shell` — the dialect table and the refusals a variable's command
  can end in.
- `derivation` — the step-by-step walk that derives variables at load
  and per spawn: dependencies first, overrides never run.
- `partial`, `audit` — what `check` learns without running anything:
  the values that can be known, and every load-time site read by its
  grammar or recorded with what blocked it.

`tests/` runs the library on concrete boards; `app/lib.rs` holds the
file and process plumbing.
