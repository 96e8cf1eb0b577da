# Uslu

Uslu keeps a to-do list as a focus tree: a directed acyclic graph of tasks,
where an edge says that one task is a prerequisite of another. This crate is
its verified core, written in Verus; the desktop front end lives in `app/`.

## Layout

- `src/` — the verified library.
  - `models.rs`, `reach.rs`: the graph, its well-formedness, cycle refusal.
  - `visibility.rs`, `levels.rs`: which tasks show under collapsed parents,
    and the layer of each task (one more than its deepest prerequisite).
  - `sugiyama.rs`, `placement.rs`: the layered layout plan and the placement
    of rows and columns, leaving frozen tasks where the user put them.
  - `records.rs`, `escape.rs`, `markdown.rs`, `rebuild.rs`, `md_laws.rs`:
    the Markdown store, and the proof that writing a graph and reading it
    back gives the same tasks and links.
  - `orgmode.rs`, `org_laws.rs`, `org_round_trip.rs`: the Org-mode store and
    the same round-trip law for it.
  - `notebox.rs`, `title_text.rs`, `sidebar.rs`: note parsing, task boxes,
    title wrapping and side-panel texts.
  - `images.rs`, `image_laws.rs`: the image store, and PNG and Base64 through
    the `image` and `base64` crates.
  - `file_selector.rs`: the file picker's state machine.
  - `preview.rs`: the picker's PNG previews, shrunk past 480 pixels,
    through the `image` crate.
  - `session.rs`: what the editor does on clicks, keys and form edits.
- `tests/` — tests run against the compiled library.
- `app/` — the `iced` user interface, file I/O and drawing.
