# warp-file-watcher

A verified core for a project explorer that follows the file system.

Changes of files are gathered and coalesced by a debounced watcher (with a fallback to polling),
applied in place to a file tree that is bounded by an LRU cache, grouped into updates, and shown by
a tree view that knows what has to be redrawn.

- `src/`: the library, verified with Verus. It decides, and does no I/O.
  - `path`, `path_set`, `text`: paths as lists of components, sets of paths, numbers as text
  - `repo_metadata`: watchers, file tree, repository model, directory scan with ignore
    files
  - `ui`: tree view and project explorer pane
- `tests/`: tests of the library
- `app/`: a demo that connects the library with `notify`, the file system and `tokio`

Modules named `..._laws` state what holds over several operations: a tree never outgrows its bound,
nothing below a removed directory stays visible, coalesced events are one per path, a
scan finds exactly what is not ignored, and every change of a file ends as a dirty path and a
redraw.
