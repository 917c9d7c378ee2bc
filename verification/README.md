# topo

A roadmap tool for markdown projects: `ROADMAP.md`, `ARCHIVE.md` and the detail
documents under `roadmap/` become a graph of file, section and task nodes, joined by
contains, sequence and reference edges. The graph can be queried, summarized, diffed and
served over HTTP, and tasks can be added, updated, deleted, archived and restored.

## Layout

- `src/` is the library, verified with Verus. Each public function states what it
  returns in its `ensures`, over spec functions on sequences of characters, and the laws
  of the library are public proof functions (`lemma_...`).
  - `graph`, `sort`: the graph and its ordering.
  - `scan`: markdown events to nodes, edges and links (`scan::markdown`), the resolution
    of links, the file tree (`scan::directory`), and the events of a text
    (`scan::events`, through `pulldown_cmark`).
  - `resolve`, `query`, `context`, `status`, `diff`, `output`, `serve`: reading the graph.
  - `ops`, `delete`, `update`, `dedup`: the edits of the roadmap texts, from old text to
    new text.
- `app/` is the command line and the web server: it reads and writes the files, walks
  the project, keeps the graph cache, and prints what the library computes.
- `tests/` runs the library on concrete inputs.
