# SortSmith core

The verified core of SortSmith, a private, reversible file organizer: rule
validation and matching, destination planning with collision handling,
dry-run previews (with an incremental cache), execution and undo as state
machines driven by the caller, undo journals, duplicate grouping, bundled
presets, and the checks the desktop app applies to its settings and paths.

- `src/` is the library, verified with Verus. Paths are modelled by their
  components (`paths.rs`); what is on disk reaches the library only through
  probes the caller passes in (`present`, `resolve`, `occupied`) or through
  the steps a run asks the caller to perform (`execution.rs`). A preview,
  cached or not, is stated as a run over the walk's items, one step per
  item (`engine.rs`); `preview_laws.rs` proves what every run guarantees
  of its moves, and that a cached preview decides as an uncached one while
  the disk and links do not change and no rule depends on the time. The
  clock, like the disk, is a probe the caller passes in.
- `app/` is the plain Rust around it: walking folders with `walkdir`, moving
  files, writing journals and settings as JSON, hashing in parallel, and the
  desktop commands over an app-data folder.
- `tests/` exercises the library, including an in-memory disk that drives
  previews, executions, undos and the preview cache.
