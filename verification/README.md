# git_gui

The core of a cross-platform Git graphical client, written in Verus: every
function of the library is verified, and every one with a result to describe
carries a contract that states it (the constructors of the stateless service
types have nothing to state).

## Layout

- `src/` — the verified library.
  - `dag_layout` — lanes, colors and edges of the commit graph.
  - `view_filter` — solo, hide and pin-to-left views of the graph.
  - `search_engine` — commit search with highlights.
  - `staging_service` — the longest-common-subsequence line diff and
    line-level staging, unstaging and discarding; the file status list.
  - `diff_service`, `stash_manager` — file diffs built from the events of a
    diff walk.
  - `commit_service` — reference labels, commit records, log filters and
    pagination, cherry-pick and revert messages, patch files.
  - `undo_engine` — undo and redo over a linear history of snapshots.
  - `repository_manager` — the bounded list of recent repositories.
  - `host_integration` — web addresses of GitHub and GitLab repositories.
  - `git_core` — the head reference, the repository state, open errors, and
    commit ids parsed into their twenty bytes.
  - the other modules — the records, plans, messages and errors of branches,
    remotes, tags, rebases, submodules, worktrees, blame, credentials,
    configuration and file watching.
- `tests/` — tests of the library on concrete values, some of them on
  temporary repositories.
- `app/` — the client around the library: repositories on disk through
  `git2`, file watching through `notify`, the settings and recent-repository
  JSON files, and the command layer.

Proved laws include the DAG layout invariants, the solo/hide/pin view
properties, what line-level staging takes when nothing or everything is
selected, the stage/unstage round trip of line-level staging for changes made
in place to distinct lines, the
undo/redo round trip and the bound on the recent-repository list; they are
the public `lemma_*` proof functions of `src/`.
