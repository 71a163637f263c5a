# mikrogit

The core of a desktop Git client, with proved contracts: the parsers for git's
porcelain output, the conflict-marker editor, the command lines the client
runs and the small decisions around them.

- `src/` is the verified library.
  - `text.rs`: character-level helpers with their specifications (lines as
    `str::lines` cuts them, splitting, trimming, decimal numbers).
  - `git/status.rs`: `git status --porcelain=v2 --branch` into a repository
    status.
  - `git/diff.rs`: unified diffs into hunks with line numbers, numstat
    counts, previews of untracked files.
  - `git/files.rs`: conflict regions and their resolution, the explorer's
    path checks, listing order and file previews.
  - `git/ops.rs`: branches, stashes, history, and the argument lists of the
    operations.
  - `git/console.rs`: which runs the console records, and how.
  - `git/mod.rs`: errors, run outcomes, repository-relative paths, the
    repository root.
  - `state.rs`, `watcher.rs`, `commands.rs`: the open repository, which
    file-system events call for a refresh, and the window commands' own
    rules.
- `app/` is the unverified application around it: git processes through
  tokio, the file system, the debounced file watcher and the Tauri window.
- `tests/` runs the library on concrete inputs.
