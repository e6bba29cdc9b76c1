# MiniGit

A small content-addressed version control system, verified with Verus.

- `src/` is the library: the object model and its JSON encoding, SHA-256
  object names, the index, branches and `HEAD`, history walks, the common
  ancestor search and whole-file three-way merges. A repository is handed to
  it as a `repo::Store` (the files of `.minigit` and of the working tree, as
  read from disk); every change a command makes is recorded as a
  `repo::Effect` for the caller to carry out. `src/laws.rs` states and proves
  properties that tie several commands together.
- `tests/` exercises the library on concrete repositories.
- `app/` is the `minigit` command: it reads a repository from disk, runs one
  command of the library and writes back the recorded changes.
