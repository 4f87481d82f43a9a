# herdr_sidebar

The workspace overview of the herdr sidebar: which folders a VS Code workspace selects,
which task and repository each belongs to, and which changes HEAD commits on top of its
merge-base with the repository's locally cached default branch.

- `src/` is the library, verified with Verus.
  - `delta.rs`: the inspection of committed changes. `inspect` takes the outputs of the git
    commands it asked for so far and answers with the next command to run or the finished
    `Delta`; `parse_names` reads `git diff --name-status -z`.
  - `name_status.rs`: what git prints for a list of changes, and the proof that
    `parse_names` reads it back.
  - `workspace.rs`: the registry of repositories, the task registrations, the choice of the
    workspace file in a directory, and the assembly of the selected folders.
  - `paths.rs`, `strs.rs`: paths read component by component, and string helpers, each
    proved against a spec function.
- `app/` runs git and reads the files: `inspect` drives the library's inspection with real
  git runs, `discover` reads the workspace, `task.json` files and
  `config/repositories.yaml` and hands what it read to the library.
- `tests/` holds the tests.
