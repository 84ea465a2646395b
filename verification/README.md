# impermanence_diff

Compares a snapshot of a directory tree taken at boot with the live tree and
grades every difference as meaningful or not: an empty directory replaced by a
mount point, a link that is identical, or a nix store link whose generation
changed do not matter; other creations, deletions and replacements do, and a
directory matters when an entry below it does.

- `src/` is the library, verified with Verus:
  - `names.rs`: the order in which entry names are sorted;
  - `diff_util.rs`: merging the listings of the two sides;
  - `typed_path.rs`: what was seen at a path, and its kind;
  - `dir_diff.rs`: the difference at a location and the cache of graded results
    (`Differ`), which asks for locations to be observed and never touches the
    filesystem itself;
  - `assesser.rs`: the grading rules;
  - `tui.rs`, `tui/nav_list.rs`: what the browser shows and how keys move through it;
  - `thunk.rs`, `typed_actions.rs`: small building blocks.
- `app/` is the program around it: it reads the filesystem when the library asks
  for an observation, draws the terminal interface, and parses the command line.
- `tests/` runs the library on small made-up trees.
