# pkgm

A small package manager whose decision logic is verified with Verus.

- `src/` is the verified library: the package database (`pkgutil`, with the
  ordered file sets of `fileset`), conflict detection and safe removal,
  archive-entry rules (`archive`), repository lists, index queries and
  the JSON index format (`repo`, `index`, `query`, `json`, `catalog`),
  semantic-version constraints (`version`) and
  dependency resolution (`resolver`), plus the text routines they rest on
  (`text`, `order`).  Calls into `semver`, `regex`, `serde_json`
  (`from_str`) and std's `str::to_lowercase` go through a few trusted
  wrappers whose contracts are stated next to them.
- `app/` is the command-line program around it: argument parsing, the JSON
  database and its lock, HTTP downloads, unpacking archives and running
  `ldconfig`.
- `tests/` exercises the library on concrete values.
