# npm_tarball

Packs packages of a JavaScript registry into npm tarballs, with the packing verified by Verus.

A package is handed over as plain values: its modules, its parsed sources, its exports, its
dependencies and its remaining files. The library decides which files the npm package holds and
what they contain, writes the manifest, and lays everything out in a gzipped tar file.

- `src/` is the library. `tarball` holds the entry points, `emit` what modules become, `rewrite` and
  `source` the rewriting of specifiers, `manifest`, `exports`, `dependencies` and `bin` the
  manifest, `archive` and `digest` the bytes of the tarball. `laws` states what holds of packages as
  a whole, `repeatable` what two calls have in common.
- `tests/` runs the library on concrete packages.
- `app/` connects it to module graphs, buckets and the clock.

How the registry spells specifiers, extensions and names is handed in as functions (`Conventions`).
Files that have to be fetched take two steps: `create_npm_tarball` says which, and
`finish_npm_tarball` goes on once they have arrived.
