# atomic_git

The verified core of a bridge between an Atomic repository and Git. It decides
how Git commits become Atomic changes, how Atomic views become Git commits and
refs, and how the two are kept from drifting apart. Every rule of it is stated
as a contract and proved by Verus.

## What is where

`src/` is the library. It works on plain values; nothing in it reads a file,
runs a process or talks to a remote.

Reading Git:
- `parse`, `commit`, `line_units`, `message`, `oid`: commits, diffs, trailers
  and object ids as values.
- `history`, `sequence`, `tree`: the walk to the imported frontier, the order
  in which commits are taken in, and the trees that they must project.

Importing:
- `records`, `graph`, `graph_first`, `line_index`, `mirror`: the change that a
  commit becomes, and the index of lines that later commits build on.
- `synthesis`, `facts`, `merge`, `squash`, `rewrite`, `ledger`, `claims`: what
  is recorded of each file, the hashed facts, merges and squashes, evidence of
  rewrites, and claims that a commit makes about itself.
- `import`, `progress`: options, statistics and what the user is told.

Publishing:
- `push`, `shadow`, `ref_mapping`, `transport`: commit messages and leases,
  projections of views, mappings between views and refs, binding refs.
- `roundtrip`: what a push writes is what an import recognises.

Courses of action (`*_run`, `recording`) are machines: each takes what was
observed and says what to do next, so that the order of the steps is proved
too.

`text`, `paths` and `json` hold strings, maps keyed by paths, and JSON values.

`app/` is the rest: the command line, Git and file access, and loops that
perform the steps. The Atomic repository itself stands behind the traits of
`app/store.rs`.

`tests/` runs the library on concrete values.
