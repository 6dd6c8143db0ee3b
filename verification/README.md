# historica-git

Conversion between git repositories and Historica stores, by way of the
fast-import stream: `git fast-export` is read into a store, and a store is
written out as a stream for `git fast-import`.

The library under `src/` is verified with Verus. Each public function states
what it returns over a mathematical model of its data, and the properties
that span several functions are stated and proved as public proof functions
beside the code they speak of.

## Layout

- `src/stream/` — the stream itself: its grammar (`grammar.rs`) and the
  reader proved to follow it (`read.rs`), the writer (`write.rs`), path
  quoting both ways (`quote.rs`), and `both_ways.rs`, the proof that what the
  writer spells the reader takes back to the commands it came from.
- `src/tree.rs` — replaying a stream into trees: what each change does to a
  tree, with the laws for deleting, renaming and copying a directory.
- `src/import.rs`, `src/import/folder.rs` — the decisions of an import: what a
  ref becomes, which bookmark follows git, what a folder must lose and gain.
- `src/export.rs` — the decisions of a write: the order commits are sent in,
  their parents, which refs move and which are held back, what is said of
  what did not cross.
- `src/carried.rs` — the headers that carry a committer and a signature
  across, and the proof that they read back.
- `src/identity.rs` — change IDs derived from a commit's object ID.
- `src/remembered.rs` — the record a repository keeps of a conversion.
- `src/plumbing.rs` — what git's plumbing commands answer, taken apart.
- `app/` — the command line, the processes, the files and the store: what a
  verifier does not see.
- `tests/` — the tests, run against the compiled library.

Calls into `jiff`, `sha2` and `historica` stand behind small trusted
wrappers, each with a doc comment saying what its contract claims.
