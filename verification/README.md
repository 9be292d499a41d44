# ddbug (verified core)

The logic of ddbug's printing of debugging information, written in Verus and proved
against its contracts.

- `src/glob.rs`: glob patterns for file paths (`*`, `?`, `**`).
- `src/merge.rs`: merging two sequences ordered by key.
- `src/filter.rs`: which types, functions and variables of a unit are listed.
- `src/index.rs`, `src/index_lemmas.rs`: the ids of the items of one file or of the two
  files of a diff, and what holds of every index.
- `src/print/`: the printer interface (`printer`), the plain-text printer (`text`),
  numbers as text (`format`), the print and diff states (`state`), stable sorting by key,
  which also orders the units and items of a diff (`sort`, `order`), the file summary (`file`), the detail view of an id (`id`),
  registers (`register`), and the bloat report (`bloat`).
- `src/context.rs`: a file (or two) with its summary and index, printing the summary
  and answering requests for details and parents.
- `app/`: writing printed text to a stream.
