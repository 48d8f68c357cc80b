# dups

Appends xxHash3-64 checksums to the names of media files, `clip.mp4` becoming
`clip_0873784776488DB8.mp4`, so that files with different contents never share a
name. The logic is a library verified with Verus; a thin program around it does
the I/O.

## Layout

- `src/` is the verified library.
  - `text`, `order`, `index`: texts, sorting, lookup by key.
  - `path`, `prefix`, `path_facts`: paths, what Windows paths can start with, and
    facts about both.
  - `names`: which files are looked at, what a file is called with its hash.
  - `digest`: hashes of contents.
  - `disk`: what is known of the disk, as plain values.
  - `hashfile`: reading manifests. `generate`: writing them.
  - `check`: files that share a name.
  - `entries`, `probes`, `plan`, `rename`: from manifests to a plan.
  - `moves`: carrying out a plan and undoing it, step by step.
  - `logging`, `report`: logs and reports.
  - `error`: what can go wrong.
  - `laws`: what holds of the library as a whole, as proof functions.
- `app/` is the program: arguments, walking directories, reading, renaming and
  printing.
- `tests/` runs the library, on disks that are kept in memory.

## What the laws say

- A file that got its hash into its name is known to have this hash, in either
  case, and no other. This holds of names whose stem is text, unless an extension
  that is no text goes and leaves a dot in the stem.
- Where the name is text and, on Windows, not taken for a drive, the file stays in
  its directory and keeps its extension, and two paths lead to one target exactly
  if they are the same path with the same hash.
- The key by which files share a name does not depend on their directories.
- A plan has one action for each path that is listed. It never renames a path that
  is listed with two hashes, never two files to one target, and never a file that
  does not exist or over one that does.
- Once a plan was carried out and nothing else happened, a second one from the same
  entries renames nothing, as long as no file was where another was to go.
- A rename comes only after a row in the log that announces it. However far a plan
  was carried out, undoing what its log tells brings the disk back, where the paths
  are text and what is logged holds a carriage return only in fields that hold a
  comma, a quote or a line feed too.
- The log of a dry run calls for nothing to be undone.
- A check misses no two files that share a name. Once a run has renamed all those
  that share a name ambiguously, a check finds nothing, where their names are text,
  their sizes are known, files with one hash have one size, and no new name was in
  use.
- Manifests are read line by line, whatever ends a line and whether or not a mark
  comes first. What is read from a manifest that was generated and stands in its
  directory is the paths of the files and their hashes, where the names are text
  without line breaks and, but for Windows, without backslashes.
- Logs are read back as they were written, with carriage returns only as above.

## What is trusted

`str::to_lowercase`, `str::to_uppercase`, `str::from_utf8`,
`String::from_utf8_lossy` and `String::from_iter` of the standard library; the
hasher of `xxhash-rust`; the reader of `csv`. The doc comment of each wrapper says
what is believed of it.
