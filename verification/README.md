# minbup

A single-shot migration backup tool: it walks a directory into one
`tar.zst` archive (optionally encrypted with age), records a BLAKE3 manifest
of every entry, and writes a `.gitmeta` sidecar for each git project so that
a restore can turn the extracted trees back into repositories.

## Layout

- `src/` is the verified library. The decisions of a run live there, with
  their contracts: the manifest format and its parser (`manifest`), the
  bookkeeping of an archive being written (`ledger`), path rules (`paths`),
  `--exclude` handling (`excludes`), settings and large-file policy,
  including whether the queued large files are put to the user (`config`),
  the large-file review (`review`), git sidecars and what is read from `.git` and git's output (`gitmeta`, `project`), the restore checks
  (`restore`), the git commands of a rehydration (`rehydrate`), progress
  state and display samples (`progress`, `phase`), and text formatting
  (`text`, `textlines`, `timefmt`, `stamp`), down to how the current path
  is shortened for the screen.
- `app/` is the program around it: argument parsing, the file walker, tar,
  zstd and age streams, git invocations, the TOML sidecar, and the terminal
  interface. What it computes itself is floating point (the ETA, progress
  percentages and compression ratios) and time stamps read from the clock.
- `tests/` exercises the library on concrete values.
