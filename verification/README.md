# lifeguard

A library that reduces what is known of Python modules to a verdict on each: may it be imported
lazily? It is verified with Verus, but for the calls into outside crates that are named below.

Each library of a program is analysed on its own and leaves a cache: its modules with the errors
held against them, their import edges, verdicts on their functions, re-exports, and facts about
classes. This crate merges the caches, settles imports and verdicts across them, drops the errors
that the merge refutes, and makes eligible imports lazy in the source.

- `names`, `text`, `order`: names, text and sorting, with the maps and sets the rest uses.
- `safety`, `errors`, `artifact`, `findings`: what a cache holds, and the analysis results it
  records.
- `merge`, `propagate`, `bundled_stubs`: merging caches, carrying verdicts along re-exports, and
  adding the modules that only stubs provide.
- `mro`, `resolver`, `imports`, `clearing`: finding the verdict on a call, resolving imports, and
  dropping errors.
- `resolution`, `reduce`, `workspace`: the two phases of a reduction, around a program-wide
  resolution that the caller supplies.
- `declaration`, `edits`, `fixer`, `run_tree`: finding and making the edits.
- `fix_run`: what a run of the fixer does to files, and that a second run does nothing.
- `memo`, `parallel`: the calls into `dashmap` and `rayon`. What is claimed of them is not proved.

`app/` holds the command line, the file access and the log; it is ordinary Rust.
