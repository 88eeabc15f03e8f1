# heap_snapshot

A verified library for V8 `.heapsnapshot` files. It parses the snapshot
bytes and computes what the snapshot views are built on: retainers, the
breadth-first distances from the GC roots and the depths of what they do not
reach, dominators and retained sizes, detachedness, native-context
attribution, class names, statistics, and the key handling of the
interactive viewer.

- `src/` is the library, written in Verus: every function carries a
  contract, and the laws that span several functions stand as public proof
  functions (for example `HeapSnapshot::lemma_retainers_invert_edges` or
  `HeapSnapshot::lemma_weak_option_depths`).
- `tests/` runs the library on concrete snapshots.
- `app/` is the command-line program around it: reading files and printing.

The calls into `memchr` and `rustc-hash` go through small trusted wrappers
(`src/scan.rs`, `src/fxcoll.rs`) whose contracts say what those crates do.
