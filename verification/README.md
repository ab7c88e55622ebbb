# rbrinfo

Control-flow summaries of the functions of a Rust crate, taken from the
compiler's optimized MIR: each basic block with its predecessors and its
successors, and the *condition chains* of a function, the paths of branch
decisions from the entry block to a block without successors.

- `src/` is the verified library (Verus):
  - `text.rs`: decimal numerals, joins, block labels (`bb3`, `[bb0, bb2]`);
  - `blocks.rs`: the block model, the successor table rebuilt from the
    predecessor lists, and the block dump;
  - `chains.rs`: the depth-first walk that enumerates condition chains, its
    termination test, the chain report, and the laws of the walk;
  - `analysis/callback.rs`: the state and work of the compiler callbacks;
  - `trans.rs`: the stand-alone dump, blocks named in reverse postorder.
- `app/` drives the compiler, reads the bodies out of it into plain values,
  and prints what the library returns.
- `tests/` runs the library on hand-built bodies.
