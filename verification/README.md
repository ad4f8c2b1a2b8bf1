# lib: a verified p-code data-flow graph and its rewriting passes

A decompiler works on a mutable graph of values (varnodes) and operations
(p-code ops) grouped into basic blocks. This crate holds that graph and the
passes that rewrite it, written in Verus: every public function carries a
`requires`/`ensures` contract, and the graph's structural invariant
(`Funcdata::wf`) is proved to hold after every mutation.

## Layout

- `pcode` — operation codes and address spaces.
- `graph` — `Funcdata`: the arenas of values, operations and blocks, the
  mutation primitives (set an operand, insert or destroy an operation, replace
  a value everywhere, add or remove an edge), reachability, unreachable
  block removal and splicing out a block that only jumps.
- `action`, `actiondb`, `coreaction` — the rule and action framework, the
  bookkeeping actions and dead-code removal.
- `deadcode` — the consumed-bit analysis, a least fixpoint.
- `equality` — functional equality of two values.
- `cover` — the live range of a value over blocks, and range intersection.
- `casts` — which conversions need an explicit cast.
- `alias` — address arithmetic on the frame base and local aliasing.
- `branchaction`, `blockaction` — branch folding, unreachable blocks, node
  joining and return splitting.
- `bitfield` — bit-range pulls and inserts absorbed into their neighbours.
- `callspecs`, `funcproto`, `callproto` — call-site records, parameter trials,
  argument recovery and call-result pruning.
- `condprop` — indirect calls and loads with constant targets.
- `dynamic` — a position-independent identity for a value.
- `lifted` — lifter output as plain values, where its basic blocks begin, and
  `Funcdata::from_lifted`, which builds the graph with every read a free value.

`tests/` exercises the library on concrete graphs.

## What is not here

Some passes of the full decompiler rest on analyses that this crate does not
hold, so they are not part of it:

- pruning dead branch targets, redundant-branch removal, the no-op action
  and conditional execution need the structuring analysis;
- argument recovery from a call-site record rebuilds operand lists through a
  recovery routine that is not part of the sources this crate follows;
- common-subexpression elimination over values and over merges, and
  conditional constant propagation, need dominance and renaming, and a
  search for the earliest use of a value within a block;
- dominant-copy elimination needs the merge analysis of high-level variables;
- active-parameter recovery, default parameters, extra-pop setup and the
  consumed-mask pass over call sites need the prototype model;
- the cleanup and default pipelines wire together those passes and read
  their configuration from the environment;
- recovered and invalidated data types need the type system, and the
  nonzero-mask analysis needs its own module;
- source emission needs structuring, value resolution and the native
  statement model.

The rewrite rule that collapses a merge of one value keeps its two exact
cases (a merge of one value becomes a copy; a merge of computations that are
functionally equal takes the computation) and always copies the computation,
without looking for an existing equal one in the block.

