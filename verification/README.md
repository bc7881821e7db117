# tididi

Tree decision diagrams, verified with Verus.

A tree decision diagram represents a Boolean function over the variables at the
leaves of a binary tree, the *vtree*. Every node of the vtree has a *level*: a
table of decision nodes, each a list of pairs of references into the levels of
the two children. Levels at the bottom may be *summed out*: their structure is
replaced by counts or by exact rational weights, and references name slots of
that store or carry a small count themselves.

The library builds diagrams, conjoins them, counts their models, evaluates them
in a semiring, and makes them small again.

## Layout

| Path | Contents |
| --- | --- |
| `src/vtree.rs`, `src/level.rs`, `src/tdd.rs` | Vtrees, levels, diagrams, and what a diagram is worth |
| `src/marg_ref.rs`, `src/marg_slots.rs`, `src/counts.rs`, `src/big_side.rs` | Summed-out levels that carry counts |
| `src/weights.rs`, `src/rational.rs`, `src/rational_laws.rs`, `src/rat_sums.rs` | Summed-out levels that carry weights, and rational arithmetic |
| `src/build/`, `src/conjoin.rs`, `src/meets_apart.rs` | Constants, clauses, conjunction |
| `src/canonical.rs` | Canonical form and its uniqueness |
| `src/query/` | Model counts, pinned counts, semiring evaluation, satisfiability, reduced size |
| `src/minimize/` | Pruning, twin contraction, pair fusion, slot pruning |
| `src/limits.rs`, `src/config.rs`, `src/reserve.rs`, `src/mem_pressure.rs` | Budgets, deadlines and memory limits |
| `app/` | Process-wide state, clocks, floating-point logarithms |
| `tests/` | Tests of the library from outside |

## What is proved

The value of a diagram is defined in `src/tdd.rs`, as a column of natural numbers
at every vtree node. Contracts and laws are stated over it.

- Counting returns the number of models, and counting under pins the number of
  those that agree with the pins (`src/query/count.rs`, `src/query/pins.rs`).
- Evaluation with rational weights returns the sum, over the models, of the
  products of the weights of their literals (`src/query/weighted.rs`).
- A clause's diagram has the clause's models; a conjunction's diagram has the
  models that its operands share (`src/build/mod.rs`, `src/conjoin.rs`).
- Every minimization step keeps the count and the models of the output
  (`src/minimize/refine.rs`), and what it is worth when literals and summed-out
  levels carry exact weights (`src/minimize/worth.rs`); no step makes a
  summed-out level explicit again.
- Two diagrams in canonical form that have the same models are the same up to
  the numbering of nodes, and have one size (`src/canonical.rs`). The diagram of a clause is in
  canonical form (`src/build/reduced.rs`), and minimization brings conjunctions
  of such diagrams into it, so that equivalent ones become the same, and a
  second minimization changes nothing (`src/minimize/canon.rs`).
- Contraction leaves nothing to fuse at the levels it was asked to look at, nor
  where nothing was to be fused before, and no twins below these levels and
  those that lost nodes; minimization carries this through packing, joining and
  the content scan, there for levels with at most one summed-out child
  (`src/minimize/contract/fusion_close.rs`, `src/minimize/closing.rs`).
- A poll reads the clock and asks the callback when it is due. What the limits
  say of a walk holds whatever they answer, and the work clock never falls
  (`src/limits.rs`).
- A step that runs out of budget leaves a well-formed diagram with the same
  value, or one that is marked as poisoned. A poll that stops the contraction
  leaves one with the same value.

Functions whose names start with `law_` state these properties.

## What is trusted

Calls into `num-bigint`, `num-rational`, `rustc-hash` and `smallvec` stand behind
small functions marked `external_body`, in `src/bigint.rs`, `src/rational.rs`,
`src/fx.rs` and `src/small_list.rs`. A few functions of the standard library are
treated the same way in `src/limits.rs`, `src/level.rs` and
`src/minimize/contract/plan.rs`. The comment above each says what is claimed.
