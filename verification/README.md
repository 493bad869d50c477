# mcrl2_syntax

Syntax-level building blocks of mCRL2 specifications and the sort inference of their data
expressions, written in Verus: the functions in `src/` carry contracts that Verus proves, but
for a few trusted wrappers around `rand` and `std`, whose contracts state what those crates
document.

## Layout

- `lexical.rs`, `condition_marker.rs`: the byte-level scanner that marks the conditions of
  process expressions (`c -> p <> q`) before parsing, with the laws that the marks are sorted,
  unique, stand where reported, and that erasing them gives the input back, and that a region
  scan places every else marker right after a `->` and never more of them than conditions.
- `sorts.rs`, `data_expr.rs`, `state_formula.rs`, `modal.rs`: sort expressions and
  declarations with the subsort order on numbers and finite containers, data expressions,
  state formulas with their substitution traversal, and the sort classification of modal
  formulas.
- `interner.rs`: the interned lattice of resolved sorts (a sort is stored once, so equal sorts
  have equal names), with the least upper bound of two sorts and the number of widening steps.
- `unification.rs`: unification of sorts under inference, with checkpoints and rollback;
  unification succeeds exactly when some assignment of sorts to the variables makes both sides
  the same sort, the bindings it makes are then a most general such assignment, and a successful
  unification makes both sides stand for the same sort.
- `inference.rs`: the constraints of one equation, the merging of widenings into a shared sort
  into joins, and the ranked backtracking search for the most specific typing. Every typing it
  returns is read out of bindings under which each constraint holds; where no constraint is a
  widening, the typing is the one of the only choice of least measure, an ambiguity is two
  choices of least measure, and no typing is reported exactly when no assignment of sorts
  satisfies the constraints.
- `signature.rs`, `well_typed.rs`, `action_sorts.rs`: signatures of data specifications and
  their union and restriction, the check that product sorts only occur as function domains, and
  the sort checks of communications and renamings.
- `process.rs`: process expressions as far as generated initial processes are built of them,
  and the order on action names (by their UTF-8 bytes, as `str` orders them) and on
  multi-action labels, with insertion into sorted lists without repetition.
- `random*.rs`: generators of random data specifications, process, PBES and PRES variables, and
  the parallel initial process with its random wrappers (hiding, blocking, renaming,
  communication, allowing), drawing from `rand` through small trusted wrappers.

`app/` holds the random linear-process generator, whose transition draws take a floating-point
probability, around the verified builder `lps_from_transitions`.

Tests live in `tests/`, one file per module.
