# ternary_diff

Diff, patch, and three-way merge for sequences of ternary values
(`{-1, 0, +1}`), verified with Verus.

Layout of `src/`:

- `trit.rs`: `Trit` and its `i8` conversions.
- `seq.rs`: `TernarySeq`, a sequence of trits viewed as a `Seq<Trit>`.
- `script.rs`: `DiffOp` and what it means for a list of operations to be an
  edit script from one sequence to another (`is_edit_script`,
  `is_placed_edit_script`).
- `diff.rs`: the LCS table (`lcs_len`), the backtracked script
  (`edit_script`), normalisation into `Change`s (`normalize`), and
  `TernaryDiff::diff`, whose result is exactly `diff_ops(old, new)`.
- `patch.rs`: `TernaryPatch::apply` / `reverse` against `apply_ops` /
  `reverse_ops`.
- `merge.rs`: `ThreeWayMerge::merge`, `ConflictResolver::resolve`, and the
  merge laws. A change conflict is settled by overwriting the merged value
  at its position; a delete/change conflict records the index of the merged
  sequence where its position's element sits (or would go) and is settled
  there. `lemma_resolve_merge` shows that resolving a merge gives the
  position-by-position merge with each conflict replaced by its resolution,
  and `lemma_merge_swap` relates a merge to the one with branches swapped.
- `laws.rs`: the round-trip, optimality and identity laws of diffs, and
  that normalisation never changes what a patch does.

`app/lib.rs` holds the floating-point similarity ratio, computed from the
verified `TernaryDiff::equal_count`.
