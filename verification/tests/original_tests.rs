use ternary_diff::{
    Conflict, ConflictResolver, DiffOp, ResolutionStrategy, TernaryDiff, TernaryPatch, TernarySeq,
    ThreeWayMerge, Trit,
};

/// Fraction of operations that are `Equal`; two empty sequences score 1.0.
fn similarity(diff: &TernaryDiff) -> f64 {
    if diff.ops().is_empty() {
        return 1.0;
    }
    diff.equal_count() as f64 / diff.ops().len() as f64
}

// --- Trit ---

#[test]
fn test_trit_basic() {
    assert_eq!(Trit::Neg.to_i8(), -1);
    assert_eq!(Trit::Zero.to_i8(), 0);
    assert_eq!(Trit::Pos.to_i8(), 1);
}

#[test]
fn test_trit_roundtrip() {
    for v in [-1, 0, 1] {
        assert_eq!(Trit::from_i8(v).unwrap().to_i8(), v);
    }
    assert_eq!(Trit::from_i8(2), None);
    assert_eq!(Trit::from_i8(-2), None);
    assert_eq!(Trit::from_i8(127), None);
}

// --- TernarySeq ---

#[test]
fn test_seq_basic() {
    let seq = TernarySeq::from_i8(&[-1, 0, 1]);
    assert_eq!(seq.len(), 3);
    assert_eq!(seq.get(0), Some(Trit::Neg));
    assert_eq!(seq.get(2), Some(Trit::Pos));
    assert_eq!(seq.get(3), None);
    assert!(!seq.is_empty());
    assert!(TernarySeq::new(vec![]).is_empty());
}

#[test]
fn test_seq_push() {
    let mut seq = TernarySeq::new(vec![]);
    seq.push(Trit::Pos);
    seq.push(Trit::Neg);
    assert_eq!(seq.len(), 2);
    assert_eq!(seq.trits(), &[Trit::Pos, Trit::Neg]);
}

#[test]
fn test_seq_insert_remove() {
    let mut seq = TernarySeq::from_i8(&[0, 0, 0]);
    seq.insert(1, Trit::Pos);
    assert_eq!(seq.len(), 4);
    assert_eq!(seq.get(1), Some(Trit::Pos));
    assert_eq!(seq.remove(1), Some(Trit::Pos));
    assert_eq!(seq.len(), 3);
    assert_eq!(seq.remove(99), None);
}

#[test]
fn test_seq_slice() {
    let seq = TernarySeq::from_i8(&[-1, 0, 1, -1, 0]);
    let slice = seq.slice(1, 4);
    assert_eq!(slice.len(), 3);
    assert_eq!(slice.get(0), Some(Trit::Zero));
}

#[test]
fn test_seq_slice_out_of_range_never_panics() {
    let seq = TernarySeq::from_i8(&[-1, 0, 1]);
    assert_eq!(seq.slice(0, 99).len(), 3);
    assert_eq!(seq.slice(99, 99).len(), 0);
    assert_eq!(seq.slice(99, 1).len(), 0);
    assert_eq!(seq.slice(1, 1).len(), 0);
    assert_eq!(seq.slice(2, 5).trits(), &[Trit::Pos]);
}

#[test]
fn test_seq_set_out_of_bounds_is_noop() {
    let mut seq = TernarySeq::from_i8(&[0, 0]);
    seq.set(5, Trit::Pos);
    assert_eq!(seq.trits(), &[Trit::Zero, Trit::Zero]);
    seq.set(0, Trit::Pos);
    assert_eq!(seq.get(0), Some(Trit::Pos));
}

#[test]
fn test_from_i8_silent_drop_vs_strict() {
    let dropped = TernarySeq::from_i8(&[1, 2, 3]);
    assert_eq!(dropped.trits(), &[Trit::Pos]);
    assert_eq!(TernarySeq::from_i8_strict(&[1, 2, 3]), Err(2));
    assert!(TernarySeq::from_i8_strict(&[-1, 0, 1]).is_ok());
    assert!(TernarySeq::from_i8_strict(&[]).unwrap().is_empty());
}

// --- Diff ---

#[test]
fn test_diff_equal() {
    let a = TernarySeq::from_i8(&[1, -1, 0]);
    let b = TernarySeq::from_i8(&[1, -1, 0]);
    let diff = TernaryDiff::diff(&a, &b);
    assert_eq!(diff.change_count(), 0);
    assert_eq!(diff.ops().len(), 3);
    assert!(diff.ops().iter().all(|op| matches!(op, DiffOp::Equal { .. })));
}

#[test]
fn test_diff_change() {
    let a = TernarySeq::from_i8(&[1, -1, 0]);
    let b = TernarySeq::from_i8(&[1, 0, 0]);
    let diff = TernaryDiff::diff(&a, &b);
    assert_eq!(diff.change_count(), 1);
    assert_eq!(
        diff.ops(),
        &[
            DiffOp::Equal { pos: 0, trit: Trit::Pos },
            DiffOp::Change { pos: 1, old: Trit::Neg, new: Trit::Zero },
            DiffOp::Equal { pos: 2, trit: Trit::Zero },
        ]
    );
}

#[test]
fn test_diff_insert() {
    let a = TernarySeq::from_i8(&[1, 0]);
    let b = TernarySeq::from_i8(&[1, -1, 0]);
    let diff = TernaryDiff::diff(&a, &b);
    assert_eq!(diff.ops().iter().filter(|o| matches!(o, DiffOp::Insert { .. })).count(), 1);
    assert_eq!(diff.change_count(), 1);
    assert_eq!(TernaryPatch::apply(&a, &diff).trits(), b.trits());
}

#[test]
fn test_diff_delete() {
    let a = TernarySeq::from_i8(&[1, -1, 0]);
    let b = TernarySeq::from_i8(&[1, 0]);
    let diff = TernaryDiff::diff(&a, &b);
    assert_eq!(diff.ops().iter().filter(|o| matches!(o, DiffOp::Delete { .. })).count(), 1);
    assert_eq!(diff.change_count(), 1);
    assert_eq!(TernaryPatch::apply(&a, &diff).trits(), b.trits());
}

#[test]
fn test_diff_empty() {
    let a = TernarySeq::new(vec![]);
    let b = TernarySeq::new(vec![]);
    let diff = TernaryDiff::diff(&a, &b);
    assert_eq!(diff.ops().len(), 0);
    assert_eq!(diff.change_count(), 0);
    assert_eq!(similarity(&diff), 1.0);
    assert_eq!(TernaryPatch::apply(&a, &diff).trits(), b.trits());
}

#[test]
fn test_diff_insert_all() {
    let a = TernarySeq::new(vec![]);
    let b = TernarySeq::from_i8(&[1, -1, 0]);
    let diff = TernaryDiff::diff(&a, &b);
    assert_eq!(diff.change_count(), 3);
    assert!(diff.ops().iter().all(|op| matches!(op, DiffOp::Insert { .. })));
    assert_eq!(TernaryPatch::apply(&a, &diff).trits(), b.trits());
}

#[test]
fn test_diff_delete_all() {
    let a = TernarySeq::from_i8(&[1, -1, 0]);
    let b = TernarySeq::new(vec![]);
    let diff = TernaryDiff::diff(&a, &b);
    assert_eq!(diff.change_count(), 3);
    assert!(diff.ops().iter().all(|op| matches!(op, DiffOp::Delete { .. })));
    assert_eq!(TernaryPatch::apply(&a, &diff).trits(), b.trits());
}

#[test]
fn test_diff_disjoint() {
    let a = TernarySeq::from_i8(&[1, 1, 1]);
    let b = TernarySeq::from_i8(&[-1, -1, -1]);
    let diff = TernaryDiff::diff(&a, &b);
    assert_eq!(similarity(&diff), 0.0);
    assert_eq!(diff.change_count(), 3);
    assert_eq!(TernaryPatch::apply(&a, &diff).trits(), b.trits());
}

#[test]
fn test_diff_single_element() {
    let a = TernarySeq::from_i8(&[0]);
    let b = TernarySeq::from_i8(&[1]);
    let diff = TernaryDiff::diff(&a, &b);
    assert_eq!(diff.ops().len(), 1);
    assert_eq!(diff.change_count(), 1);
    assert_eq!(TernaryPatch::apply(&a, &diff).trits(), b.trits());
    let d2 = TernaryDiff::diff(&a, &a);
    assert_eq!(d2.change_count(), 0);
}

// --- Patch round-trip ---

/// Diff then patch must reconstruct b exactly, and the reversed diff applied
/// to b must reconstruct a exactly.
fn assert_roundtrip(a: &TernarySeq, b: &TernarySeq) {
    let diff = TernaryDiff::diff(a, b);
    let patched = TernaryPatch::apply(a, &diff);
    assert_eq!(patched.trits(), b.trits(), "forward round-trip failed");

    let reversed = TernaryPatch::reverse(&diff);
    let restored = TernaryPatch::apply(b, &reversed);
    assert_eq!(restored.trits(), a.trits(), "reverse round-trip failed");
}

#[test]
fn test_patch_apply() {
    let a = TernarySeq::from_i8(&[1, -1, 0]);
    let b = TernarySeq::from_i8(&[1, 0, 0]);
    assert_roundtrip(&a, &b);
}

#[test]
fn test_patch_reverse() {
    let a = TernarySeq::from_i8(&[1, -1, 0]);
    let b = TernarySeq::from_i8(&[1, 0, 0]);
    assert_roundtrip(&a, &b);
}

#[test]
fn test_patch_roundtrip_readme_example() {
    let a = TernarySeq::from_i8(&[1, -1, 0, 1]);
    let b = TernarySeq::from_i8(&[1, 0, 0, -1]);
    assert_roundtrip(&a, &b);
    let diff = TernaryDiff::diff(&a, &b);
    assert!(diff.change_count() >= 2);
}

#[test]
fn test_patch_roundtrip_many_cases() {
    let cases: &[(&[i8], &[i8])] = &[
        (&[1, -1, 0, 1], &[1, 0, 0, -1]),
        (&[1, 1, 1], &[-1, -1, -1]),
        (&[1, 0], &[1, -1, 0]),
        (&[1, -1, 0], &[1, 0]),
        (&[], &[1, -1, 0]),
        (&[1, -1, 0], &[]),
        (&[1, 0, 1, 0], &[1, 1]),
        (&[0], &[1]),
        (&[0], &[0]),
        (&[], &[]),
        (&[1, -1, 1, -1, 1], &[1, 0, 0, -1, 0, 1]),
        (&[1, 0, 1, 0, 1, -1], &[0, 1, -1]),
    ];
    for (a, b) in cases {
        let sa = TernarySeq::from_i8(a);
        let sb = TernarySeq::from_i8(b);
        assert_roundtrip(&sa, &sb);
    }
}

// --- Similarity ---

#[test]
fn test_similarity_identical() {
    let a = TernarySeq::from_i8(&[1, -1, 0]);
    let diff = TernaryDiff::diff(&a, &a);
    assert_eq!(similarity(&diff), 1.0);
}

#[test]
fn test_similarity_different() {
    let a = TernarySeq::from_i8(&[1, 1, 1]);
    let b = TernarySeq::from_i8(&[-1, -1, -1]);
    let diff = TernaryDiff::diff(&a, &b);
    assert_eq!(similarity(&diff), 0.0);
}

// --- Three-way merge ---

#[test]
fn test_three_way_merge_no_conflict() {
    let base = TernarySeq::from_i8(&[0, 0, 0]);
    let left = TernarySeq::from_i8(&[1, 0, 0]);
    let right = TernarySeq::from_i8(&[0, 0, -1]);
    let result = ThreeWayMerge::merge(&base, &left, &right);
    assert!(!result.has_conflicts);
    assert_eq!(result.merged.get(0), Some(Trit::Pos));
    assert_eq!(result.merged.get(2), Some(Trit::Neg));
}

#[test]
fn test_three_way_merge_conflict() {
    let base = TernarySeq::from_i8(&[0, 0, 0]);
    let left = TernarySeq::from_i8(&[1, 0, 0]);
    let right = TernarySeq::from_i8(&[-1, 0, 0]);
    let result = ThreeWayMerge::merge(&base, &left, &right);
    assert!(result.has_conflicts);
    assert_eq!(result.conflicts.len(), 1);
}

#[test]
fn test_three_way_merge_delete_change_conflict() {
    let base = TernarySeq::from_i8(&[0, 0, 0]);
    let left = TernarySeq::from_i8(&[0, 0]);
    let right = TernarySeq::from_i8(&[0, 0, 1]);
    let result = ThreeWayMerge::merge(&base, &left, &right);
    assert!(result.has_conflicts);
    assert!(result.conflicts.iter().any(|c| matches!(c, Conflict::DeleteChangeConflict { .. })));
}

// --- Conflict resolution ---

#[test]
fn test_conflict_resolver_left() {
    let base = TernarySeq::from_i8(&[0, 0, 0]);
    let left = TernarySeq::from_i8(&[1, 0, 0]);
    let right = TernarySeq::from_i8(&[-1, 0, 0]);
    let mut result = ThreeWayMerge::merge(&base, &left, &right);
    ConflictResolver::resolve(&mut result, ResolutionStrategy::TakeLeft);
    assert!(!result.has_conflicts);
    assert_eq!(result.merged.get(0), Some(Trit::Pos));
}

#[test]
fn test_conflict_resolver_right() {
    let base = TernarySeq::from_i8(&[0, 0, 0]);
    let left = TernarySeq::from_i8(&[1, 0, 0]);
    let right = TernarySeq::from_i8(&[-1, 0, 0]);
    let mut result = ThreeWayMerge::merge(&base, &left, &right);
    ConflictResolver::resolve(&mut result, ResolutionStrategy::TakeRight);
    assert!(!result.has_conflicts);
    assert_eq!(result.merged.get(0), Some(Trit::Neg));
}

#[test]
fn test_conflict_resolver_neutral() {
    let base = TernarySeq::from_i8(&[0, 0, 0]);
    let left = TernarySeq::from_i8(&[1, 0, 0]);
    let right = TernarySeq::from_i8(&[-1, 0, 0]);
    let mut result = ThreeWayMerge::merge(&base, &left, &right);
    ConflictResolver::resolve(&mut result, ResolutionStrategy::Neutral);
    assert_eq!(result.merged.get(0), Some(Trit::Zero));
}

#[test]
fn test_conflict_resolver_max_min() {
    let base = TernarySeq::from_i8(&[0, 0]);
    let left = TernarySeq::from_i8(&[1, -1]);
    let right = TernarySeq::from_i8(&[-1, 1]);
    let mut mx = ThreeWayMerge::merge(&base, &left, &right);
    ConflictResolver::resolve(&mut mx, ResolutionStrategy::Max);
    assert_eq!(mx.merged.trits(), &[Trit::Pos, Trit::Pos]);

    let mut mn = ThreeWayMerge::merge(&base, &left, &right);
    ConflictResolver::resolve(&mut mn, ResolutionStrategy::Min);
    assert_eq!(mn.merged.trits(), &[Trit::Neg, Trit::Neg]);
}
