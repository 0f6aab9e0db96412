use ternary_diff::{
    Conflict, ConflictResolver, DiffOp, MergeResult, ResolutionStrategy, TernaryDiff, TernaryPatch,
    TernarySeq, ThreeWayMerge, Trit,
};

/// Every trit sequence of length at most `max_len`.
fn all_seqs(max_len: usize) -> Vec<Vec<i8>> {
    let mut out: Vec<Vec<i8>> = vec![vec![]];
    let mut frontier: Vec<Vec<i8>> = vec![vec![]];
    for _ in 0..max_len {
        let mut next = Vec::new();
        for s in &frontier {
            for v in [-1i8, 0, 1] {
                let mut t = s.clone();
                t.push(v);
                next.push(t);
            }
        }
        out.extend(next.iter().cloned());
        frontier = next;
    }
    out
}

/// Longest common subsequence length, by plain recursion.
fn lcs(a: &[Trit], b: &[Trit]) -> usize {
    if a.is_empty() || b.is_empty() {
        return 0;
    }
    if a[a.len() - 1] == b[b.len() - 1] {
        return lcs(&a[..a.len() - 1], &b[..b.len() - 1]) + 1;
    }
    let up = lcs(&a[..a.len() - 1], b);
    let left = lcs(a, &b[..b.len() - 1]);
    if up >= left { up } else { left }
}

/// Checks that `ops` reads `a` and writes `b` in lockstep, with exact
/// positions and recorded values.
fn assert_placed_script(a: &[Trit], b: &[Trit], ops: &[DiffOp]) {
    let mut c = 0usize;
    let mut e = 0usize;
    for op in ops {
        match *op {
            DiffOp::Equal { pos, trit } => {
                assert_eq!(pos, c);
                assert_eq!(a[c], trit);
                assert_eq!(b[e], trit);
                c += 1;
                e += 1;
            }
            DiffOp::Change { pos, old, new } => {
                assert_eq!(pos, c);
                assert_eq!(a[c], old);
                assert_eq!(b[e], new);
                c += 1;
                e += 1;
            }
            DiffOp::Delete { pos, trit } => {
                assert_eq!(pos, c);
                assert_eq!(a[c], trit);
                c += 1;
            }
            DiffOp::Insert { pos, trit } => {
                assert_eq!(pos, e);
                assert_eq!(b[e], trit);
                e += 1;
            }
        }
    }
    assert_eq!(c, a.len());
    assert_eq!(e, b.len());
}

#[test]
fn diff_laws_hold_on_all_short_pairs() {
    let seqs = all_seqs(3);
    for x in &seqs {
        for y in &seqs {
            let a = TernarySeq::from_i8(x);
            let b = TernarySeq::from_i8(y);
            let d = TernaryDiff::diff(&a, &b);
            // Forward and reverse round trips.
            assert_eq!(TernaryPatch::apply(&a, &d).trits(), b.trits());
            let r = TernaryPatch::reverse(&d);
            assert_eq!(TernaryPatch::apply(&b, &r).trits(), a.trits());
            // The diff is an exact edit script, and its reverse is one back.
            assert_placed_script(a.trits(), b.trits(), d.ops());
            // Reversing twice gives the diff back.
            assert_eq!(TernaryPatch::reverse(&r).ops(), d.ops());
            // It keeps a longest common subsequence.
            assert_eq!(d.equal_count(), lcs(a.trits(), b.trits()));
            assert_eq!(d.equal_count() + d.change_count(), d.ops().len());
            // No edits exactly when the sequences are equal.
            assert_eq!(d.change_count() == 0, x == y);
        }
    }
}

#[test]
fn diff_readme_example_counts() {
    let a = TernarySeq::from_i8(&[1, -1, 0, 1]);
    let b = TernarySeq::from_i8(&[1, 0, 0, -1]);
    let d = TernaryDiff::diff(&a, &b);
    assert_eq!(d.equal_count(), 2);
    assert_eq!(d.equal_count() + d.change_count(), d.ops().len());
}

#[test]
fn diff_of_identical_is_all_equal() {
    let a = TernarySeq::from_i8(&[0, 1, -1, 1]);
    let d = TernaryDiff::diff(&a, &a);
    assert_eq!(
        d.ops(),
        &[
            DiffOp::Equal { pos: 0, trit: Trit::Zero },
            DiffOp::Equal { pos: 1, trit: Trit::Pos },
            DiffOp::Equal { pos: 2, trit: Trit::Neg },
            DiffOp::Equal { pos: 3, trit: Trit::Pos },
        ]
    );
}

#[test]
fn diff_prefers_insert_on_ties_and_pairs_changes() {
    // a = [1], b = [-1, 0]: no common element; the backtrack inserts 0,
    // inserts -1, deletes 1; normalisation pairs the delete with the first
    // insert.
    let a = TernarySeq::from_i8(&[1]);
    let b = TernarySeq::from_i8(&[-1, 0]);
    let d = TernaryDiff::diff(&a, &b);
    assert_eq!(
        d.ops(),
        &[
            DiffOp::Change { pos: 0, old: Trit::Pos, new: Trit::Neg },
            DiffOp::Insert { pos: 1, trit: Trit::Zero },
        ]
    );
}

#[test]
fn reverse_swaps_operations() {
    let a = TernarySeq::from_i8(&[1, -1, 0]);
    let b = TernarySeq::from_i8(&[1, 0, 0]);
    let d = TernaryDiff::diff(&a, &b);
    let r = TernaryPatch::reverse(&d);
    assert_eq!(
        r.ops(),
        &[
            DiffOp::Equal { pos: 0, trit: Trit::Pos },
            DiffOp::Change { pos: 1, old: Trit::Zero, new: Trit::Neg },
            DiffOp::Equal { pos: 2, trit: Trit::Zero },
        ]
    );
    let ins = TernaryDiff::diff(&TernarySeq::new(vec![]), &TernarySeq::from_i8(&[1]));
    assert_eq!(TernaryPatch::reverse(&ins).ops(), &[DiffOp::Delete { pos: 0, trit: Trit::Pos }]);
}

#[test]
fn apply_to_a_shorter_source_emits_recorded_values() {
    let a = TernarySeq::from_i8(&[1, -1]);
    let d = TernaryDiff::diff(&a, &a);
    let other = TernarySeq::from_i8(&[0]);
    // The first Equal reads the source; the second runs past its end and
    // emits the recorded trit.
    assert_eq!(TernaryPatch::apply(&other, &d).trits(), &[Trit::Zero, Trit::Neg]);
}

#[test]
fn strict_parse_reports_first_invalid_value() {
    assert_eq!(TernarySeq::from_i8_strict(&[0, 5, 7]), Err(5));
    assert_eq!(TernarySeq::from_i8_strict(&[-2]), Err(-2));
    let ok = TernarySeq::from_i8_strict(&[1, 0, -1]).unwrap();
    assert_eq!(ok.trits(), TernarySeq::from_i8(&[1, 0, -1]).trits());
    assert_eq!(TernarySeq::from_i8(&[9, -1, 3, 1]).trits(), &[Trit::Neg, Trit::Pos]);
}

#[test]
fn insert_then_remove_restores() {
    let mut seq = TernarySeq::from_i8(&[1, -1]);
    seq.insert(2, Trit::Zero);
    assert_eq!(seq.trits(), &[Trit::Pos, Trit::Neg, Trit::Zero]);
    assert_eq!(seq.remove(2), Some(Trit::Zero));
    assert_eq!(seq.trits(), &[Trit::Pos, Trit::Neg]);
    seq.insert(0, Trit::Zero);
    assert_eq!(seq.remove(0), Some(Trit::Zero));
    assert_eq!(seq.trits(), &[Trit::Pos, Trit::Neg]);
}

#[test]
fn slice_clamps_bounds() {
    let seq = TernarySeq::from_i8(&[-1, 0, 1, 1]);
    assert_eq!(seq.slice(1, 3).trits(), &[Trit::Zero, Trit::Pos]);
    assert_eq!(seq.slice(3, 2).trits(), &[] as &[Trit]);
    assert_eq!(seq.slice(0, usize::MAX).trits(), seq.trits());
}

#[test]
fn merge_laws_hold_on_all_short_triples() {
    let seqs = all_seqs(2);
    for xb in &seqs {
        for xo in &seqs {
            let base = TernarySeq::from_i8(xb);
            let other = TernarySeq::from_i8(xo);
            // Only the right branch changed: take right.
            let r = ThreeWayMerge::merge(&base, &base, &other);
            assert!(!r.has_conflicts);
            assert_eq!(r.merged.trits(), other.trits());
            // Only the left branch changed: take left.
            let l = ThreeWayMerge::merge(&base, &other, &base);
            assert!(!l.has_conflicts);
            assert_eq!(l.merged.trits(), other.trits());
            // Both made the same change: take it.
            let s = ThreeWayMerge::merge(&base, &other, &other);
            assert!(!s.has_conflicts);
            assert_eq!(s.merged.trits(), other.trits());
        }
    }
}

fn pos_of(c: &Conflict) -> usize {
    match c {
        Conflict::ChangeConflict { pos, .. } => *pos,
        Conflict::DeleteChangeConflict { pos, .. } => *pos,
    }
}

#[test]
fn merge_conflicts_are_in_position_order() {
    let base = TernarySeq::from_i8(&[0, 0, 0, 0]);
    let left = TernarySeq::from_i8(&[1, 0, -1]);
    let right = TernarySeq::from_i8(&[-1, 0, 1, 1]);
    let r = ThreeWayMerge::merge(&base, &left, &right);
    assert_eq!(r.conflicts.len(), 3);
    for w in r.conflicts.windows(2) {
        assert!(pos_of(&w[0]) < pos_of(&w[1]));
    }
    assert_eq!(
        r.conflicts[2],
        Conflict::DeleteChangeConflict {
            pos: 3,
            deleted: Trit::Zero,
            changed_to: Trit::Pos,
            changer_left: false,
            at: 3,
        }
    );
    // Left value taken at conflicts; the deleted-and-changed position emits nothing.
    assert_eq!(r.merged.trits(), &[Trit::Pos, Trit::Zero, Trit::Neg]);
}

#[test]
fn merge_beyond_base_uses_zero_base() {
    let base = TernarySeq::new(vec![]);
    let left = TernarySeq::from_i8(&[1, 0]);
    let right = TernarySeq::from_i8(&[-1]);
    let r = ThreeWayMerge::merge(&base, &left, &right);
    assert_eq!(
        r.conflicts,
        vec![Conflict::ChangeConflict { pos: 0, base: Trit::Zero, left: Trit::Pos, right: Trit::Neg }]
    );
    assert_eq!(r.merged.trits(), &[Trit::Pos, Trit::Zero]);
}

#[test]
fn merge_left_change_right_delete() {
    let base = TernarySeq::from_i8(&[0, 0]);
    let left = TernarySeq::from_i8(&[0, -1]);
    let right = TernarySeq::from_i8(&[0]);
    let r = ThreeWayMerge::merge(&base, &left, &right);
    assert_eq!(
        r.conflicts,
        vec![Conflict::DeleteChangeConflict {
            pos: 1,
            deleted: Trit::Zero,
            changed_to: Trit::Neg,
            changer_left: true,
            at: 1,
        }]
    );
    // The left value is taken by default, pending resolution.
    assert_eq!(r.merged.trits(), &[Trit::Zero, Trit::Neg]);
}

fn resolved(result: &MergeResult, strategy: ResolutionStrategy) -> Vec<Trit> {
    let mut r = result.clone();
    ConflictResolver::resolve(&mut r, strategy);
    assert!(!r.has_conflicts);
    assert!(r.conflicts.is_empty());
    r.merged.trits().to_vec()
}

#[test]
fn resolve_change_conflict_each_strategy() {
    let base = TernarySeq::from_i8(&[-1, 1]);
    let left = TernarySeq::from_i8(&[0, 1]);
    let right = TernarySeq::from_i8(&[1, 1]);
    let m = ThreeWayMerge::merge(&base, &left, &right);
    assert_eq!(resolved(&m, ResolutionStrategy::TakeLeft), vec![Trit::Zero, Trit::Pos]);
    assert_eq!(resolved(&m, ResolutionStrategy::TakeRight), vec![Trit::Pos, Trit::Pos]);
    assert_eq!(resolved(&m, ResolutionStrategy::TakeBase), vec![Trit::Neg, Trit::Pos]);
    assert_eq!(resolved(&m, ResolutionStrategy::Neutral), vec![Trit::Zero, Trit::Pos]);
    assert_eq!(resolved(&m, ResolutionStrategy::Max), vec![Trit::Pos, Trit::Pos]);
    assert_eq!(resolved(&m, ResolutionStrategy::Min), vec![Trit::Zero, Trit::Pos]);
}

#[test]
fn resolve_left_change_right_delete_each_strategy() {
    // Position 1: left changed 0 to -1 while right deleted it.
    let base = TernarySeq::from_i8(&[1, 0, 1]);
    let left = TernarySeq::from_i8(&[1, -1, 1]);
    let right = TernarySeq::from_i8(&[1]);
    let m = ThreeWayMerge::merge(&base, &left, &right);
    assert_eq!(m.conflicts.len(), 1);
    assert_eq!(m.merged.trits(), &[Trit::Pos, Trit::Neg]);
    assert_eq!(resolved(&m, ResolutionStrategy::TakeLeft), vec![Trit::Pos, Trit::Neg]);
    assert_eq!(resolved(&m, ResolutionStrategy::TakeRight), vec![Trit::Pos]);
    assert_eq!(resolved(&m, ResolutionStrategy::TakeBase), vec![Trit::Pos, Trit::Zero]);
    assert_eq!(resolved(&m, ResolutionStrategy::Neutral), vec![Trit::Pos, Trit::Zero]);
    assert_eq!(resolved(&m, ResolutionStrategy::Max), vec![Trit::Pos, Trit::Zero]);
    assert_eq!(resolved(&m, ResolutionStrategy::Min), vec![Trit::Pos, Trit::Neg]);

    // Position 3 lies beyond base and right: only left has it, so it is taken.
    let base = TernarySeq::from_i8(&[0, 0, 0]);
    let left = TernarySeq::from_i8(&[0, 1, 0, 1]);
    let right = TernarySeq::from_i8(&[0]);
    let m = ThreeWayMerge::merge(&base, &left, &right);
    assert_eq!(m.merged.trits(), &[Trit::Zero, Trit::Pos, Trit::Pos]);
    assert_eq!(resolved(&m, ResolutionStrategy::TakeLeft), vec![Trit::Zero, Trit::Pos, Trit::Pos]);
    assert_eq!(resolved(&m, ResolutionStrategy::TakeRight), vec![Trit::Zero, Trit::Pos]);
    assert_eq!(resolved(&m, ResolutionStrategy::TakeBase), vec![Trit::Zero, Trit::Zero, Trit::Pos]);
    assert_eq!(resolved(&m, ResolutionStrategy::Neutral), vec![Trit::Zero, Trit::Zero, Trit::Pos]);
    assert_eq!(resolved(&m, ResolutionStrategy::Max), vec![Trit::Zero, Trit::Pos, Trit::Pos]);
    assert_eq!(resolved(&m, ResolutionStrategy::Min), vec![Trit::Zero, Trit::Zero, Trit::Pos]);
}

#[test]
fn resolve_left_delete_right_change_places_value() {
    let base = TernarySeq::from_i8(&[0, 0, 0]);
    let left = TernarySeq::from_i8(&[0, 0]);
    let right = TernarySeq::from_i8(&[0, 0, 1]);
    let m = ThreeWayMerge::merge(&base, &left, &right);
    assert_eq!(m.merged.trits(), &[Trit::Zero, Trit::Zero]);
    let mut r = m.clone();
    ConflictResolver::resolve(&mut r, ResolutionStrategy::TakeRight);
    assert_eq!(r.merged.get(2), Some(Trit::Pos));
    assert!(!r.has_conflicts);
    assert_eq!(resolved(&m, ResolutionStrategy::TakeLeft), vec![Trit::Zero, Trit::Zero]);
    assert_eq!(resolved(&m, ResolutionStrategy::TakeBase), vec![Trit::Zero, Trit::Zero, Trit::Zero]);

    let base = TernarySeq::from_i8(&[0, 0, 0]);
    let left = TernarySeq::from_i8(&[0, 0]);
    let right = TernarySeq::from_i8(&[0, -1, -1]);
    let m = ThreeWayMerge::merge(&base, &left, &right);
    assert_eq!(m.merged.trits(), &[Trit::Zero, Trit::Neg]);
    assert_eq!(resolved(&m, ResolutionStrategy::Min), vec![Trit::Zero, Trit::Neg, Trit::Neg]);
    assert_eq!(resolved(&m, ResolutionStrategy::Max), vec![Trit::Zero, Trit::Neg, Trit::Zero]);
    assert_eq!(resolved(&m, ResolutionStrategy::TakeLeft), vec![Trit::Zero, Trit::Neg]);
}

#[test]
fn resolve_keeps_uncontested_elements() {
    let base = TernarySeq::from_i8(&[0]);
    let left = TernarySeq::new(vec![]);
    let right = TernarySeq::from_i8(&[1, -1]);
    let m = ThreeWayMerge::merge(&base, &left, &right);
    assert_eq!(m.merged.trits(), &[Trit::Neg]);
    let mut r = m.clone();
    ConflictResolver::resolve(&mut r, ResolutionStrategy::Neutral);
    assert!(r.merged.trits().contains(&Trit::Neg));
    assert_eq!(r.merged.trits(), &[Trit::Zero, Trit::Neg]);
    assert!(!r.has_conflicts);
}

#[test]
fn resolve_adjacent_gaps_in_order() {
    // Left deleted both positions while right changed both: the two
    // conflicts share an insertion index and must come out in order.
    let base = TernarySeq::from_i8(&[0, 0]);
    let left = TernarySeq::new(vec![]);
    let right = TernarySeq::from_i8(&[1, -1]);
    let m = ThreeWayMerge::merge(&base, &left, &right);
    assert!(m.merged.is_empty());
    assert_eq!(resolved(&m, ResolutionStrategy::TakeRight), vec![Trit::Pos, Trit::Neg]);
    assert_eq!(resolved(&m, ResolutionStrategy::Max), vec![Trit::Pos, Trit::Zero]);
    assert_eq!(resolved(&m, ResolutionStrategy::TakeLeft), Vec::<Trit>::new());
}

fn trit(v: i8) -> Trit {
    Trit::from_i8(v).unwrap()
}

/// Position by position: the value each position ends with after its
/// conflict (if any) is settled; `None` leaves the position out.
fn reference_resolution(b: &[i8], l: &[i8], r: &[i8], strategy: ResolutionStrategy) -> Vec<Trit> {
    let n = b.len().max(l.len()).max(r.len());
    let mut out = Vec::new();
    for i in 0..n {
        let (bv, lv, rv) = (b.get(i).copied(), l.get(i).copied(), r.get(i).copied());
        let pick = if lv == bv { rv } else { lv };
        let value = match (bv, lv, rv) {
            (_, Some(x), Some(y)) if x != y && Some(x) != bv && Some(y) != bv => {
                let base = bv.unwrap_or(0);
                Some(match strategy {
                    ResolutionStrategy::TakeLeft => x,
                    ResolutionStrategy::TakeRight => y,
                    ResolutionStrategy::TakeBase => base,
                    ResolutionStrategy::Neutral => 0,
                    ResolutionStrategy::Max => x.max(y),
                    ResolutionStrategy::Min => x.min(y),
                })
            }
            (Some(d), None, Some(y)) | (Some(d), Some(y), None) if y != d => {
                let left_changed = lv.is_some();
                match strategy {
                    ResolutionStrategy::TakeLeft => if left_changed { Some(y) } else { None },
                    ResolutionStrategy::TakeRight => if left_changed { None } else { Some(y) },
                    ResolutionStrategy::TakeBase => Some(d),
                    ResolutionStrategy::Neutral => Some(0),
                    ResolutionStrategy::Max => Some(y.max(0)),
                    ResolutionStrategy::Min => Some(y.min(0)),
                }
            }
            _ => pick,
        };
        if let Some(v) = value {
            out.push(trit(v));
        }
    }
    out
}

#[test]
fn resolve_settles_positions_in_place_on_all_short_triples() {
    let strategies = [
        ResolutionStrategy::TakeLeft,
        ResolutionStrategy::TakeRight,
        ResolutionStrategy::TakeBase,
        ResolutionStrategy::Neutral,
        ResolutionStrategy::Max,
        ResolutionStrategy::Min,
    ];
    let seqs = all_seqs(2);
    for b in &seqs {
        for l in &seqs {
            for r in &seqs {
                let m = ThreeWayMerge::merge(
                    &TernarySeq::from_i8(b),
                    &TernarySeq::from_i8(l),
                    &TernarySeq::from_i8(r),
                );
                for s in strategies {
                    assert_eq!(resolved(&m, s), reference_resolution(b, l, r, s));
                }
            }
        }
    }
}

#[test]
fn resolve_change_conflict_at_its_position_in_a_built_result() {
    let mut r = MergeResult {
        merged: TernarySeq::from_i8(&[0, 0]),
        conflicts: vec![Conflict::ChangeConflict { pos: 0, base: Trit::Zero, left: Trit::Pos, right: Trit::Neg }],
        has_conflicts: true,
    };
    ConflictResolver::resolve(&mut r, ResolutionStrategy::TakeLeft);
    assert_eq!(r.merged.trits(), &[Trit::Pos, Trit::Zero]);
    assert!(!r.has_conflicts);

    // A later conflict at the same position wins; an out-of-range one is
    // skipped; positions no conflict names keep their value.
    let mut r = MergeResult {
        merged: TernarySeq::from_i8(&[0, 1, -1]),
        conflicts: vec![
            Conflict::ChangeConflict { pos: 2, base: Trit::Zero, left: Trit::Pos, right: Trit::Neg },
            Conflict::ChangeConflict { pos: 2, base: Trit::Zero, left: Trit::Zero, right: Trit::Pos },
            Conflict::ChangeConflict { pos: 7, base: Trit::Zero, left: Trit::Pos, right: Trit::Neg },
        ],
        has_conflicts: true,
    };
    ConflictResolver::resolve(&mut r, ResolutionStrategy::TakeRight);
    assert_eq!(r.merged.trits(), &[Trit::Zero, Trit::Pos, Trit::Pos]);
}

#[test]
fn merge_with_branches_swapped_is_resolved_to_the_right() {
    let seqs = all_seqs(2);
    for b in &seqs {
        for l in &seqs {
            for r in &seqs {
                let (sb, sl, sr) = (TernarySeq::from_i8(b), TernarySeq::from_i8(l), TernarySeq::from_i8(r));
                let x = ThreeWayMerge::merge(&sb, &sl, &sr);
                let y = ThreeWayMerge::merge(&sb, &sr, &sl);
                assert_eq!(x.has_conflicts, y.has_conflicts);
                assert_eq!(x.conflicts.len(), y.conflicts.len());
                assert_eq!(resolved(&x, ResolutionStrategy::TakeRight), y.merged.trits().to_vec());
            }
        }
    }
    // Right deleted what left changed: the left value is kept by default, so
    // the swapped merge (left deleted) has one element fewer.
    let x = ThreeWayMerge::merge(&TernarySeq::from_i8(&[0]), &TernarySeq::from_i8(&[1]), &TernarySeq::new(vec![]));
    let y = ThreeWayMerge::merge(&TernarySeq::from_i8(&[0]), &TernarySeq::new(vec![]), &TernarySeq::from_i8(&[1]));
    assert_eq!(x.merged.trits(), &[Trit::Pos]);
    assert!(y.merged.is_empty());
}
