//! Position-wise three-way merge and conflict resolution.

use vstd::prelude::*;

use crate::seq::TernarySeq;
use crate::trit::{trit_value, Trit};

verus! {

/// A conflict discovered during a three-way merge.
#[derive(Debug, Clone, PartialEq)]
pub enum Conflict {
    /// Both sides changed the same position to different values.
    ChangeConflict {
        /// Position that conflicts.
        pos: usize,
        /// The base (common-ancestor) value.
        base: Trit,
        /// The left branch's value.
        left: Trit,
        /// The right branch's value.
        right: Trit,
    },
    /// One side deleted the element while the other changed it.
    DeleteChangeConflict {
        /// Position that conflicts.
        pos: usize,
        /// The value that was deleted.
        deleted: Trit,
        /// The value the other side changed it to.
        changed_to: Trit,
        /// `true` if the left branch was the one that *changed* (and right
        /// deleted); `false` if right changed and left deleted.
        changer_left: bool,
        /// Index in the merged sequence of the element this position
        /// contributed when left changed it, or, when left deleted it, the
        /// index at which its element would go. (A change conflict needs no
        /// such index: both branches hold every earlier position, so its
        /// element sits at index `pos`.)
        at: usize,
    },
}

/// The outcome of a [`ThreeWayMerge`]: the merged sequence plus any conflicts.
#[derive(Debug, Clone)]
pub struct MergeResult {
    /// The merged sequence. At conflicting positions the left value is taken
    /// by default, pending resolution.
    pub merged: TernarySeq,
    /// Conflicts found during the merge, in position order.
    pub conflicts: Vec<Conflict>,
    /// Convenience flag: `true` iff `conflicts` is non-empty.
    pub has_conflicts: bool,
}

/// The trit at index `i` of `s`, if there is one.
pub open spec fn trit_at(s: Seq<Trit>, i: int) -> Option<Trit> {
    if 0 <= i < s.len() {
        Some(s[i])
    } else {
        None
    }
}

/// What one position contributes to the merged sequence, given the base,
/// left and right values there: the left value, unless left kept the base
/// value (or left and base both lack the position), in which case the right
/// value. A branch that lacks a position the base holds has deleted it. So
/// where only one side changed, its change is taken; where both changed, the
/// left value is taken (a conflict, unless they agree).
pub open spec fn merge_pick(b: Option<Trit>, l: Option<Trit>, r: Option<Trit>) -> Option<Trit> {
    if l == b { r } else { l }
}

/// The conflict, if any, at position `i`, a delete/change conflict recording
/// `at` as its index in the merged sequence: both branches changed the base to different
/// values (a missing base counts as `Zero`), or one branch deleted a base
/// position that the other changed.
pub open spec fn merge_conflict(i: usize, at: usize, b: Option<Trit>, l: Option<Trit>, r: Option<Trit>) -> Option<Conflict> {
    match (b, l, r) {
        (Some(bv), Some(lv), Some(rv)) => if lv != bv && rv != bv && lv != rv {
            Some(Conflict::ChangeConflict { pos: i, base: bv, left: lv, right: rv })
        } else {
            None
        },
        (None, Some(lv), Some(rv)) => if lv != rv {
            Some(Conflict::ChangeConflict { pos: i, base: Trit::Zero, left: lv, right: rv })
        } else {
            None
        },
        (Some(bv), None, Some(rv)) => if rv != bv {
            Some(Conflict::DeleteChangeConflict { pos: i, deleted: bv, changed_to: rv, changer_left: false, at })
        } else {
            None
        },
        (Some(bv), Some(lv), None) => if lv != bv {
            Some(Conflict::DeleteChangeConflict { pos: i, deleted: bv, changed_to: lv, changer_left: true, at })
        } else {
            None
        },
        _ => None,
    }
}

/// An optional value as a sequence of zero or one element.
pub open spec fn opt_seq<T>(o: Option<T>) -> Seq<T> {
    match o {
        Some(x) => seq![x],
        None => Seq::empty(),
    }
}

/// The merged trits of the first `n` positions.
pub open spec fn merged_upto(base: Seq<Trit>, left: Seq<Trit>, right: Seq<Trit>, n: nat) -> Seq<Trit>
    decreases n,
{
    if n == 0 {
        Seq::empty()
    } else {
        let i = n - 1;
        merged_upto(base, left, right, (n - 1) as nat) + opt_seq(
            merge_pick(trit_at(base, i), trit_at(left, i), trit_at(right, i)),
        )
    }
}

/// The conflict, if any, at position `i` of a merge.
pub open spec fn position_conflict(base: Seq<Trit>, left: Seq<Trit>, right: Seq<Trit>, i: nat) -> Option<Conflict> {
    merge_conflict(
        i as usize,
        merged_upto(base, left, right, i).len() as usize,
        trit_at(base, i as int),
        trit_at(left, i as int),
        trit_at(right, i as int),
    )
}

/// The conflicts of the first `n` positions, in position order.
pub open spec fn conflicts_upto(base: Seq<Trit>, left: Seq<Trit>, right: Seq<Trit>, n: nat) -> Seq<Conflict>
    decreases n,
{
    if n == 0 {
        Seq::empty()
    } else {
        conflicts_upto(base, left, right, (n - 1) as nat) + opt_seq(
            position_conflict(base, left, right, (n - 1) as nat),
        )
    }
}

/// The longest of the three lengths.
pub open spec fn max3(x: nat, y: nat, z: nat) -> nat {
    let xy = if x >= y { x } else { y };
    if xy >= z { xy } else { z }
}

/// Position-wise three-way merge of two sequences against a common base.
pub struct ThreeWayMerge;

impl ThreeWayMerge {
    /// Merge `left` and `right` against their common `base`, returning the
    /// merged sequence and any conflicts.
    pub fn merge(base: &TernarySeq, left: &TernarySeq, right: &TernarySeq) -> (res: MergeResult)
        ensures
            res.merged@ == merged_upto(
                base@,
                left@,
                right@,
                max3(base@.len(), left@.len(), right@.len()),
            ),
            res.conflicts@ == conflicts_upto(
                base@,
                left@,
                right@,
                max3(base@.len(), left@.len(), right@.len()),
            ),
            res.has_conflicts <==> res.conflicts@.len() > 0,
    {
        let bl = base.len();
        let ll = left.len();
        let rl = right.len();
        let bl_ll = if bl >= ll { bl } else { ll };
        let max_len = if bl_ll >= rl { bl_ll } else { rl };
        let mut merged: Vec<Trit> = Vec::new();
        let mut conflicts: Vec<Conflict> = Vec::new();
        let mut i: usize = 0;
        while i < max_len
            invariant
                0 <= i <= max_len,
                max_len == max3(base@.len(), left@.len(), right@.len()),
                merged@ == merged_upto(base@, left@, right@, i as nat),
                conflicts@ == conflicts_upto(base@, left@, right@, i as nat),
            decreases max_len - i,
        {
            let b = base.get(i);
            let l = left.get(i);
            let r = right.get(i);
            let ghost m0 = merged@;
            let ghost c0 = conflicts@;
            // Where this position's element sits, or would go, in `merged`.
            let at = merged.len();

            match (b, l, r) {
                // All three identical.
                (Some(bv), Some(lv), Some(rv)) if bv == lv && lv == rv => {
                    merged.push(bv);
                },
                // Only the left branch changed.
                (Some(bv), Some(lv), Some(rv)) if lv != bv && rv == bv => {
                    merged.push(lv);
                },
                // Only the right branch changed.
                (Some(bv), Some(lv), Some(rv)) if rv != bv && lv == bv => {
                    merged.push(rv);
                },
                // Both branches changed to the same value.
                (Some(_bv), Some(lv), Some(rv)) if lv == rv => {
                    merged.push(lv);
                },
                // Both changed differently: conflict.
                (Some(bv), Some(lv), Some(rv)) => {
                    conflicts.push(Conflict::ChangeConflict { pos: i, base: bv, left: lv, right: rv });
                    merged.push(lv);  // Default: take left pending resolution.
                },
                // Base absent (shorter) but both branches present here.
                (None, Some(lv), Some(rv)) => {
                    if lv == rv {
                        merged.push(lv);
                    } else {
                        conflicts.push(
                            Conflict::ChangeConflict { pos: i, base: Trit::Zero, left: lv, right: rv },
                        );
                        merged.push(lv);
                    }
                },
                (None, Some(lv), None) => merged.push(lv),
                (None, None, Some(rv)) => merged.push(rv),
                (None, None, None) => {},
                // Left deleted, right unchanged: delete.
                (Some(bv), None, Some(rv)) if rv == bv => {},
                // Left deleted, right changed: conflict.
                (Some(bv), None, Some(rv)) => {
                    conflicts.push(
                        Conflict::DeleteChangeConflict {
                            pos: i,
                            deleted: bv,
                            changed_to: rv,
                            changer_left: false,
                            at,
                        },
                    );
                },
                // Right deleted, left unchanged: delete.
                (Some(bv), Some(lv), None) if lv == bv => {},
                // Right deleted, left changed: conflict.
                (Some(bv), Some(lv), None) => {
                    conflicts.push(
                        Conflict::DeleteChangeConflict {
                            pos: i,
                            deleted: bv,
                            changed_to: lv,
                            changer_left: true,
                            at,
                        },
                    );
                    merged.push(lv);  // Default: take left pending resolution.
                },
                // Both deleted: agree, nothing to emit.
                (Some(_bv), None, None) => {},
            }
            assert(merged@ =~= m0 + opt_seq(
                merge_pick(trit_at(base@, i as int), trit_at(left@, i as int), trit_at(right@, i as int)),
            ));
            assert(conflicts@ =~= c0 + opt_seq(position_conflict(base@, left@, right@, i as nat)));
            i += 1;
        }
        let has_conflicts = !conflicts.is_empty();
        MergeResult { has_conflicts, merged: TernarySeq::new(merged), conflicts }
    }
}

/// Strategy for resolving merge conflicts.
#[derive(Debug, Clone, Copy)]
pub enum ResolutionStrategy {
    /// Take the left branch's value.
    TakeLeft,
    /// Take the right branch's value.
    TakeRight,
    /// Take the base (common-ancestor) value.
    TakeBase,
    /// Force the neutral value (`Trit::Zero`).
    Neutral,
    /// Take the higher ternary value (`to_i8` maximum).
    Max,
    /// Take the lower ternary value (`to_i8` minimum).
    Min,
}

/// The higher of two trits.
pub open spec fn trit_max(x: Trit, y: Trit) -> Trit {
    if trit_value(x) >= trit_value(y) { x } else { y }
}

/// The lower of two trits.
pub open spec fn trit_min(x: Trit, y: Trit) -> Trit {
    if trit_value(x) <= trit_value(y) { x } else { y }
}

/// What `strategy` settles `conflict` on: the trit its position holds after
/// resolution, or `None` where the strategy takes the side that deleted it.
/// `TakeBase` takes the base value (a change conflict beyond the base has
/// `Zero` there); for `Max` and `Min` a deleting side counts as `Zero`.
pub open spec fn resolution(conflict: Conflict, strategy: ResolutionStrategy) -> Option<Trit> {
    match conflict {
        Conflict::ChangeConflict { base, left, right, .. } => Some(
            match strategy {
                ResolutionStrategy::TakeLeft => left,
                ResolutionStrategy::TakeRight => right,
                ResolutionStrategy::TakeBase => base,
                ResolutionStrategy::Neutral => Trit::Zero,
                ResolutionStrategy::Max => trit_max(left, right),
                ResolutionStrategy::Min => trit_min(left, right),
            },
        ),
        Conflict::DeleteChangeConflict { deleted, changed_to, changer_left, .. } => match strategy {
            ResolutionStrategy::TakeLeft => if changer_left { Some(changed_to) } else { None },
            ResolutionStrategy::TakeRight => if !changer_left { Some(changed_to) } else { None },
            ResolutionStrategy::TakeBase => Some(deleted),
            ResolutionStrategy::Neutral => Some(Trit::Zero),
            ResolutionStrategy::Max => Some(trit_max(changed_to, Trit::Zero)),
            ResolutionStrategy::Min => Some(trit_min(changed_to, Trit::Zero)),
        },
    }
}

/// The position a conflict names.
pub open spec fn conflict_pos(conflict: Conflict) -> usize {
    match conflict {
        Conflict::ChangeConflict { pos, .. } => pos,
        Conflict::DeleteChangeConflict { pos, .. } => pos,
    }
}

/// `merged` with the change conflicts settled in order: each writes its
/// resolution at its position, when that position is in range (a later
/// conflict at the same position wins). Delete/change conflicts are left
/// for [`settle_gaps`].
pub open spec fn settle_changes(
    merged: Seq<Trit>,
    conflicts: Seq<Conflict>,
    strategy: ResolutionStrategy,
) -> Seq<Trit>
    decreases conflicts.len(),
{
    if conflicts.len() == 0 {
        merged
    } else {
        let prev = settle_changes(merged, conflicts.drop_last(), strategy);
        let c = conflicts.last();
        match c {
            Conflict::ChangeConflict { pos, .. } => if pos < prev.len() {
                prev.update(pos as int, resolution(c, strategy)->0)
            } else {
                prev
            },
            _ => prev,
        }
    }
}

/// `merged` with one delete/change conflict settled at the index it
/// records: where left changed the position, its element there is replaced
/// by the resolution, or removed where the resolution takes the deleting
/// side; where left deleted it, the resolution, if any, is inserted there.
/// An index out of range, or a change conflict, leaves `merged` as it is.
pub open spec fn settle_gap(merged: Seq<Trit>, conflict: Conflict, strategy: ResolutionStrategy) -> Seq<Trit> {
    match conflict {
        Conflict::DeleteChangeConflict { changer_left, at, .. } => {
            let i = at as int;
            if changer_left {
                if i < merged.len() {
                    match resolution(conflict, strategy) {
                        Some(t) => merged.update(i, t),
                        None => merged.remove(i),
                    }
                } else {
                    merged
                }
            } else if i <= merged.len() {
                match resolution(conflict, strategy) {
                    Some(t) => merged.insert(i, t),
                    None => merged,
                }
            } else {
                merged
            }
        },
        _ => merged,
    }
}

/// `merged` after settling the delete/change conflicts from the last one
/// back to the first, so that settling one never moves the index an earlier
/// one records.
pub open spec fn settle_gaps(
    merged: Seq<Trit>,
    conflicts: Seq<Conflict>,
    strategy: ResolutionStrategy,
) -> Seq<Trit>
    decreases conflicts.len(),
{
    if conflicts.len() == 0 {
        merged
    } else {
        settle_gaps(settle_gap(merged, conflicts.last(), strategy), conflicts.drop_last(), strategy)
    }
}

/// `merged` with every conflict settled: the change conflicts first, then
/// the delete/change conflicts.
pub open spec fn apply_resolutions(
    merged: Seq<Trit>,
    conflicts: Seq<Conflict>,
    strategy: ResolutionStrategy,
) -> Seq<Trit> {
    settle_gaps(settle_changes(merged, conflicts, strategy), conflicts, strategy)
}

/// The higher of two trits, through their `i8` values.
fn max_trit(x: Trit, y: Trit) -> (t: Trit)
    ensures
        t == trit_max(x, y),
{
    let xv = x.to_i8();
    let yv = y.to_i8();
    let v = if xv >= yv { xv } else { yv };
    match Trit::from_i8(v) {
        Some(t) => t,
        None => Trit::Zero,
    }
}

/// The lower of two trits, through their `i8` values.
fn min_trit(x: Trit, y: Trit) -> (t: Trit)
    ensures
        t == trit_min(x, y),
{
    let xv = x.to_i8();
    let yv = y.to_i8();
    let v = if xv <= yv { xv } else { yv };
    match Trit::from_i8(v) {
        Some(t) => t,
        None => Trit::Zero,
    }
}

/// Resolve every conflict in a [`MergeResult`] according to a single strategy.
pub struct ConflictResolver;

impl ConflictResolver {
    /// Resolve all conflicts in `result` using `strategy`, clearing the
    /// conflict list afterwards. A change conflict overwrites the merged
    /// value at its position; a delete/change conflict settles its position
    /// at the merged index it records, inserting or removing the element
    /// there when the strategy keeps a value left deleted or takes the
    /// deleting side.
    pub fn resolve(result: &mut MergeResult, strategy: ResolutionStrategy)
        ensures
            final(result).merged@ == apply_resolutions(
                old(result).merged@,
                old(result).conflicts@,
                strategy,
            ),
            final(result).conflicts@ == Seq::<Conflict>::empty(),
            !final(result).has_conflicts,
    {
        let n = result.conflicts.len();
        let ghost m0 = result.merged@;
        let ghost cs = result.conflicts@;
        let mut k: usize = 0;
        while k < n
            invariant
                0 <= k <= n,
                n == cs.len(),
                result.conflicts@ == cs,
                result.merged@ == settle_changes(m0, cs.take(k as int), strategy),
            decreases n - k,
        {
            assert(cs.take(k + 1).drop_last() =~= cs.take(k as int));
            let (is_change, pos, resolved) = match &result.conflicts[k] {
                Conflict::ChangeConflict { pos, base, left, right } => {
                    let resolved = match strategy {
                        ResolutionStrategy::TakeLeft => *left,
                        ResolutionStrategy::TakeRight => *right,
                        ResolutionStrategy::TakeBase => *base,
                        ResolutionStrategy::Neutral => Trit::Zero,
                        ResolutionStrategy::Max => max_trit(*left, *right),
                        ResolutionStrategy::Min => min_trit(*left, *right),
                    };
                    (true, *pos, resolved)
                },
                Conflict::DeleteChangeConflict { pos, .. } => (false, *pos, Trit::Zero),
            };
            if is_change && pos < result.merged.len() {
                result.merged.set(pos, resolved);
            }
            k += 1;
        }
        assert(cs.take(n as int) =~= cs);
        let ghost m1 = result.merged@;
        // Delete/change conflicts from the last back, so that no insertion
        // or removal moves an index that an earlier conflict records.
        while k > 0
            invariant
                0 <= k <= n,
                n == cs.len(),
                result.conflicts@ == cs,
                settle_gaps(result.merged@, cs.take(k as int), strategy) == settle_gaps(
                    m1,
                    cs,
                    strategy,
                ),
            decreases k,
        {
            k -= 1;
            assert(cs.take(k + 1).drop_last() =~= cs.take(k as int));
            let gap = match &result.conflicts[k] {
                Conflict::ChangeConflict { .. } => None,
                Conflict::DeleteChangeConflict { deleted, changed_to, changer_left, at, .. } => {
                    let resolved = match strategy {
                        ResolutionStrategy::TakeLeft => {
                            if *changer_left {
                                Some(*changed_to)
                            } else {
                                None
                            }
                        },
                        ResolutionStrategy::TakeRight => {
                            if !*changer_left {
                                Some(*changed_to)
                            } else {
                                None
                            }
                        },
                        ResolutionStrategy::TakeBase => Some(*deleted),
                        ResolutionStrategy::Neutral => Some(Trit::Zero),
                        ResolutionStrategy::Max => Some(max_trit(*changed_to, Trit::Zero)),
                        ResolutionStrategy::Min => Some(min_trit(*changed_to, Trit::Zero)),
                    };
                    Some((*at, *changer_left, resolved))
                },
            };
            match gap {
                Some((at, true, resolved)) => {
                    if at < result.merged.len() {
                        match resolved {
                            Some(t) => result.merged.set(at, t),
                            None => {
                                result.merged.remove(at);
                            },
                        }
                    }
                },
                Some((at, false, resolved)) => {
                    if at <= result.merged.len() {
                        match resolved {
                            Some(t) => result.merged.insert(at, t),
                            None => {},
                        }
                    }
                },
                None => {},
            }
        }
        assert(cs.take(0) =~= Seq::<Conflict>::empty());
        result.conflicts.clear();
        result.has_conflicts = false;
    }
}

/// Where every position of the first `n` picks the trit of `target` there
/// and raises no conflict, the merge of those positions is `target` cut at
/// `n`, with no conflicts.
proof fn lemma_merge_follows(base: Seq<Trit>, left: Seq<Trit>, right: Seq<Trit>, target: Seq<Trit>, n: nat)
    requires
        forall|i: int|
            0 <= i < n ==> #[trigger] merge_pick(trit_at(base, i), trit_at(left, i), trit_at(right, i))
                == trit_at(target, i),
        forall|i: int|
            0 <= i < n ==> #[trigger] position_conflict(base, left, right, i as nat) is None,
    ensures
        merged_upto(base, left, right, n) =~= target.take(if n <= target.len() { n as int } else { target.len() as int }),
        conflicts_upto(base, left, right, n) =~= Seq::<Conflict>::empty(),
    decreases n,
{
    if n > 0 {
        let i = n - 1;
        lemma_merge_follows(base, left, right, target, (n - 1) as nat);
        assert(merge_pick(trit_at(base, i), trit_at(left, i), trit_at(right, i)) == trit_at(target, i));
        assert(position_conflict(base, left, right, i as nat) is None);
        if i < target.len() {
            assert(target.take(i + 1) =~= target.take(i).push(target[i]));
        }
    }
}

/// If only the right branch changed the base, the merge takes the right
/// branch whole, with no conflicts.
pub proof fn lemma_merge_only_right_changed(base: Seq<Trit>, right: Seq<Trit>)
    ensures
        merged_upto(base, base, right, max3(base.len(), base.len(), right.len())) == right,
        conflicts_upto(base, base, right, max3(base.len(), base.len(), right.len())).len() == 0,
{
    let n = max3(base.len(), base.len(), right.len());
    lemma_merge_follows(base, base, right, right, n);
    assert(right.take(right.len() as int) =~= right);
}

/// If only the left branch changed the base, the merge takes the left
/// branch whole, with no conflicts.
pub proof fn lemma_merge_only_left_changed(base: Seq<Trit>, left: Seq<Trit>)
    ensures
        merged_upto(base, left, base, max3(base.len(), left.len(), base.len())) == left,
        conflicts_upto(base, left, base, max3(base.len(), left.len(), base.len())).len() == 0,
{
    let n = max3(base.len(), left.len(), base.len());
    lemma_merge_follows(base, left, base, left, n);
    assert(left.take(left.len() as int) =~= left);
}

/// If both branches made the same change, the merge takes it, with no
/// conflicts.
pub proof fn lemma_merge_same_change(base: Seq<Trit>, both: Seq<Trit>)
    ensures
        merged_upto(base, both, both, max3(base.len(), both.len(), both.len())) == both,
        conflicts_upto(base, both, both, max3(base.len(), both.len(), both.len())).len() == 0,
{
    let n = max3(base.len(), both.len(), both.len());
    lemma_merge_follows(base, both, both, both, n);
    assert(both.take(both.len() as int) =~= both);
}

/// Conflicts come in strictly increasing position order, each at a position
/// below `n`.
pub proof fn lemma_conflicts_ordered(base: Seq<Trit>, left: Seq<Trit>, right: Seq<Trit>, n: nat)
    requires
        n <= usize::MAX + 1,
    ensures
        forall|k: int|
            0 <= k < conflicts_upto(base, left, right, n).len() ==> conflict_pos(
                #[trigger] conflicts_upto(base, left, right, n)[k],
            ) < n,
        forall|j: int, k: int|
            0 <= j < k < conflicts_upto(base, left, right, n).len() ==> conflict_pos(
                #[trigger] conflicts_upto(base, left, right, n)[j],
            ) < conflict_pos(#[trigger] conflicts_upto(base, left, right, n)[k]),
    decreases n,
{
    if n > 0 {
        let i = n - 1;
        lemma_conflicts_ordered(base, left, right, (n - 1) as nat);
        let prev = conflicts_upto(base, left, right, (n - 1) as nat);
        let mc = position_conflict(base, left, right, i as nat);
        let all = conflicts_upto(base, left, right, n);
        assert(all == prev + opt_seq(mc));
        if let Some(c) = mc {
            assert(conflict_pos(c) == i);
            assert(all == prev.push(c));
        } else {
            assert(all =~= prev);
        }
        assert forall|k: int| 0 <= k < all.len() implies conflict_pos(#[trigger] all[k]) < n by {
            if k < prev.len() {
                assert(all[k] == prev[k]);
            }
        }
        assert forall|j: int, k: int| 0 <= j < k < all.len() implies conflict_pos(#[trigger] all[j])
            < conflict_pos(#[trigger] all[k]) by {
            assert(all[j] == prev[j]);
            if k < prev.len() {
                assert(all[k] == prev[k]);
            }
        }
    }
}

/// What position `i` of a merge holds once its conflict, if any, is settled
/// by `strategy`; a position without a conflict keeps what the merge took.
pub open spec fn resolved_segment(
    base: Seq<Trit>,
    left: Seq<Trit>,
    right: Seq<Trit>,
    i: nat,
    strategy: ResolutionStrategy,
) -> Seq<Trit> {
    match position_conflict(base, left, right, i) {
        Some(c) => opt_seq(resolution(c, strategy)),
        None => opt_seq(merge_pick(trit_at(base, i as int), trit_at(left, i as int), trit_at(right, i as int))),
    }
}

/// The merge of the first `n` positions with every conflict settled by
/// `strategy`, position by position.
pub open spec fn resolved_merge(
    base: Seq<Trit>,
    left: Seq<Trit>,
    right: Seq<Trit>,
    n: nat,
    strategy: ResolutionStrategy,
) -> Seq<Trit>
    decreases n,
{
    if n == 0 {
        Seq::empty()
    } else {
        resolved_merge(base, left, right, (n - 1) as nat, strategy) + resolved_segment(
            base,
            left,
            right,
            (n - 1) as nat,
            strategy,
        )
    }
}

/// What position `i` holds once only a change conflict there is settled.
spec fn changes_segment(
    base: Seq<Trit>,
    left: Seq<Trit>,
    right: Seq<Trit>,
    i: nat,
    strategy: ResolutionStrategy,
) -> Seq<Trit> {
    match position_conflict(base, left, right, i) {
        Some(c) => if c is ChangeConflict {
            opt_seq(resolution(c, strategy))
        } else {
            opt_seq(merge_pick(trit_at(base, i as int), trit_at(left, i as int), trit_at(right, i as int)))
        },
        None => opt_seq(merge_pick(trit_at(base, i as int), trit_at(left, i as int), trit_at(right, i as int))),
    }
}

/// The merge of the first `n` positions with only its change conflicts
/// settled.
spec fn changes_settled(
    base: Seq<Trit>,
    left: Seq<Trit>,
    right: Seq<Trit>,
    n: nat,
    strategy: ResolutionStrategy,
) -> Seq<Trit>
    decreases n,
{
    if n == 0 {
        Seq::empty()
    } else {
        changes_settled(base, left, right, (n - 1) as nat, strategy) + changes_segment(
            base,
            left,
            right,
            (n - 1) as nat,
            strategy,
        )
    }
}

/// The settled positions from `q` up to `n`.
spec fn resolved_between(
    base: Seq<Trit>,
    left: Seq<Trit>,
    right: Seq<Trit>,
    q: nat,
    n: nat,
    strategy: ResolutionStrategy,
) -> Seq<Trit>
    decreases n,
{
    if n <= q {
        Seq::empty()
    } else {
        resolved_between(base, left, right, q, (n - 1) as nat, strategy) + resolved_segment(
            base,
            left,
            right,
            (n - 1) as nat,
            strategy,
        )
    }
}

/// The settled positions from `q` split off their first one.
proof fn lemma_between_front(
    base: Seq<Trit>,
    left: Seq<Trit>,
    right: Seq<Trit>,
    q: nat,
    n: nat,
    strategy: ResolutionStrategy,
)
    requires
        q < n,
    ensures
        resolved_between(base, left, right, q, n, strategy) =~= resolved_segment(base, left, right, q, strategy)
            + resolved_between(base, left, right, q + 1, n, strategy),
    decreases n,
{
    if n > q + 1 {
        lemma_between_front(base, left, right, q, (n - 1) as nat, strategy);
    } else {
        assert(resolved_between(base, left, right, q, q, strategy) =~= Seq::<Trit>::empty());
    }
}

/// The settled positions from 0 are the whole resolved merge.
proof fn lemma_between_from_zero(
    base: Seq<Trit>,
    left: Seq<Trit>,
    right: Seq<Trit>,
    n: nat,
    strategy: ResolutionStrategy,
)
    ensures
        resolved_between(base, left, right, 0, n, strategy) == resolved_merge(base, left, right, n, strategy),
    decreases n,
{
    if n > 0 {
        lemma_between_from_zero(base, left, right, (n - 1) as nat, strategy);
    }
}

/// Where both branches hold the first `n` positions, each of them
/// contributes one trit to the merge, and settling change conflicts keeps
/// every position's length; so the two have equal lengths, at most `n`.
proof fn lemma_merged_lens(
    base: Seq<Trit>,
    left: Seq<Trit>,
    right: Seq<Trit>,
    n: nat,
    strategy: ResolutionStrategy,
)
    ensures
        merged_upto(base, left, right, n).len() <= n,
        changes_settled(base, left, right, n, strategy).len() == merged_upto(base, left, right, n).len(),
        n <= left.len() && n <= right.len() ==> merged_upto(base, left, right, n).len() == n,
    decreases n,
{
    if n > 0 {
        let i = (n - 1) as nat;
        lemma_merged_lens(base, left, right, i, strategy);
        let b = trit_at(base, i as int);
        let l = trit_at(left, i as int);
        let r = trit_at(right, i as int);
        let at = merged_upto(base, left, right, i).len() as usize;
        assert(position_conflict(base, left, right, i) == merge_conflict(i as usize, at, b, l, r));
    }
}

/// A change conflict at position `i` has both branches holding every
/// position up to `i`, so its element sits at merged index `i`; a
/// delete/change conflict records its merged index, and holds an element
/// there exactly when left changed the position.
proof fn lemma_conflict_shape(base: Seq<Trit>, left: Seq<Trit>, right: Seq<Trit>, i: nat)
    requires
        i <= usize::MAX,
        position_conflict(base, left, right, i) is Some,
    ensures
        ({
            let c = position_conflict(base, left, right, i)->0;
            let pick = merge_pick(trit_at(base, i as int), trit_at(left, i as int), trit_at(right, i as int));
            &&& conflict_pos(c) == i
            &&& (c is ChangeConflict ==> pick is Some && merged_upto(base, left, right, i).len() == i)
            &&& (c matches Conflict::DeleteChangeConflict { changer_left, at, .. } ==> {
                &&& at == merged_upto(base, left, right, i).len()
                &&& (changer_left <==> pick is Some)
            })
        }),
{
    let b = trit_at(base, i as int);
    let l = trit_at(left, i as int);
    let r = trit_at(right, i as int);
    lemma_merged_lens(base, left, right, i, ResolutionStrategy::TakeLeft);
    let at = merged_upto(base, left, right, i).len() as usize;
    assert(position_conflict(base, left, right, i) == merge_conflict(i as usize, at, b, l, r));
    if l is Some && r is Some {
        lemma_merged_lens(base, left, right, i, ResolutionStrategy::TakeLeft);
    }
}

/// Settling the change conflicts of the first `n` positions of a merge,
/// followed by anything, settles them in place and leaves the rest alone.
proof fn lemma_settle_changes_prefix(
    base: Seq<Trit>,
    left: Seq<Trit>,
    right: Seq<Trit>,
    strategy: ResolutionStrategy,
    n: nat,
    t: Seq<Trit>,
)
    requires
        n <= usize::MAX + 1,
    ensures
        settle_changes(merged_upto(base, left, right, n) + t, conflicts_upto(base, left, right, n), strategy)
            == changes_settled(base, left, right, n, strategy) + t,
    decreases n,
{
    if n == 0 {
        assert(merged_upto(base, left, right, 0) + t =~= t);
        assert(changes_settled(base, left, right, 0, strategy) + t =~= t);
    } else {
        let i = (n - 1) as nat;
        let x = merged_upto(base, left, right, i);
        let seg = opt_seq(merge_pick(trit_at(base, i as int), trit_at(left, i as int), trit_at(right, i as int)));
        let cs = conflicts_upto(base, left, right, i);
        lemma_settle_changes_prefix(base, left, right, strategy, i, seg + t);
        lemma_merged_lens(base, left, right, i, strategy);
        assert(merged_upto(base, left, right, n) + t =~= x + (seg + t));
        let h = changes_settled(base, left, right, i, strategy);
        match position_conflict(base, left, right, i) {
            None => {
                assert(conflicts_upto(base, left, right, n) =~= cs);
                assert(h + (seg + t) =~= changes_settled(base, left, right, n, strategy) + t);
            },
            Some(c) => {
                lemma_conflict_shape(base, left, right, i);
                assert(conflicts_upto(base, left, right, n) =~= cs.push(c));
                assert(cs.push(c).drop_last() =~= cs);
                if c is ChangeConflict {
                    assert(seg.len() == 1);
                    assert((h + (seg + t)).update(i as int, resolution(c, strategy)->0)
                        =~= changes_settled(base, left, right, n, strategy) + t);
                } else {
                    assert(h + (seg + t) =~= changes_settled(base, left, right, n, strategy) + t);
                }
            },
        }
    }
}

/// Settling one delete/change conflict in place replaces its part of the
/// merge by its settled part and touches nothing around it.
proof fn lemma_settle_gap_one(
    base: Seq<Trit>,
    left: Seq<Trit>,
    right: Seq<Trit>,
    i: nat,
    strategy: ResolutionStrategy,
    t: Seq<Trit>,
)
    requires
        i <= usize::MAX,
        position_conflict(base, left, right, i) is Some,
    ensures
        ({
            let c = position_conflict(base, left, right, i)->0;
            let x = changes_settled(base, left, right, i, strategy);
            settle_gap(x + changes_segment(base, left, right, i, strategy) + t, c, strategy)
                =~= x + resolved_segment(base, left, right, i, strategy) + t
        }),
{
    lemma_conflict_shape(base, left, right, i);
    lemma_merged_lens(base, left, right, i, strategy);
    let c = position_conflict(base, left, right, i)->0;
    let x = changes_settled(base, left, right, i, strategy);
    let pick = merge_pick(trit_at(base, i as int), trit_at(left, i as int), trit_at(right, i as int));
    let seg = changes_segment(base, left, right, i, strategy);
    let r = resolved_segment(base, left, right, i, strategy);
    match c {
        Conflict::ChangeConflict { .. } => {
            assert(seg == r);
        },
        Conflict::DeleteChangeConflict { changer_left, .. } => {
            assert(seg == opt_seq(pick));
            if changer_left {
                assert(seg =~= seq![pick->0]);
                match resolution(c, strategy) {
                    Some(v) => {
                        assert((x + seg + t).update(x.len() as int, v) =~= x + r + t);
                    },
                    None => {
                        assert((x + seg + t).remove(x.len() as int) =~= x + r + t);
                    },
                }
            } else {
                assert(seg =~= Seq::<Trit>::empty());
                match resolution(c, strategy) {
                    Some(v) => {
                        assert((x + seg + t).insert(x.len() as int, v) =~= x + r + t);
                    },
                    None => {
                        assert(x + seg + t =~= x + r + t);
                    },
                }
            }
        },
    }
}

/// Settling the delete/change conflicts of the first `n` positions, where
/// those positions have only their change conflicts settled and the rest
/// are fully settled, gives the resolved merge.
proof fn lemma_settle_gaps_prefix(
    base: Seq<Trit>,
    left: Seq<Trit>,
    right: Seq<Trit>,
    strategy: ResolutionStrategy,
    n: nat,
    total: nat,
)
    requires
        n <= total,
        total <= usize::MAX,
    ensures
        settle_gaps(
            changes_settled(base, left, right, n, strategy) + resolved_between(base, left, right, n, total, strategy),
            conflicts_upto(base, left, right, n),
            strategy,
        ) == resolved_merge(base, left, right, total, strategy),
    decreases n,
{
    if n == 0 {
        lemma_between_from_zero(base, left, right, total, strategy);
        assert(changes_settled(base, left, right, 0, strategy) + resolved_between(base, left, right, 0, total, strategy)
            =~= resolved_between(base, left, right, 0, total, strategy));
    } else {
        let i = (n - 1) as nat;
        lemma_settle_gaps_prefix(base, left, right, strategy, i, total);
        lemma_between_front(base, left, right, i, total, strategy);
        let x = changes_settled(base, left, right, i, strategy);
        let seg = changes_segment(base, left, right, i, strategy);
        let t = resolved_between(base, left, right, n, total, strategy);
        let cs = conflicts_upto(base, left, right, i);
        assert(changes_settled(base, left, right, n, strategy) + t =~= x + seg + t);
        match position_conflict(base, left, right, i) {
            None => {
                assert(conflicts_upto(base, left, right, n) =~= cs);
                assert(x + seg + t =~= x + resolved_between(base, left, right, i, total, strategy));
            },
            Some(c) => {
                assert(conflicts_upto(base, left, right, n) =~= cs.push(c));
                assert(cs.push(c).drop_last() =~= cs);
                lemma_settle_gap_one(base, left, right, i, strategy, t);
                assert(x + resolved_segment(base, left, right, i, strategy) + t =~= x + resolved_between(
                    base,
                    left,
                    right,
                    i,
                    total,
                    strategy,
                ));
            },
        }
    }
}

/// Resolving a merge settles each conflicting position in place: the
/// position gets the value the strategy picks (or stays out, where the
/// strategy takes the side that deleted it) exactly where its element
/// belongs, and every position without a conflict keeps what the merge took.
pub proof fn lemma_resolve_merge(
    base: Seq<Trit>,
    left: Seq<Trit>,
    right: Seq<Trit>,
    strategy: ResolutionStrategy,
)
    requires
        base.len() <= usize::MAX,
        left.len() <= usize::MAX,
        right.len() <= usize::MAX,
    ensures
        apply_resolutions(
            merged_upto(base, left, right, max3(base.len(), left.len(), right.len())),
            conflicts_upto(base, left, right, max3(base.len(), left.len(), right.len())),
            strategy,
        ) == resolved_merge(base, left, right, max3(base.len(), left.len(), right.len()), strategy),
{
    let total = max3(base.len(), left.len(), right.len());
    let e = Seq::<Trit>::empty();
    lemma_settle_changes_prefix(base, left, right, strategy, total, e);
    assert(merged_upto(base, left, right, total) + e =~= merged_upto(base, left, right, total));
    assert(changes_settled(base, left, right, total, strategy) + e =~= changes_settled(
        base,
        left,
        right,
        total,
        strategy,
    ));
    lemma_settle_gaps_prefix(base, left, right, strategy, total, total);
    assert(resolved_between(base, left, right, total, total, strategy) =~= e);
}

/// With only change conflicts, delete/change settling does nothing.
proof fn lemma_settle_gaps_skip(merged: Seq<Trit>, conflicts: Seq<Conflict>, strategy: ResolutionStrategy)
    requires
        forall|k: int| 0 <= k < conflicts.len() ==> (#[trigger] conflicts[k]) is ChangeConflict,
    ensures
        settle_gaps(merged, conflicts, strategy) == merged,
    decreases conflicts.len(),
{
    if conflicts.len() > 0 {
        let prev = conflicts.drop_last();
        assert(conflicts[conflicts.len() - 1] is ChangeConflict);
        assert forall|k: int| 0 <= k < prev.len() implies (#[trigger] prev[k]) is ChangeConflict by {
            assert(prev[k] == conflicts[k]);
        }
        lemma_settle_gaps_skip(merged, prev, strategy);
    }
}

/// Change conflicts are settled in place: the merged sequence keeps its
/// length, a position that no conflict names keeps its value, and a
/// position named by a conflict in range (and by no later one) takes that
/// conflict's resolution.
pub proof fn lemma_change_conflicts_in_place(merged: Seq<Trit>, conflicts: Seq<Conflict>, strategy: ResolutionStrategy)
    requires
        forall|k: int| 0 <= k < conflicts.len() ==> (#[trigger] conflicts[k]) is ChangeConflict,
    ensures
        apply_resolutions(merged, conflicts, strategy).len() == merged.len(),
        forall|p: int|
            0 <= p < merged.len() && (forall|k: int| 0 <= k < conflicts.len() ==> conflict_pos(
                #[trigger] conflicts[k],
            ) != p) ==> #[trigger] apply_resolutions(merged, conflicts, strategy)[p] == merged[p],
        forall|k: int|
            0 <= k < conflicts.len() && conflict_pos(conflicts[k]) < merged.len() && (forall|j: int|
                k < j < conflicts.len() ==> conflict_pos(#[trigger] conflicts[j]) != conflict_pos(conflicts[k]))
                ==> apply_resolutions(merged, conflicts, strategy)[conflict_pos(#[trigger] conflicts[k]) as int]
                == resolution(conflicts[k], strategy)->0,
    decreases conflicts.len(),
{
    lemma_settle_gaps_skip(settle_changes(merged, conflicts, strategy), conflicts, strategy);
    if conflicts.len() > 0 {
        let prev = conflicts.drop_last();
        let last = conflicts.len() - 1;
        assert(conflicts[last] is ChangeConflict);
        assert forall|k: int| 0 <= k < prev.len() implies (#[trigger] prev[k]) is ChangeConflict by {
            assert(prev[k] == conflicts[k]);
        }
        lemma_change_conflicts_in_place(merged, prev, strategy);
        lemma_settle_gaps_skip(settle_changes(merged, prev, strategy), prev, strategy);
        let before = settle_changes(merged, prev, strategy);
        let after = settle_changes(merged, conflicts, strategy);
        assert forall|p: int|
            0 <= p < merged.len() && (forall|k: int| 0 <= k < conflicts.len() ==> conflict_pos(
                #[trigger] conflicts[k],
            ) != p) implies #[trigger] apply_resolutions(merged, conflicts, strategy)[p] == merged[p] by {
            assert(conflict_pos(conflicts[last]) != p);
            assert forall|k: int| 0 <= k < prev.len() implies conflict_pos(#[trigger] prev[k]) != p by {
                assert(prev[k] == conflicts[k]);
            }
            assert(apply_resolutions(merged, prev, strategy)[p] == merged[p]);
        }
        assert forall|k: int|
            0 <= k < conflicts.len() && conflict_pos(conflicts[k]) < merged.len() && (forall|j: int|
                k < j < conflicts.len() ==> conflict_pos(#[trigger] conflicts[j]) != conflict_pos(conflicts[k]))
                implies apply_resolutions(merged, conflicts, strategy)[conflict_pos(#[trigger] conflicts[k]) as int]
            == resolution(conflicts[k], strategy)->0 by {
            if k < last {
                assert(prev[k] == conflicts[k]);
                assert(conflict_pos(conflicts[last]) != conflict_pos(conflicts[k]));
                assert forall|j: int| k < j < prev.len() implies conflict_pos(#[trigger] prev[j]) != conflict_pos(
                    prev[k],
                ) by {
                    assert(prev[j] == conflicts[j]);
                }
                assert(apply_resolutions(merged, prev, strategy)[conflict_pos(prev[k]) as int] == resolution(
                    prev[k],
                    strategy,
                )->0);
            }
        }
    }
}

/// Per position, swapping the branches changes only the value a change
/// conflict takes by default, and keeps which positions conflict.
proof fn lemma_swap_position(base: Seq<Trit>, left: Seq<Trit>, right: Seq<Trit>, i: nat)
    ensures
        resolved_segment(base, left, right, i, ResolutionStrategy::TakeRight) == opt_seq(
            merge_pick(trit_at(base, i as int), trit_at(right, i as int), trit_at(left, i as int)),
        ),
        position_conflict(base, left, right, i) is Some <==> position_conflict(base, right, left, i) is Some,
{
    let b = trit_at(base, i as int);
    let l = trit_at(left, i as int);
    let r = trit_at(right, i as int);
    let at1 = merged_upto(base, left, right, i).len() as usize;
    let at2 = merged_upto(base, right, left, i).len() as usize;
    assert(position_conflict(base, left, right, i) == merge_conflict(i as usize, at1, b, l, r));
    assert(position_conflict(base, right, left, i) == merge_conflict(i as usize, at2, b, r, l));
}

/// Swapping the branches, position by position.
proof fn lemma_swap_upto(base: Seq<Trit>, left: Seq<Trit>, right: Seq<Trit>, n: nat)
    ensures
        resolved_merge(base, left, right, n, ResolutionStrategy::TakeRight) == merged_upto(base, right, left, n),
        conflicts_upto(base, right, left, n).len() == conflicts_upto(base, left, right, n).len(),
    decreases n,
{
    if n > 0 {
        let i = (n - 1) as nat;
        lemma_swap_upto(base, left, right, i);
        lemma_swap_position(base, left, right, i);
    }
}

/// Merging with the branches swapped is merging as given and then
/// resolving every conflict in favour of the right branch; both merges find
/// the same number of conflicts. (The merges themselves differ only where
/// the left value is taken by default.)
pub proof fn lemma_merge_swap(base: Seq<Trit>, left: Seq<Trit>, right: Seq<Trit>)
    requires
        base.len() <= usize::MAX,
        left.len() <= usize::MAX,
        right.len() <= usize::MAX,
    ensures
        max3(base.len(), right.len(), left.len()) == max3(base.len(), left.len(), right.len()),
        merged_upto(base, right, left, max3(base.len(), right.len(), left.len())) == apply_resolutions(
            merged_upto(base, left, right, max3(base.len(), left.len(), right.len())),
            conflicts_upto(base, left, right, max3(base.len(), left.len(), right.len())),
            ResolutionStrategy::TakeRight,
        ),
        conflicts_upto(base, right, left, max3(base.len(), right.len(), left.len())).len() == conflicts_upto(
            base,
            left,
            right,
            max3(base.len(), left.len(), right.len()),
        ).len(),
{
    let n = max3(base.len(), left.len(), right.len());
    lemma_resolve_merge(base, left, right, ResolutionStrategy::TakeRight);
    lemma_swap_upto(base, left, right, n);
}

/// `Max` settles a change conflict on the larger of the two branch values
/// and `Min` on the smaller, each being one of them; for a delete/change
/// conflict the deleting side counts as `Zero`.
pub proof fn lemma_max_min_resolution(conflict: Conflict)
    ensures
        ({
            let (x, y) = match conflict {
                Conflict::ChangeConflict { left, right, .. } => (left, right),
                Conflict::DeleteChangeConflict { changed_to, .. } => (changed_to, Trit::Zero),
            };
            let hi = resolution(conflict, ResolutionStrategy::Max)->0;
            let lo = resolution(conflict, ResolutionStrategy::Min)->0;
            &&& resolution(conflict, ResolutionStrategy::Max) is Some
            &&& resolution(conflict, ResolutionStrategy::Min) is Some
            &&& trit_value(hi) >= trit_value(x) && trit_value(hi) >= trit_value(y)
            &&& (hi == x || hi == y)
            &&& trit_value(lo) <= trit_value(x) && trit_value(lo) <= trit_value(y)
            &&& (lo == x || lo == y)
        }),
{
}

/// Per position, settling with `TakeLeft` keeps what the merge took.
proof fn lemma_take_left_position(base: Seq<Trit>, left: Seq<Trit>, right: Seq<Trit>, i: nat)
    ensures
        resolved_segment(base, left, right, i, ResolutionStrategy::TakeLeft) == opt_seq(
            merge_pick(trit_at(base, i as int), trit_at(left, i as int), trit_at(right, i as int)),
        ),
{
    let b = trit_at(base, i as int);
    let l = trit_at(left, i as int);
    let r = trit_at(right, i as int);
    let at = merged_upto(base, left, right, i).len() as usize;
    assert(position_conflict(base, left, right, i) == merge_conflict(i as usize, at, b, l, r));
}

/// Settling with `TakeLeft`, position by position, is the merge itself.
proof fn lemma_take_left_upto(base: Seq<Trit>, left: Seq<Trit>, right: Seq<Trit>, n: nat)
    ensures
        resolved_merge(base, left, right, n, ResolutionStrategy::TakeLeft) == merged_upto(base, left, right, n),
    decreases n,
{
    if n > 0 {
        lemma_take_left_upto(base, left, right, (n - 1) as nat);
        lemma_take_left_position(base, left, right, (n - 1) as nat);
    }
}

/// The merge already holds the left value at every conflict, so resolving
/// a merge with `TakeLeft` leaves its merged sequence unchanged.
pub proof fn lemma_take_left_keeps_merge(base: Seq<Trit>, left: Seq<Trit>, right: Seq<Trit>)
    requires
        base.len() <= usize::MAX,
        left.len() <= usize::MAX,
        right.len() <= usize::MAX,
    ensures
        apply_resolutions(
            merged_upto(base, left, right, max3(base.len(), left.len(), right.len())),
            conflicts_upto(base, left, right, max3(base.len(), left.len(), right.len())),
            ResolutionStrategy::TakeLeft,
        ) == merged_upto(base, left, right, max3(base.len(), left.len(), right.len())),
{
    lemma_resolve_merge(base, left, right, ResolutionStrategy::TakeLeft);
    lemma_take_left_upto(base, left, right, max3(base.len(), left.len(), right.len()));
}

} // verus!
