//! Applying and reversing diffs.

use vstd::prelude::*;

use crate::diff::TernaryDiff;
use crate::laws::{lemma_apply_edit_script, lemma_reverse_edit_script};
use crate::script::{consumed, is_edit_script, DiffOp};
use crate::seq::TernarySeq;
use crate::trit::Trit;

verus! {

/// The trits that walking `ops` over `src` writes, with the cursor into
/// `src` starting at `c`: `Equal` writes the trit under the cursor (or its
/// recorded trit once the cursor has run past the end), `Change` writes its
/// new value, `Insert` writes its trit, and every operation but `Insert`
/// advances the cursor.
pub open spec fn apply_from(src: Seq<Trit>, ops: Seq<DiffOp>, c: int) -> Seq<Trit>
    decreases ops.len(),
{
    if ops.len() == 0 {
        Seq::empty()
    } else {
        let prev = apply_from(src, ops.drop_last(), c);
        let cur = c + consumed(ops.drop_last());
        match ops.last() {
            DiffOp::Equal { trit, .. } => prev.push(
                if 0 <= cur < src.len() { src[cur] } else { trit },
            ),
            DiffOp::Change { new, .. } => prev.push(new),
            DiffOp::Delete { .. } => prev,
            DiffOp::Insert { trit, .. } => prev.push(trit),
        }
    }
}

/// The trits that walking `ops` over `src` from its start writes.
pub open spec fn apply_ops(src: Seq<Trit>, ops: Seq<DiffOp>) -> Seq<Trit> {
    apply_from(src, ops, 0)
}

/// The inverse of one operation: `Insert` and `Delete` swap, `Change` swaps
/// its old and new values, `Equal` stays.
pub open spec fn reverse_op(op: DiffOp) -> DiffOp {
    match op {
        DiffOp::Equal { pos, trit } => DiffOp::Equal { pos, trit },
        DiffOp::Change { pos, old, new } => DiffOp::Change { pos, old: new, new: old },
        DiffOp::Insert { pos, trit } => DiffOp::Delete { pos, trit },
        DiffOp::Delete { pos, trit } => DiffOp::Insert { pos, trit },
    }
}

/// Every operation of `ops` reversed, in the same order.
pub open spec fn reverse_ops(ops: Seq<DiffOp>) -> Seq<DiffOp> {
    ops.map_values(|op: DiffOp| reverse_op(op))
}

/// Apply or reverse diffs against [`TernarySeq`] values.
pub struct TernaryPatch;

impl TernaryPatch {
    /// Apply `diff` to `seq`, reconstructing the target sequence.
    ///
    /// The operations are walked in order alongside a cursor into `seq`:
    /// `Equal`, `Change`, and `Delete` each consume exactly one element of
    /// `seq`, while `Insert` emits a new element without advancing the cursor.
    pub fn apply(seq: &TernarySeq, diff: &TernaryDiff) -> (r: TernarySeq)
        ensures
            r@ == apply_ops(seq@, diff@),
            forall|b: Seq<Trit>| #[trigger] is_edit_script(seq@, b, diff@) ==> r@ == b,
    {
        let src = seq.trits();
        let ops = diff.ops();
        let n = ops.len();
        let mut result: Vec<Trit> = Vec::new();
        let mut oi: usize = 0;
        let mut k: usize = 0;
        while k < n
            invariant
                0 <= k <= n,
                n == ops@.len(),
                ops@ == diff@,
                src@ == seq@,
                oi == consumed(ops@.take(k as int)),
                oi <= k,
                result@ == apply_ops(seq@, ops@.take(k as int)),
            decreases n - k,
        {
            assert(ops@.take(k + 1).drop_last() =~= ops@.take(k as int));
            match ops[k] {
                DiffOp::Equal { trit, .. } => {
                    if oi < src.len() {
                        result.push(src[oi]);
                    } else {
                        // A diff claiming more equal elements than the source
                        // holds: emit the recorded value.
                        result.push(trit);
                    }
                    oi += 1;
                },
                DiffOp::Change { new, .. } => {
                    result.push(new);
                    oi += 1;
                },
                DiffOp::Delete { .. } => {
                    oi += 1;
                },
                DiffOp::Insert { trit, .. } => {
                    result.push(trit);
                },
            }
            k += 1;
        }
        assert(ops@.take(n as int) =~= ops@);
        assert forall|b: Seq<Trit>| #[trigger] is_edit_script(seq@, b, diff@) implies result@ == b by {
            lemma_apply_edit_script(seq@, b, diff@);
        }
        TernarySeq::new(result)
    }

    /// Produce the inverse of a diff: swap `Insert` and `Delete` and swap
    /// `old`/`new` in `Change` operations.
    pub fn reverse(diff: &TernaryDiff) -> (r: TernaryDiff)
        ensures
            r@ == reverse_ops(diff@),
            forall|a: Seq<Trit>, b: Seq<Trit>|
                #[trigger] is_edit_script(a, b, diff@) ==> is_edit_script(b, a, r@),
    {
        let ops = diff.ops();
        let n = ops.len();
        let mut out: Vec<DiffOp> = Vec::new();
        let mut k: usize = 0;
        while k < n
            invariant
                0 <= k <= n,
                n == ops@.len(),
                ops@ == diff@,
                out@.len() == k,
                forall|t: int| 0 <= t < k ==> #[trigger] out@[t] == reverse_op(ops@[t]),
            decreases n - k,
        {
            let op = match ops[k] {
                DiffOp::Equal { pos, trit } => DiffOp::Equal { pos, trit },
                DiffOp::Change { pos, old, new } => DiffOp::Change { pos, old: new, new: old },
                DiffOp::Insert { pos, trit } => DiffOp::Delete { pos, trit },
                DiffOp::Delete { pos, trit } => DiffOp::Insert { pos, trit },
            };
            out.push(op);
            k += 1;
        }
        assert(out@ =~= reverse_ops(diff@));
        assert forall|a: Seq<Trit>, b: Seq<Trit>| #[trigger] is_edit_script(a, b, diff@) implies is_edit_script(b, a, out@) by {
            lemma_reverse_edit_script(a, b, diff@);
        }
        TernaryDiff::from_ops(out)
    }
}

} // verus!
