//! What holds of diffs and patches across functions.

use vstd::prelude::*;

use crate::diff::{
    diff_ops, edit_script, lcs_len, lemma_edit_script, lemma_lcs_steps, lemma_normalize, normalize,
    normalize_state, pair_count, paired_changes, pending_flush, unpaired_deletes, unpaired_inserts,
};
use crate::patch::{apply_from, apply_ops, reverse_op, reverse_ops};
use crate::script::{
    consumed, edit_count, equal_count, is_edit_script, is_placed_edit_script, lemma_count_bounds,
    lemma_push, produced, walks_from, DiffOp,
};
use crate::trit::Trit;

verus! {

/// No walking script keeps more elements unchanged than the longest common
/// subsequence of the prefixes it reads and writes.
proof fn lemma_walk_within_lcs(a: Seq<Trit>, b: Seq<Trit>, ops: Seq<DiffOp>)
    requires
        walks_from(a, b, ops, 0, 0, false),
    ensures
        equal_count(ops) <= lcs_len(a, b, consumed(ops), produced(ops)),
    decreases ops.len(),
{
    if ops.len() > 0 {
        let prev = ops.drop_last();
        let op = ops.last();
        assert(prev.push(op) =~= ops);
        lemma_walk_within_lcs(a, b, prev);
        lemma_push(a, b, prev, op, 0, 0, false);
        let c = consumed(prev);
        let e = produced(prev);
        match op {
            DiffOp::Equal { .. } => {},
            DiffOp::Change { .. } => {
                lemma_lcs_steps(a, b, c + 1, e + 1);
                lemma_lcs_steps(a, b, c + 1, e);
            },
            DiffOp::Delete { .. } => {
                lemma_lcs_steps(a, b, c + 1, e);
            },
            DiffOp::Insert { .. } => {
                lemma_lcs_steps(a, b, c, e + 1);
            },
        }
    }
}

/// Walking a script over the source writes exactly the part of the target
/// that the script has reached.
proof fn lemma_apply_walk(a: Seq<Trit>, b: Seq<Trit>, ops: Seq<DiffOp>)
    requires
        walks_from(a, b, ops, 0, 0, false),
    ensures
        apply_ops(a, ops) =~= b.take(produced(ops) as int),
        produced(ops) <= b.len(),
    decreases ops.len(),
{
    if ops.len() > 0 {
        let prev = ops.drop_last();
        let op = ops.last();
        assert(prev.push(op) =~= ops);
        lemma_apply_walk(a, b, prev);
        lemma_push(a, b, prev, op, 0, 0, false);
        if !(op is Delete) {
            assert(b.take(produced(prev) + 1int) =~= b.take(produced(prev) as int).push(
                b[produced(prev) as int],
            ));
        }
    }
}

/// Reversing a walking script swaps the roles of source and target.
proof fn lemma_reverse_walk(a: Seq<Trit>, b: Seq<Trit>, ops: Seq<DiffOp>)
    requires
        walks_from(a, b, ops, 0, 0, false),
    ensures
        walks_from(b, a, reverse_ops(ops), 0, 0, false),
        consumed(reverse_ops(ops)) == produced(ops),
        produced(reverse_ops(ops)) == consumed(ops),
    decreases ops.len(),
{
    if ops.len() > 0 {
        let prev = ops.drop_last();
        let op = ops.last();
        assert(prev.push(op) =~= ops);
        assert(reverse_ops(ops) =~= reverse_ops(prev).push(reverse_op(op)));
        lemma_reverse_walk(a, b, prev);
        lemma_push(a, b, prev, op, 0, 0, false);
        lemma_push(b, a, reverse_ops(prev), reverse_op(op), 0, 0, false);
    }
}

/// A walking script with no edits reads and writes the same trits.
proof fn lemma_equal_walk(a: Seq<Trit>, b: Seq<Trit>, ops: Seq<DiffOp>)
    requires
        walks_from(a, b, ops, 0, 0, false),
        edit_count(ops) == 0,
    ensures
        consumed(ops) == produced(ops),
        a.take(consumed(ops) as int) =~= b.take(produced(ops) as int),
        consumed(ops) <= a.len(),
        produced(ops) <= b.len(),
    decreases ops.len(),
{
    if ops.len() > 0 {
        let prev = ops.drop_last();
        let op = ops.last();
        assert(prev.push(op) =~= ops);
        lemma_push(a, b, prev, op, 0, 0, false);
        lemma_equal_walk(a, b, prev);
        let c = consumed(prev) as int;
        assert(a.take(c + 1) =~= a.take(c).push(a[c]));
        assert(b.take(c + 1) =~= b.take(c).push(b[c]));
    }
}

/// The trits that pending inserts carry, in order.
pub open spec fn pending_trits(ins: Seq<(usize, Trit)>) -> Seq<Trit> {
    ins.map_values(|x: (usize, Trit)| x.1)
}

/// Applying `x + y` applies `x`, then `y` from where `x` left the cursor.
proof fn lemma_apply_concat(src: Seq<Trit>, x: Seq<DiffOp>, y: Seq<DiffOp>, c: int)
    ensures
        apply_from(src, x + y, c) == apply_from(src, x, c) + apply_from(src, y, c + consumed(x)),
        consumed(x + y) == consumed(x) + consumed(y),
    decreases y.len(),
{
    if y.len() == 0 {
        assert(x + y =~= x);
        assert(apply_from(src, x, c) + apply_from(src, y, c + consumed(x)) =~= apply_from(src, x, c));
    } else {
        let yp = y.drop_last();
        let op = y.last();
        lemma_apply_concat(src, x, yp, c);
        assert((x + y).drop_last() =~= x + yp);
        assert((x + y).last() == op);
        lemma_push(src, src, x + yp, op, 0, 0, false);
        assert(x + y =~= (x + yp).push(op));
        let lhs = apply_from(src, x + y, c);
        let rhs = apply_from(src, x, c) + apply_from(src, y, c + consumed(x));
        assert(lhs =~= rhs);
    }
}

/// The paired changes write the first `p` pending insert trits, reading
/// `p` source elements.
proof fn lemma_changes_apply(src: Seq<Trit>, dels: Seq<(usize, Trit)>, ins: Seq<(usize, Trit)>, p: nat, c: int)
    requires
        p <= dels.len(),
        p <= ins.len(),
    ensures
        apply_from(src, paired_changes(dels, ins, p), c) =~= pending_trits(ins.take(p as int)),
        consumed(paired_changes(dels, ins, p)) == p,
    decreases p,
{
    if p > 0 {
        let q = (p - 1) as nat;
        lemma_changes_apply(src, dels, ins, q, c);
        let ch = paired_changes(dels, ins, p);
        assert(ch.drop_last() =~= paired_changes(dels, ins, q));
        assert(pending_trits(ins.take(p as int)) =~= pending_trits(ins.take(q as int)).push(ins[q as int].1));
    }
}

/// Unpaired deletes write nothing and read one source element each.
proof fn lemma_deletes_apply(src: Seq<Trit>, dels: Seq<(usize, Trit)>, p: nat, q: nat, c: int)
    requires
        p + q <= dels.len(),
    ensures
        apply_from(src, unpaired_deletes(dels, p).take(q as int), c) =~= Seq::<Trit>::empty(),
        consumed(unpaired_deletes(dels, p).take(q as int)) == q,
    decreases q,
{
    let t = unpaired_deletes(dels, p);
    if q > 0 {
        let r = (q - 1) as nat;
        lemma_deletes_apply(src, dels, p, r, c);
        assert(t.take(q as int).drop_last() =~= t.take(r as int));
    }
}

/// Unpaired inserts write the pending insert trits from index `p` on.
proof fn lemma_inserts_apply(src: Seq<Trit>, ins: Seq<(usize, Trit)>, p: nat, q: nat, c: int)
    requires
        p + q <= ins.len(),
    ensures
        apply_from(src, unpaired_inserts(ins, p).take(q as int), c) =~= pending_trits(
            ins.subrange(p as int, (p + q) as int),
        ),
        consumed(unpaired_inserts(ins, p).take(q as int)) == 0,
    decreases q,
{
    let t = unpaired_inserts(ins, p);
    if q > 0 {
        let r = (q - 1) as nat;
        lemma_inserts_apply(src, ins, p, r, c);
        assert(t.take(q as int).drop_last() =~= t.take(r as int));
        assert(pending_trits(ins.subrange(p as int, (p + q) as int)) =~= pending_trits(
            ins.subrange(p as int, (p + r) as int),
        ).push(ins[(p + r) as int].1));
    }
}

/// A flushed run writes exactly the pending insert trits, whatever the
/// cursor, and reads one source element per pending delete.
proof fn lemma_flush_apply(src: Seq<Trit>, dels: Seq<(usize, Trit)>, ins: Seq<(usize, Trit)>, c: int)
    ensures
        apply_from(src, pending_flush(dels, ins), c) == pending_trits(ins),
        consumed(pending_flush(dels, ins)) == dels.len(),
{
    let p = pair_count(dels, ins);
    let ch = paired_changes(dels, ins, p);
    let dt = unpaired_deletes(dels, p);
    let it = unpaired_inserts(ins, p);
    lemma_changes_apply(src, dels, ins, p, c);
    lemma_deletes_apply(src, dels, p, (dels.len() - p) as nat, c + p);
    lemma_inserts_apply(src, ins, p, (ins.len() - p) as nat, c + dels.len());
    assert(dt.take((dels.len() - p) as int) =~= dt);
    assert(it.take((ins.len() - p) as int) =~= it);
    lemma_apply_concat(src, ch, dt, c);
    lemma_apply_concat(src, ch + dt, it, c);
    assert(pending_trits(ins) =~= pending_trits(ins.take(p as int)) + pending_trits(
        ins.subrange(p as int, ins.len() as int),
    ));
}

/// What normalising keeps of `apply`: the emitted part followed by the
/// pending insert trits writes what the whole input writes, and the emitted
/// part with the pending deletes reads as much.
proof fn lemma_normalize_state_apply(src: Seq<Trit>, ops: Seq<DiffOp>)
    ensures
        ({
            let (out, dels, ins) = normalize_state(ops);
            &&& apply_ops(src, out) + pending_trits(ins) == apply_ops(src, ops)
            &&& consumed(out) + dels.len() == consumed(ops)
        }),
    decreases ops.len(),
{
    if ops.len() > 0 {
        let prev = ops.drop_last();
        let op = ops.last();
        lemma_normalize_state_apply(src, prev);
        lemma_push(src, src, prev, op, 0, 0, false);
        assert(prev.push(op) =~= ops);
        let (out, dels, ins) = normalize_state(prev);
        match op {
            DiffOp::Delete { pos, trit } => {},
            DiffOp::Insert { pos, trit } => {
                assert(pending_trits(ins.push((pos, trit))) =~= pending_trits(ins).push(trit));
                assert(apply_ops(src, out) + pending_trits(ins.push((pos, trit))) =~= (apply_ops(
                    src,
                    out,
                ) + pending_trits(ins)).push(trit));
            },
            _ => {
                let fl = pending_flush(dels, ins);
                lemma_flush_apply(src, dels, ins, consumed(out) as int);
                lemma_apply_concat(src, out, fl, 0);
                lemma_push(src, src, out + fl, op, 0, 0, false);
                assert((out + fl).push(op).drop_last() =~= out + fl);
                assert(pending_trits(Seq::<(usize, Trit)>::empty()) =~= Seq::<Trit>::empty());
                let o2 = (out + fl).push(op);
                assert(apply_ops(src, o2) + pending_trits(Seq::<(usize, Trit)>::empty()) =~= apply_ops(
                    src,
                    o2,
                ));
            },
        }
    }
}

/// Pairing deletes with inserts never changes what a patch does: applying
/// the normalised operations to any source writes what the operations
/// themselves write.
pub proof fn lemma_normalize_apply(src: Seq<Trit>, ops: Seq<DiffOp>)
    ensures
        apply_ops(src, normalize(ops)) == apply_ops(src, ops),
{
    lemma_normalize_state_apply(src, ops);
    let (out, dels, ins) = normalize_state(ops);
    lemma_flush_apply(src, dels, ins, consumed(out) as int);
    lemma_apply_concat(src, out, pending_flush(dels, ins), 0);
}

/// The LCS length of a sequence with itself is its length.
proof fn lemma_lcs_self(a: Seq<Trit>, i: nat)
    ensures
        lcs_len(a, a, i, i) == i,
    decreases i,
{
    if i > 0 {
        lemma_lcs_self(a, (i - 1) as nat);
    }
}

/// The diff of `a` and `b` is an edit script from `a` to `b` whose
/// positions are exact: `Equal`, `Change` and `Delete` name the index they
/// read in `a`, `Insert` the index it writes in `b`; and it keeps exactly
/// as many elements unchanged as the longest common subsequence has.
pub proof fn lemma_diff_is_edit_script(a: Seq<Trit>, b: Seq<Trit>)
    requires
        a.len() <= usize::MAX,
        b.len() <= usize::MAX,
    ensures
        is_placed_edit_script(a, b, diff_ops(a, b)),
        equal_count(diff_ops(a, b)) == lcs_len(a, b, a.len(), b.len()),
{
    lemma_edit_script(a, b, a.len(), b.len(), true);
    lemma_normalize(a, b, edit_script(a, b, a.len(), b.len()), true);
}

/// The diff of `a` and `b` turns `a` into `b`, with no bound on the
/// lengths.
pub proof fn lemma_diff_turns_a_into_b(a: Seq<Trit>, b: Seq<Trit>)
    ensures
        is_edit_script(a, b, diff_ops(a, b)),
        equal_count(diff_ops(a, b)) == lcs_len(a, b, a.len(), b.len()),
{
    lemma_edit_script(a, b, a.len(), b.len(), false);
    lemma_normalize(a, b, edit_script(a, b, a.len(), b.len()), false);
}

/// Among all edit scripts from `a` to `b`, the diff keeps the most elements
/// unchanged: no script has more `Equal` operations.
pub proof fn lemma_diff_keeps_most(a: Seq<Trit>, b: Seq<Trit>, ops: Seq<DiffOp>)
    requires
        is_edit_script(a, b, ops),
    ensures
        equal_count(ops) <= equal_count(diff_ops(a, b)),
{
    lemma_walk_within_lcs(a, b, ops);
    lemma_diff_turns_a_into_b(a, b);
}

/// Applying any edit script from `a` to `b` to `a` yields `b`.
pub proof fn lemma_apply_edit_script(a: Seq<Trit>, b: Seq<Trit>, ops: Seq<DiffOp>)
    requires
        is_edit_script(a, b, ops),
    ensures
        apply_ops(a, ops) == b,
{
    lemma_apply_walk(a, b, ops);
    assert(b.take(b.len() as int) =~= b);
}

/// The reverse of an edit script from `a` to `b` is an edit script from `b`
/// to `a`.
pub proof fn lemma_reverse_edit_script(a: Seq<Trit>, b: Seq<Trit>, ops: Seq<DiffOp>)
    requires
        is_edit_script(a, b, ops),
    ensures
        is_edit_script(b, a, reverse_ops(ops)),
{
    lemma_reverse_walk(a, b, ops);
}

/// Reversing a diff twice gives it back.
pub proof fn lemma_reverse_involution(ops: Seq<DiffOp>)
    ensures
        reverse_ops(reverse_ops(ops)) == ops,
{
    assert(reverse_ops(reverse_ops(ops)) =~= ops);
}

/// Round trip: applying the diff of `a` and `b` to `a` reproduces `b`
/// exactly, and applying the reversed diff to `b` reproduces `a` exactly.
pub proof fn lemma_patch_roundtrip(a: Seq<Trit>, b: Seq<Trit>)
    ensures
        apply_ops(a, diff_ops(a, b)) == b,
        apply_ops(b, reverse_ops(diff_ops(a, b))) == a,
{
    lemma_diff_turns_a_into_b(a, b);
    lemma_apply_edit_script(a, b, diff_ops(a, b));
    lemma_reverse_edit_script(a, b, diff_ops(a, b));
    lemma_apply_edit_script(b, a, reverse_ops(diff_ops(a, b)));
}

/// The diff of two sequences has no edits exactly when they are equal; the
/// diff of a sequence with itself is one `Equal` per element.
pub proof fn lemma_diff_identity(a: Seq<Trit>, b: Seq<Trit>)
    ensures
        edit_count(diff_ops(a, b)) == 0 <==> a == b,
        a == b ==> diff_ops(a, b).len() == a.len(),
{
    let d = diff_ops(a, b);
    lemma_diff_turns_a_into_b(a, b);
    lemma_count_bounds(d);
    if a == b {
        lemma_lcs_self(a, a.len());
    }
    if edit_count(d) == 0 {
        lemma_equal_walk(a, b, d);
        assert(a.take(a.len() as int) =~= a);
        assert(b.take(b.len() as int) =~= b);
    }
}

} // verus!
