//! LCS-based diffs between two trit sequences.

use vstd::prelude::*;

use crate::laws::lemma_diff_is_edit_script;
use crate::script::{
    consumed, edit_count, equal_count, is_placed_edit_script, lemma_concat, lemma_push, produced,
    walks_from, DiffOp,
};
use crate::seq::TernarySeq;
use crate::trit::Trit;

verus! {

/// Length of the longest common subsequence of the first `i` trits of `a`
/// and the first `j` trits of `b`.
pub open spec fn lcs_len(a: Seq<Trit>, b: Seq<Trit>, i: nat, j: nat) -> nat
    decreases i + j,
{
    if i == 0 || j == 0 {
        0
    } else if a[i - 1] == b[j - 1] {
        lcs_len(a, b, (i - 1) as nat, (j - 1) as nat) + 1
    } else {
        let up = lcs_len(a, b, (i - 1) as nat, j);
        let left = lcs_len(a, b, i, (j - 1) as nat);
        if up >= left {
            up
        } else {
            left
        }
    }
}

/// The edit script that backtracking through the LCS table yields for the
/// first `i` trits of `a` and the first `j` trits of `b`: a matching last
/// pair is kept, otherwise the last trit of `b` is inserted when that keeps
/// at least as long a common subsequence, else the last trit of `a` is
/// deleted.
pub open spec fn edit_script(a: Seq<Trit>, b: Seq<Trit>, i: nat, j: nat) -> Seq<DiffOp>
    decreases i + j,
{
    if i == 0 && j == 0 {
        Seq::empty()
    } else if i > 0 && j > 0 && a[i - 1] == b[j - 1] {
        edit_script(a, b, (i - 1) as nat, (j - 1) as nat).push(
            DiffOp::Equal { pos: (i - 1) as usize, trit: a[i - 1] },
        )
    } else if j > 0 && (i == 0 || lcs_len(a, b, i, (j - 1) as nat) >= lcs_len(
        a,
        b,
        (i - 1) as nat,
        j,
    )) {
        edit_script(a, b, i, (j - 1) as nat).push(
            DiffOp::Insert { pos: (j - 1) as usize, trit: b[j - 1] },
        )
    } else {
        edit_script(a, b, (i - 1) as nat, j).push(
            DiffOp::Delete { pos: (i - 1) as usize, trit: a[i - 1] },
        )
    }
}

/// The first `p` pending deletes paired with the first `p` pending inserts:
/// position and old value from the delete, new value from the insert.
pub open spec fn paired_changes(dels: Seq<(usize, Trit)>, ins: Seq<(usize, Trit)>, p: nat) -> Seq<DiffOp> {
    Seq::new(p, |k: int| DiffOp::Change { pos: dels[k].0, old: dels[k].1, new: ins[k].1 })
}

/// The pending deletes from index `p` on, as `Delete` operations.
pub open spec fn unpaired_deletes(dels: Seq<(usize, Trit)>, p: nat) -> Seq<DiffOp> {
    Seq::new((dels.len() - p) as nat, |k: int| DiffOp::Delete { pos: dels[p + k].0, trit: dels[p + k].1 })
}

/// The pending inserts from index `p` on, as `Insert` operations.
pub open spec fn unpaired_inserts(ins: Seq<(usize, Trit)>, p: nat) -> Seq<DiffOp> {
    Seq::new((ins.len() - p) as nat, |k: int| DiffOp::Insert { pos: ins[p + k].0, trit: ins[p + k].1 })
}

/// The smaller of the two pending counts.
pub open spec fn pair_count(dels: Seq<(usize, Trit)>, ins: Seq<(usize, Trit)>) -> nat {
    if dels.len() <= ins.len() { dels.len() } else { ins.len() }
}

/// The operations that a run of pending deletes and inserts becomes: the
/// first `min` of each are paired into `Change`s, then the unpaired deletes,
/// then the unpaired inserts, each in its original order.
pub open spec fn pending_flush(dels: Seq<(usize, Trit)>, ins: Seq<(usize, Trit)>) -> Seq<DiffOp> {
    let p = pair_count(dels, ins);
    paired_changes(dels, ins, p) + unpaired_deletes(dels, p) + unpaired_inserts(ins, p)
}

/// Normalisation state after reading `ops`: the operations emitted so far,
/// and the deletes and inserts pending since the last `Equal` or `Change`.
pub open spec fn normalize_state(ops: Seq<DiffOp>) -> (Seq<DiffOp>, Seq<(usize, Trit)>, Seq<(usize, Trit)>)
    decreases ops.len(),
{
    if ops.len() == 0 {
        (Seq::empty(), Seq::empty(), Seq::empty())
    } else {
        let (out, dels, ins) = normalize_state(ops.drop_last());
        match ops.last() {
            DiffOp::Delete { pos, trit } => (out, dels.push((pos, trit)), ins),
            DiffOp::Insert { pos, trit } => (out, dels, ins.push((pos, trit))),
            _ => (out + pending_flush(dels, ins).push(ops.last()), Seq::empty(), Seq::empty()),
        }
    }
}

/// `ops` with every maximal run of deletes and inserts rewritten by
/// [`pending_flush`].
pub open spec fn normalize(ops: Seq<DiffOp>) -> Seq<DiffOp> {
    let (out, dels, ins) = normalize_state(ops);
    out + pending_flush(dels, ins)
}

/// The diff between `a` and `b`.
pub open spec fn diff_ops(a: Seq<Trit>, b: Seq<Trit>) -> Seq<DiffOp> {
    normalize(edit_script(a, b, a.len(), b.len()))
}

/// An LCS length never exceeds either prefix length.
pub proof fn lemma_lcs_bounded(a: Seq<Trit>, b: Seq<Trit>, i: nat, j: nat)
    ensures
        lcs_len(a, b, i, j) <= i,
        lcs_len(a, b, i, j) <= j,
    decreases i + j,
{
    if i > 0 && j > 0 {
        lemma_lcs_bounded(a, b, (i - 1) as nat, (j - 1) as nat);
        lemma_lcs_bounded(a, b, (i - 1) as nat, j);
        lemma_lcs_bounded(a, b, i, (j - 1) as nat);
    }
}

/// Adding one trit to either prefix keeps the LCS length or grows it by one.
pub proof fn lemma_lcs_steps(a: Seq<Trit>, b: Seq<Trit>, i: nat, j: nat)
    ensures
        i > 0 ==> lcs_len(a, b, (i - 1) as nat, j) <= lcs_len(a, b, i, j),
        i > 0 ==> lcs_len(a, b, i, j) <= lcs_len(a, b, (i - 1) as nat, j) + 1,
        j > 0 ==> lcs_len(a, b, i, (j - 1) as nat) <= lcs_len(a, b, i, j),
        j > 0 ==> lcs_len(a, b, i, j) <= lcs_len(a, b, i, (j - 1) as nat) + 1,
    decreases i + j,
{
    if i > 0 && j > 0 {
        lemma_lcs_steps(a, b, (i - 1) as nat, j);
        lemma_lcs_steps(a, b, i, (j - 1) as nat);
        lemma_lcs_steps(a, b, (i - 1) as nat, (j - 1) as nat);
    }
}

/// The backtracked script reads the first `i` trits of `a`, writes the first
/// `j` trits of `b`, records them and their positions exactly, and keeps
/// `lcs_len` of them.
pub proof fn lemma_edit_script(a: Seq<Trit>, b: Seq<Trit>, i: nat, j: nat, placed: bool)
    requires
        i <= a.len(),
        j <= b.len(),
        placed ==> a.len() <= usize::MAX,
        placed ==> b.len() <= usize::MAX,
    ensures
        walks_from(a, b, edit_script(a, b, i, j), 0, 0, placed),
        consumed(edit_script(a, b, i, j)) == i,
        produced(edit_script(a, b, i, j)) == j,
        equal_count(edit_script(a, b, i, j)) == lcs_len(a, b, i, j),
    decreases i + j,
{
    if i == 0 && j == 0 {
    } else if i > 0 && j > 0 && a[i - 1] == b[j - 1] {
        let prev = edit_script(a, b, (i - 1) as nat, (j - 1) as nat);
        lemma_edit_script(a, b, (i - 1) as nat, (j - 1) as nat, placed);
        lemma_push(a, b, prev, DiffOp::Equal { pos: (i - 1) as usize, trit: a[i - 1] }, 0, 0, placed);
    } else if j > 0 && (i == 0 || lcs_len(a, b, i, (j - 1) as nat) >= lcs_len(
        a,
        b,
        (i - 1) as nat,
        j,
    )) {
        let prev = edit_script(a, b, i, (j - 1) as nat);
        lemma_edit_script(a, b, i, (j - 1) as nat, placed);
        lemma_push(a, b, prev, DiffOp::Insert { pos: (j - 1) as usize, trit: b[j - 1] }, 0, 0, placed);
    } else {
        let prev = edit_script(a, b, (i - 1) as nat, j);
        lemma_edit_script(a, b, (i - 1) as nat, j, placed);
        lemma_push(a, b, prev, DiffOp::Delete { pos: (i - 1) as usize, trit: a[i - 1] }, 0, 0, placed);
    }
}

/// Pending entries `pend` hold, in order, the trits of `s` from cursor `c`
/// on, and, when `placed`, their positions are those indices.
pub open spec fn pending_fits(s: Seq<Trit>, pend: Seq<(usize, Trit)>, c: int, placed: bool) -> bool {
    forall|k: int|
        0 <= k < pend.len() ==> {
            &&& 0 <= c + k < s.len()
            &&& (#[trigger] pend[k]).1 == s[c + k]
            &&& (placed ==> pend[k].0 == c + k)
        }
}

/// The paired changes walk from the cursors of the pending runs.
proof fn lemma_changes_walk(
    a: Seq<Trit>,
    b: Seq<Trit>,
    dels: Seq<(usize, Trit)>,
    ins: Seq<(usize, Trit)>,
    c: int,
    e: int,
    placed: bool,
    p: nat,
)
    requires
        p <= dels.len(),
        p <= ins.len(),
        pending_fits(a, dels, c, placed),
        pending_fits(b, ins, e, placed),
    ensures
        walks_from(a, b, paired_changes(dels, ins, p), c, e, placed),
        consumed(paired_changes(dels, ins, p)) == p,
        produced(paired_changes(dels, ins, p)) == p,
        equal_count(paired_changes(dels, ins, p)) == 0,
    decreases p,
{
    if p > 0 {
        let q = (p - 1) as nat;
        lemma_changes_walk(a, b, dels, ins, c, e, placed, q);
        let op = DiffOp::Change { pos: dels[q as int].0, old: dels[q as int].1, new: ins[q as int].1 };
        assert(paired_changes(dels, ins, p) =~= paired_changes(dels, ins, q).push(op));
        assert(dels[q as int] == dels[q as int]);
        assert(ins[q as int] == ins[q as int]);
        lemma_push(a, b, paired_changes(dels, ins, q), op, c, e, placed);
    }
}

/// The first `q` unpaired deletes walk from the source cursor `c + p`.
proof fn lemma_deletes_walk(
    a: Seq<Trit>,
    b: Seq<Trit>,
    dels: Seq<(usize, Trit)>,
    c: int,
    e: int,
    placed: bool,
    p: nat,
    q: nat,
)
    requires
        p + q <= dels.len(),
        pending_fits(a, dels, c, placed),
    ensures
        walks_from(a, b, unpaired_deletes(dels, p).take(q as int), c + p, e, placed),
        consumed(unpaired_deletes(dels, p).take(q as int)) == q,
        produced(unpaired_deletes(dels, p).take(q as int)) == 0,
        equal_count(unpaired_deletes(dels, p).take(q as int)) == 0,
    decreases q,
{
    let t = unpaired_deletes(dels, p);
    if q == 0 {
        assert(t.take(0) =~= Seq::<DiffOp>::empty());
    } else {
        let r = (q - 1) as nat;
        lemma_deletes_walk(a, b, dels, c, e, placed, p, r);
        assert(t.take(q as int) =~= t.take(r as int).push(t[r as int]));
        assert(dels[(p + r) as int] == dels[(p + r) as int]);
        lemma_push(a, b, t.take(r as int), t[r as int], c + p, e, placed);
    }
}

/// The first `q` unpaired inserts walk from the target cursor `e + p`.
proof fn lemma_inserts_walk(
    a: Seq<Trit>,
    b: Seq<Trit>,
    ins: Seq<(usize, Trit)>,
    c: int,
    e: int,
    placed: bool,
    p: nat,
    q: nat,
)
    requires
        p + q <= ins.len(),
        pending_fits(b, ins, e, placed),
    ensures
        walks_from(a, b, unpaired_inserts(ins, p).take(q as int), c, e + p, placed),
        consumed(unpaired_inserts(ins, p).take(q as int)) == 0,
        produced(unpaired_inserts(ins, p).take(q as int)) == q,
        equal_count(unpaired_inserts(ins, p).take(q as int)) == 0,
    decreases q,
{
    let t = unpaired_inserts(ins, p);
    if q == 0 {
        assert(t.take(0) =~= Seq::<DiffOp>::empty());
    } else {
        let r = (q - 1) as nat;
        lemma_inserts_walk(a, b, ins, c, e, placed, p, r);
        assert(t.take(q as int) =~= t.take(r as int).push(t[r as int]));
        assert(ins[(p + r) as int] == ins[(p + r) as int]);
        lemma_push(a, b, t.take(r as int), t[r as int], c, e + p, placed);
    }
}

/// A flushed run walks from the cursors of the pending entries, reading
/// every pending delete and writing every pending insert.
proof fn lemma_flush_walk(
    a: Seq<Trit>,
    b: Seq<Trit>,
    dels: Seq<(usize, Trit)>,
    ins: Seq<(usize, Trit)>,
    c: int,
    e: int,
    placed: bool,
)
    requires
        pending_fits(a, dels, c, placed),
        pending_fits(b, ins, e, placed),
    ensures
        walks_from(a, b, pending_flush(dels, ins), c, e, placed),
        consumed(pending_flush(dels, ins)) == dels.len(),
        produced(pending_flush(dels, ins)) == ins.len(),
        equal_count(pending_flush(dels, ins)) == 0,
{
    let p = pair_count(dels, ins);
    let ch = paired_changes(dels, ins, p);
    let dt = unpaired_deletes(dels, p);
    let it = unpaired_inserts(ins, p);
    lemma_changes_walk(a, b, dels, ins, c, e, placed, p);
    lemma_deletes_walk(a, b, dels, c, e + p, placed, p, (dels.len() - p) as nat);
    lemma_inserts_walk(a, b, ins, c + dels.len(), e, placed, p, (ins.len() - p) as nat);
    assert(dt.take((dels.len() - p) as int) =~= dt);
    assert(it.take((ins.len() - p) as int) =~= it);
    lemma_concat(a, b, ch, dt, c, e, placed);
    lemma_concat(a, b, ch + dt, it, c, e, placed);
}

/// What normalising a walking script keeps: the emitted part walks, the
/// pending entries continue it exactly, and no `Equal` is lost.
proof fn lemma_normalize_state(a: Seq<Trit>, b: Seq<Trit>, ops: Seq<DiffOp>, placed: bool)
    requires
        walks_from(a, b, ops, 0, 0, placed),
    ensures
        ({
            let (out, dels, ins) = normalize_state(ops);
            &&& walks_from(a, b, out, 0, 0, placed)
            &&& consumed(out) + dels.len() == consumed(ops)
            &&& produced(out) + ins.len() == produced(ops)
            &&& pending_fits(a, dels, consumed(out) as int, placed)
            &&& pending_fits(b, ins, produced(out) as int, placed)
            &&& equal_count(out) == equal_count(ops)
        }),
    decreases ops.len(),
{
    if ops.len() > 0 {
        let prev = ops.drop_last();
        let op = ops.last();
        assert(prev.push(op) =~= ops);
        lemma_normalize_state(a, b, prev, placed);
        lemma_push(a, b, prev, op, 0, 0, placed);
        let (out, dels, ins) = normalize_state(prev);
        match op {
            DiffOp::Delete { pos, trit } => {
                let nd = dels.push((pos, trit));
                assert forall|k: int| 0 <= k < nd.len() implies {
                    &&& 0 <= consumed(out) + k < a.len()
                    &&& (#[trigger] nd[k]).1 == a[consumed(out) + k]
                    &&& (placed ==> nd[k].0 == consumed(out) + k)
                } by {
                    if k < dels.len() {
                        assert(nd[k] == dels[k]);
                    }
                }
            },
            DiffOp::Insert { pos, trit } => {
                let ni = ins.push((pos, trit));
                assert forall|k: int| 0 <= k < ni.len() implies {
                    &&& 0 <= produced(out) + k < b.len()
                    &&& (#[trigger] ni[k]).1 == b[produced(out) + k]
                    &&& (placed ==> ni[k].0 == produced(out) + k)
                } by {
                    if k < ins.len() {
                        assert(ni[k] == ins[k]);
                    }
                }
            },
            _ => {
                let fl = pending_flush(dels, ins);
                lemma_flush_walk(a, b, dels, ins, consumed(out) as int, produced(out) as int, placed);
                lemma_concat(a, b, out, fl, 0, 0, placed);
                lemma_push(a, b, out + fl, op, 0, 0, placed);
            },
        }
    }
}

/// Normalising keeps a script walking, with the same counts of reads,
/// writes and `Equal`s.
pub proof fn lemma_normalize(a: Seq<Trit>, b: Seq<Trit>, ops: Seq<DiffOp>, placed: bool)
    requires
        walks_from(a, b, ops, 0, 0, placed),
    ensures
        walks_from(a, b, normalize(ops), 0, 0, placed),
        consumed(normalize(ops)) == consumed(ops),
        produced(normalize(ops)) == produced(ops),
        equal_count(normalize(ops)) == equal_count(ops),
{
    lemma_normalize_state(a, b, ops, placed);
    let (out, dels, ins) = normalize_state(ops);
    lemma_flush_walk(a, b, dels, ins, consumed(out) as int, produced(out) as int, placed);
    lemma_concat(a, b, out, pending_flush(dels, ins), 0, 0, placed);
}

/// `x` standing before `y` in one run of a diff shows a pairing left
/// undone: a delete and an insert, or a delete or insert before a change.
pub open spec fn unpaired_before(x: DiffOp, y: DiffOp) -> bool {
    ||| (x is Delete && y is Insert)
    ||| (x is Insert && y is Delete)
    ||| ((x is Delete || x is Insert) && y is Change)
}

/// Every run of `ops` between two `Equal`s (or before the first, or after
/// the last) is fully paired: its changes come first, followed by deletes
/// only or inserts only. Between any two operations that would show a
/// pairing left undone there is an `Equal`.
pub open spec fn runs_fully_paired(ops: Seq<DiffOp>) -> bool {
    forall|j: int, k: int|
        #![trigger ops[j], ops[k]]
        0 <= j < k < ops.len() && unpaired_before(ops[j], ops[k]) ==> exists|m: int|
            j < m < k && (#[trigger] ops[m]) is Equal
}

/// A flushed run is its changes followed by deletes only or inserts only.
proof fn lemma_flush_paired(dels: Seq<(usize, Trit)>, ins: Seq<(usize, Trit)>)
    ensures
        runs_fully_paired(pending_flush(dels, ins)),
        forall|k: int| 0 <= k < pending_flush(dels, ins).len() ==> !((#[trigger] pending_flush(dels, ins)[k]) is Equal),
{
    let p = pair_count(dels, ins);
    let ch = paired_changes(dels, ins, p);
    let dt = unpaired_deletes(dels, p);
    let it = unpaired_inserts(ins, p);
    let f = pending_flush(dels, ins);
    assert(f == ch + dt + it);
    assert(dt.len() == 0 || it.len() == 0);
    assert forall|k: int| 0 <= k < f.len() implies {
        &&& (k < p ==> (#[trigger] f[k]) is Change)
        &&& (p <= k < p + dt.len() ==> f[k] is Delete)
        &&& (p + dt.len() <= k ==> f[k] is Insert)
    } by {
        if k < p {
            assert(f[k] == ch[k]);
        } else if k < p + dt.len() {
            assert(f[k] == dt[k - p]);
        } else {
            assert(f[k] == it[k - p - dt.len()]);
        }
    }
}

/// Appending a run that is fully paired to one that ends in `Equal` keeps
/// every run fully paired.
proof fn lemma_paired_concat(x: Seq<DiffOp>, y: Seq<DiffOp>)
    requires
        runs_fully_paired(x),
        runs_fully_paired(y),
        x.len() == 0 || x.last() is Equal,
    ensures
        runs_fully_paired(x + y),
{
    let z = x + y;
    assert forall|j: int, k: int|
        #![trigger z[j], z[k]]
        0 <= j < k < z.len() && unpaired_before(z[j], z[k]) implies exists|m: int|
            j < m < k && (#[trigger] z[m]) is Equal by {
        if k < x.len() {
            assert(z[j] == x[j] && z[k] == x[k]);
            let m = choose|m: int| j < m < k && (#[trigger] x[m]) is Equal;
            assert(z[m] == x[m]);
        } else if j >= x.len() {
            assert(z[j] == y[j - x.len()] && z[k] == y[k - x.len()]);
            let m = choose|m: int| j - x.len() < m < k - x.len() && (#[trigger] y[m]) is Equal;
            assert(z[m + x.len()] == y[m]);
        } else {
            let m = x.len() - 1;
            assert(z[m] == x[m]);
            if j == m {
                assert(z[j] is Equal);
            }
        }
    }
}

/// Appending an `Equal` keeps every run fully paired.
proof fn lemma_paired_push_equal(x: Seq<DiffOp>, e: DiffOp)
    requires
        runs_fully_paired(x),
        e is Equal,
    ensures
        runs_fully_paired(x.push(e)),
{
    let z = x.push(e);
    assert forall|j: int, k: int|
        #![trigger z[j], z[k]]
        0 <= j < k < z.len() && unpaired_before(z[j], z[k]) implies exists|m: int|
            j < m < k && (#[trigger] z[m]) is Equal by {
        assert(k < x.len());
        assert(z[j] == x[j] && z[k] == x[k]);
        let m = choose|m: int| j < m < k && (#[trigger] x[m]) is Equal;
        assert(z[m] == x[m]);
    }
}

/// Normalising a script without changes emits only fully paired runs, each
/// closed by an `Equal`.
proof fn lemma_normalize_state_paired(ops: Seq<DiffOp>)
    requires
        forall|k: int| 0 <= k < ops.len() ==> !((#[trigger] ops[k]) is Change),
    ensures
        ({
            let (out, dels, ins) = normalize_state(ops);
            runs_fully_paired(out) && (out.len() == 0 || out.last() is Equal)
        }),
    decreases ops.len(),
{
    if ops.len() > 0 {
        let prev = ops.drop_last();
        assert forall|k: int| 0 <= k < prev.len() implies !((#[trigger] prev[k]) is Change) by {
            assert(prev[k] == ops[k]);
        }
        lemma_normalize_state_paired(prev);
        let (out, dels, ins) = normalize_state(prev);
        let op = ops.last();
        assert(!(op is Change));
        if op is Equal {
            lemma_flush_paired(dels, ins);
            lemma_paired_concat(out, pending_flush(dels, ins));
            lemma_paired_push_equal(out + pending_flush(dels, ins), op);
        }
    }
}

/// The backtracked script holds no `Change`.
proof fn lemma_edit_script_no_change(a: Seq<Trit>, b: Seq<Trit>, i: nat, j: nat)
    ensures
        forall|k: int|
            0 <= k < edit_script(a, b, i, j).len() ==> !((#[trigger] edit_script(a, b, i, j)[k]) is Change),
    decreases i + j,
{
    if i == 0 && j == 0 {
    } else if i > 0 && j > 0 && a[i - 1] == b[j - 1] {
        lemma_edit_script_no_change(a, b, (i - 1) as nat, (j - 1) as nat);
    } else if j > 0 && (i == 0 || lcs_len(a, b, i, (j - 1) as nat) >= lcs_len(
        a,
        b,
        (i - 1) as nat,
        j,
    )) {
        lemma_edit_script_no_change(a, b, i, (j - 1) as nat);
    } else {
        lemma_edit_script_no_change(a, b, (i - 1) as nat, j);
    }
}

/// Every run of a diff between two `Equal`s is fully paired: as many
/// deletes and inserts as possible have become changes, which come first,
/// and what is left of the run is deletes only or inserts only.
pub proof fn lemma_diff_runs_fully_paired(a: Seq<Trit>, b: Seq<Trit>)
    ensures
        runs_fully_paired(diff_ops(a, b)),
{
    let raw = edit_script(a, b, a.len(), b.len());
    lemma_edit_script_no_change(a, b, a.len(), b.len());
    lemma_normalize_state_paired(raw);
    let (out, dels, ins) = normalize_state(raw);
    lemma_flush_paired(dels, ins);
    lemma_paired_concat(out, pending_flush(dels, ins));
}

/// The result of diffing two sequences: an ordered list of [`DiffOp`]s.
#[derive(Debug, Clone)]
pub struct TernaryDiff {
    ops: Vec<DiffOp>,
}

impl View for TernaryDiff {
    type V = Seq<DiffOp>;

    closed spec fn view(&self) -> Seq<DiffOp> {
        self.ops@
    }
}

/// Appends the pending run to `result` as [`pending_flush`] describes, and
/// empties both pending lists.
fn flush_pending(
    deletes: &mut Vec<(usize, Trit)>,
    inserts: &mut Vec<(usize, Trit)>,
    result: &mut Vec<DiffOp>,
)
    ensures
        final(result)@ == old(result)@ + pending_flush(old(deletes)@, old(inserts)@),
        final(deletes)@ == Seq::<(usize, Trit)>::empty(),
        final(inserts)@ == Seq::<(usize, Trit)>::empty(),
{
    let ghost r0 = result@;
    let ghost d = deletes@;
    let ghost ins = inserts@;
    let nd = deletes.len();
    let ni = inserts.len();
    let pairs = if nd <= ni { nd } else { ni };
    let mut k: usize = 0;
    while k < pairs
        invariant
            nd == d.len(),
            ni == ins.len(),
            pairs == pair_count(d, ins),
            0 <= k <= pairs,
            deletes@ == d,
            inserts@ == ins,
            result@ =~= r0 + paired_changes(d, ins, k as nat),
        decreases pairs - k,
    {
        let (d_pos, d_trit) = deletes[k];
        let (_, i_trit) = inserts[k];
        result.push(DiffOp::Change { pos: d_pos, old: d_trit, new: i_trit });
        k += 1;
    }
    let ghost changes = paired_changes(d, ins, pairs as nat);
    let mut k: usize = pairs;
    while k < nd
        invariant
            nd == d.len(),
            pairs == pair_count(d, ins),
            pairs <= k <= nd,
            deletes@ == d,
            changes == paired_changes(d, ins, pairs as nat),
            result@ =~= r0 + changes + unpaired_deletes(d, pairs as nat).take(k - pairs),
        decreases nd - k,
    {
        let (pos, trit) = deletes[k];
        result.push(DiffOp::Delete { pos, trit });
        k += 1;
    }
    let ghost dtail = unpaired_deletes(d, pairs as nat);
    assert(dtail.take(nd - pairs) =~= dtail);
    let mut k: usize = pairs;
    while k < ni
        invariant
            ni == ins.len(),
            pairs == pair_count(d, ins),
            pairs <= k <= ni,
            inserts@ == ins,
            changes == paired_changes(d, ins, pairs as nat),
            dtail == unpaired_deletes(d, pairs as nat),
            result@ =~= r0 + changes + dtail + unpaired_inserts(ins, pairs as nat).take(k - pairs),
        decreases ni - k,
    {
        let (pos, trit) = inserts[k];
        result.push(DiffOp::Insert { pos, trit });
        k += 1;
    }
    let ghost itail = unpaired_inserts(ins, pairs as nat);
    assert(itail.take(ni - pairs) =~= itail);
    assert(result@ =~= r0 + pending_flush(d, ins));
    deletes.clear();
    inserts.clear();
}

impl TernaryDiff {
    /// Compute the diff between `old` and `new` using the classic LCS
    /// (Longest Common Subsequence) dynamic-programming algorithm.
    ///
    /// The LCS table is backtracked to produce `Equal` / `Insert` / `Delete`
    /// operations, then a normalization pass pairs adjacent `Delete` + `Insert`
    /// runs into `Change` operations. Any leftover inserts/deletes are kept as
    /// structural additions/removals.
    pub fn diff(old: &TernarySeq, new: &TernarySeq) -> (d: Self)
        ensures
            d@ == diff_ops(old@, new@),
            is_placed_edit_script(old@, new@, d@),
            equal_count(d@) == lcs_len(old@, new@, old@.len(), new@.len()),
            runs_fully_paired(d@),
    {
        let a = old.trits();
        let b = new.trits();
        let m = a.len();
        let n = b.len();
        let ghost sa = old@;
        let ghost sb = new@;

        // dp[i][j] = LCS length of old[..i] and new[..j].
        let mut dp: Vec<Vec<usize>> = Vec::new();
        let mut row0: Vec<usize> = Vec::new();
        row0.push(0);
        let mut j: usize = 0;
        while j < n
            invariant
                0 <= j <= n,
                row0@.len() == j + 1,
                forall|c: int| 0 <= c <= j ==> #[trigger] row0@[c] == 0,
            decreases n - j,
        {
            row0.push(0);
            j += 1;
        }
        dp.push(row0);
        let mut i: usize = 0;
        while i < m
            invariant
                0 <= i <= m,
                m == a@.len(),
                n == b@.len(),
                a@ == sa,
                b@ == sb,
                dp@.len() == i + 1,
                forall|r: int| 0 <= r <= i ==> (#[trigger] dp@[r])@.len() == n + 1,
                forall|r: int, c: int|
                    0 <= r <= i && 0 <= c <= n ==> #[trigger] dp@[r]@[c] == lcs_len(
                        sa,
                        sb,
                        r as nat,
                        c as nat,
                    ),
            decreases m - i,
        {
            let mut row: Vec<usize> = Vec::new();
            row.push(0);
            let mut j: usize = 0;
            while j < n
                invariant
                    0 <= i < m,
                    0 <= j <= n,
                    m == a@.len(),
                    n == b@.len(),
                    a@ == sa,
                    b@ == sb,
                    dp@.len() == i + 1,
                    forall|r: int| 0 <= r <= i ==> (#[trigger] dp@[r])@.len() == n + 1,
                    forall|r: int, c: int|
                        0 <= r <= i && 0 <= c <= n ==> #[trigger] dp@[r]@[c] == lcs_len(
                            sa,
                            sb,
                            r as nat,
                            c as nat,
                        ),
                    row@.len() == j + 1,
                    forall|c: int|
                        0 <= c <= j ==> #[trigger] row@[c] == lcs_len(sa, sb, (i + 1) as nat, c as nat),
                decreases n - j,
            {
                proof {
                    lemma_lcs_bounded(sa, sb, i as nat, j as nat);
                }
                let v = if a[i] == b[j] {
                    dp[i][j] + 1
                } else {
                    let up = dp[i][j + 1];
                    let left = row[j];
                    if up >= left {
                        up
                    } else {
                        left
                    }
                };
                row.push(v);
                j += 1;
            }
            dp.push(row);
            i += 1;
        }

        // Backtrack from (m, n) to (0, 0) recovering the edit script.
        let ghost full = edit_script(sa, sb, m as nat, n as nat);
        let mut rev: Vec<DiffOp> = Vec::new();
        let mut i: usize = m;
        let mut j: usize = n;
        while i > 0 || j > 0
            invariant
                0 <= i <= m,
                0 <= j <= n,
                m == a@.len(),
                n == b@.len(),
                a@ == sa,
                b@ == sb,
                dp@.len() == m + 1,
                forall|r: int| 0 <= r <= m ==> (#[trigger] dp@[r])@.len() == n + 1,
                forall|r: int, c: int|
                    0 <= r <= m && 0 <= c <= n ==> #[trigger] dp@[r]@[c] == lcs_len(
                        sa,
                        sb,
                        r as nat,
                        c as nat,
                    ),
                full == edit_script(sa, sb, m as nat, n as nat),
                full =~= edit_script(sa, sb, i as nat, j as nat) + rev@.reverse(),
            decreases i + j,
        {
            let ghost prev_rev = rev@;
            if i > 0 && j > 0 && a[i - 1] == b[j - 1] {
                let op = DiffOp::Equal { pos: i - 1, trit: a[i - 1] };
                rev.push(op);
                i -= 1;
                j -= 1;
            } else if j > 0 && (i == 0 || dp[i][j - 1] >= dp[i - 1][j]) {
                let op = DiffOp::Insert { pos: j - 1, trit: b[j - 1] };
                rev.push(op);
                j -= 1;
            } else if i > 0 {
                let op = DiffOp::Delete { pos: i - 1, trit: a[i - 1] };
                rev.push(op);
                i -= 1;
            }
            assert(rev@.reverse() =~= seq![rev@.last()] + prev_rev.reverse());
        }

        let len = rev.len();
        let mut ops: Vec<DiffOp> = Vec::new();
        let mut k: usize = 0;
        while k < len
            invariant
                0 <= k <= len,
                len == rev@.len(),
                ops@.len() == k,
                forall|t: int| 0 <= t < k ==> #[trigger] ops@[t] == rev@[len - 1 - t],
            decreases len - k,
        {
            ops.push(rev[len - 1 - k]);
            k += 1;
        }
        assert(ops@ =~= rev@.reverse());
        assert(full =~= ops@);

        // Pair adjacent delete/insert runs into changes where appropriate.
        let normalized = Self::normalize_ops(ops.as_slice());
        proof {
            lemma_diff_is_edit_script(sa, sb);
            lemma_diff_runs_fully_paired(sa, sb);
        }
        TernaryDiff { ops: normalized }
    }

    /// A diff holding exactly `ops`.
    pub(crate) fn from_ops(ops: Vec<DiffOp>) -> (d: Self)
        ensures
            d@ == ops@,
    {
        TernaryDiff { ops }
    }

    /// Borrow the ordered list of diff operations.
    pub fn ops(&self) -> (r: &[DiffOp])
        ensures
            r@ == self@,
    {
        self.ops.as_slice()
    }

    /// Count of operations that are *not* `Equal` (i.e. the number of actual
    /// edits).
    pub fn change_count(&self) -> (c: usize)
        ensures
            c == edit_count(self@),
    {
        let n = self.ops.len();
        let mut c: usize = 0;
        let mut k: usize = 0;
        while k < n
            invariant
                0 <= k <= n,
                n == self.ops@.len(),
                c <= k,
                c == edit_count(self.ops@.take(k as int)),
            decreases n - k,
        {
            assert(self.ops@.take(k + 1).drop_last() =~= self.ops@.take(k as int));
            match self.ops[k] {
                DiffOp::Equal { .. } => {},
                _ => {
                    c += 1;
                },
            }
            k += 1;
        }
        assert(self.ops@.take(n as int) =~= self.ops@);
        c
    }

    /// Count of `Equal` operations: the elements the diff keeps unchanged.
    /// The similarity ratio is this count over the number of operations.
    pub fn equal_count(&self) -> (c: usize)
        ensures
            c == equal_count(self@),
    {
        let n = self.ops.len();
        let mut c: usize = 0;
        let mut k: usize = 0;
        while k < n
            invariant
                0 <= k <= n,
                n == self.ops@.len(),
                c <= k,
                c == equal_count(self.ops@.take(k as int)),
            decreases n - k,
        {
            assert(self.ops@.take(k + 1).drop_last() =~= self.ops@.take(k as int));
            match self.ops[k] {
                DiffOp::Equal { .. } => {
                    c += 1;
                },
                _ => {},
            }
            k += 1;
        }
        assert(self.ops@.take(n as int) =~= self.ops@);
        c
    }

    /// Pair adjacent delete/insert runs into changes.
    fn normalize_ops(ops: &[DiffOp]) -> (r: Vec<DiffOp>)
        ensures
            r@ == normalize(ops@),
    {
        let mut result: Vec<DiffOp> = Vec::new();
        let mut deletes: Vec<(usize, Trit)> = Vec::new();
        let mut inserts: Vec<(usize, Trit)> = Vec::new();
        let n = ops.len();
        for idx in 0..n
            invariant
                n == ops@.len(),
                (result@, deletes@, inserts@) == normalize_state(ops@.take(idx as int)),
        {
            let op = ops[idx];
            assert(ops@.take(idx + 1).drop_last() =~= ops@.take(idx as int));
            match op {
                DiffOp::Delete { pos, trit } => deletes.push((pos, trit)),
                DiffOp::Insert { pos, trit } => inserts.push((pos, trit)),
                _ => {
                    flush_pending(&mut deletes, &mut inserts, &mut result);
                    result.push(op);
                },
            }
        }
        assert(ops@.take(n as int) =~= ops@);
        flush_pending(&mut deletes, &mut inserts, &mut result);
        result
    }
}

} // verus!
