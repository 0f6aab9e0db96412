//! Edit scripts: the operations of a diff and what it means for a list of
//! them to turn one sequence into another.

use vstd::prelude::*;

use crate::trit::Trit;

verus! {

/// A single operation within a diff.
///
/// Positions are reported relative to the relevant sequence: for
/// [`DiffOp::Equal`], [`DiffOp::Change`], and [`DiffOp::Delete`] the `pos` is
/// an index into the *original* (old) sequence; for [`DiffOp::Insert`] it is
/// an index into the *new* (target) sequence.
#[derive(Debug, Clone, Copy, PartialEq, Eq, Structural)]
pub enum DiffOp {
    /// An element present (and unchanged) in both sequences.
    Equal {
        /// Index of the element in the original sequence.
        pos: usize,
        /// The unchanged value.
        trit: Trit,
    },
    /// An element whose value was replaced.
    Change {
        /// Index of the replaced element in the original sequence.
        pos: usize,
        /// The original value.
        old: Trit,
        /// The replacement value.
        new: Trit,
    },
    /// A new element added to the sequence.
    Insert {
        /// Index of the inserted element in the new sequence.
        pos: usize,
        /// The inserted value.
        trit: Trit,
    },
    /// An element removed from the sequence.
    Delete {
        /// Index of the removed element in the original sequence.
        pos: usize,
        /// The removed value.
        trit: Trit,
    },
}

/// Whether the operation reads one element of the source (`Equal`, `Change`,
/// `Delete`).
pub open spec fn consumes(op: DiffOp) -> bool {
    !(op is Insert)
}

/// Whether the operation writes one element of the target (`Equal`,
/// `Change`, `Insert`).
pub open spec fn produces(op: DiffOp) -> bool {
    !(op is Delete)
}

/// Number of source elements that `ops` reads.
pub open spec fn consumed(ops: Seq<DiffOp>) -> nat
    decreases ops.len(),
{
    if ops.len() == 0 {
        0
    } else {
        consumed(ops.drop_last()) + if consumes(ops.last()) { 1nat } else { 0nat }
    }
}

/// Number of target elements that `ops` writes.
pub open spec fn produced(ops: Seq<DiffOp>) -> nat
    decreases ops.len(),
{
    if ops.len() == 0 {
        0
    } else {
        produced(ops.drop_last()) + if produces(ops.last()) { 1nat } else { 0nat }
    }
}

/// Number of `Equal` operations in `ops`.
pub open spec fn equal_count(ops: Seq<DiffOp>) -> nat
    decreases ops.len(),
{
    if ops.len() == 0 {
        0
    } else {
        equal_count(ops.drop_last()) + if ops.last() is Equal { 1nat } else { 0nat }
    }
}

/// Number of operations in `ops` that are not `Equal`.
pub open spec fn edit_count(ops: Seq<DiffOp>) -> nat
    decreases ops.len(),
{
    if ops.len() == 0 {
        0
    } else {
        edit_count(ops.drop_last()) + if ops.last() is Equal { 0nat } else { 1nat }
    }
}

/// The values recorded in `op` agree with `a` at source cursor `c` and with
/// `b` at target cursor `e`.
pub open spec fn op_fits(a: Seq<Trit>, b: Seq<Trit>, op: DiffOp, c: int, e: int) -> bool {
    match op {
        DiffOp::Equal { trit, .. } => 0 <= c < a.len() && 0 <= e < b.len() && a[c] == trit
            && b[e] == trit,
        DiffOp::Change { old, new, .. } => 0 <= c < a.len() && 0 <= e < b.len() && a[c] == old
            && b[e] == new,
        DiffOp::Delete { trit, .. } => 0 <= c < a.len() && a[c] == trit,
        DiffOp::Insert { trit, .. } => 0 <= e < b.len() && b[e] == trit,
    }
}

/// The position recorded in `op` is the cursor of the sequence it refers to:
/// the source cursor `c` for `Equal`, `Change` and `Delete`, the target
/// cursor `e` for `Insert`.
pub open spec fn op_placed(op: DiffOp, c: int, e: int) -> bool {
    match op {
        DiffOp::Equal { pos, .. } => pos == c,
        DiffOp::Change { pos, .. } => pos == c,
        DiffOp::Delete { pos, .. } => pos == c,
        DiffOp::Insert { pos, .. } => pos == e,
    }
}

/// Walking `ops` from source cursor `c` and target cursor `e`, every
/// operation's values fit `a` and `b` at the cursors it is met at, and, when
/// `placed`, every operation's position is that cursor too.
pub open spec fn walks_from(
    a: Seq<Trit>,
    b: Seq<Trit>,
    ops: Seq<DiffOp>,
    c: int,
    e: int,
    placed: bool,
) -> bool
    decreases ops.len(),
{
    if ops.len() == 0 {
        true
    } else {
        let prev = ops.drop_last();
        let cc = c + consumed(prev);
        let ce = e + produced(prev);
        &&& walks_from(a, b, prev, c, e, placed)
        &&& op_fits(a, b, ops.last(), cc, ce)
        &&& (placed ==> op_placed(ops.last(), cc, ce))
    }
}

/// `ops` is an edit script that turns `a` into `b`: it reads all of `a` and
/// writes all of `b`, and the values it records agree with both.
pub open spec fn is_edit_script(a: Seq<Trit>, b: Seq<Trit>, ops: Seq<DiffOp>) -> bool {
    &&& walks_from(a, b, ops, 0, 0, false)
    &&& consumed(ops) == a.len()
    &&& produced(ops) == b.len()
}

/// `ops` is an edit script from `a` to `b` whose positions are also exact.
pub open spec fn is_placed_edit_script(a: Seq<Trit>, b: Seq<Trit>, ops: Seq<DiffOp>) -> bool {
    &&& walks_from(a, b, ops, 0, 0, true)
    &&& consumed(ops) == a.len()
    &&& produced(ops) == b.len()
}

/// The counts and the walk of `ops.push(op)` follow from those of `ops`.
pub proof fn lemma_push(a: Seq<Trit>, b: Seq<Trit>, ops: Seq<DiffOp>, op: DiffOp, c: int, e: int, placed: bool)
    ensures
        consumed(ops.push(op)) == consumed(ops) + if consumes(op) { 1nat } else { 0nat },
        produced(ops.push(op)) == produced(ops) + if produces(op) { 1nat } else { 0nat },
        equal_count(ops.push(op)) == equal_count(ops) + if op is Equal { 1nat } else { 0nat },
        edit_count(ops.push(op)) == edit_count(ops) + if op is Equal { 0nat } else { 1nat },
        walks_from(a, b, ops.push(op), c, e, placed) == (walks_from(a, b, ops, c, e, placed)
            && op_fits(a, b, op, c + consumed(ops), e + produced(ops))
            && (placed ==> op_placed(op, c + consumed(ops), e + produced(ops)))),
{
    assert(ops.push(op).drop_last() =~= ops);
}

/// Counts add up over a concatenation, and a concatenation walks exactly
/// when its first part walks and its second part walks from where the first
/// one left the cursors.
pub proof fn lemma_concat(
    a: Seq<Trit>,
    b: Seq<Trit>,
    x: Seq<DiffOp>,
    y: Seq<DiffOp>,
    c: int,
    e: int,
    placed: bool,
)
    ensures
        consumed(x + y) == consumed(x) + consumed(y),
        produced(x + y) == produced(x) + produced(y),
        equal_count(x + y) == equal_count(x) + equal_count(y),
        edit_count(x + y) == edit_count(x) + edit_count(y),
        walks_from(a, b, x + y, c, e, placed) == (walks_from(a, b, x, c, e, placed)
            && walks_from(a, b, y, c + consumed(x), e + produced(x), placed)),
    decreases y.len(),
{
    if y.len() == 0 {
        assert(x + y =~= x);
    } else {
        let yp = y.drop_last();
        let op = y.last();
        lemma_concat(a, b, x, yp, c, e, placed);
        assert(x + y =~= (x + yp).push(op));
        assert(yp.push(op) =~= y);
        lemma_push(a, b, x + yp, op, c, e, placed);
        lemma_push(a, b, yp, op, c + consumed(x), e + produced(x), placed);
    }
}

/// Counts of a script bound one another: each `Equal` reads and writes one
/// element, and every other operation reads or writes at least one.
pub proof fn lemma_count_bounds(ops: Seq<DiffOp>)
    ensures
        equal_count(ops) <= consumed(ops),
        equal_count(ops) <= produced(ops),
        edit_count(ops) <= (consumed(ops) - equal_count(ops)) + (produced(ops) - equal_count(ops)),
        equal_count(ops) + edit_count(ops) == ops.len(),
    decreases ops.len(),
{
    if ops.len() > 0 {
        lemma_count_bounds(ops.drop_last());
    }
}

} // verus!
