//! Ordered, mutable sequences of trits.

use vstd::prelude::*;

use crate::trit::{trit_of, trit_value, Trit};

verus! {

/// The trits that a slice of `i8` holds, keeping only `-1`, `0` and `1`.
pub open spec fn trits_of(values: Seq<i8>) -> Seq<Trit> {
    values.filter_map(|v: i8| trit_of(v))
}

/// Whether every value is one of `-1`, `0`, `1`.
pub open spec fn all_trits(values: Seq<i8>) -> bool {
    forall|k: int| 0 <= k < values.len() ==> (#[trigger] trit_of(values[k])) is Some
}

/// The trits of a slice whose values are all valid, element by element.
pub open spec fn trits_exact(values: Seq<i8>) -> Seq<Trit> {
    values.map_values(|v: i8| trit_of(v).unwrap())
}

/// `k` is the index of the first value that is not a trit.
pub open spec fn first_invalid(values: Seq<i8>, k: int) -> bool {
    &&& 0 <= k < values.len()
    &&& trit_of(values[k]) is None
    &&& forall|j: int| 0 <= j < k ==> (#[trigger] trit_of(values[j])) is Some
}

/// The slice `[start, end)` of `s`, with `end` clamped to the length and
/// `start` clamped to `end`.
pub open spec fn clamped_slice(s: Seq<Trit>, start: int, end: int) -> Seq<Trit> {
    let e = if end < s.len() { end } else { s.len() as int };
    let b = if start < e { start } else { e };
    s.subrange(b, e)
}

/// The values of a slice that are valid trits (`-1`, `0` or `1`), in order.
pub open spec fn valid_values(values: Seq<i8>) -> Seq<i8> {
    values.filter(|v: i8| -1 <= v <= 1)
}

/// The lenient parse keeps exactly the inputs that are `-1`, `0` or `1`, in
/// order, each as the trit with that value: it has one trit per valid
/// input, and no invalid input yields a trit.
pub proof fn lemma_lenient_keeps_valid(values: Seq<i8>)
    ensures
        trits_of(values).len() == valid_values(values).len(),
        forall|k: int|
            0 <= k < trits_of(values).len() ==> trit_value(#[trigger] trits_of(values)[k])
                == valid_values(values)[k],
    decreases values.len(),
{
    reveal(Seq::filter);
    if values.len() > 0 {
        let prev = values.drop_last();
        let v = values.last();
        lemma_lenient_keeps_valid(prev);
        assert(values.filter(|v: i8| -1 <= v <= 1) == if -1 <= v <= 1 {
            prev.filter(|v: i8| -1 <= v <= 1).push(v)
        } else {
            prev.filter(|v: i8| -1 <= v <= 1)
        });
        if -1 <= v <= 1 {
            assert(trits_of(values) == trits_of(prev) + seq![trit_of(v)->0]);
            assert forall|k: int| 0 <= k < trits_of(values).len() implies trit_value(
                #[trigger] trits_of(values)[k],
            ) == valid_values(values)[k] by {
                if k < trits_of(prev).len() {
                    assert(trits_of(values)[k] == trits_of(prev)[k]);
                }
            }
        } else {
            assert(trits_of(values) == trits_of(prev));
        }
    }
}

/// A slice holds the trits of `s` from index `start` on, up to `end` or the
/// end of `s`, whichever comes first; an empty or inverted range gives an
/// empty slice.
pub proof fn lemma_slice_window(s: Seq<Trit>, start: int, end: int)
    requires
        0 <= start,
        0 <= end,
    ensures
        ({
            let stop = if end < s.len() { end } else { s.len() as int };
            &&& clamped_slice(s, start, end).len() == if start < stop { stop - start } else { 0 }
            &&& forall|k: int|
                0 <= k < clamped_slice(s, start, end).len() ==> #[trigger] clamped_slice(s, start, end)[k]
                    == s[start + k]
        }),
{
}

/// An ordered, mutable sequence of [`Trit`] values.
#[derive(Debug, Clone, PartialEq)]
pub struct TernarySeq {
    trits: Vec<Trit>,
}

impl View for TernarySeq {
    type V = Seq<Trit>;

    closed spec fn view(&self) -> Seq<Trit> {
        self.trits@
    }
}

impl TernarySeq {
    /// Create a sequence that owns the given trits.
    pub fn new(trits: Vec<Trit>) -> (s: Self)
        ensures
            s@ == trits@,
    {
        TernarySeq { trits }
    }

    /// Build a sequence from a slice of `i8`, **silently dropping** any value
    /// that is not `-1`, `0`, or `1`.
    pub fn from_i8(values: &[i8]) -> (s: Self)
        ensures
            s@ == trits_of(values@),
            s@.len() == valid_values(values@).len(),
            forall|k: int| 0 <= k < s@.len() ==> trit_value(#[trigger] s@[k]) == valid_values(values@)[k],
    {
        let mut trits: Vec<Trit> = Vec::new();
        let n = values.len();
        for i in 0..n
            invariant
                n == values@.len(),
                trits@ == trits_of(values@.take(i as int)),
        {
            let v = values[i];
            match Trit::from_i8(v) {
                Some(t) => trits.push(t),
                None => {},
            }
            assert(values@.take(i + 1).drop_last() =~= values@.take(i as int));
        }
        assert(values@.take(n as int) =~= values@);
        proof {
            lemma_lenient_keeps_valid(values@);
        }
        TernarySeq { trits }
    }

    /// Build a sequence from a slice of `i8`, returning an error holding the
    /// first value that is not `-1`, `0`, or `1` instead of silently dropping
    /// it.
    pub fn from_i8_strict(values: &[i8]) -> (r: Result<Self, i8>)
        ensures
            r is Ok <==> all_trits(values@),
            r matches Ok(s) ==> s@ == trits_exact(values@) && s@ == trits_of(values@),
            r matches Err(v) ==> exists|k: int| first_invalid(values@, k) && values@[k] == v,
    {
        let mut trits: Vec<Trit> = Vec::new();
        let n = values.len();
        for i in 0..n
            invariant
                n == values@.len(),
                trits@.len() == i,
                forall|j: int| 0 <= j < i ==> (#[trigger] trit_of(values@[j])) is Some,
                forall|j: int| 0 <= j < i ==> trits@[j] == trit_of(values@[j]).unwrap(),
        {
            let v = values[i];
            match Trit::from_i8(v) {
                Some(t) => trits.push(t),
                None => {
                    assert(first_invalid(values@, i as int));
                    return Err(v);
                },
            }
        }
        assert(trits@ =~= trits_exact(values@));
        proof {
            lemma_strict_agrees(values@);
        }
        Ok(TernarySeq::new(trits))
    }

    /// Number of trits in the sequence.
    pub fn len(&self) -> (n: usize)
        ensures
            n == self@.len(),
    {
        self.trits.len()
    }

    /// Whether the sequence contains no trits.
    pub fn is_empty(&self) -> (b: bool)
        ensures
            b <==> self@.len() == 0,
    {
        self.trits.is_empty()
    }

    /// Borrow the underlying trit slice.
    pub fn trits(&self) -> (t: &[Trit])
        ensures
            t@ == self@,
    {
        self.trits.as_slice()
    }

    /// Get the trit at `idx`, or `None` if out of bounds.
    pub fn get(&self, idx: usize) -> (t: Option<Trit>)
        ensures
            t == (if idx < self@.len() { Some(self@[idx as int]) } else { None::<Trit> }),
    {
        if idx < self.trits.len() {
            Some(self.trits[idx])
        } else {
            None
        }
    }

    /// Set the trit at `idx`.
    ///
    /// If `idx` is out of bounds this is a silent no-op.
    pub fn set(&mut self, idx: usize, trit: Trit)
        ensures
            final(self)@ == (if idx < old(self)@.len() {
                old(self)@.update(idx as int, trit)
            } else {
                old(self)@
            }),
    {
        if idx < self.trits.len() {
            self.trits.set(idx, trit);
        }
    }

    /// Append a trit to the end of the sequence.
    pub fn push(&mut self, trit: Trit)
        ensures
            final(self)@ == old(self)@.push(trit),
    {
        self.trits.push(trit);
    }

    /// Insert a trit at `idx`, shifting later elements right.
    pub fn insert(&mut self, idx: usize, trit: Trit)
        requires
            idx <= old(self)@.len(),
        ensures
            final(self)@ == old(self)@.insert(idx as int, trit),
    {
        self.trits.insert(idx, trit);
    }

    /// Remove and return the trit at `idx`, or `None` if out of bounds.
    pub fn remove(&mut self, idx: usize) -> (t: Option<Trit>)
        ensures
            idx < old(self)@.len() ==> t == Some(old(self)@[idx as int])
                && final(self)@ == old(self)@.remove(idx as int),
            idx >= old(self)@.len() ==> t is None && final(self)@ == old(self)@,
    {
        if idx < self.trits.len() {
            Some(self.trits.remove(idx))
        } else {
            None
        }
    }

    /// Return a copy of the sub-sequence `trits[start..end]`.
    ///
    /// Both bounds are clamped to the sequence length and `start` is clamped to
    /// `end`, so this never panics: an empty or inverted range yields an empty
    /// sequence.
    pub fn slice(&self, start: usize, end: usize) -> (s: TernarySeq)
        ensures
            s@ == clamped_slice(self@, start as int, end as int),
    {
        let len = self.trits.len();
        let end = if end < len { end } else { len };
        let start = if start < end { start } else { end };
        let mut out: Vec<Trit> = Vec::new();
        let mut k = start;
        while k < end
            invariant
                start <= k <= end <= len,
                len == self.trits@.len(),
                out@ =~= self.trits@.subrange(start as int, k as int),
            decreases end - k,
        {
            out.push(self.trits[k]);
            k += 1;
        }
        TernarySeq::new(out)
    }
}

/// Where every value is a trit, the strict and the lenient parse agree.
pub proof fn lemma_strict_agrees(values: Seq<i8>)
    requires
        all_trits(values),
    ensures
        trits_exact(values) == trits_of(values),
    decreases values.len(),
{
    if values.len() > 0 {
        let prev = values.drop_last();
        assert forall|k: int| 0 <= k < prev.len() implies (#[trigger] trit_of(prev[k])) is Some by {
            assert(prev[k] == values[k]);
            assert(trit_of(values[k]) is Some);
        }
        lemma_strict_agrees(prev);
        assert(trit_of(values[values.len() - 1]) is Some);
        assert(trits_exact(values) =~= trits_exact(prev).push(trit_of(values.last()).unwrap()));
    }
}

/// Inserting a trit and then removing it at the same index gives the
/// inserted trit back and restores the sequence.
pub proof fn lemma_insert_remove(s: Seq<Trit>, idx: int, t: Trit)
    requires
        0 <= idx <= s.len(),
    ensures
        s.insert(idx, t)[idx] == t,
        s.insert(idx, t).remove(idx) == s,
{
    assert(s.insert(idx, t).remove(idx) =~= s);
}

} // verus!
