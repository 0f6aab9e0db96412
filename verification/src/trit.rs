//! The ternary value itself.

use vstd::prelude::*;

verus! {

/// A single ternary value: one of negative, zero, or positive.
#[derive(Debug, Clone, Copy, PartialEq, Eq, Hash, Structural)]
pub enum Trit {
    /// The negative value (`-1`).
    Neg,
    /// The zero / neutral value (`0`).
    Zero,
    /// The positive value (`+1`).
    Pos,
}

/// The integer a trit stands for.
pub open spec fn trit_value(t: Trit) -> int {
    match t {
        Trit::Neg => -1,
        Trit::Zero => 0,
        Trit::Pos => 1,
    }
}

/// The trit an `i8` stands for, if it is one of `-1`, `0`, `1`.
pub open spec fn trit_of(v: i8) -> Option<Trit> {
    if v == -1 {
        Some(Trit::Neg)
    } else if v == 0 {
        Some(Trit::Zero)
    } else if v == 1 {
        Some(Trit::Pos)
    } else {
        None
    }
}

impl Trit {
    /// Convert this trit to its `i8` representation (`-1`, `0`, or `1`).
    pub fn to_i8(self) -> (v: i8)
        ensures
            v == trit_value(self),
            trit_of(v) == Some(self),
    {
        match self {
            Trit::Neg => -1,
            Trit::Zero => 0,
            Trit::Pos => 1,
        }
    }

    /// Parse an `i8` into a trit. Returns `None` for any value other than
    /// `-1`, `0`, or `1`.
    pub fn from_i8(v: i8) -> (t: Option<Self>)
        ensures
            t == trit_of(v),
            t matches Some(x) ==> trit_value(x) == v,
    {
        match v {
            -1 => Some(Trit::Neg),
            0 => Some(Trit::Zero),
            1 => Some(Trit::Pos),
            _ => None,
        }
    }
}

} // verus!
