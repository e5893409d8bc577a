//! The three-valued digit `Trit` and its elementary operations.
use vstd::prelude::*;

verus! {

/// A trit in {-1, 0, 1}.
#[derive(Debug, Clone, Copy, PartialEq, Eq, Hash, Structural)]
pub enum Trit {
    NegOne,
    Zero,
    One,
}

/// The integer that a trit stands for.
pub open spec fn trit_value(t: Trit) -> int {
    match t {
        Trit::NegOne => -1,
        Trit::Zero => 0,
        Trit::One => 1,
    }
}

/// The trit whose value is the sign of `v`.
pub open spec fn sign_trit(v: int) -> Trit {
    if v < 0 {
        Trit::NegOne
    } else if v == 0 {
        Trit::Zero
    } else {
        Trit::One
    }
}

/// The trit that `flip` turns `t` into for a choice of parity `parity`
/// (0 or 1): with parity 0 the lower of the two other trits, with parity 1
/// the higher one.
pub open spec fn flipped(t: Trit, parity: int) -> Trit {
    match t {
        Trit::NegOne => if parity == 0 { Trit::Zero } else { Trit::One },
        Trit::Zero => if parity == 0 { Trit::NegOne } else { Trit::One },
        Trit::One => if parity == 0 { Trit::NegOne } else { Trit::Zero },
    }
}

impl Trit {
    /// The trit as an `i8`: -1, 0 or 1.
    pub fn to_i8(self) -> (r: i8)
        ensures
            r == trit_value(self),
    {
        match self {
            Trit::NegOne => -1,
            Trit::Zero => 0,
            Trit::One => 1,
        }
    }

    /// The sign of `v` as a trit.
    pub fn from_i8(v: i8) -> (t: Trit)
        ensures
            t == sign_trit(v as int),
    {
        if v < 0 {
            Trit::NegOne
        } else if v == 0 {
            Trit::Zero
        } else {
            Trit::One
        }
    }

    /// Flip to one of the two other trit values, picked by the parity of
    /// `choice`.
    pub fn flip(self, choice: u8) -> (t: Trit)
        ensures
            t == flipped(self, (choice % 2) as int),
            t != self,
    {
        match (self, choice % 2) {
            (Trit::NegOne, 0) => Trit::Zero,
            (Trit::NegOne, _) => Trit::One,
            (Trit::Zero, 0) => Trit::NegOne,
            (Trit::Zero, _) => Trit::One,
            (Trit::One, 0) => Trit::NegOne,
            (Trit::One, _) => Trit::Zero,
        }
    }

    /// The decimal text of the trit's value: "-1", "0" or "1".
    pub fn to_text(self) -> (s: String)
        ensures
            s@ == (match self {
                Trit::NegOne => "-1"@,
                Trit::Zero => "0"@,
                Trit::One => "1"@,
            }),
    {
        match self {
            Trit::NegOne => String::from_str("-1"),
            Trit::Zero => String::from_str("0"),
            Trit::One => String::from_str("1"),
        }
    }
}

/// Converting a trit to its integer and back gives the same trit.
pub proof fn lemma_from_to_roundtrip(t: Trit)
    ensures
        sign_trit(trit_value(t)) == t,
{
}

/// The two choices of `flip` give the two trits other than the original,
/// and they differ from each other.
pub proof fn lemma_flip_covers_others(t: Trit, u: Trit)
    requires
        u != t,
    ensures
        flipped(t, 0) != flipped(t, 1),
        flipped(t, 0) != t,
        flipped(t, 1) != t,
        u == flipped(t, 0) || u == flipped(t, 1),
{
}

/// Choice parity 0 flips to the lower of the two other trits and parity 1
/// to the higher one; the parity of `choice` alone decides, so an even and
/// an odd choice always give different trits.
pub proof fn lemma_flip_parity_picks_lower_or_higher(t: Trit, u: Trit, choice: u8)
    requires
        u != t,
    ensures
        trit_value(flipped(t, 0)) <= trit_value(u) <= trit_value(flipped(t, 1)),
        trit_value(flipped(t, 0)) < trit_value(flipped(t, 1)),
        flipped(t, (choice % 2) as int) == if choice % 2 == 0 {
            flipped(t, 0)
        } else {
            flipped(t, 1)
        },
{
}

} // verus!
