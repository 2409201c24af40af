use vstd::prelude::*;
use vstd::std_specs::convert::FromSpecImpl;

verus! {

/// The sign of an exact geometric quantity (e.g. a determinant).
#[derive(Debug, Clone, Copy, PartialEq, Eq, Structural)]
pub enum Sign {
    /// The quantity is exactly negative.
    Negative,
    /// The quantity is exactly zero.
    Zero,
    /// The quantity is exactly positive.
    Positive,
}

/// The orientation of an ordered sequence of 2D points.
#[derive(Debug, Clone, Copy, PartialEq, Eq, Structural)]
pub enum Orientation {
    /// The sequence turns clockwise.
    Clockwise,
    /// The sequence is degenerate (collinear).
    Collinear,
    /// The sequence turns counterclockwise.
    CounterClockwise,
}

/// The sign with `Positive` and `Negative` exchanged.
pub open spec fn spec_negate(s: Sign) -> Sign {
    match s {
        Sign::Negative => Sign::Positive,
        Sign::Zero => Sign::Zero,
        Sign::Positive => Sign::Negative,
    }
}

/// The orientation a sign stands for: negative is clockwise, zero is
/// collinear, positive is counterclockwise.
pub open spec fn orientation_of(s: Sign) -> Orientation {
    match s {
        Sign::Negative => Orientation::Clockwise,
        Sign::Zero => Orientation::Collinear,
        Sign::Positive => Orientation::CounterClockwise,
    }
}

impl Sign {
    /// Flips `Positive` <-> `Negative`, leaves `Zero` unchanged.
    pub fn negate(self) -> (r: Sign)
        ensures
            r == spec_negate(self),
    {
        match self {
            Sign::Negative => Sign::Positive,
            Sign::Zero => Sign::Zero,
            Sign::Positive => Sign::Negative,
        }
    }
}

impl From<Sign> for Orientation {
    fn from(sign: Sign) -> (r: Self) {
        match sign {
            Sign::Negative => Orientation::Clockwise,
            Sign::Zero => Orientation::Collinear,
            Sign::Positive => Orientation::CounterClockwise,
        }
    }
}

impl FromSpecImpl<Sign> for Orientation {
    open spec fn obeys_from_spec() -> bool {
        true
    }

    open spec fn from_spec(v: Sign) -> Orientation {
        orientation_of(v)
    }
}

/// `true` iff one orientation is clockwise and the other
/// counterclockwise (a strict straddle).
pub open spec fn spec_opposite_signs(x: Orientation, y: Orientation) -> bool {
    (x == Orientation::Clockwise && y == Orientation::CounterClockwise)
        || (x == Orientation::CounterClockwise && y == Orientation::Clockwise)
}

/// `true` iff `x` and `y` are strictly on opposite sides: one clockwise,
/// the other counterclockwise.
pub fn opposite_signs(x: Orientation, y: Orientation) -> (r: bool)
    ensures
        r == spec_opposite_signs(x, y),
{
    match (x, y) {
        (Orientation::Clockwise, Orientation::CounterClockwise) => true,
        (Orientation::CounterClockwise, Orientation::Clockwise) => true,
        _ => false,
    }
}

/// Negating a sign twice gives it back.
pub proof fn lemma_negate_involutive(s: Sign)
    ensures
        spec_negate(spec_negate(s)) == s,
{
}

/// Negation keeps exactly the zero sign fixed.
pub proof fn lemma_negate_fixes_only_zero(s: Sign)
    ensures
        (spec_negate(s) == s) <==> (s == Sign::Zero),
{
}

/// Mapping signs to orientations is one to one: distinct signs give
/// distinct orientations.
pub proof fn lemma_orientation_of_injective(a: Sign, b: Sign)
    ensures
        (orientation_of(a) == orientation_of(b)) <==> (a == b),
{
}

/// Being on opposite sides does not depend on the order of the two
/// orientations, and never holds for a collinear one.
pub proof fn lemma_opposite_signs_symmetric(x: Orientation, y: Orientation)
    ensures
        spec_opposite_signs(x, y) == spec_opposite_signs(y, x),
        x == Orientation::Collinear ==> !spec_opposite_signs(x, y),
{
}

} // verus!
