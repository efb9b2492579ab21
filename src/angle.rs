use vstd::prelude::*;

verus! {

/// The sign of a coordinate.
#[derive(Clone, Copy, Debug, PartialEq, Eq, Structural)]
pub enum Sign {
    Negative,
    Zero,
    Positive,
}

/// How the angle of an offset vector `(x, y)` is obtained. The angle is
/// measured from the positive x-axis. The arctangent branches divide `x` by
/// `y` when `x > 0` and `y` by `x` when `x < 0`, and both `x < 0` branches
/// share one formula; this is not the two-argument arctangent, and layouts
/// depend on these exact values.
#[derive(Clone, Copy, Debug, PartialEq, Eq, Structural)]
pub enum AngleFormula {
    /// `atan(x / y)`
    AtanXOverY,
    /// `2π + atan(x / y)`
    TwoPiPlusAtanXOverY,
    /// `π + atan(y / x)`
    PiPlusAtanYOverX,
    /// `0`
    Zero,
    /// `π / 2`
    HalfPi,
    /// `π`
    Pi,
    /// `3π / 2`
    ThreeHalvesPi,
}

/// Picks the angle formula for an offset vector from the signs of its
/// coordinates.
pub fn angle_formula(x: Sign, y: Sign) -> (f: AngleFormula)
    ensures
        x == Sign::Positive && y == Sign::Positive ==> f == AngleFormula::AtanXOverY,
        x == Sign::Positive && y == Sign::Negative ==> f == AngleFormula::TwoPiPlusAtanXOverY,
        x == Sign::Positive && y == Sign::Zero ==> f == AngleFormula::Zero,
        x == Sign::Negative && y == Sign::Positive ==> f == AngleFormula::PiPlusAtanYOverX,
        x == Sign::Negative && y == Sign::Negative ==> f == AngleFormula::PiPlusAtanYOverX,
        x == Sign::Negative && y == Sign::Zero ==> f == AngleFormula::Pi,
        x == Sign::Zero && y == Sign::Positive ==> f == AngleFormula::HalfPi,
        x == Sign::Zero && y == Sign::Negative ==> f == AngleFormula::ThreeHalvesPi,
        x == Sign::Zero && y == Sign::Zero ==> f == AngleFormula::Zero,
{
    match x {
        Sign::Positive => match y {
            Sign::Positive => AngleFormula::AtanXOverY,
            Sign::Negative => AngleFormula::TwoPiPlusAtanXOverY,
            Sign::Zero => AngleFormula::Zero,
        },
        Sign::Negative => match y {
            Sign::Zero => AngleFormula::Pi,
            _ => AngleFormula::PiPlusAtanYOverX,
        },
        Sign::Zero => match y {
            Sign::Positive => AngleFormula::HalfPi,
            Sign::Negative => AngleFormula::ThreeHalvesPi,
            Sign::Zero => AngleFormula::Zero,
        },
    }
}

} // verus!
