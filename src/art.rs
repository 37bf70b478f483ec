//! Colours of the red-yellow-blue model.
use vstd::prelude::*;

verus! {

/// The primary colours of the RYB colour model.
#[derive(Clone, Copy, Debug, PartialEq, Eq, Structural)]
pub enum PrimaryColor {
    Red,
    Yellow,
    Blue,
}

/// The secondary colours of the RYB colour model.
#[derive(Clone, Copy, Debug, PartialEq, Eq, Structural)]
pub enum SecondaryColor {
    Orange,
    Green,
    Purple,
}

/// Two primary colours make a secondary one when they differ: red and
/// yellow make orange, red and blue purple, yellow and blue green.
pub open spec fn mixes_to(a: PrimaryColor, b: PrimaryColor, c: SecondaryColor) -> bool {
    let pair = |x: PrimaryColor, y: PrimaryColor| (a == x && b == y) || (a == y && b == x);
    match c {
        SecondaryColor::Orange => pair(PrimaryColor::Red, PrimaryColor::Yellow),
        SecondaryColor::Purple => pair(PrimaryColor::Red, PrimaryColor::Blue),
        SecondaryColor::Green => pair(PrimaryColor::Yellow, PrimaryColor::Blue),
    }
}

/// Combines two primary colours in equal amounts; the same colour twice
/// makes no secondary colour.
pub fn mix(c1: PrimaryColor, c2: PrimaryColor) -> (r: Option<SecondaryColor>)
    ensures
        r is None <==> c1 == c2,
        r matches Some(c) ==> mixes_to(c1, c2, c),
{
    match (c1, c2) {
        (PrimaryColor::Red, PrimaryColor::Yellow) => Some(SecondaryColor::Orange),
        (PrimaryColor::Red, PrimaryColor::Blue) => Some(SecondaryColor::Purple),
        (PrimaryColor::Red, PrimaryColor::Red) => None,
        (PrimaryColor::Yellow, PrimaryColor::Blue) => Some(SecondaryColor::Green),
        (PrimaryColor::Yellow, PrimaryColor::Red) => Some(SecondaryColor::Orange),
        (PrimaryColor::Yellow, PrimaryColor::Yellow) => None,
        (PrimaryColor::Blue, PrimaryColor::Red) => Some(SecondaryColor::Purple),
        (PrimaryColor::Blue, PrimaryColor::Yellow) => Some(SecondaryColor::Green),
        (PrimaryColor::Blue, PrimaryColor::Blue) => None,
    }
}

} // verus!
