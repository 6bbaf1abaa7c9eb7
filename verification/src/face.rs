//! Deriving a die face from a random integer.

use vstd::prelude::*;

verus! {

/// Number of faces of the die.
pub const FACES: u32 = 6;

/// The face that a random integer selects: its remainder modulo six, offset by one.
pub open spec fn face_of(random_int: u32) -> u32 {
    (random_int % 6 + 1) as u32
}

/// Rolls the die for one random integer.
///
/// Every `u32` is accepted, and the face always lies in `1..=6`.
pub fn die_roll(random_int: u32) -> (face: u32)
    ensures
        face == random_int % 6 + 1,
        face == face_of(random_int),
        1 <= face <= FACES,
{
    random_int % FACES + 1
}

} // verus!
