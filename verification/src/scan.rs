use vstd::prelude::*;

verus! {

/// The matrix scanner's compute step. The board wiring uses pull-up inputs:
/// an open switch reads a high level, a closed (pressed) switch pulls its
/// line low. Given the sampled electrical levels of one full sweep of the
/// matrix, in row-major position order, this returns the logical pressed
/// state of every position. Driving the column lines and sampling the pins
/// is the board's concern and happens outside this crate.
pub fn pressed_from_levels(levels: &Vec<bool>) -> (pressed: Vec<bool>)
    ensures
        pressed@.len() == levels@.len(),
        forall|i: int| 0 <= i < levels@.len() ==> pressed@[i] == !levels@[i],
{
    let mut pressed: Vec<bool> = Vec::new();
    let n = levels.len();
    for i in 0..n
        invariant
            n == levels@.len(),
            pressed@.len() == i,
            forall|j: int| 0 <= j < i ==> pressed@[j] == !levels@[j],
    {
        pressed.push(!levels[i]);
    }
    pressed
}

} // verus!
