//! Page rotation arithmetic.

use vstd::prelude::*;

verus! {

/// The rotation of a page whose rotation was `current` after it has been
/// turned by `degrees`: the sum of the two modulo 360, which lies from 0 up
/// to 359.
pub open spec fn rotated(current: int, degrees: int) -> int {
    (current + degrees) % 360
}

/// Computes the new rotation of a page.
pub fn rotate_by(current: i64, degrees: i32) -> (r: i64)
    ensures
        r == rotated(current as int, degrees as int),
        0 <= r < 360,
{
    let sum: i128 = current as i128 + degrees as i128;
    let remainder: i128 = sum % 360;
    if remainder < 0 {
        (remainder + 360) as i64
    } else {
        remainder as i64
    }
}

/// Two turns in a row come to one turn by the sum of the two.
pub proof fn law_turns_add_up(prior: int, first: int, second: int)
    ensures
        rotated(rotated(prior, first), second) == rotated(prior, first + second),
{
}

/// A page turned by 90 degrees twice has the rotation of the page turned by
/// 180 degrees once.
pub proof fn law_two_quarter_turns(prior: int)
    ensures
        rotated(rotated(prior, 90), 90) == rotated(prior, 180),
{
}

/// A turn by a multiple of 360 degrees leaves a rotation from 0 up to 359
/// as it is.
pub proof fn law_full_turns(prior: int, turns: int)
    requires
        0 <= prior < 360,
    ensures
        rotated(prior, 360 * turns) == prior,
{
}

} // verus!
