//! Hit marks: which bullet-hole sprite marks a hit object.

use vstd::prelude::*;

verus! {

/// Columns of the bullet-hole sprite sheet.
pub const BULLET_HOLE_COLUMNS: usize = 8;

/// Rows of the bullet-hole sprite sheet.
pub const BULLET_HOLE_ROWS: usize = 8;

/// Number of bullet-hole sprites.
pub const BULLET_HOLE_SPRITES: usize = 64;

/// `rand::random_range(0..n)`: a value drawn from the thread-local generator; by rand's
/// documentation it lies in the range, and the call panics on an empty range. Which value
/// comes out is left unsaid.
#[verifier::external_body]
fn random_below(n: usize) -> (r: usize)
    requires
        n > 0,
    ensures
        r < n,
{
    rand::random_range(0..n)
}

/// A random bullet-hole sprite of the sheet.
pub fn bullet_hole_sprite() -> (r: usize)
    ensures
        r < BULLET_HOLE_SPRITES,
        BULLET_HOLE_SPRITES == BULLET_HOLE_COLUMNS * BULLET_HOLE_ROWS,
{
    random_below(BULLET_HOLE_COLUMNS * BULLET_HOLE_ROWS)
}

} // verus!
