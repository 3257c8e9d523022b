//! Random places on a grid, drawn from the operating system's random source.

use vstd::prelude::*;

verus! {

/// The error type of the `getrandom` crate, carried through as it comes.
#[verifier::external_type_specification]
#[verifier::external_body]
pub struct ExRandomSourceFailure(getrandom::Error);

/// Why the mines of a board could not be laid.
#[derive(Clone, Copy, Debug, PartialEq, Eq, Structural)]
pub enum PlacementError {
    /// The operating system's random source reported a failure.
    RandomSource,
}

/// Asks the operating system for eight random bytes with
/// `getrandom::getrandom` and hands them back as one integer, or hands back
/// the failure that `getrandom` reported. Nothing is claimed about the
/// integer: two calls may return anything.
#[verifier::external_body]
fn random_u64() -> (drawn: Result<u64, getrandom::Error>) {
    let mut buffer = [0u8; 8];
    match getrandom::getrandom(&mut buffer) {
        Ok(()) => Ok(u64::from_le_bytes(buffer)),
        Err(failure) => Err(failure),
    }
}

/// Reduces a raw draw to a coordinate below `bound`.
pub fn coordinate(draw: u64, bound: usize) -> (reduced: usize)
    requires
        bound > 0,
    ensures
        reduced == draw as int % bound as int,
        reduced < bound,
{
    (draw % (bound as u64)) as usize
}

/// Turns two raw draws into a place on a grid of the given size: the
/// first gives the column, the second the row.
pub fn position_from_draws(first: u64, second: u64, width: usize, height: usize) -> (p: (
    usize,
    usize,
))
    requires
        width > 0,
        height > 0,
    ensures
        p.0 == first as int % width as int,
        p.1 == second as int % height as int,
        p.0 < width,
        p.1 < height,
{
    (coordinate(first, width), coordinate(second, height))
}

/// Draws a place on a grid of the given size. Whatever the random source
/// returns, a place that comes back lies on the grid.
pub fn random_position(width: usize, height: usize) -> (drawn: Result<
    (usize, usize),
    PlacementError,
>)
    requires
        width > 0,
        height > 0,
    ensures
        drawn matches Ok(p) ==> p.0 < width && p.1 < height,
{
    let first = match random_u64() {
        Ok(value) => value,
        Err(_) => {
            return Err(PlacementError::RandomSource);
        },
    };
    let second = match random_u64() {
        Ok(value) => value,
        Err(_) => {
            return Err(PlacementError::RandomSource);
        },
    };
    Ok(position_from_draws(first, second, width, height))
}

} // verus!
