use vstd::prelude::*;

verus! {

/// Number of particle classes.
pub const CLASS_COUNT: usize = 6;

/// Fewest particles a class can hold.
pub const MIN_PARTICLE_COUNT: usize = 0;

/// Largest number of particle slots per class.
pub const MAX_PARTICLE_COUNT: usize = 15000;

/// Default number of particles per class.
pub const DEFAULT_PARTICLE_COUNT: usize = 10000;

/// Largest magnitude of an interaction coefficient.
pub const MAX_POWER: i8 = 100;

/// Smallest interaction coefficient.
pub const MIN_POWER: i8 = -100;

/// Half the width, in cells, of the block searched around a cell. A cell
/// is a third of the interaction range wide, so three cells on each side
/// cover the whole range.
pub const NEIGHBOR_RADIUS: i32 = 3;

/// Width, in cells, of the searched block.
pub const NEIGHBOR_SPAN: usize = 7;

} // verus!
