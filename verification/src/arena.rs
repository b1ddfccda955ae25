//! The rectangular arena, centred on the origin, and the limits on a disc's
//! radius.

use vstd::prelude::*;
use crate::fixed::SCALE;

verus! {

/// Smallest radius the discs can be given.
pub const MIN_RADIUS: i64 = 3_000_000;

/// Largest radius the discs can be given.
pub const MAX_RADIUS: i64 = 40_000_000;

/// Radius of the discs of a fresh model.
pub const START_RADIUS: i64 = 25_000_000;

/// How far one resize moves the radius.
pub const RADIUS_STEP: i64 = 1_000_000;

/// Largest half extent an arena can have on either axis.
pub const HALF_EXTENT_LIMIT: i64 = 4_000_000_000_000_000;

/// The arena's walls: `half_width` to either side of the origin, and
/// `half_height` above and below it.
#[derive(Clone, Copy, Debug, PartialEq, Eq, Structural)]
pub struct Arena {
    pub half_width: i64,
    pub half_height: i64,
}

impl Arena {
    pub open spec fn left(self) -> int {
        -(self.half_width as int)
    }

    pub open spec fn right(self) -> int {
        self.half_width as int
    }

    pub open spec fn floor(self) -> int {
        -(self.half_height as int)
    }

    pub open spec fn ceiling(self) -> int {
        self.half_height as int
    }

    /// An arena is usable when a disc of the largest radius fits strictly
    /// inside it on both axes, and its extents stay within the limit.
    pub open spec fn valid(self) -> bool {
        &&& MAX_RADIUS < self.half_width <= HALF_EXTENT_LIMIT
        &&& MAX_RADIUS < self.half_height <= HALF_EXTENT_LIMIT
    }

    /// What `new` makes of a world of `width` by `height` units with an
    /// inward padding of `pad` units on every side.
    pub open spec fn of_world(width: int, height: int, pad: int) -> Arena {
        Arena {
            half_width: (width * SCALE / 2 - pad * SCALE) as i64,
            half_height: (height * SCALE / 2 - pad * SCALE) as i64,
        }
    }

    /// The arena of a world of `width` by `height` whole units, drawn in by
    /// `pad` units from every edge.
    pub fn new(width: u32, height: u32, pad: u32) -> (arena: Arena)
        ensures
            arena == Arena::of_world(width as int, height as int, pad as int),
            arena.half_width == width * SCALE / 2 - pad * SCALE,
            arena.half_height == height * SCALE / 2 - pad * SCALE,
    {
        let w: i64 = (width as i64) * SCALE / 2;
        let h: i64 = (height as i64) * SCALE / 2;
        let p: i64 = (pad as i64) * SCALE;
        Arena { half_width: w - p, half_height: h - p }
    }

    /// Whether the arena is usable.
    pub fn is_valid(&self) -> (ok: bool)
        ensures
            ok == self.valid(),
    {
        MAX_RADIUS < self.half_width && self.half_width <= HALF_EXTENT_LIMIT
            && MAX_RADIUS < self.half_height && self.half_height <= HALF_EXTENT_LIMIT
    }
}

} // verus!
