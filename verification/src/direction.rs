//! Directions in the plane, and the choice of one for two discs that lie
//! on the same spot.

use vstd::prelude::*;
use crate::chance::random_range;
use crate::fixed::{is_floor_sqrt, isqrt, magnitude, SCALE};

verus! {

/// Shortest vector that is taken for a direction.
pub const MIN_DIRECTION_LEN: i64 = 500_000;

/// How many random vectors are tried before the direction falls back to
/// straight right.
pub const DRAWS: u8 = 16;

/// A direction: a vector `(x, y)` inside the unit disc and not near its
/// centre, with its whole-number length `len`. The unit vector it stands
/// for is `(x / len, y / len)`.
#[derive(Clone, Copy, Debug, PartialEq, Eq, Structural)]
pub struct Direction {
    pub x: i64,
    pub y: i64,
    pub len: i64,
}

/// Where the push comes from when two discs lie on the same spot.
#[derive(Clone, Copy, Debug)]
pub enum TieBreak {
    /// A fresh random direction for every such pair.
    Random,
    /// The given direction for every such pair.
    Toward(Direction),
}

impl Direction {
    /// Whether the vector `(x, y)` can be taken for a direction: it lies
    /// inside the unit disc and is at least `MIN_DIRECTION_LEN` long.
    pub open spec fn admits(x: int, y: int) -> bool {
        &&& magnitude(x) <= SCALE
        &&& magnitude(y) <= SCALE
        &&& MIN_DIRECTION_LEN * MIN_DIRECTION_LEN <= x * x + y * y <= SCALE * SCALE
    }

    pub open spec fn valid(self) -> bool {
        &&& Direction::admits(self.x as int, self.y as int)
        &&& is_floor_sqrt(self.x * self.x + self.y * self.y, self.len as int)
        &&& MIN_DIRECTION_LEN <= self.len <= SCALE
    }

    /// Straight right.
    pub open spec fn right() -> Direction {
        Direction { x: SCALE, y: 0, len: SCALE }
    }

    /// The direction of the vector `(x, y)`, where it can be taken for
    /// one.
    pub fn toward(x: i64, y: i64) -> (d: Option<Direction>)
        ensures
            d is Some <==> Direction::admits(x as int, y as int),
            d matches Some(v) ==> v.valid() && v.x == x && v.y == y,
    {
        if x < -SCALE || x > SCALE || y < -SCALE || y > SCALE {
            return None;
        }
        proof {
            crate::fixed::lemma_product_bound(x as int, x as int, SCALE as int, SCALE as int);
            crate::fixed::lemma_product_bound(y as int, y as int, SCALE as int, SCALE as int);
            crate::fixed::lemma_square_nonnegative(x as int);
            crate::fixed::lemma_square_nonnegative(y as int);
        }
        let square: i64 = x * x + y * y;
        if square < MIN_DIRECTION_LEN * MIN_DIRECTION_LEN || square > SCALE * SCALE {
            return None;
        }
        let len = isqrt(square as u128) as i64;
        proof {
            let l = len as int;
            if l < MIN_DIRECTION_LEN {
                assert((l + 1) * (l + 1) <= MIN_DIRECTION_LEN * MIN_DIRECTION_LEN) by (nonlinear_arith)
                    requires
                        0 <= l + 1 <= MIN_DIRECTION_LEN,
                ;
            }
            if l > SCALE {
                assert(l * l > SCALE * SCALE) by (nonlinear_arith)
                    requires
                        l > SCALE,
                        SCALE > 0,
                ;
            }
        }
        Some(Direction { x, y, len })
    }

    /// A direction drawn at random: vectors are drawn from the square
    /// round the unit disc until one can be taken for a direction; after
    /// `DRAWS` vain tries the direction is straight right.
    pub fn random() -> (d: Direction)
        ensures
            d.valid(),
    {
        let mut tries: u8 = 0;
        while tries < DRAWS
            invariant
                tries <= DRAWS,
            decreases DRAWS - tries,
        {
            let x = random_range(-SCALE, SCALE);
            let y = random_range(-SCALE, SCALE);
            match Direction::toward(x, y) {
                Some(d) => {
                    return d;
                },
                None => {},
            }
            tries += 1;
        }
        Direction { x: SCALE, y: 0, len: SCALE }
    }
}

impl TieBreak {
    pub open spec fn valid(self) -> bool {
        self matches TieBreak::Toward(d) ==> d.valid()
    }

    /// The direction for one pair of discs on the same spot.
    pub fn pick(&self) -> (d: Direction)
        requires
            self.valid(),
        ensures
            d.valid(),
            *self matches TieBreak::Toward(t) ==> d == t,
    {
        match self {
            TieBreak::Random => Direction::random(),
            TieBreak::Toward(d) => *d,
        }
    }
}

} // verus!
