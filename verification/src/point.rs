//! A disc: where its centre is, how it moves, its colour, and whether it
//! has come to rest.

use vstd::prelude::*;
use crate::arena::Arena;
use crate::chance::random_range;
use crate::fixed::{magnitude, SPEED_LIMIT};

verus! {

/// Horizontal speed of a disc launched to the right.
pub const LAUNCH_SPEED: i64 = 10_000_000;

/// A fresh disc's vertical speed lies from minus this up to, not
/// including, this.
pub const LAUNCH_SPREAD: i64 = 1_500_000;

/// A colour channel of a fresh disc lies below this.
pub const CHANNEL_BOUND: u8 = 255;

/// A colour; it is carried along and never read by the physics.
#[derive(Clone, Copy, Debug, PartialEq, Eq, Structural)]
pub struct Color {
    pub red: u8,
    pub green: u8,
    pub blue: u8,
}

/// A disc, in millionths of a unit and millionths of a unit per tick.
#[derive(Clone, Copy, Debug, PartialEq, Eq, Structural)]
pub struct Point {
    pub x: i64,
    pub y: i64,
    pub vel_x: i64,
    pub vel_y: i64,
    pub col: Color,
    pub resting: bool,
}

/// The mathematical disc that a `Point` stands for.
pub struct Body {
    pub x: int,
    pub y: int,
    pub vx: int,
    pub vy: int,
    pub col: Color,
    pub resting: bool,
}

impl Body {
    /// The centre lies inside the arena's walls and neither speed exceeds
    /// the speed limit.
    pub open spec fn within(self, arena: Arena) -> bool {
        &&& arena.left() <= self.x <= arena.right()
        &&& arena.floor() <= self.y <= arena.ceiling()
        &&& magnitude(self.vx) <= SPEED_LIMIT
        &&& magnitude(self.vy) <= SPEED_LIMIT
    }

    /// The whole disc of radius `rad` lies inside the arena's walls.
    pub open spec fn contained(self, rad: int, arena: Arena) -> bool {
        &&& arena.left() + rad <= self.x <= arena.right() - rad
        &&& arena.floor() + rad <= self.y <= arena.ceiling() - rad
    }

    /// The sum of the magnitudes of the two speeds.
    pub open spec fn speed_sum(self) -> int {
        magnitude(self.vx) + magnitude(self.vy)
    }

    /// Whether the disc is as a fresh one can be: free, moving right at
    /// `LAUNCH_SPEED`, with a vertical speed within `LAUNCH_SPREAD` and
    /// colour channels below `CHANNEL_BOUND`.
    pub open spec fn is_fresh(self) -> bool {
        &&& !self.resting
        &&& self.vx == LAUNCH_SPEED
        &&& -LAUNCH_SPREAD <= self.vy < LAUNCH_SPREAD
        &&& self.col.red < CHANNEL_BOUND
        &&& self.col.green < CHANNEL_BOUND
        &&& self.col.blue < CHANNEL_BOUND
    }

    /// The disc launched from `(x, y)`: to the right for side 0, to the
    /// left for any other, with vertical speed `vy`, free to move.
    pub open spec fn launched(x: int, y: int, side: int, vy: int, col: Color) -> Body {
        Body {
            x,
            y,
            vx: if side == 0 {
                LAUNCH_SPEED as int
            } else {
                -(LAUNCH_SPEED as int)
            },
            vy,
            col,
            resting: false,
        }
    }
}

impl View for Point {
    type V = Body;

    open spec fn view(&self) -> Body {
        Body {
            x: self.x as int,
            y: self.y as int,
            vx: self.vel_x as int,
            vy: self.vel_y as int,
            col: self.col,
            resting: self.resting,
        }
    }
}

impl Color {
    /// A colour whose three channels are drawn at random below
    /// `CHANNEL_BOUND`.
    pub fn random() -> (col: Color)
        ensures
            col.red < CHANNEL_BOUND,
            col.green < CHANNEL_BOUND,
            col.blue < CHANNEL_BOUND,
    {
        let red = random_range(0, CHANNEL_BOUND as i64);
        let green = random_range(0, CHANNEL_BOUND as i64);
        let blue = random_range(0, CHANNEL_BOUND as i64);
        Color { red: red as u8, green: green as u8, blue: blue as u8 }
    }
}

impl Point {
    /// The disc launched from `(x, y)` toward `side` with vertical speed
    /// `vel_y`.
    pub fn launch(x: i64, y: i64, side: i64, vel_y: i64, col: Color) -> (p: Point)
        ensures
            p@ == Body::launched(x as int, y as int, side as int, vel_y as int, col),
    {
        let vel_x: i64 = if side == 0 {
            LAUNCH_SPEED
        } else {
            -LAUNCH_SPEED
        };
        Point { x, y, vel_x, vel_y, col, resting: false }
    }

    /// A fresh disc at `(x, y)`, free to move. Its side is drawn from the
    /// half-open range from 0 to 1, so it always starts to the right; its
    /// vertical speed and its colour are drawn at random.
    pub fn new(x: i64, y: i64) -> (p: Point)
        ensures
            p.x == x,
            p.y == y,
            p@.is_fresh(),
    {
        let side = random_range(0, 1);
        let vel_y = random_range(-LAUNCH_SPREAD, LAUNCH_SPREAD);
        let col = Color::random();
        Point::launch(x, y, side, vel_y, col)
    }
}

} // verus!
