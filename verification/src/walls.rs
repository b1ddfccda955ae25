//! The integrator: gravity, one step of motion, and the bounce off the
//! floor, the ceiling and the side walls.

use vstd::prelude::*;
use crate::arena::{Arena, MAX_RADIUS, MIN_RADIUS};
use crate::fixed::{abs, add_capped, capped, magnitude, scale, scaled};
use crate::model::{Model, World};
use crate::point::{Body, Point};

verus! {

/// What gravity adds to the vertical speed each time it is applied.
pub const GRAVITY: i64 = -1_200_000;

/// A bounce, and the rub of the floor, keep `KEEP_NUM / KEEP_DEN` of a
/// speed.
pub const KEEP_NUM: i64 = 9;

pub const KEEP_DEN: i64 = 10;

/// A speed shorter than this is put to zero at the end of a step.
pub const STILL_BELOW: i64 = 50_000;

/// A disc at most this far above its lowest place counts as on the floor.
pub const FLOOR_BAND: i64 = 100_000;

/// A speed after it has lost its share to a bounce or to the floor.
pub open spec fn damped(v: int) -> int {
    scaled(v, KEEP_NUM as int, KEEP_DEN as int)
}

/// A speed turned round and damped.
pub open spec fn rebound(v: int) -> int {
    -damped(v)
}

/// A speed, or zero when it is shorter than `STILL_BELOW`.
pub open spec fn quieted(v: int) -> int {
    if magnitude(v) < STILL_BELOW {
        0
    } else {
        v
    }
}

/// Whether the disc is within `FLOOR_BAND` of lying on the floor.
pub open spec fn on_floor(b: Body, rad: int, arena: Arena) -> bool {
    b.y <= arena.floor() + rad + FLOOR_BAND
}

/// Gravity applied once to the vertical speed.
pub open spec fn pulled(b: Body) -> Body {
    Body { vy: capped(b.vy + GRAVITY), ..b }
}

/// The centre moved on by the disc's speeds.
pub open spec fn moved(b: Body) -> Body {
    Body { x: b.x + b.vx, y: b.y + b.vy, ..b }
}

/// At or under its lowest place the disc is set onto the floor, its
/// vertical speed rebounds and its horizontal speed is damped.
pub open spec fn floor_bounced(b: Body, rad: int, arena: Arena) -> Body {
    if b.y <= arena.floor() + rad {
        Body { y: arena.floor() + rad, vy: rebound(b.vy), vx: damped(b.vx), ..b }
    } else {
        b
    }
}

/// At or over its highest place the disc is set under the ceiling and its
/// vertical speed rebounds; its horizontal speed is left alone.
pub open spec fn ceiling_bounced(b: Body, rad: int, arena: Arena) -> Body {
    if b.y >= arena.ceiling() - rad {
        Body { y: arena.ceiling() - rad, vy: rebound(b.vy), ..b }
    } else {
        b
    }
}

/// At or beyond the left wall the disc is set against it and its
/// horizontal speed rebounds; otherwise the same at the right wall.
pub open spec fn side_bounced(b: Body, rad: int, arena: Arena) -> Body {
    if b.x <= arena.left() + rad {
        Body { x: arena.left() + rad, vx: rebound(b.vx), ..b }
    } else if b.x >= arena.right() - rad {
        Body { x: arena.right() - rad, vx: rebound(b.vx), ..b }
    } else {
        b
    }
}

/// Both speeds quieted, each on its own.
pub open spec fn stilled(b: Body) -> Body {
    Body { vx: quieted(b.vx), vy: quieted(b.vy), ..b }
}

/// The rub of the floor on a disc that ends the step on it.
pub open spec fn floor_rubbed(b: Body, rad: int, arena: Arena) -> Body {
    if on_floor(b, rad, arena) {
        Body { vx: damped(b.vx), ..b }
    } else {
        b
    }
}

/// One step of a disc: a resting disc stays as it is; a free disc is
/// pulled by gravity, moved, bounced off the floor, the ceiling and one
/// side wall, pulled by gravity again, stilled, and rubbed by the floor.
pub open spec fn integrated(b: Body, rad: int, arena: Arena) -> Body {
    if b.resting {
        b
    } else {
        let bounced = side_bounced(
            ceiling_bounced(floor_bounced(moved(pulled(b)), rad, arena), rad, arena),
            rad,
            arena,
        );
        floor_rubbed(stilled(pulled(bounced)), rad, arena)
    }
}

/// The state after every disc has made its step.
pub open spec fn walls_handled(w: World) -> World {
    World { bodies: Seq::new(w.bodies.len(), |i: int| integrated(w.bodies[i], w.rad, w.arena)), ..w }
}

/// A free disc ends its step wholly inside the arena, and no step takes a
/// disc's centre out of the arena or its speeds over the limit.
pub proof fn lemma_integrated_contained(b: Body, rad: int, arena: Arena)
    requires
        arena.valid(),
        MIN_RADIUS <= rad <= MAX_RADIUS,
        b.within(arena),
    ensures
        integrated(b, rad, arena).within(arena),
        !b.resting ==> integrated(b, rad, arena).contained(rad, arena),
        integrated(b, rad, arena).col == b.col,
        integrated(b, rad, arena).resting == b.resting,
{
    crate::fixed::lemma_scaled_shrinks(b.vx, KEEP_NUM as int, KEEP_DEN as int);
    let p = pulled(b);
    crate::fixed::lemma_scaled_shrinks(p.vy, KEEP_NUM as int, KEEP_DEN as int);
    let f = floor_bounced(moved(p), rad, arena);
    crate::fixed::lemma_scaled_shrinks(f.vy, KEEP_NUM as int, KEEP_DEN as int);
    let c = ceiling_bounced(f, rad, arena);
    crate::fixed::lemma_scaled_shrinks(c.vx, KEEP_NUM as int, KEEP_DEN as int);
    let s = side_bounced(c, rad, arena);
    let q = stilled(pulled(s));
    crate::fixed::lemma_scaled_shrinks(q.vx, KEEP_NUM as int, KEEP_DEN as int);
}

impl Point {
    /// One step of this disc in an arena, among discs of radius `rad`.
    pub fn integrate(self, rad: i64, arena: &Arena) -> (q: Point)
        requires
            arena.valid(),
            MIN_RADIUS <= rad <= MAX_RADIUS,
            self@.within(*arena),
        ensures
            q@ == integrated(self@, rad as int, *arena),
            q@.within(*arena),
            !self.resting ==> q@.contained(rad as int, *arena),
    {
        proof {
            lemma_integrated_contained(self@, rad as int, *arena);
        }
        if self.resting {
            return self;
        }
        let lowest: i64 = -arena.half_height + rad;
        let highest: i64 = arena.half_height - rad;
        let leftmost: i64 = -arena.half_width + rad;
        let rightmost: i64 = arena.half_width - rad;
        let mut vel_x: i64 = self.vel_x;
        let mut vel_y: i64 = add_capped(self.vel_y, GRAVITY);
        let mut x: i64 = self.x + vel_x;
        let mut y: i64 = self.y + vel_y;
        proof {
            crate::fixed::lemma_scaled_shrinks(vel_x as int, KEEP_NUM as int, KEEP_DEN as int);
            crate::fixed::lemma_scaled_shrinks(vel_y as int, KEEP_NUM as int, KEEP_DEN as int);
        }
        if y <= lowest {
            y = lowest;
            vel_y = -scale(vel_y, KEEP_NUM, KEEP_DEN);
            vel_x = scale(vel_x, KEEP_NUM, KEEP_DEN);
        }
        if y >= highest {
            y = highest;
            vel_y = -scale(vel_y, KEEP_NUM, KEEP_DEN);
        }
        if x <= leftmost {
            x = leftmost;
            vel_x = -scale(vel_x, KEEP_NUM, KEEP_DEN);
        } else if x >= rightmost {
            x = rightmost;
            vel_x = -scale(vel_x, KEEP_NUM, KEEP_DEN);
        }
        vel_y = add_capped(vel_y, GRAVITY);
        if abs(vel_x) < STILL_BELOW {
            vel_x = 0;
        }
        if abs(vel_y) < STILL_BELOW {
            vel_y = 0;
        }
        if y <= lowest + FLOOR_BAND {
            vel_x = scale(vel_x, KEEP_NUM, KEEP_DEN);
        }
        Point { x, y, vel_x, vel_y, col: self.col, resting: self.resting }
    }
}

impl Model {
    /// The integrator: every disc makes one step.
    pub fn handle_wall_collisions(&mut self)
        requires
            old(self).wf(),
        ensures
            final(self)@ == walls_handled(old(self)@),
            final(self).wf(),
            final(self)@.rad == old(self)@.rad,
            final(self)@.arena == old(self)@.arena,
            final(self)@.bodies.len() == old(self)@.bodies.len(),
            forall|i: int|
                0 <= i < old(self)@.bodies.len() && !(#[trigger] old(self)@.bodies[i]).resting
                    ==> final(self)@.bodies[i].contained(old(self)@.rad, old(self)@.arena),
    {
        let n = self.points.len();
        let mut i: usize = 0;
        while i < n
            invariant
                i <= n,
                n == self.points@.len(),
                n == old(self).points@.len(),
                self.rad == old(self).rad,
                self.arena == old(self).arena,
                old(self).wf(),
                forall|k: int|
                    0 <= k < i ==> (#[trigger] self.points@[k])@ == integrated(
                        old(self).points@[k]@,
                        self.rad as int,
                        self.arena,
                    ),
                forall|k: int| 0 <= k < i ==> (#[trigger] self.points@[k])@.within(self.arena),
                forall|k: int| i <= k < n ==> (#[trigger] self.points@[k]) == old(self).points@[k],
            decreases n - i,
        {
            assert(old(self)@.bodies[i as int].within(self.arena));
            let q = self.points[i].integrate(self.rad, &self.arena);
            self.points.set(i, q);
            i += 1;
        }
        assert(self@.bodies =~= walls_handled(old(self)@).bodies);
        assert forall|k: int| 0 <= k < self@.bodies.len() implies (#[trigger] self@.bodies[k]).within(
            self.arena,
        ) by {
            assert(self.points@[k]@.within(self.arena));
        }
        assert forall|k: int|
            0 <= k < old(self)@.bodies.len() && !(#[trigger] old(self)@.bodies[k]).resting implies self@.bodies[k].contained(
            old(self)@.rad,
            old(self)@.arena,
        ) by {
            lemma_integrated_contained(old(self)@.bodies[k], old(self)@.rad, old(self)@.arena);
        }
    }
}

} // verus!
