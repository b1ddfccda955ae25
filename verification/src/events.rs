//! What the host can ask of the model between ticks: a larger or smaller
//! radius, one disc more or less, and a kick.

use vstd::prelude::*;
use crate::arena::{MAX_RADIUS, MIN_RADIUS, RADIUS_STEP};
use crate::chance::random_range;
use crate::fixed::{add_capped, capped};
use crate::model::{Model, World, MAX_POINTS, MIN_POINTS};
use crate::point::{Body, Point};

verus! {

/// What a kick adds to every disc's vertical speed.
pub const KICK_UP: i64 = 20_000_000;

/// A kick adds to every disc's horizontal speed a value from minus this
/// up to, not including, this.
pub const KICK_SIDE: i64 = 20_000_000;

/// A request from the host.
#[derive(Clone, Copy, Debug, PartialEq, Eq, Structural)]
pub enum Command {
    IncreaseRadius,
    DecreaseRadius,
    AddBody,
    RemoveBody,
    Kick,
}

/// The radius one step larger, held to the largest radius.
pub open spec fn radius_raised(w: World) -> World {
    World {
        rad: if w.rad + RADIUS_STEP > MAX_RADIUS {
            MAX_RADIUS as int
        } else {
            w.rad + RADIUS_STEP
        },
        ..w
    }
}

/// The radius one step smaller, held to the smallest radius.
pub open spec fn radius_lowered(w: World) -> World {
    World {
        rad: if w.rad - RADIUS_STEP < MIN_RADIUS {
            MIN_RADIUS as int
        } else {
            w.rad - RADIUS_STEP
        },
        ..w
    }
}

/// The disc `b` put after the others, unless the model is full.
pub open spec fn body_added(w: World, b: Body) -> World {
    if w.bodies.len() < MAX_POINTS {
        World { bodies: w.bodies.push(b), ..w }
    } else {
        w
    }
}

/// The last disc taken away, unless it is the only one.
pub open spec fn last_removed(w: World) -> World {
    if w.bodies.len() > MIN_POINTS {
        World { bodies: w.bodies.drop_last(), ..w }
    } else {
        w
    }
}

/// A disc kicked upward, and sideways by `nudge`.
pub open spec fn kicked(b: Body, nudge: int) -> Body {
    Body { vx: capped(b.vx + nudge), vy: capped(b.vy + KICK_UP), ..b }
}

/// Whether `after` is `before` kicked with some sideways nudge that a
/// kick can give.
pub open spec fn kick_of(before: Body, after: Body) -> bool {
    exists|nudge: int| -KICK_SIDE <= nudge < KICK_SIDE && after == #[trigger] kicked(before, nudge)
}

/// Whether `b` is a disc as the model adds one: a fresh disc at the
/// origin.
pub open spec fn fresh(b: Body) -> bool {
    &&& b.is_fresh()
    &&& b.x == 0
    &&& b.y == 0
}

impl Point {
    /// This disc kicked upward, and sideways by `nudge`.
    pub fn kick(self, nudge: i64) -> (q: Point)
        ensures
            q@ == kicked(self@, nudge as int),
    {
        Point {
            vel_x: add_capped(self.vel_x, nudge),
            vel_y: add_capped(self.vel_y, KICK_UP),
            ..self
        }
    }
}

impl Model {
    /// Makes the radius of all discs one step larger, up to the largest
    /// radius.
    pub fn increase_radius(&mut self)
        requires
            old(self).wf(),
        ensures
            final(self)@ == radius_raised(old(self)@),
            final(self).wf(),
    {
        if self.rad + RADIUS_STEP > MAX_RADIUS {
            self.rad = MAX_RADIUS;
        } else {
            self.rad = self.rad + RADIUS_STEP;
        }
    }

    /// Makes the radius of all discs one step smaller, down to the
    /// smallest radius.
    pub fn decrease_radius(&mut self)
        requires
            old(self).wf(),
        ensures
            final(self)@ == radius_lowered(old(self)@),
            final(self).wf(),
    {
        if self.rad - RADIUS_STEP < MIN_RADIUS {
            self.rad = MIN_RADIUS;
        } else {
            self.rad = self.rad - RADIUS_STEP;
        }
    }

    /// Puts the disc `p` after the others, unless the model is full.
    pub fn add_point(&mut self, p: Point)
        requires
            old(self).wf(),
            p@.within(old(self).arena),
        ensures
            final(self)@ == body_added(old(self)@, p@),
            final(self).wf(),
    {
        if self.points.len() < MAX_POINTS {
            let ghost before = self@.bodies;
            self.points.push(p);
            proof {
                assert(self@.bodies =~= before.push(p@));
                assert forall|k: int| 0 <= k < self@.bodies.len() implies (#[trigger] self@.bodies[k]).within(
                    self.arena,
                ) by {
                    if k < before.len() {
                        assert(before[k].within(self.arena));
                    }
                }
            }
        }
    }

    /// Adds a fresh disc at the origin, unless the model is full.
    pub fn add_body(&mut self)
        requires
            old(self).wf(),
        ensures
            old(self)@.bodies.len() >= MAX_POINTS ==> final(self)@ == old(self)@,
            old(self)@.bodies.len() < MAX_POINTS ==> fresh(final(self)@.bodies.last()) && final(self)@
                == body_added(old(self)@, final(self)@.bodies.last()),
            final(self).wf(),
    {
        if self.points.len() < MAX_POINTS {
            let p = Point::new(0, 0);
            self.add_point(p);
        }
    }

    /// Takes the last disc away, unless it is the only one.
    pub fn remove_body(&mut self)
        requires
            old(self).wf(),
        ensures
            final(self)@ == last_removed(old(self)@),
            final(self).wf(),
    {
        if self.points.len() > MIN_POINTS {
            let ghost before = self@.bodies;
            self.points.pop();
            proof {
                assert(self@.bodies =~= before.drop_last());
                assert forall|k: int| 0 <= k < self@.bodies.len() implies (#[trigger] self@.bodies[k]).within(
                    self.arena,
                ) by {
                    assert(before[k].within(self.arena));
                }
            }
        }
    }

    /// Kicks every disc upward, and sideways by a nudge drawn at random
    /// for each.
    pub fn kick(&mut self)
        requires
            old(self).wf(),
        ensures
            final(self).wf(),
            final(self)@.rad == old(self)@.rad,
            final(self)@.arena == old(self)@.arena,
            final(self)@.bodies.len() == old(self)@.bodies.len(),
            forall|k: int|
                0 <= k < old(self)@.bodies.len() ==> kick_of(
                    old(self)@.bodies[k],
                    #[trigger] final(self)@.bodies[k],
                ),
    {
        let n = self.points.len();
        let mut i: usize = 0;
        while i < n
            invariant
                i <= n,
                n == self.points@.len(),
                n == old(self).points@.len(),
                self.rad == old(self).rad,
                self.arena == old(self).arena,
                old(self).wf(),
                forall|k: int|
                    0 <= k < i ==> kick_of(old(self).points@[k]@, (#[trigger] self.points@[k])@),
                forall|k: int| 0 <= k < i ==> (#[trigger] self.points@[k])@.within(self.arena),
                forall|k: int| i <= k < n ==> (#[trigger] self.points@[k]) == old(self).points@[k],
            decreases n - i,
        {
            assert(old(self)@.bodies[i as int].within(self.arena));
            let nudge = random_range(-KICK_SIDE, KICK_SIDE);
            let q = self.points[i].kick(nudge);
            assert(q@ == kicked(old(self).points@[i as int]@, nudge as int));
            self.points.set(i, q);
            i += 1;
        }
        assert forall|k: int| 0 <= k < self@.bodies.len() implies (#[trigger] self@.bodies[k]).within(
            self.arena,
        ) by {
            assert(self.points@[k]@.within(self.arena));
        }
        assert forall|k: int| 0 <= k < old(self)@.bodies.len() implies kick_of(
            old(self)@.bodies[k],
            #[trigger] self@.bodies[k],
        ) by {
            assert(kick_of(old(self).points@[k]@, self.points@[k]@));
        }
    }

    /// Carries out one request from the host.
    pub fn key_pressed(&mut self, command: Command)
        requires
            old(self).wf(),
        ensures
            final(self).wf(),
            final(self)@.arena == old(self)@.arena,
            command == Command::IncreaseRadius ==> final(self)@ == radius_raised(old(self)@),
            command == Command::DecreaseRadius ==> final(self)@ == radius_lowered(old(self)@),
            command == Command::RemoveBody ==> final(self)@ == last_removed(old(self)@),
            command == Command::AddBody && old(self)@.bodies.len() >= MAX_POINTS ==> final(self)@
                == old(self)@,
            command == Command::AddBody && old(self)@.bodies.len() < MAX_POINTS ==> fresh(
                final(self)@.bodies.last(),
            ) && final(self)@ == body_added(old(self)@, final(self)@.bodies.last()),
            command == Command::Kick ==> final(self)@.rad == old(self)@.rad && final(self)@.bodies.len() == old(self)@.bodies.len() && forall|k: int|
                0 <= k < old(self)@.bodies.len() ==> kick_of(
                    old(self)@.bodies[k],
                    #[trigger] final(self)@.bodies[k],
                ),
    {
        match command {
            Command::IncreaseRadius => self.increase_radius(),
            Command::DecreaseRadius => self.decrease_radius(),
            Command::AddBody => self.add_body(),
            Command::RemoveBody => self.remove_body(),
            Command::Kick => self.kick(),
        }
    }
}

} // verus!
