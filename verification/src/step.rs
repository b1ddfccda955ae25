//! One tick: the integrator, the sweeps of the penetration resolver, the
//! collision responder, and the two phases of the rest tracker, in that
//! order.

use vstd::prelude::*;
use crate::collision::{collisions_resolved, same_place};
use crate::direction::{Direction, TieBreak};
use crate::model::{Model, World};
use crate::penetration::{held_or_same, parted_once, penetrations_resolved};
use crate::point::Body;
use crate::resting::{floor_marked, stacks_marked};
use crate::walls::walls_handled;

verus! {

/// How many sweeps the penetration resolver makes in a tick.
pub const SWEEPS: usize = 3;

/// The state after `sweeps` sweeps of the penetration resolver.
pub open spec fn swept(w: World, t: Direction, sweeps: nat) -> World
    decreases sweeps,
{
    if sweeps == 0 {
        w
    } else {
        penetrations_resolved(swept(w, t, (sweeps - 1) as nat), t)
    }
}

/// The state after everything that a tick does between the discs: the
/// sweeps, the collision response, the floor phase and the stacking
/// phase.
pub open spec fn balls_handled(w: World, t: Direction) -> World {
    stacks_marked(floor_marked(collisions_resolved(swept(w, t, SWEEPS as nat))))
}

/// The state after one tick.
pub open spec fn updated(w: World, t: Direction) -> World {
    balls_handled(walls_handled(w), t)
}

/// Whether `out` can come of `sweeps` sweeps of the penetration resolver.
pub open spec fn parted_times(w: World, sweeps: nat, out: World) -> bool
    decreases sweeps,
{
    if sweeps == 0 {
        out == w
    } else {
        exists|mid: World|
            parted_times(w, (sweeps - 1) as nat, mid) && #[trigger] parted_once(mid, out)
    }
}

/// Whether `out` can come of everything that a tick does between the
/// discs: it is what the collision response and the two phases of the
/// rest tracker make of a state that the sweeps can lead to.
pub open spec fn balls_may_be(w: World, out: World) -> bool {
    exists|parted: World| #[trigger]
        parted_times(w, SWEEPS as nat, parted) && out == stacks_marked(
            floor_marked(collisions_resolved(parted)),
        )
}

/// Whether `after` has the colour of `before` and either its place or a
/// place wholly inside the arena.
pub open spec fn placed(before: Body, after: Body, w: World) -> bool {
    &&& after.col == before.col
    &&& ((after.x == before.x && after.y == before.y) || after.contained(w.rad, w.arena))
}

impl Model {
    /// Everything that a tick does between the discs: `SWEEPS` sweeps of
    /// the penetration resolver, one pass of the collision responder, the
    /// floor phase and the stacking phase. With a given direction the
    /// outcome is `balls_handled`; with random directions it is one that
    /// `balls_may_be` admits. Either way no disc leaves its place but for
    /// one wholly inside the arena.
    pub fn handle_balls_collisions(&mut self, tie: &TieBreak)
        requires
            old(self).wf(),
            tie.valid(),
        ensures
            *tie matches TieBreak::Toward(t) ==> final(self)@ == balls_handled(old(self)@, t),
            balls_may_be(old(self)@, final(self)@),
            final(self).wf(),
            final(self)@.rad == old(self)@.rad,
            final(self)@.arena == old(self)@.arena,
            final(self)@.bodies.len() == old(self)@.bodies.len(),
            forall|k: int|
                0 <= k < old(self)@.bodies.len() ==> placed(
                    old(self)@.bodies[k],
                    #[trigger] final(self)@.bodies[k],
                    old(self)@,
                ),
    {
        let ghost start = self@;
        let mut sweep: usize = 0;
        while sweep < SWEEPS
            invariant
                sweep <= SWEEPS,
                start == old(self)@,
                self.wf(),
                tie.valid(),
                self@.rad == start.rad,
                self@.arena == start.arena,
                self@.bodies.len() == start.bodies.len(),
                *tie matches TieBreak::Toward(t) ==> self@ == swept(start, t, sweep as nat),
                parted_times(start, sweep as nat, self@),
                forall|k: int|
                    0 <= k < start.bodies.len() ==> held_or_same(
                        start.bodies[k],
                        #[trigger] self@.bodies[k],
                        start.rad,
                        start.arena,
                    ),
            decreases SWEEPS - sweep,
        {
            let ghost before = self@;
            self.resolve_ball_penetrations(tie);
            proof {
                assert forall|k: int| 0 <= k < start.bodies.len() implies held_or_same(
                    start.bodies[k],
                    #[trigger] self@.bodies[k],
                    start.rad,
                    start.arena,
                ) by {
                    assert(held_or_same(start.bodies[k], before.bodies[k], start.rad, start.arena));
                }
            }
            sweep += 1;
        }
        let ghost parted = self@;
        assert(parted_times(start, SWEEPS as nat, parted));
        self.resolve_ball_collisions();
        let ghost struck = self@;
        self.mark_floor_resting_balls();
        let ghost floored = self@;
        self.mark_stacked_resting_balls();
        proof {
            assert forall|k: int| 0 <= k < start.bodies.len() implies placed(
                start.bodies[k],
                #[trigger] self@.bodies[k],
                start,
            ) by {
                assert(held_or_same(start.bodies[k], parted.bodies[k], start.rad, start.arena));
                assert(same_place(parted.bodies[k], struck.bodies[k]));
                assert(same_place(struck.bodies[k], floored.bodies[k]));
                assert(same_place(floored.bodies[k], self@.bodies[k]));
            }
        }
    }

    /// One tick. With a given direction the outcome is `updated`; with
    /// random directions it is one that `balls_may_be` admits after the
    /// integrator. Either way every disc that was free, or wholly inside
    /// the arena, ends the tick wholly inside the arena.
    pub fn update(&mut self, tie: &TieBreak)
        requires
            old(self).wf(),
            tie.valid(),
        ensures
            *tie matches TieBreak::Toward(t) ==> final(self)@ == updated(old(self)@, t),
            balls_may_be(walls_handled(old(self)@), final(self)@),
            final(self).wf(),
            final(self)@.rad == old(self)@.rad,
            final(self)@.arena == old(self)@.arena,
            final(self)@.bodies.len() == old(self)@.bodies.len(),
            old(self)@.contained() ==> final(self)@.contained(),
            forall|k: int|
                0 <= k < old(self)@.bodies.len() && (!old(self)@.bodies[k].resting
                    || old(self)@.bodies[k].contained(old(self)@.rad, old(self)@.arena))
                    ==> (#[trigger] final(self)@.bodies[k]).contained(
                    old(self)@.rad,
                    old(self)@.arena,
                ),
            forall|k: int|
                0 <= k < old(self)@.bodies.len() ==> (#[trigger] final(self)@.bodies[k]).col == old(self)@.bodies[k].col,
    {
        self.handle_wall_collisions();
        let ghost walled = self@;
        self.handle_balls_collisions(tie);
        proof {
            assert forall|k: int|
                0 <= k < old(self)@.bodies.len() && (!old(self)@.bodies[k].resting
                    || old(self)@.bodies[k].contained(
                    old(self)@.rad,
                    old(self)@.arena,
                )) implies (#[trigger] self@.bodies[k]).contained(
                old(self)@.rad,
                old(self)@.arena,
            ) by {
                assert(placed(walled.bodies[k], self@.bodies[k], walled));
            }
            assert forall|k: int| 0 <= k < old(self)@.bodies.len() implies (#[trigger] self@.bodies[k]).col
                == old(self)@.bodies[k].col by {
                assert(placed(walled.bodies[k], self@.bodies[k], walled));
                crate::walls::lemma_integrated_contained(
                    old(self)@.bodies[k],
                    old(self)@.rad,
                    old(self)@.arena,
                );
            }
        }
    }
}

} // verus!
