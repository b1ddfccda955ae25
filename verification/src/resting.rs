//! The rest tracker: discs that lie still on the floor come to rest, and
//! so, pass by pass, do discs that lie still on top of resting discs.

use vstd::prelude::*;
use crate::arena::{Arena, MAX_RADIUS, MIN_RADIUS};
use crate::collision::{same_place, CONTACT_SLACK};
use crate::fixed::{abs, div_toward_zero, magnitude, trunc_div};
use crate::model::{Model, World};
use crate::penetration::gap_squared;
use crate::point::{Body, Point};
use crate::walls::{on_floor, FLOOR_BAND};

verus! {

/// On the floor a disc comes to rest when both its speeds are shorter
/// than this.
pub const FLOOR_REST_BELOW: i64 = 100_000;

/// On another disc a disc comes to rest when both its speeds are shorter
/// than this.
pub const STACK_REST_BELOW: i64 = 200_000;

/// A disc lies on top of another when the line between their centres
/// leans less than a tenth of a half turn from straight up: when the
/// sideways offset is less than `LEAN_NUM / LEAN_DEN` of the height, the
/// tangent of that angle cut off after nine places.
pub const LEAN_NUM: i64 = 324_919_696;

pub const LEAN_DEN: i64 = 1_000_000_000;

/// Most passes that the stacking phase makes.
pub const MAX_PASSES: usize = 5;

/// Whether the disc lies on the floor with both speeds short enough to
/// come to rest there.
pub open spec fn lies_still(b: Body, rad: int, arena: Arena) -> bool {
    &&& on_floor(b, rad, arena)
    &&& magnitude(b.vy) < FLOOR_REST_BELOW
    &&& magnitude(b.vx) < FLOOR_REST_BELOW
}

/// A disc that lies still on the floor rests, with both speeds zero; any
/// other disc stays as it is.
pub open spec fn floor_rested(b: Body, rad: int, arena: Arena) -> Body {
    if lies_still(b, rad, arena) {
        Body { resting: true, vx: 0, vy: 0, ..b }
    } else {
        b
    }
}

/// The state after the floor phase.
pub open spec fn floor_marked(w: World) -> World {
    World { bodies: Seq::new(w.bodies.len(), |i: int| floor_rested(w.bodies[i], w.rad, w.arena)), ..w }
}

/// Whether the centres are no farther apart than twice the radius plus
/// `CONTACT_SLACK`.
pub open spec fn near(top: Body, under: Body, rad: int) -> bool {
    gap_squared(under, top) <= (2 * rad + CONTACT_SLACK) * (2 * rad + CONTACT_SLACK)
}

/// Whether `top` is above `under` and the line between them leans little
/// enough.
pub open spec fn upright(top: Body, under: Body) -> bool {
    &&& top.y - under.y > 0
    &&& magnitude(top.x - under.x) * LEAN_DEN < (top.y - under.y) * LEAN_NUM
}

/// Whether both speeds are short enough to come to rest on another disc.
pub open spec fn slow(b: Body) -> bool {
    &&& magnitude(b.vy) < STACK_REST_BELOW
    &&& magnitude(b.vx) < STACK_REST_BELOW
}

/// Whether `top` lies still on top of the resting disc `under`.
pub open spec fn rests_on(top: Body, under: Body, rad: int) -> bool {
    &&& under.resting
    &&& near(top, under, rad)
    &&& upright(top, under)
    &&& slow(top)
}

/// Whether disc `i` lies still on top of some other, resting disc.
pub open spec fn supported(s: Seq<Body>, i: int, rad: int) -> bool {
    exists|j: int| 0 <= j < s.len() && j != i && #[trigger] rests_on(s[i], s[j], rad)
}

/// A disc come to rest on another: its horizontal speed is halved, its
/// vertical speed is zero.
pub open spec fn settled(b: Body) -> Body {
    Body { resting: true, vx: trunc_div(b.vx, 2), vy: 0, ..b }
}

/// Disc `i` comes to rest if it is free and supported.
pub open spec fn stack_step(s: Seq<Body>, i: int, rad: int) -> Seq<Body> {
    if !s[i].resting && supported(s, i, rad) {
        s.update(i, settled(s[i]))
    } else {
        s
    }
}

/// The first `i` discs looked at in turn; a disc that comes to rest
/// supports the discs looked at after it.
pub open spec fn pass_prefix(s: Seq<Body>, i: int, rad: int) -> Seq<Body>
    decreases i,
{
    if i <= 0 {
        s
    } else {
        stack_step(pass_prefix(s, i - 1, rad), i - 1, rad)
    }
}

/// One pass over all the discs.
pub open spec fn stacked_pass(s: Seq<Body>, rad: int) -> Seq<Body> {
    pass_prefix(s, s.len() as int, rad)
}

/// Passes repeated until one changes nothing, `passes` of them at most.
pub open spec fn stacked(s: Seq<Body>, passes: nat, rad: int) -> Seq<Body>
    decreases passes,
{
    if passes == 0 {
        s
    } else {
        let next = stacked_pass(s, rad);
        if next == s {
            s
        } else {
            stacked(next, (passes - 1) as nat, rad)
        }
    }
}

/// The state after the stacking phase.
pub open spec fn stacks_marked(w: World) -> World {
    World { bodies: stacked(w.bodies, MAX_PASSES as nat, w.rad), ..w }
}

impl Point {
    /// This disc after the floor phase.
    pub fn rest_on_floor(self, rad: i64, arena: &Arena) -> (q: Point)
        requires
            arena.valid(),
            MIN_RADIUS <= rad <= MAX_RADIUS,
            self@.within(*arena),
        ensures
            q@ == floor_rested(self@, rad as int, *arena),
            q@.within(*arena),
            same_place(self@, q@),
    {
        if self.y <= -arena.half_height + rad + FLOOR_BAND && abs(self.vel_y) < FLOOR_REST_BELOW
            && abs(self.vel_x) < FLOOR_REST_BELOW {
            Point { resting: true, vel_x: 0, vel_y: 0, ..self }
        } else {
            self
        }
    }

    /// Whether this disc lies still on top of the resting disc `under`.
    pub fn is_on(&self, under: &Point, rad: i64, arena: &Arena) -> (on: bool)
        requires
            arena.valid(),
            MIN_RADIUS <= rad <= MAX_RADIUS,
            self@.within(*arena),
            under@.within(*arena),
        ensures
            on == rests_on(self@, under@, rad as int),
    {
        let dx: i64 = self.x - under.x;
        let dy: i64 = self.y - under.y;
        let reach: i64 = 2 * rad + CONTACT_SLACK;
        proof {
            crate::fixed::lemma_product_bound(dx as int, dx as int, 8_000_000_000_000_000, 8_000_000_000_000_000);
            crate::fixed::lemma_product_bound(dy as int, dy as int, 8_000_000_000_000_000, 8_000_000_000_000_000);
            crate::fixed::lemma_product_bound(reach as int, reach as int, 80_100_000, 80_100_000);
            crate::fixed::lemma_product_bound(magnitude(dx as int), LEAN_DEN as int, 8_000_000_000_000_000, 1_000_000_000);
            crate::fixed::lemma_product_bound(dy as int, LEAN_NUM as int, 8_000_000_000_000_000, 1_000_000_000);
        }
        let gap_sq: i128 = (dx as i128) * (dx as i128) + (dy as i128) * (dy as i128);
        let reach_sq: i128 = (reach as i128) * (reach as i128);
        assert(gap_sq == gap_squared(under@, self@));
        let lean: i128 = (abs(dx) as i128) * (LEAN_DEN as i128);
        let rise: i128 = (dy as i128) * (LEAN_NUM as i128);
        under.resting && gap_sq <= reach_sq && dy > 0 && lean < rise && abs(self.vel_y) < STACK_REST_BELOW
            && abs(self.vel_x) < STACK_REST_BELOW
    }

    /// This disc come to rest on another.
    pub fn settle(self) -> (q: Point)
        requires
            self.vel_x > i64::MIN,
        ensures
            q@ == settled(self@),
            magnitude(q.vel_x as int) <= magnitude(self.vel_x as int),
    {
        proof {
            crate::fixed::lemma_trunc_div_shrinks(self.vel_x as int, 2);
        }
        let half = div_toward_zero(self.vel_x as i128, 2) as i64;
        Point { resting: true, vel_x: half, vel_y: 0, ..self }
    }
}

impl Model {
    /// The floor phase: every disc that lies still on the floor comes to
    /// rest with both speeds zero.
    pub fn mark_floor_resting_balls(&mut self)
        requires
            old(self).wf(),
        ensures
            final(self)@ == floor_marked(old(self)@),
            final(self).wf(),
            final(self)@.rad == old(self)@.rad,
            final(self)@.arena == old(self)@.arena,
            final(self)@.bodies.len() == old(self)@.bodies.len(),
            forall|k: int|
                0 <= k < old(self)@.bodies.len() ==> same_place(
                    old(self)@.bodies[k],
                    #[trigger] final(self)@.bodies[k],
                ),
    {
        let n = self.points.len();
        let mut i: usize = 0;
        while i < n
            invariant
                i <= n,
                n == self.points@.len(),
                n == old(self).points@.len(),
                self.rad == old(self).rad,
                self.arena == old(self).arena,
                old(self).wf(),
                forall|k: int|
                    0 <= k < i ==> (#[trigger] self.points@[k])@ == floor_rested(
                        old(self).points@[k]@,
                        self.rad as int,
                        self.arena,
                    ),
                forall|k: int| 0 <= k < i ==> (#[trigger] self.points@[k])@.within(self.arena),
                forall|k: int| i <= k < n ==> (#[trigger] self.points@[k]) == old(self).points@[k],
            decreases n - i,
        {
            assert(old(self)@.bodies[i as int].within(self.arena));
            let q = self.points[i].rest_on_floor(self.rad, &self.arena);
            self.points.set(i, q);
            i += 1;
        }
        assert(self@.bodies =~= floor_marked(old(self)@).bodies);
        assert forall|k: int| 0 <= k < self@.bodies.len() implies (#[trigger] self@.bodies[k]).within(
            self.arena,
        ) by {
            assert(self.points@[k]@.within(self.arena));
        }
        assert forall|k: int| 0 <= k < old(self)@.bodies.len() implies same_place(
            old(self)@.bodies[k],
            #[trigger] self@.bodies[k],
        ) by {
            assert(old(self)@.bodies[k].within(self.arena));
        }
    }

    /// Whether disc `i` lies still on top of some other, resting disc.
    pub fn has_support(&self, i: usize) -> (found: bool)
        requires
            self.wf(),
            i < self@.bodies.len(),
        ensures
            found == supported(self@.bodies, i as int, self@.rad),
    {
        let n = self.points.len();
        let top = self.points[i];
        assert(self@.bodies[i as int].within(self.arena));
        let mut j: usize = 0;
        while j < n
            invariant
                j <= n,
                i < n,
                n == self.points@.len(),
                self.wf(),
                top == self.points@[i as int],
                top@.within(self.arena),
                forall|k: int|
                    0 <= k < j && k != i ==> !(#[trigger] rests_on(
                        self@.bodies[i as int],
                        self@.bodies[k],
                        self@.rad,
                    )),
            decreases n - j,
        {
            assert(self@.bodies[j as int].within(self.arena));
            if j != i && top.is_on(&self.points[j], self.rad, &self.arena) {
                assert(rests_on(self@.bodies[i as int], self@.bodies[j as int], self@.rad));
                return true;
            }
            j += 1;
        }
        false
    }

    /// The stacking phase: passes over the discs, in each of which every
    /// free disc that lies still on top of a resting disc comes to rest,
    /// until a pass changes nothing or `MAX_PASSES` passes are made.
    pub fn mark_stacked_resting_balls(&mut self)
        requires
            old(self).wf(),
        ensures
            final(self)@ == stacks_marked(old(self)@),
            final(self).wf(),
            final(self)@.rad == old(self)@.rad,
            final(self)@.arena == old(self)@.arena,
            final(self)@.bodies.len() == old(self)@.bodies.len(),
            forall|k: int|
                0 <= k < old(self)@.bodies.len() ==> same_place(
                    old(self)@.bodies[k],
                    #[trigger] final(self)@.bodies[k],
                ),
    {
        let n = self.points.len();
        let ghost start = self@.bodies;
        let ghost rad = self.rad as int;
        let ghost arena = self.arena;
        let mut changed = true;
        let mut passes: usize = 0;
        while changed && passes < MAX_PASSES
            invariant
                passes <= MAX_PASSES,
                n == self.points@.len(),
                n == start.len(),
                start == old(self)@.bodies,
                rad == self.rad,
                arena == self.arena,
                self.rad == old(self).rad,
                self.arena == old(self).arena,
                self.wf(),
                stacked(start, MAX_PASSES as nat, rad) == (if changed {
                    stacked(self@.bodies, (MAX_PASSES - passes) as nat, rad)
                } else {
                    self@.bodies
                }),
                forall|k: int| 0 <= k < n ==> same_place(start[k], #[trigger] self@.bodies[k]),
            decreases MAX_PASSES - passes,
        {
            changed = false;
            passes += 1;
            let ghost entry = self@.bodies;
            let ghost mark: int = 0;
            let mut i: usize = 0;
            while i < n
                invariant
                    i <= n,
                    n == self.points@.len(),
                    n == start.len(),
                    n == entry.len(),
                    rad == self.rad,
                    arena == self.arena,
                    self.rad == old(self).rad,
                    self.arena == old(self).arena,
                    self.wf(),
                    self@.bodies == pass_prefix(entry, i as int, rad),
                    !changed ==> self@.bodies == entry,
                    changed ==> 0 <= mark < n && !entry[mark].resting && self@.bodies[mark].resting,
                    forall|k: int| i <= k < n ==> (#[trigger] self@.bodies[k]) == entry[k],
                    forall|k: int| 0 <= k < n ==> same_place(start[k], #[trigger] self@.bodies[k]),
                decreases n - i,
            {
                let ghost before = self@.bodies;
                assert(before[i as int].within(arena));
                if !self.points[i].resting && self.has_support(i) {
                    let q = self.points[i].settle();
                    self.points.set(i, q);
                    changed = true;
                    proof {
                        mark = i as int;
                        assert(self@.bodies =~= before.update(i as int, settled(before[i as int])));
                        assert forall|k: int| 0 <= k < n implies (#[trigger] self@.bodies[k]).within(
                            arena,
                        ) by {
                            assert(before[k].within(arena));
                        }
                        assert forall|k: int| 0 <= k < n implies same_place(
                            start[k],
                            #[trigger] self@.bodies[k],
                        ) by {
                            assert(same_place(start[k], before[k]));
                        }
                    }
                }
                i += 1;
            }
            proof {
                assert(self@.bodies == stacked_pass(entry, rad));
                if changed {
                    assert(self@.bodies[mark] != entry[mark]);
                }
            }
        }
    }
}

} // verus!
