//! The collision responder: one pass of impulses between discs that touch
//! and approach each other, and the waking of resting discs that have
//! been set in motion.

use vstd::prelude::*;
use crate::arena::{Arena, MAX_RADIUS, MIN_RADIUS};
use crate::fixed::{abs, cap, capped, div_toward_zero, trunc_div};
use crate::model::{Model, World};
use crate::penetration::gap_squared;
use crate::point::{Body, Point};

verus! {

/// Two discs touch when their centres are nearer than twice the radius
/// plus this.
pub const CONTACT_SLACK: i64 = 100_000;

/// The impulse is `REST_NUM / REST_DEN` of the closing speed.
pub const REST_NUM: i64 = 98;

pub const REST_DEN: i64 = 100;

/// A resting disc wakes when the magnitudes of its two speeds sum to more
/// than this.
pub const WAKE_ABOVE: i64 = 100_000;

/// Whether two discs of radius `rad` touch.
pub open spec fn touching(a: Body, b: Body, rad: int) -> bool {
    gap_squared(a, b) < (2 * rad + CONTACT_SLACK) * (2 * rad + CONTACT_SLACK)
}

/// The speed of `b` relative to `a`, times the vector from `a` to `b`:
/// the closing speed along the line of centres times their distance.
pub open spec fn closing(a: Body, b: Body) -> int {
    (b.vx - a.vx) * (b.x - a.x) + (b.vy - a.vy) * (b.y - a.y)
}

/// Whether the discs come nearer to each other. Discs on the same spot
/// never do.
pub open spec fn approaching(a: Body, b: Body) -> bool {
    closing(a, b) < 0
}

/// Each disc's share of the impulse along one axis: half of
/// `REST_NUM / REST_DEN` of the closing speed, along the unit vector
/// between the centres, whose part on this axis is `u` over the distance.
pub open spec fn half_impulse(closing: int, u: int, gap_sq: int) -> int {
    trunc_div(-(REST_NUM * closing) * u, 2 * REST_DEN * gap_sq)
}

/// A resting disc whose speeds sum to more than `WAKE_ABOVE` is free
/// again.
pub open spec fn woken(b: Body) -> Body {
    if b.resting && b.speed_sum() > WAKE_ABOVE {
        Body { resting: false, ..b }
    } else {
        b
    }
}

/// A disc with the impulse `(jx, jy)` added to its speeds, woken if that
/// sets it in motion.
pub open spec fn pushed(b: Body, jx: int, jy: int) -> Body {
    woken(Body { vx: capped(b.vx + jx), vy: capped(b.vy + jy), ..b })
}

/// A pair after the collision response: discs that touch and approach
/// take equal and opposite impulses along the line of centres; any other
/// pair stays as it is.
pub open spec fn struck(a: Body, b: Body, rad: int) -> (Body, Body) {
    if touching(a, b, rad) && approaching(a, b) {
        let jx = half_impulse(closing(a, b), b.x - a.x, gap_squared(a, b));
        let jy = half_impulse(closing(a, b), b.y - a.y, gap_squared(a, b));
        (pushed(a, -jx, -jy), pushed(b, jx, jy))
    } else {
        (a, b)
    }
}

/// Discs `i` and `j` of a sequence after their collision response.
pub open spec fn pair_struck(s: Seq<Body>, i: int, j: int, rad: int) -> Seq<Body> {
    let r = struck(s[i], s[j], rad);
    s.update(i, r.0).update(j, r.1)
}

/// Disc `i` struck in turn against each of the discs `i + 1` up to, not
/// including, `j`.
pub open spec fn row_struck(s: Seq<Body>, i: int, j: int, rad: int) -> Seq<Body>
    decreases j - i,
{
    if j <= i + 1 {
        s
    } else {
        pair_struck(row_struck(s, i, j - 1, rad), i, j - 1, rad)
    }
}

/// Disc `i` woken if it rests with speeds that set it in motion.
pub open spec fn roused(s: Seq<Body>, i: int) -> Seq<Body> {
    s.update(i, woken(s[i]))
}

/// The first `i` discs each roused and then struck in turn against all
/// the discs after it.
pub open spec fn rows_struck(s: Seq<Body>, i: int, rad: int) -> Seq<Body>
    decreases i,
{
    if i <= 0 {
        s
    } else {
        row_struck(roused(rows_struck(s, i - 1, rad), i - 1), i - 1, s.len() as int, rad)
    }
}

/// The state after the one pass of the collision responder.
pub open spec fn collisions_resolved(w: World) -> World {
    World { bodies: rows_struck(w.bodies, w.bodies.len() as int, w.rad), ..w }
}

/// Whether `after` is `before` with nothing changed but its speeds and
/// its resting flag.
pub open spec fn same_place(before: Body, after: Body) -> bool {
    after == Body { vx: after.vx, vy: after.vy, resting: after.resting, ..before }
}

impl Point {
    /// This disc, woken if it rests with speeds that set it in motion.
    pub fn wake(self) -> (q: Point)
        requires
            self.vel_x > i64::MIN,
            self.vel_y > i64::MIN,
        ensures
            q@ == woken(self@),
    {
        if self.resting && abs(self.vel_x) as i128 + abs(self.vel_y) as i128 > WAKE_ABOVE as i128 {
            Point { resting: false, ..self }
        } else {
            self
        }
    }

    /// The collision response between this disc and `other`.
    pub fn strike(self, other: Point, rad: i64, arena: &Arena) -> (r: (Point, Point))
        requires
            arena.valid(),
            MIN_RADIUS <= rad <= MAX_RADIUS,
            self@.within(*arena),
            other@.within(*arena),
        ensures
            (r.0@, r.1@) == struck(self@, other@, rad as int),
            r.0@.within(*arena),
            r.1@.within(*arena),
            same_place(self@, r.0@),
            same_place(other@, r.1@),
    {
        let dx: i64 = other.x - self.x;
        let dy: i64 = other.y - self.y;
        let reach: i64 = 2 * rad + CONTACT_SLACK;
        proof {
            crate::fixed::lemma_product_bound(dx as int, dx as int, 8_000_000_000_000_000, 8_000_000_000_000_000);
            crate::fixed::lemma_product_bound(dy as int, dy as int, 8_000_000_000_000_000, 8_000_000_000_000_000);
            crate::fixed::lemma_product_bound(reach as int, reach as int, 80_100_000, 80_100_000);
            crate::fixed::lemma_square_nonnegative(dx as int);
            crate::fixed::lemma_square_nonnegative(dy as int);
        }
        let gap_sq: i128 = (dx as i128) * (dx as i128) + (dy as i128) * (dy as i128);
        let reach_sq: i128 = (reach as i128) * (reach as i128);
        assert(gap_sq == gap_squared(self@, other@));
        if gap_sq >= reach_sq {
            return (self, other);
        }
        proof {
            assert((dx as int) * (dx as int) < reach * reach);
            assert((dy as int) * (dy as int) < reach * reach);
            crate::fixed::lemma_square_below(dx as int, reach as int);
            crate::fixed::lemma_square_below(dy as int, reach as int);
        }
        let rvx: i64 = other.vel_x - self.vel_x;
        let rvy: i64 = other.vel_y - self.vel_y;
        proof {
            crate::fixed::lemma_product_bound(rvx as int, dx as int, 2_000_000_000_000, 80_100_000);
            crate::fixed::lemma_product_bound(rvy as int, dy as int, 2_000_000_000_000, 80_100_000);
        }
        let along: i128 = (rvx as i128) * (dx as i128) + (rvy as i128) * (dy as i128);
        assert(along == closing(self@, other@));
        if along >= 0 {
            return (self, other);
        }
        proof {
            if gap_sq == 0 {
                crate::fixed::lemma_zero_squares(dx as int, dy as int);
                assert(along == 0) by (nonlinear_arith)
                    requires
                        along == (rvx as int) * (dx as int) + (rvy as int) * (dy as int),
                        dx == 0,
                        dy == 0,
                ;
            }
        }
        proof {
            crate::fixed::lemma_product_bound(
                REST_NUM as int,
                along as int,
                98,
                320_400_000_000_000_000_000,
            );
            crate::fixed::lemma_product_bound(
                2 * REST_DEN as int,
                gap_sq as int,
                200,
                6_416_010_000_000_000,
            );
        }
        let weight: i128 = -((REST_NUM as i128) * along);
        proof {
            crate::fixed::lemma_product_bound(
                weight as int,
                dx as int,
                31_399_200_000_000_000_000_000,
                80_100_000,
            );
            crate::fixed::lemma_product_bound(
                weight as int,
                dy as int,
                31_399_200_000_000_000_000_000,
                80_100_000,
            );
        }
        let den: i128 = 2 * (REST_DEN as i128) * gap_sq;
        let jx: i128 = div_toward_zero(weight * (dx as i128), den);
        let jy: i128 = div_toward_zero(weight * (dy as i128), den);
        proof {
            crate::fixed::lemma_trunc_div_shrinks(weight * dx, den as int);
            crate::fixed::lemma_trunc_div_shrinks(weight * dy, den as int);
            assert(jx == half_impulse(closing(self@, other@), dx as int, gap_squared(self@, other@)));
            assert(jy == half_impulse(closing(self@, other@), dy as int, gap_squared(self@, other@)));
        }
        let a = Point {
            vel_x: cap(self.vel_x as i128 - jx),
            vel_y: cap(self.vel_y as i128 - jy),
            ..self
        }.wake();
        let b = Point {
            vel_x: cap(other.vel_x as i128 + jx),
            vel_y: cap(other.vel_y as i128 + jy),
            ..other
        }.wake();
        (a, b)
    }
}

impl Model {
    /// The collision responder: one pass over the discs in order; each is
    /// woken if it rests with speeds that set it in motion, and then
    /// struck against every disc after it. Places never change.
    pub fn resolve_ball_collisions(&mut self)
        requires
            old(self).wf(),
        ensures
            final(self)@ == collisions_resolved(old(self)@),
            final(self).wf(),
            final(self)@.rad == old(self)@.rad,
            final(self)@.arena == old(self)@.arena,
            final(self)@.bodies.len() == old(self)@.bodies.len(),
            forall|k: int|
                0 <= k < old(self)@.bodies.len() ==> same_place(
                    old(self)@.bodies[k],
                    #[trigger] final(self)@.bodies[k],
                ),
    {
        let n = self.points.len();
        let ghost start = self@.bodies;
        let ghost rad = self.rad as int;
        let ghost arena = self.arena;
        let mut i: usize = 0;
        while i < n
            invariant
                i <= n,
                n == self.points@.len(),
                n == start.len(),
                start == old(self)@.bodies,
                rad == old(self).rad,
                arena == old(self).arena,
                self.rad == old(self).rad,
                self.arena == old(self).arena,
                self.wf(),
                self@.bodies == rows_struck(start, i as int, rad),
                forall|k: int| 0 <= k < n ==> same_place(start[k], #[trigger] self@.bodies[k]),
            decreases n - i,
        {
            let ghost entry = self@.bodies;
            assert(entry[i as int].within(arena));
            let woke = self.points[i].wake();
            self.points.set(i, woke);
            let ghost base = self@.bodies;
            proof {
                assert(base =~= roused(entry, i as int));
                assert forall|k: int| 0 <= k < n implies (#[trigger] base[k]).within(arena) by {
                    assert(entry[k].within(arena));
                }
                assert forall|k: int| 0 <= k < n implies same_place(start[k], #[trigger] base[k]) by {
                    assert(same_place(start[k], entry[k]));
                }
            }
            let mut j: usize = i + 1;
            while j < n
                invariant
                    i < n,
                    i + 1 <= j <= n,
                    n == self.points@.len(),
                    n == start.len(),
                    n == base.len(),
                    rad == self.rad,
                    arena == self.arena,
                    self.wf(),
                    self@.bodies == row_struck(base, i as int, j as int, rad),
                    forall|k: int| 0 <= k < n ==> same_place(start[k], #[trigger] self@.bodies[k]),
                decreases n - j,
            {
                let ghost before = self@.bodies;
                assert(before[i as int].within(arena));
                assert(before[j as int].within(arena));
                let r = self.points[i].strike(self.points[j], self.rad, &self.arena);
                self.points.set(i, r.0);
                self.points.set(j, r.1);
                proof {
                    assert(self@.bodies =~= before.update(i as int, r.0@).update(j as int, r.1@));
                    assert forall|k: int| 0 <= k < n implies (#[trigger] self@.bodies[k]).within(
                        arena,
                    ) by {
                        assert(before[k].within(arena));
                    }
                    assert forall|k: int| 0 <= k < n implies same_place(
                        start[k],
                        #[trigger] self@.bodies[k],
                    ) by {
                        assert(same_place(start[k], before[k]));
                    }
                }
                j += 1;
            }
            i += 1;
        }
    }
}

} // verus!
