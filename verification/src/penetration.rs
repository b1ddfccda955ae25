//! The penetration resolver: discs that overlap are pushed apart along the
//! line between their centres; only their places change.

use vstd::prelude::*;
use crate::arena::{Arena, MAX_RADIUS, MIN_RADIUS};
use crate::direction::{Direction, TieBreak};
use crate::fixed::{clamp, clamp_to, div_toward_zero, floor_sqrt, isqrt, trunc_div};
use crate::model::{Model, World};
use crate::point::{Body, Point};

verus! {

/// Two discs overlap when their centres are nearer than twice the radius
/// less this; centres no farther apart than this lie on the same spot.
pub const PEN_EPS: i64 = 1_000;

/// The square of the distance between two centres.
pub open spec fn gap_squared(a: Body, b: Body) -> int {
    (b.x - a.x) * (b.x - a.x) + (b.y - a.y) * (b.y - a.y)
}

/// Whether two discs of radius `rad` overlap.
pub open spec fn overlapping(a: Body, b: Body, rad: int) -> bool {
    gap_squared(a, b) < (2 * rad - PEN_EPS) * (2 * rad - PEN_EPS)
}

/// Whether two centres lie on the same spot.
pub open spec fn coincident(a: Body, b: Body) -> bool {
    gap_squared(a, b) <= PEN_EPS * PEN_EPS
}

/// Half the overlap along one axis: the axis vector's part `u`, times the
/// overlap, over twice the vector's length, rounded toward zero.
pub open spec fn half_push(u: int, overlap: int, len: int) -> int {
    trunc_div(u * overlap, 2 * len)
}

/// A horizontal place held where a disc of radius `rad` is inside the
/// side walls.
pub open spec fn held_x(x: int, rad: int, arena: Arena) -> int {
    clamp_to(x, arena.left() + rad, arena.right() - rad)
}

/// A vertical place held where a disc of radius `rad` is between floor
/// and ceiling.
pub open spec fn held_y(y: int, rad: int, arena: Arena) -> int {
    clamp_to(y, arena.floor() + rad, arena.ceiling() - rad)
}

/// The horizontal half push for a pair that overlaps: along the line from
/// `a` to `b`, or along `t` when they lie on the same spot.
pub open spec fn push_x(a: Body, b: Body, rad: int, t: Direction) -> int {
    let dist = floor_sqrt(gap_squared(a, b));
    if coincident(a, b) {
        half_push(t.x as int, 2 * rad - dist, t.len as int)
    } else {
        half_push(b.x - a.x, 2 * rad - dist, dist)
    }
}

/// The vertical half push for a pair that overlaps.
pub open spec fn push_y(a: Body, b: Body, rad: int, t: Direction) -> int {
    let dist = floor_sqrt(gap_squared(a, b));
    if coincident(a, b) {
        half_push(t.y as int, 2 * rad - dist, t.len as int)
    } else {
        half_push(b.y - a.y, 2 * rad - dist, dist)
    }
}

/// A pair after its overlap has been removed: each disc is moved half the
/// overlap away from the other and then held inside the arena. A pair
/// that does not overlap stays as it is; speeds never change.
pub open spec fn separated(a: Body, b: Body, rad: int, arena: Arena, t: Direction) -> (Body, Body) {
    if !overlapping(a, b, rad) {
        (a, b)
    } else {
        let hx = push_x(a, b, rad, t);
        let hy = push_y(a, b, rad, t);
        (
            Body { x: held_x(a.x - hx, rad, arena), y: held_y(a.y - hy, rad, arena), ..a },
            Body { x: held_x(b.x + hx, rad, arena), y: held_y(b.y + hy, rad, arena), ..b },
        )
    }
}

/// Discs `i` and `j` of a sequence separated.
pub open spec fn pair_separated(
    s: Seq<Body>,
    i: int,
    j: int,
    rad: int,
    arena: Arena,
    t: Direction,
) -> Seq<Body> {
    let r = separated(s[i], s[j], rad, arena, t);
    s.update(i, r.0).update(j, r.1)
}

/// Disc `i` separated in turn from each of the discs `i + 1` up to, not
/// including, `j`.
pub open spec fn row_separated(
    s: Seq<Body>,
    i: int,
    j: int,
    rad: int,
    arena: Arena,
    t: Direction,
) -> Seq<Body>
    decreases j - i,
{
    if j <= i + 1 {
        s
    } else {
        pair_separated(row_separated(s, i, j - 1, rad, arena, t), i, j - 1, rad, arena, t)
    }
}

/// The first `i` discs each separated in turn from all the discs after
/// it.
pub open spec fn rows_separated(s: Seq<Body>, i: int, rad: int, arena: Arena, t: Direction) -> Seq<
    Body,
>
    decreases i,
{
    if i <= 0 {
        s
    } else {
        row_separated(rows_separated(s, i - 1, rad, arena, t), i - 1, s.len() as int, rad, arena, t)
    }
}

/// The state after one sweep over all pairs, with `t` as the direction
/// for every pair on the same spot.
pub open spec fn penetrations_resolved(w: World, t: Direction) -> World {
    World { bodies: rows_separated(w.bodies, w.bodies.len() as int, w.rad, w.arena, t), ..w }
}

/// Whether `out` can come of separating disc `i` in turn from each of the
/// discs `i + 1` up to `j`, with some direction for each pair.
pub open spec fn parted_row(s: Seq<Body>, i: int, j: int, rad: int, arena: Arena, out: Seq<Body>) -> bool
    decreases j - i,
{
    if j <= i {
        out == s
    } else {
        exists|mid: Seq<Body>, t: Direction|
            parted_row(s, i, j - 1, rad, arena, mid) && t.valid() && out == #[trigger] pair_separated(
                mid,
                i,
                j,
                rad,
                arena,
                t,
            )
    }
}

/// Whether `out` can come of separating each of the discs up to `i` in
/// turn from all the discs after it up to `last`, with some direction for
/// each pair.
pub open spec fn parted_rows(
    s: Seq<Body>,
    i: int,
    last: int,
    rad: int,
    arena: Arena,
    out: Seq<Body>,
) -> bool
    decreases i + 1,
{
    if i < 0 {
        out == s
    } else {
        exists|mid: Seq<Body>|
            parted_rows(s, i - 1, last, rad, arena, mid) && #[trigger] parted_row(
                mid,
                i,
                last,
                rad,
                arena,
                out,
            )
    }
}

/// Whether `out` can come of one sweep over all pairs of `w`, with some
/// direction for each pair; only pairs on the same spot are moved along
/// theirs.
pub open spec fn parted_once(w: World, out: World) -> bool {
    &&& out.rad == w.rad
    &&& out.arena == w.arena
    &&& parted_rows(w.bodies, w.bodies.len() - 1, w.bodies.len() - 1, w.rad, w.arena, out.bodies)
}

/// One more pair separated extends what `parted_row` admits.
proof fn lemma_parted_row_step(
    s: Seq<Body>,
    i: int,
    j: int,
    rad: int,
    arena: Arena,
    mid: Seq<Body>,
    t: Direction,
)
    requires
        i < j,
        parted_row(s, i, j - 1, rad, arena, mid),
        t.valid(),
    ensures
        parted_row(s, i, j, rad, arena, pair_separated(mid, i, j, rad, arena, t)),
{
}

/// One more row separated extends what `parted_rows` admits.
proof fn lemma_parted_rows_step(
    s: Seq<Body>,
    i: int,
    last: int,
    rad: int,
    arena: Arena,
    mid: Seq<Body>,
    out: Seq<Body>,
)
    requires
        0 <= i,
        parted_rows(s, i - 1, last, rad, arena, mid),
        parted_row(mid, i, last, rad, arena, out),
    ensures
        parted_rows(s, i, last, rad, arena, out),
{
}

/// Whether `after` is `before` moved to a place wholly inside the arena,
/// or `before` itself.
pub open spec fn held_or_same(before: Body, after: Body, rad: int, arena: Arena) -> bool {
    ||| after == before
    ||| (after.contained(rad, arena) && after == Body { x: after.x, y: after.y, ..before })
}

impl Point {
    /// Removes the overlap between this disc and `other`.
    pub fn separate(self, other: Point, rad: i64, arena: &Arena, tie: &TieBreak) -> (r: (Point, Point))
        requires
            arena.valid(),
            MIN_RADIUS <= rad <= MAX_RADIUS,
            self@.within(*arena),
            other@.within(*arena),
            tie.valid(),
        ensures
            *tie matches TieBreak::Toward(t) ==> (r.0@, r.1@) == separated(
                self@,
                other@,
                rad as int,
                *arena,
                t,
            ),
            exists|t: Direction|
                t.valid() && (r.0@, r.1@) == #[trigger] separated(self@, other@, rad as int, *arena, t),
            held_or_same(self@, r.0@, rad as int, *arena),
            held_or_same(other@, r.1@, rad as int, *arena),
    {
        let dx: i64 = other.x - self.x;
        let dy: i64 = other.y - self.y;
        let reach: i64 = 2 * rad - PEN_EPS;
        proof {
            crate::fixed::lemma_product_bound(dx as int, dx as int, 8_000_000_000_000_000, 8_000_000_000_000_000);
            crate::fixed::lemma_product_bound(dy as int, dy as int, 8_000_000_000_000_000, 8_000_000_000_000_000);
            crate::fixed::lemma_product_bound(reach as int, reach as int, 80_000_000, 80_000_000);
            crate::fixed::lemma_square_nonnegative(dx as int);
            crate::fixed::lemma_square_nonnegative(dy as int);
        }
        let gap_sq: i128 = (dx as i128) * (dx as i128) + (dy as i128) * (dy as i128);
        let reach_sq: i128 = (reach as i128) * (reach as i128);
        assert(gap_sq == gap_squared(self@, other@));
        if gap_sq >= reach_sq {
            assert(separated(self@, other@, rad as int, *arena, Direction::right()) == (self@, other@));
            assert(Direction::right().valid());
            return (self, other);
        }
        let root: u64 = isqrt(gap_sq as u128);
        let dist: i64 = root as i64;
        proof {
            crate::fixed::lemma_floor_sqrt_is(gap_sq as int, dist as int);
            assert(dist * dist < reach * reach);
            crate::fixed::lemma_square_below(dist as int, reach as int);
            assert((dx as int) * (dx as int) < reach * reach) by (nonlinear_arith)
                requires
                    (dx as int) * (dx as int) + (dy as int) * (dy as int) < reach * reach,
            ;
            assert((dy as int) * (dy as int) < reach * reach) by (nonlinear_arith)
                requires
                    (dx as int) * (dx as int) + (dy as int) * (dy as int) < reach * reach,
            ;
            crate::fixed::lemma_square_below(dx as int, reach as int);
            crate::fixed::lemma_square_below(dy as int, reach as int);
        }
        let overlap: i64 = 2 * rad - dist;
        let same_spot: bool = gap_sq <= (PEN_EPS as i128) * (PEN_EPS as i128);
        let ghost used: Direction;
        let ux: i64;
        let uy: i64;
        let len: i64;
        if same_spot {
            let t = tie.pick();
            ux = t.x;
            uy = t.y;
            len = t.len;
            proof {
                used = t;
            }
        } else {
            ux = dx;
            uy = dy;
            len = dist;
            proof {
                used = match *tie {
                    TieBreak::Toward(t) => t,
                    TieBreak::Random => Direction::right(),
                };
                assert(Direction::right().valid());
                if dist == 0 {
                    assert((dist + 1) * (dist + 1) == 1) by (nonlinear_arith)
                        requires
                            dist == 0,
                    ;
                }
            }
        }
        proof {
            crate::fixed::lemma_product_bound(ux as int, overlap as int, 80_000_000, 80_000_000);
            crate::fixed::lemma_product_bound(uy as int, overlap as int, 80_000_000, 80_000_000);
            crate::fixed::lemma_trunc_div_shrinks(ux * overlap, 2 * len);
            crate::fixed::lemma_trunc_div_shrinks(uy * overlap, 2 * len);
        }
        let hx: i64 = div_toward_zero((ux as i128) * (overlap as i128), 2 * (len as i128)) as i64;
        let hy: i64 = div_toward_zero((uy as i128) * (overlap as i128), 2 * (len as i128)) as i64;
        assert(hx == push_x(self@, other@, rad as int, used));
        assert(hy == push_y(self@, other@, rad as int, used));
        let leftmost: i64 = -arena.half_width + rad;
        let rightmost: i64 = arena.half_width - rad;
        let lowest: i64 = -arena.half_height + rad;
        let highest: i64 = arena.half_height - rad;
        let a = Point {
            x: clamp(self.x - hx, leftmost, rightmost),
            y: clamp(self.y - hy, lowest, highest),
            ..self
        };
        let b = Point {
            x: clamp(other.x + hx, leftmost, rightmost),
            y: clamp(other.y + hy, lowest, highest),
            ..other
        };
        assert((a@, b@) == separated(self@, other@, rad as int, *arena, used));
        (a, b)
    }
}

impl Model {
    /// One sweep of the resolver: every pair of discs, in order, has its
    /// overlap removed. With a given direction the outcome is
    /// `penetrations_resolved`; with random directions it is one that
    /// `parted_once` admits.
    pub fn resolve_ball_penetrations(&mut self, tie: &TieBreak)
        requires
            old(self).wf(),
            tie.valid(),
        ensures
            *tie matches TieBreak::Toward(t) ==> final(self)@ == penetrations_resolved(old(self)@, t),
            parted_once(old(self)@, final(self)@),
            final(self).wf(),
            final(self)@.rad == old(self)@.rad,
            final(self)@.arena == old(self)@.arena,
            final(self)@.bodies.len() == old(self)@.bodies.len(),
            forall|k: int|
                0 <= k < old(self)@.bodies.len() ==> held_or_same(
                    old(self)@.bodies[k],
                    #[trigger] final(self)@.bodies[k],
                    old(self)@.rad,
                    old(self)@.arena,
                ),
    {
        let n = self.points.len();
        let ghost start = self@.bodies;
        let ghost rad = self.rad as int;
        let ghost arena = self.arena;
        let mut i: usize = 0;
        while i < n
            invariant
                i <= n,
                n == self.points@.len(),
                n == start.len(),
                start == old(self)@.bodies,
                rad == old(self).rad,
                arena == old(self).arena,
                self.rad == old(self).rad,
                self.arena == old(self).arena,
                self.wf(),
                tie.valid(),
                *tie matches TieBreak::Toward(t) ==> self@.bodies == rows_separated(
                    start,
                    i as int,
                    rad,
                    arena,
                    t,
                ),
                parted_rows(start, i as int - 1, n as int - 1, rad, arena, self@.bodies),
                forall|k: int|
                    0 <= k < n ==> held_or_same(start[k], #[trigger] self@.bodies[k], rad, arena),
            decreases n - i,
        {
            let ghost base = self@.bodies;
            let mut j: usize = i + 1;
            while j < n
                invariant
                    i < n,
                    i + 1 <= j <= n,
                    n == self.points@.len(),
                    n == start.len(),
                    n == base.len(),
                    rad == self.rad,
                    arena == self.arena,
                    self.wf(),
                    tie.valid(),
                    *tie matches TieBreak::Toward(t) ==> self@.bodies == row_separated(
                        base,
                        i as int,
                        j as int,
                        rad,
                        arena,
                        t,
                    ),
                    parted_row(base, i as int, j as int - 1, rad, arena, self@.bodies),
                    forall|k: int|
                        0 <= k < n ==> held_or_same(start[k], #[trigger] self@.bodies[k], rad, arena),
                decreases n - j,
            {
                let ghost before = self@.bodies;
                assert(before[i as int].within(arena));
                assert(before[j as int].within(arena));
                let r = self.points[i].separate(self.points[j], self.rad, &self.arena, tie);
                self.points.set(i, r.0);
                self.points.set(j, r.1);
                proof {
                    assert(self@.bodies =~= before.update(i as int, r.0@).update(j as int, r.1@));
                    let t = choose|t: Direction|
                        t.valid() && (r.0@, r.1@) == #[trigger] separated(
                            before[i as int],
                            before[j as int],
                            rad,
                            arena,
                            t,
                        );
                    assert(self@.bodies == pair_separated(before, i as int, j as int, rad, arena, t));
                    lemma_parted_row_step(base, i as int, j as int, rad, arena, before, t);
                    assert forall|k: int| 0 <= k < n implies (#[trigger] self@.bodies[k]).within(
                        arena,
                    ) by {
                        assert(before[k].within(arena));
                    }
                    assert forall|k: int| 0 <= k < n implies held_or_same(
                        start[k],
                        #[trigger] self@.bodies[k],
                        rad,
                        arena,
                    ) by {
                        assert(held_or_same(start[k], before[k], rad, arena));
                    }
                }
                j += 1;
            }
            proof {
                lemma_parted_rows_step(start, i as int, n as int - 1, rad, arena, base, self@.bodies);
            }
            i += 1;
        }
    }
}

} // verus!
