//! What holds of the engine beyond the contract of any one function.

use vstd::prelude::*;
use crate::arena::{Arena, MAX_RADIUS, MIN_RADIUS};
use crate::collision::{
    approaching, closing, collisions_resolved, half_impulse, roused, row_struck, rows_struck, struck,
    touching, woken, REST_DEN, REST_NUM,
};
use crate::direction::Direction;
use crate::events::{kicked, KICK_SIDE};
use crate::fixed::{floor_sqrt, is_floor_sqrt, magnitude, trunc_div, SPEED_LIMIT};
use crate::model::World;
use crate::penetration::{
    coincident, gap_squared, half_push, overlapping, pair_separated, penetrations_resolved, push_x,
    push_y, row_separated, rows_separated, separated, PEN_EPS,
};
use crate::point::Body;
use crate::resting::{
    floor_marked, floor_rested, lies_still, pass_prefix, stack_step, stacked, stacked_pass,
    stacks_marked, supported, FLOOR_REST_BELOW, MAX_PASSES,
};
use crate::step::{swept, updated, SWEEPS};
use crate::walls::{integrated, walls_handled};

verus! {

/// A square is at least what is left of the square of a larger number
/// when four times their gap times that number is taken off.
proof fn lemma_square_from_below(a: int, p: int, len: int)
    requires
        a >= 0,
        p >= 0,
        len >= 0,
        a >= p - 2 * len,
    ensures
        a * a >= p * p - 4 * len * p,
{
    if p >= 2 * len {
        let q = p - 2 * len;
        assert(a * a >= q * q) by (nonlinear_arith)
            requires
                a >= q,
                q >= 0,
        ;
        assert(q * q == p * p - 4 * len * p + 4 * len * len) by (nonlinear_arith)
            requires
                q == p - 2 * len,
        ;
        assert(len * len >= 0) by (nonlinear_arith);
    } else {
        assert(p * p - 4 * len * p <= 0) by (nonlinear_arith)
            requires
                0 <= p < 2 * len,
        ;
        assert(a * a >= 0) by (nonlinear_arith);
    }
}

/// Two parts, each stretched from a vector of whole-number length `len`
/// to the length `reach` and short of that by less than two, span at
/// least `reach` less `PEN_EPS`.
proof fn lemma_stretched_span(x: int, y: int, len: int, reach: int, xn: int, yn: int)
    requires
        x >= 0,
        y >= 0,
        len >= 1,
        is_floor_sqrt(x * x + y * y, len),
        reach >= 2 * MIN_RADIUS,
        xn >= 0,
        yn >= 0,
        len * xn >= x * reach - 2 * len,
        len * yn >= y * reach - 2 * len,
    ensures
        xn * xn + yn * yn >= (reach - PEN_EPS) * (reach - PEN_EPS),
{
    assert(y * y >= 0) by (nonlinear_arith);
    assert(x * x >= 0) by (nonlinear_arith);
    crate::fixed::lemma_square_below(x, len + 1);
    crate::fixed::lemma_square_below(y, len + 1);
    let a = len * xn;
    let b = len * yn;
    let p = x * reach;
    let q = y * reach;
    assert(a >= 0 && b >= 0 && p >= 0 && q >= 0) by (nonlinear_arith)
        requires
            a == len * xn,
            b == len * yn,
            p == x * reach,
            q == y * reach,
            len >= 1,
            xn >= 0,
            yn >= 0,
            x >= 0,
            y >= 0,
            reach >= 0,
    ;
    lemma_square_from_below(a, p, len);
    lemma_square_from_below(b, q, len);
    let l2 = len * len;
    let r2 = reach * reach;
    let s = x * x + y * y;
    assert(p * p + q * q == r2 * s) by (nonlinear_arith)
        requires
            p == x * reach,
            q == y * reach,
            r2 == reach * reach,
            s == x * x + y * y,
    ;
    assert(r2 * s >= r2 * l2) by (nonlinear_arith)
        requires
            s >= l2,
            r2 == reach * reach,
    ;
    assert(4 * len * p + 4 * len * q <= 8 * reach * l2) by (nonlinear_arith)
        requires
            p == x * reach,
            q == y * reach,
            l2 == len * len,
            0 <= x <= len,
            0 <= y <= len,
            reach >= 0,
            len >= 1,
    ;
    let sn = xn * xn + yn * yn;
    assert(a * a + b * b == l2 * sn) by (nonlinear_arith)
        requires
            a == len * xn,
            b == len * yn,
            l2 == len * len,
            sn == xn * xn + yn * yn,
    ;
    let goal = (reach - PEN_EPS) * (reach - PEN_EPS);
    assert(r2 - 8 * reach >= goal) by (nonlinear_arith)
        requires
            r2 == reach * reach,
            goal == (reach - 1000) * (reach - 1000),
            reach >= 6_000_000,
    ;
    assert(r2 * l2 - 8 * reach * l2 >= goal * l2) by (nonlinear_arith)
        requires
            r2 - 8 * reach >= goal,
            l2 >= 0,
    ;
    assert(l2 * sn >= l2 * goal);
    assert(l2 >= 1) by (nonlinear_arith)
        requires
            l2 == len * len,
            len >= 1,
    ;
    assert(sn >= goal) by (nonlinear_arith)
        requires
            l2 * sn >= l2 * goal,
            l2 >= 1,
    ;
}

/// The new offset between two centres along one axis, after each has been
/// pushed by `half_push(u, overlap, len)` away from the other: its square
/// is the square of a length `xn` that, times `len`, is short of the
/// axis part stretched by `len + overlap` by less than twice `len`.
proof fn lemma_pushed_offset(d: int, u: int, overlap: int, len: int) -> (xn: int)
    requires
        overlap >= 0,
        len >= 1,
        d == u || d == 0,
    ensures
        xn >= 0,
        (d + 2 * half_push(u, overlap, len)) * (d + 2 * half_push(u, overlap, len)) == xn * xn,
        len * xn >= magnitude(u) * overlap + len * magnitude(d) - 2 * len,
{
    let x = magnitude(u);
    crate::fixed::lemma_half_quotient(x, overlap, len);
    let h = (x * overlap) / (2 * len);
    let xn = magnitude(d) + 2 * h;
    if u >= 0 {
        assert(u * overlap >= 0) by (nonlinear_arith)
            requires
                u >= 0,
                overlap >= 0,
        ;
        assert(half_push(u, overlap, len) == h);
        assert(d + 2 * h == xn);
    } else {
        assert(-(u * overlap) == x * overlap) by (nonlinear_arith)
            requires
                x == -u,
        ;
        assert(x * overlap >= 0) by (nonlinear_arith)
            requires
                x >= 0,
                overlap >= 0,
        ;
        if u * overlap >= 0 {
            assert(x * overlap == 0);
            assert(h == 0) by (nonlinear_arith)
                requires
                    h == 0int / (2 * len),
                    len >= 1,
            ;
            assert(half_push(u, overlap, len) == 0);
        } else {
            assert(half_push(u, overlap, len) == -h);
        }
        assert(d + 2 * half_push(u, overlap, len) == -xn);
        assert((-xn) * (-xn) == xn * xn) by (nonlinear_arith);
    }
    assert(len * xn == len * magnitude(d) + 2 * len * h) by (nonlinear_arith)
        requires
            xn == magnitude(d) + 2 * h,
    ;
    xn
}

/// Non-penetration of a pair: two overlapping discs whose centres are
/// apart, or exactly on the same spot, and which are not held back by a
/// wall when they are pushed, no longer overlap once they have been
/// separated.
pub proof fn lemma_separated_pair_is_apart(a: Body, b: Body, rad: int, arena: Arena, t: Direction)
    requires
        MIN_RADIUS <= rad <= MAX_RADIUS,
        t.valid(),
        overlapping(a, b, rad),
        !coincident(a, b) || gap_squared(a, b) == 0,
        separated(a, b, rad, arena, t).0.x == a.x - push_x(a, b, rad, t),
        separated(a, b, rad, arena, t).0.y == a.y - push_y(a, b, rad, t),
        separated(a, b, rad, arena, t).1.x == b.x + push_x(a, b, rad, t),
        separated(a, b, rad, arena, t).1.y == b.y + push_y(a, b, rad, t),
    ensures
        !overlapping(separated(a, b, rad, arena, t).0, separated(a, b, rad, arena, t).1, rad),
{
    let dx = b.x - a.x;
    let dy = b.y - a.y;
    let gap_sq = gap_squared(a, b);
    crate::fixed::lemma_square_nonnegative(dx);
    crate::fixed::lemma_square_nonnegative(dy);
    crate::fixed::lemma_floor_sqrt_exists(gap_sq);
    let dist = floor_sqrt(gap_sq);
    let reach = 2 * rad;
    let limit = reach - PEN_EPS;
    assert(dist * dist < limit * limit);
    crate::fixed::lemma_square_below(dist, limit);
    let overlap = reach - dist;
    let r = separated(a, b, rad, arena, t);
    let hx = push_x(a, b, rad, t);
    let hy = push_y(a, b, rad, t);
    if coincident(a, b) {
        crate::fixed::lemma_zero_squares(dx, dy);
        crate::fixed::lemma_floor_sqrt_is(0, 0);
        let len = t.len as int;
        let xn = lemma_pushed_offset(0, t.x as int, overlap, len);
        let yn = lemma_pushed_offset(0, t.y as int, overlap, len);
        let x = magnitude(t.x as int);
        let y = magnitude(t.y as int);
        assert(x * x == t.x * t.x && y * y == t.y * t.y) by (nonlinear_arith)
            requires
                x == t.x || x == -t.x,
                y == t.y || y == -t.y,
        ;
        lemma_stretched_span(x, y, len, reach, xn, yn);
        assert(gap_squared(r.0, r.1) == xn * xn + yn * yn);
    } else {
        if dist == 0 {
            assert((dist + 1) * (dist + 1) == 1) by (nonlinear_arith)
                requires
                    dist == 0,
            ;
        }
        let xn = lemma_pushed_offset(dx, dx, overlap, dist);
        let yn = lemma_pushed_offset(dy, dy, overlap, dist);
        let x = magnitude(dx);
        let y = magnitude(dy);
        assert(x * x == dx * dx && y * y == dy * dy) by (nonlinear_arith)
            requires
                x == dx || x == -dx,
                y == dy || y == -dy,
        ;
        assert(x * overlap + dist * x == x * reach) by (nonlinear_arith)
            requires
                overlap == reach - dist,
        ;
        assert(y * overlap + dist * y == y * reach) by (nonlinear_arith)
            requires
                overlap == reach - dist,
        ;
        lemma_stretched_span(x, y, dist, reach, xn, yn);
        assert(gap_squared(r.0, r.1) == xn * xn + yn * yn);
    }
}

/// The state of two discs.
pub open spec fn two(a: Body, b: Body, rad: int, arena: Arena) -> World {
    World { bodies: seq![a, b], rad, arena }
}

/// One sweep over two discs separates that one pair.
pub proof fn lemma_two_sweep(a: Body, b: Body, rad: int, arena: Arena, t: Direction)
    ensures
        penetrations_resolved(two(a, b, rad, arena), t) == two(
            separated(a, b, rad, arena, t).0,
            separated(a, b, rad, arena, t).1,
            rad,
            arena,
        ),
{
    let s = seq![a, b];
    reveal_with_fuel(rows_separated, 3);
    reveal_with_fuel(row_separated, 3);
    assert(rows_separated(s, 1, rad, arena, t) == pair_separated(s, 0, 1, rad, arena, t));
    assert(rows_separated(s, 2, rad, arena, t) == pair_separated(s, 0, 1, rad, arena, t));
    let r = separated(a, b, rad, arena, t);
    assert(pair_separated(s, 0, 1, rad, arena, t) =~= seq![r.0, r.1]);
}

/// Non-penetration of two discs: where the first sweep is not held back
/// by a wall, two discs that overlapped with their centres apart, or
/// exactly on the same spot, do not overlap after the sweeps of a tick.
pub proof fn lemma_two_discs_end_apart(a: Body, b: Body, rad: int, arena: Arena, t: Direction)
    requires
        MIN_RADIUS <= rad <= MAX_RADIUS,
        t.valid(),
        overlapping(a, b, rad),
        !coincident(a, b) || gap_squared(a, b) == 0,
        separated(a, b, rad, arena, t).0.x == a.x - push_x(a, b, rad, t),
        separated(a, b, rad, arena, t).0.y == a.y - push_y(a, b, rad, t),
        separated(a, b, rad, arena, t).1.x == b.x + push_x(a, b, rad, t),
        separated(a, b, rad, arena, t).1.y == b.y + push_y(a, b, rad, t),
    ensures
        swept(two(a, b, rad, arena), t, SWEEPS as nat).bodies.len() == 2,
        !overlapping(
            swept(two(a, b, rad, arena), t, SWEEPS as nat).bodies[0],
            swept(two(a, b, rad, arena), t, SWEEPS as nat).bodies[1],
            rad,
        ),
{
    let w = two(a, b, rad, arena);
    let r = separated(a, b, rad, arena, t);
    let parted = two(r.0, r.1, rad, arena);
    lemma_separated_pair_is_apart(a, b, rad, arena, t);
    lemma_two_sweep(a, b, rad, arena, t);
    lemma_two_sweep(r.0, r.1, rad, arena, t);
    reveal_with_fuel(swept, 4);
    assert(swept(w, t, 0) == w);
    assert(swept(w, t, 1) == parted);
    assert(separated(r.0, r.1, rad, arena, t) == (r.0, r.1));
    assert(swept(w, t, 2) == parted);
    assert(swept(w, t, 3) == parted);
}

/// Whether every disc rests with both speeds zero.
pub open spec fn all_at_rest(w: World) -> bool {
    forall|k: int|
        0 <= k < w.bodies.len() ==> (#[trigger] w.bodies[k]).resting && w.bodies[k].vx == 0
            && w.bodies[k].vy == 0
}

/// A pass of the stacking phase over discs that all rest changes nothing.
proof fn lemma_pass_over_resting(s: Seq<Body>, i: int, rad: int)
    requires
        0 <= i <= s.len(),
        forall|k: int| 0 <= k < s.len() ==> (#[trigger] s[k]).resting,
    ensures
        pass_prefix(s, i, rad) == s,
    decreases i,
{
    if i > 0 {
        lemma_pass_over_resting(s, i - 1, rad);
        assert(s[i - 1].resting);
    }
}

/// Fixed point of the rest tracker: where every disc rests with both
/// speeds zero, neither the floor phase nor the stacking phase changes
/// anything.
pub proof fn lemma_rest_tracking_is_idempotent(w: World)
    requires
        all_at_rest(w),
    ensures
        floor_marked(w) == w,
        stacks_marked(w) == w,
        stacks_marked(floor_marked(w)) == w,
{
    assert(floor_marked(w).bodies =~= w.bodies);
    lemma_pass_over_resting(w.bodies, w.bodies.len() as int, w.rad);
    assert(stacked_pass(w.bodies, w.rad) == w.bodies);
    assert(stacked(w.bodies, MAX_PASSES as nat, w.rad) == w.bodies);
}

/// The state of a single disc.
pub open spec fn lone(b: Body, rad: int, arena: Arena) -> World {
    World { bodies: seq![b], rad, arena }
}

/// One tick of a single disc: its step, then its waking, then the floor
/// phase; nothing else touches it.
pub proof fn lemma_lone_update(b: Body, rad: int, arena: Arena, t: Direction)
    ensures
        updated(lone(b, rad, arena), t) == lone(
            floor_rested(woken(integrated(b, rad, arena)), rad, arena),
            rad,
            arena,
        ),
        collisions_resolved(lone(b, rad, arena)) == lone(woken(b), rad, arena),
{
    let w = lone(b, rad, arena);
    let stepped = integrated(b, rad, arena);
    let w1 = lone(stepped, rad, arena);
    assert(walls_handled(w).bodies =~= seq![stepped]);
    assert(walls_handled(w) == w1);
    reveal_with_fuel(rows_separated, 2);
    reveal_with_fuel(row_separated, 2);
    assert(rows_separated(w1.bodies, 1, rad, arena, t) == w1.bodies);
    assert(penetrations_resolved(w1, t) == w1);
    reveal_with_fuel(swept, 4);
    assert(swept(w1, t, 1) == w1);
    assert(swept(w1, t, 2) == w1);
    assert(swept(w1, t, 3) == w1);
    lemma_lone_collision(stepped, rad, arena);
    lemma_lone_collision(b, rad, arena);
    let w2 = lone(woken(stepped), rad, arena);
    let rested = floor_rested(woken(stepped), rad, arena);
    let w3 = lone(rested, rad, arena);
    assert(floor_marked(w2).bodies =~= seq![rested]);
    assert(floor_marked(w2) == w3);
    lemma_lone_stack(rested, rad, arena);
}

/// The collision pass over a single disc only wakes it.
proof fn lemma_lone_collision(b: Body, rad: int, arena: Arena)
    ensures
        collisions_resolved(lone(b, rad, arena)) == lone(woken(b), rad, arena),
{
    let s = seq![b];
    reveal_with_fuel(rows_struck, 2);
    reveal_with_fuel(row_struck, 2);
    assert(roused(s, 0) =~= seq![woken(b)]);
    assert(rows_struck(s, 1, rad) == roused(s, 0));
}

/// The stacking phase leaves a single disc as it is.
proof fn lemma_lone_stack(b: Body, rad: int, arena: Arena)
    ensures
        stacks_marked(lone(b, rad, arena)) == lone(b, rad, arena),
{
    let s = seq![b];
    reveal_with_fuel(pass_prefix, 2);
    assert(!supported(s, 0, rad));
    assert(stack_step(s, 0, rad) == s);
    assert(stacked_pass(s, rad) == s);
    assert(stacked(s, MAX_PASSES as nat, rad) == s);
}

/// Resting on the floor: a single resting disc that lies still on the
/// floor is, after one tick, at rest in the same place with both speeds
/// exactly zero.
pub proof fn lemma_lone_disc_stays_at_rest(b: Body, rad: int, arena: Arena, t: Direction)
    requires
        b.resting,
        lies_still(b, rad, arena),
    ensures
        updated(lone(b, rad, arena), t) == lone(Body { vx: 0, vy: 0, ..b }, rad, arena),
{
    lemma_lone_update(b, rad, arena, t);
}

/// Coming to rest on the floor: a single free disc that lies on the floor
/// with both speeds shorter than `FLOOR_REST_BELOW` is, after two ticks,
/// at rest on the floor with both speeds exactly zero.
pub proof fn lemma_lone_disc_settles(b: Body, rad: int, arena: Arena, t: Direction)
    requires
        arena.valid(),
        MIN_RADIUS <= rad <= MAX_RADIUS,
        b.within(arena),
        b.contained(rad, arena),
        !b.resting,
        lies_still(b, rad, arena),
    ensures
        updated(updated(lone(b, rad, arena), t), t).bodies.len() == 1,
        updated(updated(lone(b, rad, arena), t), t).bodies[0].resting,
        updated(updated(lone(b, rad, arena), t), t).bodies[0].vx == 0,
        updated(updated(lone(b, rad, arena), t), t).bodies[0].vy == 0,
        updated(updated(lone(b, rad, arena), t), t).bodies[0].y == arena.floor() + rad,
{
    lemma_lone_update(b, rad, arena, t);
    let first = integrated(b, rad, arena);
    crate::walls::lemma_integrated_contained(b, rad, arena);
    crate::fixed::lemma_scaled_shrinks(b.vx, 9, 10);
    assert(first.y == arena.floor() + rad);
    assert(-210_000 <= first.vy <= 0);
    assert(magnitude(first.vx) < FLOOR_REST_BELOW) by {
        let p = crate::walls::pulled(b);
        let f = crate::walls::floor_bounced(crate::walls::moved(p), rad, arena);
        let c = crate::walls::ceiling_bounced(f, rad, arena);
        crate::fixed::lemma_scaled_shrinks(c.vx, 9, 10);
        let s = crate::walls::side_bounced(c, rad, arena);
        let q = crate::walls::stilled(crate::walls::pulled(s));
        crate::fixed::lemma_scaled_shrinks(q.vx, 9, 10);
    }
    let b1 = floor_rested(woken(first), rad, arena);
    lemma_lone_update(b1, rad, arena, t);
    if !b1.resting {
        let second = integrated(b1, rad, arena);
        crate::walls::lemma_integrated_contained(b1, rad, arena);
        assert(second.y == arena.floor() + rad);
        assert(-30_000 <= second.vy <= 69_000);
        assert(magnitude(second.vx) < FLOOR_REST_BELOW) by {
            crate::fixed::lemma_scaled_shrinks(b1.vx, 9, 10);
            let p = crate::walls::pulled(b1);
            let f = crate::walls::floor_bounced(crate::walls::moved(p), rad, arena);
            let c = crate::walls::ceiling_bounced(f, rad, arena);
            crate::fixed::lemma_scaled_shrinks(c.vx, 9, 10);
            let s = crate::walls::side_bounced(c, rad, arena);
            let q = crate::walls::stilled(crate::walls::pulled(s));
            crate::fixed::lemma_scaled_shrinks(q.vx, 9, 10);
        }
    }
}

/// Waking: a single disc at rest with both speeds zero is free again
/// after a kick and one pass of the collision responder, whatever the
/// sideways nudge of the kick.
pub proof fn lemma_kicked_disc_wakes(b: Body, nudge: int, rad: int, arena: Arena)
    requires
        b.resting,
        b.vx == 0,
        b.vy == 0,
        -KICK_SIDE <= nudge < KICK_SIDE,
    ensures
        collisions_resolved(lone(kicked(b, nudge), rad, arena)) == lone(
            Body { resting: false, ..kicked(b, nudge) },
            rad,
            arena,
        ),
{
    lemma_lone_collision(kicked(b, nudge), rad, arena);
}

/// Each disc's share of the impulse between two discs side by side on
/// one axis: it is at most half the speed at which they close, and points
/// from the one that gives to the one that takes.
proof fn lemma_axis_impulse(rv: int, d: int)
    requires
        d != 0,
        rv * d < 0,
    ensures
        half_impulse(rv * d, 0, d * d) == 0,
        d > 0 ==> rv < 0 && 0 <= half_impulse(rv * d, d, d * d) && 2 * half_impulse(rv * d, d, d * d)
            <= -rv,
        d < 0 ==> rv > 0 && half_impulse(rv * d, d, d * d) <= 0 && -2 * half_impulse(
            rv * d,
            d,
            d * d,
        ) <= rv,
{
    let g = d * d;
    assert(g > 0) by (nonlinear_arith)
        requires
            g == d * d,
            d != 0,
    ;
    let k = magnitude(rv);
    assert((d > 0 ==> rv < 0) && (d < 0 ==> rv > 0)) by (nonlinear_arith)
        requires
            rv * d < 0,
    ;
    let num = -(REST_NUM * (rv * d)) * d;
    let den = 2 * REST_DEN * g;
    assert(den == 200 * g) by (nonlinear_arith)
        requires
            den == 2 * REST_DEN * g,
            REST_DEN == 100,
    ;
    assert(-(REST_NUM * (rv * d)) * 0 == 0) by (nonlinear_arith);
    assert(0int / den == 0) by (nonlinear_arith)
        requires
            den > 0,
    ;
    let m = (98 * k) * g;
    assert(m >= 0 && (d > 0 ==> num == m) && (d < 0 ==> num == -m) && m > 0) by (nonlinear_arith)
        requires
            num == -(REST_NUM * (rv * d)) * d,
            REST_NUM == 98,
            g == d * d,
            m == (98 * k) * g,
            (d > 0 && rv < 0 && k == -rv) || (d < 0 && rv > 0 && k == rv),
    ;
    let q = (98 * k) / 200;
    assert(m / den == q) by {
        vstd::arithmetic::div_mod::lemma_div_denominator(m, g, 200);
        vstd::arithmetic::div_mod::lemma_div_multiples_vanish(98 * k, g);
        assert(g * (98 * k) == m) by (nonlinear_arith)
            requires
                m == (98 * k) * g,
        ;
        assert(g * 200 == den);
    }
    assert(0 <= q && 2 * q <= k);
    assert(half_impulse(rv * d, d, d * d) == trunc_div(num, den));
}

/// Bounded speed along an axis: when two discs whose centres lie on one
/// horizontal or one vertical line collide, the magnitudes of their four
/// speeds do not sum to more afterwards than before.
pub proof fn lemma_axis_collision_gains_no_speed(a: Body, b: Body, rad: int)
    requires
        a.x == b.x || a.y == b.y,
        magnitude(a.vx) <= SPEED_LIMIT,
        magnitude(a.vy) <= SPEED_LIMIT,
        magnitude(b.vx) <= SPEED_LIMIT,
        magnitude(b.vy) <= SPEED_LIMIT,
    ensures
        struck(a, b, rad).0.speed_sum() + struck(a, b, rad).1.speed_sum() <= a.speed_sum()
            + b.speed_sum(),
{
    if touching(a, b, rad) && approaching(a, b) {
        let dx = b.x - a.x;
        let dy = b.y - a.y;
        let rvx = b.vx - a.vx;
        let rvy = b.vy - a.vy;
        if a.y == b.y {
            assert(closing(a, b) == rvx * dx && gap_squared(a, b) == dx * dx) by (nonlinear_arith)
                requires
                    closing(a, b) == rvx * dx + rvy * dy,
                    gap_squared(a, b) == dx * dx + dy * dy,
                    dy == 0,
            ;
            assert(dx != 0) by (nonlinear_arith)
                requires
                    rvx * dx < 0,
            ;
            lemma_axis_impulse(rvx, dx);
        } else {
            assert(closing(a, b) == rvy * dy && gap_squared(a, b) == dy * dy) by (nonlinear_arith)
                requires
                    closing(a, b) == rvx * dx + rvy * dy,
                    gap_squared(a, b) == dx * dx + dy * dy,
                    dx == 0,
            ;
            assert(dy != 0) by (nonlinear_arith)
                requires
                    rvy * dy < 0,
            ;
            lemma_axis_impulse(rvy, dy);
        }
    }
}

} // verus!
