//! The model: the discs in their order, the radius they share, and the
//! arena that holds them.

use vstd::prelude::*;
use crate::arena::{Arena, MAX_RADIUS, MIN_RADIUS, START_RADIUS};
use crate::chance::{lower_of, random_range, upper_of};
use crate::fixed::SPEED_LIMIT;
use crate::point::{Body, Point};

verus! {

/// Fewest discs a model holds.
pub const MIN_POINTS: usize = 1;

/// Most discs a model holds.
pub const MAX_POINTS: usize = 100;

/// How many discs a fresh model holds.
pub const START_POINTS: usize = 30;

/// A fresh model keeps its discs this far from the side walls.
pub const SPAWN_MARGIN: i64 = 50_000_000;

/// The discs, the radius that all of them share, and the arena.
pub struct Model {
    pub points: Vec<Point>,
    pub rad: i64,
    pub arena: Arena,
}

/// The mathematical state that a `Model` stands for.
pub struct World {
    pub bodies: Seq<Body>,
    pub rad: int,
    pub arena: Arena,
}

/// The mathematical discs that a sequence of points stands for.
pub open spec fn bodies_of(points: Seq<Point>) -> Seq<Body> {
    Seq::new(points.len(), |i: int| points[i]@)
}

/// Whether `b` is a disc as a fresh model holds one: a fresh disc on the
/// line `y = 0`, between the two lines that lie `SPAWN_MARGIN` inside the
/// side walls, whichever of the two is the left one, or on them where
/// they are one line.
pub open spec fn spawned(b: Body, arena: Arena) -> bool {
    let lo = arena.left() + SPAWN_MARGIN;
    let hi = arena.right() - SPAWN_MARGIN;
    &&& b.is_fresh()
    &&& b.y == 0
    &&& if lo == hi {
        b.x == lo
    } else {
        lower_of(lo, hi) <= b.x < upper_of(lo, hi)
    }
}

impl World {
    /// The arena is usable, the radius and the number of discs are within
    /// their limits, and every disc has its centre inside the arena and
    /// its speeds within the speed limit.
    pub open spec fn wf(self) -> bool {
        &&& self.arena.valid()
        &&& MIN_RADIUS <= self.rad <= MAX_RADIUS
        &&& MIN_POINTS <= self.bodies.len() <= MAX_POINTS
        &&& forall|i: int| 0 <= i < self.bodies.len() ==> (#[trigger] self.bodies[i]).within(self.arena)
    }

    /// Every disc lies wholly inside the arena.
    pub open spec fn contained(self) -> bool {
        forall|i: int| 0 <= i < self.bodies.len() ==> (#[trigger] self.bodies[i]).contained(self.rad, self.arena)
    }
}

impl View for Model {
    type V = World;

    open spec fn view(&self) -> World {
        World { bodies: bodies_of(self.points@), rad: self.rad as int, arena: self.arena }
    }
}

impl Point {
    /// Whether the centre lies inside the arena's walls and the speeds are
    /// within the speed limit.
    pub fn is_within(&self, arena: &Arena) -> (ok: bool)
        requires
            arena.valid(),
        ensures
            ok == self@.within(*arena),
    {
        -arena.half_width <= self.x && self.x <= arena.half_width && -arena.half_height <= self.y
            && self.y <= arena.half_height && -SPEED_LIMIT <= self.vel_x && self.vel_x
            <= SPEED_LIMIT && -SPEED_LIMIT <= self.vel_y && self.vel_y <= SPEED_LIMIT
    }
}

impl Model {
    /// The model's state is well formed.
    pub open spec fn wf(&self) -> bool {
        self@.wf()
    }

    /// Whether `points` and `rad` make a well-formed model in `arena`.
    pub open spec fn admissible(arena: Arena, rad: int, points: Seq<Point>) -> bool {
        (World { bodies: bodies_of(points), rad, arena }).wf()
    }

    /// Whether `points` and `rad` make a well-formed model in `arena`.
    pub fn admits(arena: &Arena, rad: i64, points: &Vec<Point>) -> (ok: bool)
        ensures
            ok == Model::admissible(*arena, rad as int, points@),
    {
        if !arena.is_valid() || rad < MIN_RADIUS || rad > MAX_RADIUS || points.len() < MIN_POINTS
            || points.len() > MAX_POINTS {
            return false;
        }
        let n = points.len();
        let mut i: usize = 0;
        while i < n
            invariant
                i <= n,
                n == points.len(),
                arena.valid(),
                forall|k: int| 0 <= k < i ==> (#[trigger] points@[k])@.within(*arena),
            decreases n - i,
        {
            if !points[i].is_within(arena) {
                assert(!bodies_of(points@)[i as int].within(*arena));
                return false;
            }
            i += 1;
        }
        assert forall|k: int| 0 <= k < bodies_of(points@).len() implies (#[trigger] bodies_of(
            points@,
        )[k]).within(*arena) by {
            assert(points@[k]@.within(*arena));
        }
        true
    }

    /// Whether the model's state is well formed.
    pub fn is_wf(&self) -> (ok: bool)
        ensures
            ok == self.wf(),
    {
        Model::admits(&self.arena, self.rad, &self.points)
    }

    /// The model of the given discs, or `None` when the arena is not
    /// usable, the radius or the number of discs is out of its limits, or
    /// a disc lies outside the arena or is too fast.
    pub fn with_points(arena: Arena, rad: i64, points: Vec<Point>) -> (made: Option<Model>)
        ensures
            made is Some <==> Model::admissible(arena, rad as int, points@),
            made matches Some(m) ==> m.points@ == points@ && m.rad == rad && m.arena == arena,
    {
        if Model::admits(&arena, rad, &points) {
            Some(Model { points, rad, arena })
        } else {
            None
        }
    }

    /// A fresh model: `START_POINTS` fresh discs of radius `START_RADIUS`
    /// on the line `y = 0`, each at a random place between the two lines
    /// that lie `SPAWN_MARGIN` inside the side walls.
    pub fn new(arena: Arena) -> (model: Model)
        requires
            arena.valid(),
        ensures
            model.wf(),
            model@.contained(),
            model.arena == arena,
            model.rad == START_RADIUS,
            model.points@.len() == START_POINTS,
            forall|i: int|
                0 <= i < model@.bodies.len() ==> spawned(#[trigger] model@.bodies[i], arena),
    {
        let mut points: Vec<Point> = Vec::new();
        let lo: i64 = -arena.half_width + SPAWN_MARGIN;
        let hi: i64 = arena.half_width - SPAWN_MARGIN;
        while points.len() < START_POINTS
            invariant
                arena.valid(),
                lo == -arena.half_width + SPAWN_MARGIN,
                hi == arena.half_width - SPAWN_MARGIN,
                points@.len() <= START_POINTS,
                forall|k: int| 0 <= k < points@.len() ==> (#[trigger] points@[k])@.within(arena),
                forall|k: int| 0 <= k < points@.len() ==> (#[trigger] points@[k])@.contained(START_RADIUS as int, arena),
                forall|k: int| 0 <= k < points@.len() ==> spawned((#[trigger] points@[k])@, arena),
            decreases START_POINTS - points@.len(),
        {
            let x: i64 = if lo != hi {
                random_range(lo, hi)
            } else {
                lo
            };
            let p = Point::new(x, 0);
            points.push(p);
        }
        let model = Model { points, rad: START_RADIUS, arena };
        assert forall|k: int| 0 <= k < model@.bodies.len() implies (#[trigger] model@.bodies[k]).within(
            arena,
        ) && model@.bodies[k].contained(START_RADIUS as int, arena) && spawned(
            model@.bodies[k],
            arena,
        ) by {
            assert(model.points@[k]@.within(arena));
            assert(model.points@[k]@.contained(START_RADIUS as int, arena));
            assert(spawned(model.points@[k]@, arena));
        }
        model
    }

    /// How many discs the model holds.
    pub fn len(&self) -> (n: usize)
        ensures
            n == self@.bodies.len(),
    {
        self.points.len()
    }
}

} // verus!
