use disc_arena::arena::Arena;
use disc_arena::model::Model;
use disc_arena::point::{Color, Point};

const RAD: i64 = 25_000_000;
const LOWEST: i64 = -355_000_000;
const WHITE: Color = Color { red: 250, green: 250, blue: 250 };

fn arena() -> Arena {
    Arena::new(800, 800, 20)
}

fn disc(x: i64, y: i64, vel_x: i64, vel_y: i64) -> Point {
    Point { x, y, vel_x, vel_y, col: WHITE, resting: false }
}

fn resting(x: i64, y: i64, vel_x: i64, vel_y: i64) -> Point {
    Point { x, y, vel_x, vel_y, col: WHITE, resting: true }
}

#[test]
fn slow_disc_on_the_floor_comes_to_rest() {
    let q = disc(3, LOWEST + 100_000, 99_999, -99_999).rest_on_floor(RAD, &arena());
    assert_eq!(q, resting(3, LOWEST + 100_000, 0, 0));
}

#[test]
fn disc_too_fast_or_too_high_stays_free() {
    let p = disc(3, LOWEST, 100_000, 0);
    assert_eq!(p.rest_on_floor(RAD, &arena()), p);
    let p = disc(3, LOWEST, 0, -100_000);
    assert_eq!(p.rest_on_floor(RAD, &arena()), p);
    let p = disc(3, LOWEST + 100_001, 0, 0);
    assert_eq!(p.rest_on_floor(RAD, &arena()), p);
}

#[test]
fn floor_phase_stops_a_resting_disc_that_creeps() {
    let q = resting(3, LOWEST, 40_000, 40_000).rest_on_floor(RAD, &arena());
    assert_eq!(q, resting(3, LOWEST, 0, 0));
}

#[test]
fn floor_phase_looks_at_every_disc() {
    let points = vec![disc(0, LOWEST, 10, 10), disc(60_000_000, 0, 10, 10), disc(-60_000_000, LOWEST + 5, -7, 0)];
    let mut model = Model::with_points(arena(), RAD, points).unwrap();
    model.mark_floor_resting_balls();
    assert_eq!(model.points[0], resting(0, LOWEST, 0, 0));
    assert_eq!(model.points[1], disc(60_000_000, 0, 10, 10));
    assert_eq!(model.points[2], resting(-60_000_000, LOWEST + 5, 0, 0));
}

#[test]
fn disc_lies_on_a_resting_disc_below_it() {
    let under = resting(0, LOWEST, 0, 0);
    let top = disc(0, LOWEST + 50_100_000, 150_000, -199_999);
    assert!(top.is_on(&under, RAD, &arena()));
    assert!(!top.is_on(&disc(0, LOWEST, 0, 0), RAD, &arena()));
    assert!(!under.is_on(&Point { resting: true, ..top }, RAD, &arena()));
    assert!(!disc(0, LOWEST + 50_100_001, 0, 0).is_on(&under, RAD, &arena()));
    assert!(!disc(0, LOWEST + 50_000_000, 200_000, 0).is_on(&under, RAD, &arena()));
    assert!(!disc(0, LOWEST + 50_000_000, 0, 200_000).is_on(&under, RAD, &arena()));
}

#[test]
fn disc_must_sit_near_the_top() {
    let under = resting(0, LOWEST, 0, 0);
    assert!(disc(15_000_000, LOWEST + 47_000_000, 0, 0).is_on(&under, RAD, &arena()));
    assert!(disc(-15_000_000, LOWEST + 47_000_000, 0, 0).is_on(&under, RAD, &arena()));
    assert!(!disc(16_000_000, LOWEST + 47_000_000, 0, 0).is_on(&under, RAD, &arena()));
    assert!(!disc(-16_000_000, LOWEST + 47_000_000, 0, 0).is_on(&under, RAD, &arena()));
    assert!(disc(324_919, LOWEST + 1_000_000, 0, 0).is_on(&under, RAD, &arena()));
    assert!(!disc(324_920, LOWEST + 1_000_000, 0, 0).is_on(&under, RAD, &arena()));
    assert!(!disc(50_000_000, LOWEST, 0, 0).is_on(&under, RAD, &arena()));
}

#[test]
fn settling_halves_the_sideways_speed() {
    assert_eq!(disc(1, 2, 150_001, -199_999).settle(), resting(1, 2, 75_000, 0));
    assert_eq!(disc(1, 2, -150_001, 33).settle(), resting(1, 2, -75_000, 0));
}

#[test]
fn stacking_phase_rests_a_disc_on_a_resting_one() {
    let points = vec![resting(0, LOWEST, 0, 0), disc(0, LOWEST + 50_000_000, 150_000, -199_999)];
    let mut model = Model::with_points(arena(), RAD, points).unwrap();
    assert!(model.has_support(1));
    assert!(!model.has_support(0));
    model.mark_stacked_resting_balls();
    assert_eq!(model.points[0], resting(0, LOWEST, 0, 0));
    assert_eq!(model.points[1], resting(0, LOWEST + 50_000_000, 75_000, 0));
}

#[test]
fn stacking_phase_leaves_a_disc_beside_a_resting_one_free() {
    let points = vec![resting(0, LOWEST, 0, 0), disc(50_000_000, LOWEST, 0, 0)];
    let mut model = Model::with_points(arena(), RAD, points.clone()).unwrap();
    model.mark_stacked_resting_balls();
    assert_eq!(model.points, points);
}

#[test]
fn stack_is_found_from_the_bottom_whatever_the_order() {
    let top = disc(0, LOWEST + 100_000_000, 0, 0);
    let middle = disc(0, LOWEST + 50_000_000, 0, 0);
    let bottom = resting(0, LOWEST, 0, 0);
    let mut model = Model::with_points(arena(), RAD, vec![top, middle, bottom]).unwrap();
    model.mark_stacked_resting_balls();
    assert!(model.points.iter().all(|p| p.resting));
    let mut model = Model::with_points(arena(), RAD, vec![bottom, middle, top]).unwrap();
    model.mark_stacked_resting_balls();
    assert!(model.points.iter().all(|p| p.resting));
}

#[test]
fn stacking_phase_stops_after_five_passes() {
    let points: Vec<Point> = (0..7)
        .map(|k| {
            let p = disc(0, LOWEST + (6 - k) * 50_000_000, 0, 0);
            Point { resting: k == 6, ..p }
        })
        .collect();
    let mut model = Model::with_points(arena(), RAD, points).unwrap();
    model.mark_stacked_resting_balls();
    assert!(!model.points[0].resting);
    for k in 1..7 {
        assert!(model.points[k].resting);
    }
    model.mark_stacked_resting_balls();
    assert!(model.points[0].resting);
}

#[test]
fn rest_tracker_changes_nothing_when_all_is_at_rest() {
    let points = vec![
        resting(0, LOWEST, 0, 0),
        resting(0, LOWEST + 50_000_000, 0, 0),
        resting(60_000_000, LOWEST, 0, 0),
        resting(200_000_000, 100_000_000, 0, 0),
    ];
    let mut model = Model::with_points(arena(), RAD, points.clone()).unwrap();
    model.mark_floor_resting_balls();
    model.mark_stacked_resting_balls();
    assert_eq!(model.points, points);
    model.mark_floor_resting_balls();
    model.mark_stacked_resting_balls();
    assert_eq!(model.points, points);
    assert_eq!(model.rad, RAD);
}
