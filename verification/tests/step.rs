use disc_arena::arena::Arena;
use disc_arena::direction::{Direction, TieBreak};
use disc_arena::events::Command;
use disc_arena::model::Model;
use disc_arena::point::{Color, Point};

const RAD: i64 = 25_000_000;
const LOWEST: i64 = -355_000_000;
const BLACK: Color = Color { red: 0, green: 0, blue: 0 };

fn arena() -> Arena {
    Arena::new(800, 800, 20)
}

fn disc(x: i64, y: i64, vel_x: i64, vel_y: i64) -> Point {
    Point { x, y, vel_x, vel_y, col: BLACK, resting: false }
}

fn resting(x: i64, y: i64, vel_x: i64, vel_y: i64) -> Point {
    Point { x, y, vel_x, vel_y, col: BLACK, resting: true }
}

fn up() -> TieBreak {
    TieBreak::Toward(Direction::toward(0, 1_000_000).unwrap())
}

fn contained(model: &Model) -> bool {
    let a = model.arena;
    model.points.iter().all(|p| {
        -a.half_width + model.rad <= p.x
            && p.x <= a.half_width - model.rad
            && -a.half_height + model.rad <= p.y
            && p.y <= a.half_height - model.rad
    })
}

#[test]
fn dropped_disc_settles_on_the_floor() {
    let mut model = Model::with_points(arena(), RAD, vec![disc(0, 0, 0, 0)]).unwrap();
    let mut ticks = 0;
    while !model.points[0].resting && ticks < 2_000 {
        model.update(&TieBreak::Random);
        ticks += 1;
    }
    let p = model.points[0];
    assert!(ticks < 2_000);
    assert!(p.resting);
    assert!((p.y - LOWEST).abs() <= 100_000);
    assert_eq!(p.y, LOWEST);
    assert_eq!((p.vel_x, p.vel_y), (0, 0));
    for _ in 0..50 {
        model.update(&TieBreak::Random);
        assert_eq!(model.points[0], p);
    }
}

#[test]
fn first_tick_of_a_dropped_disc() {
    let mut model = Model::with_points(arena(), RAD, vec![disc(0, 0, 0, 0)]).unwrap();
    model.update(&up());
    assert_eq!(model.points[0], disc(0, -1_200_000, 0, -2_400_000));
    model.update(&up());
    assert_eq!(model.points[0], disc(0, -4_800_000, 0, -4_800_000));
}

#[test]
fn resting_disc_on_the_floor_stays_at_rest() {
    let mut model = Model::with_points(arena(), RAD, vec![resting(0, LOWEST, 90_000, -90_000)]).unwrap();
    model.update(&up());
    assert_eq!(model.points[0], resting(0, LOWEST, 0, 0));
}

#[test]
fn free_disc_lying_on_the_floor_rests_within_two_ticks() {
    for vel_y in [-99_999, -50_000, -22_223, 0, 1, 50_000, 99_999] {
        for vel_x in [-99_999, 0, 99_999] {
            let mut model = Model::with_points(arena(), RAD, vec![disc(0, LOWEST, vel_x, vel_y)]).unwrap();
            model.update(&up());
            model.update(&up());
            let p = model.points[0];
            assert!(p.resting);
            assert_eq!((p.y, p.vel_x, p.vel_y), (LOWEST, 0, 0));
        }
    }
}

#[test]
fn free_disc_lying_still_is_not_yet_at_rest_after_one_tick() {
    let mut model = Model::with_points(arena(), RAD, vec![disc(0, LOWEST, 0, 0)]).unwrap();
    model.update(&up());
    assert_eq!(model.points[0], disc(0, LOWEST, 0, -120_000));
    model.update(&up());
    assert_eq!(model.points[0], resting(0, LOWEST, 0, 0));
}

#[test]
fn kicked_resting_disc_wakes_in_the_collision_pass() {
    let mut model = Model::with_points(arena(), RAD, vec![disc(0, LOWEST, 0, -60_000)]).unwrap();
    model.update(&up());
    assert_eq!(model.points[0], resting(0, LOWEST, 0, 0));
    model.key_pressed(Command::Kick);
    assert!(model.points[0].resting);
    assert_eq!(model.points[0].vel_y, 20_000_000);
    model.resolve_ball_collisions();
    assert!(!model.points[0].resting);
    assert_eq!(model.points[0].vel_y, 20_000_000);
}

#[test]
fn kicked_resting_disc_flies_on_the_next_tick() {
    let mut model = Model::with_points(arena(), RAD, vec![resting(0, LOWEST, 0, 0)]).unwrap();
    model.key_pressed(Command::Kick);
    model.update(&up());
    assert!(!model.points[0].resting);
    assert_eq!(model.points[0].y, LOWEST);
    model.update(&up());
    assert_eq!(model.points[0].y, LOWEST + 18_800_000);
    assert_eq!(model.points[0].vel_y, 17_600_000);
}

#[test]
fn tick_with_a_given_direction_is_repeatable() {
    let points = vec![disc(0, 0, 0, 0), disc(0, 0, 0, 0), disc(10_000_000, 5_000_000, -1_000_000, 0)];
    let mut one = Model::with_points(arena(), RAD, points.clone()).unwrap();
    let mut two = Model::with_points(arena(), RAD, points).unwrap();
    for _ in 0..200 {
        one.update(&up());
        two.update(&up());
        assert_eq!(one.points, two.points);
    }
}

#[test]
fn tick_parts_discs_on_the_same_spot() {
    let mut model = Model::with_points(arena(), RAD, vec![resting(0, 0, 0, 0), resting(0, 0, 0, 0)]).unwrap();
    model.update(&up());
    assert_eq!(model.points[0], resting(0, -25_000_000, 0, 0));
    assert_eq!(model.points[1], resting(0, 25_000_000, 0, 0));
}

#[test]
fn balls_handling_runs_the_stages_in_order() {
    let points = vec![disc(0, LOWEST, 50_000, 0), disc(30_000_000, LOWEST, -50_000, 0)];
    let mut model = Model::with_points(arena(), RAD, points).unwrap();
    model.handle_balls_collisions(&up());
    assert_eq!(model.points[0], resting(-10_000_000, LOWEST, 0, 0));
    assert_eq!(model.points[1], resting(40_000_000, LOWEST, 0, 0));
}

#[test]
fn discs_stay_inside_the_arena() {
    let mut model = Model::new(arena());
    assert!(contained(&model));
    for tick in 0..600 {
        if tick % 97 == 50 {
            model.key_pressed(Command::Kick);
        }
        if tick % 150 == 20 {
            model.key_pressed(Command::AddBody);
        }
        if tick % 201 == 7 {
            model.key_pressed(Command::DecreaseRadius);
        }
        model.update(&TieBreak::Random);
        assert!(model.is_wf());
        assert!(contained(&model));
    }
}

#[test]
fn grown_resting_disc_is_left_where_it_lies() {
    let mut model = Model::with_points(arena(), RAD, vec![resting(0, LOWEST, 0, 0)]).unwrap();
    model.key_pressed(Command::IncreaseRadius);
    model.update(&up());
    assert_eq!(model.points[0], resting(0, LOWEST, 0, 0));
    assert_eq!(model.rad, 26_000_000);
}
