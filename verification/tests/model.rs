use disc_arena::arena::{Arena, START_RADIUS};
use disc_arena::direction::{Direction, TieBreak};
use disc_arena::model::{Model, START_POINTS};
use disc_arena::point::{Color, Point};

const GREY: Color = Color { red: 9, green: 9, blue: 9 };

fn still(x: i64, y: i64) -> Point {
    Point { x, y, vel_x: 0, vel_y: 0, col: GREY, resting: false }
}

#[test]
fn arena_is_drawn_in_from_the_world() {
    let arena = Arena::new(800, 800, 20);
    assert_eq!(arena, Arena { half_width: 380_000_000, half_height: 380_000_000 });
    let odd = Arena::new(801, 600, 20);
    assert_eq!(odd, Arena { half_width: 380_500_000, half_height: 280_000_000 });
}

#[test]
fn arena_must_hold_the_largest_disc() {
    assert!(Arena::new(800, 800, 20).is_valid());
    assert!(!Arena::new(100, 100, 20).is_valid());
    assert!(!Arena::new(120, 800, 20).is_valid());
    assert!(!Arena::new(800, 120, 20).is_valid());
    assert!(Arena::new(122, 122, 20).is_valid());
    assert!(!Arena::new(10, 10, 20).is_valid());
    assert!(!Arena { half_width: 4_000_000_000_000_001, half_height: 50_000_000 }.is_valid());
}

#[test]
fn fresh_model_has_thirty_free_discs_on_the_middle_line() {
    let arena = Arena::new(800, 800, 20);
    let model = Model::new(arena);
    assert_eq!(model.len(), START_POINTS);
    assert_eq!(model.len(), 30);
    assert_eq!(model.rad, START_RADIUS);
    assert_eq!(model.rad, 25_000_000);
    assert!(model.is_wf());
    for p in model.points.iter() {
        assert_eq!(p.y, 0);
        assert!(!p.resting);
        assert!(-330_000_000 <= p.x && p.x < 330_000_000);
        assert_eq!(p.vel_x, 10_000_000);
        assert!(-1_500_000 <= p.vel_y && p.vel_y < 1_500_000);
        assert!(p.col.red < 255 && p.col.green < 255 && p.col.blue < 255);
    }
}

#[test]
fn fresh_model_in_a_narrow_arena_keeps_to_the_middle() {
    let arena = Arena::new(122, 800, 20);
    let model = Model::new(arena);
    assert!(model.is_wf());
    for p in model.points.iter() {
        assert!(-9_000_000 <= p.x && p.x < 9_000_000);
    }
    let exact = Arena { half_width: 50_000_000, half_height: 50_000_000 };
    let model = Model::new(exact);
    for p in model.points.iter() {
        assert_eq!(p.x, 0);
    }
}

#[test]
fn fresh_discs_are_not_all_alike() {
    let arena = Arena::new(800, 800, 20);
    let model = Model::new(arena);
    let first = model.points[0];
    assert!(model.points.iter().any(|p| p.x != first.x));
    assert!(model.points.iter().any(|p| p.vel_y != first.vel_y));
}

#[test]
fn random_colours_stay_below_the_bound_and_vary() {
    let mut any_set = false;
    for _ in 0..64 {
        let c = Color::random();
        assert!(c.red < 255 && c.green < 255 && c.blue < 255);
        if c.red != 0 || c.green != 0 || c.blue != 0 {
            any_set = true;
        }
    }
    assert!(any_set);
}

#[test]
fn new_point_is_free_and_launched_right() {
    let p = Point::new(7, -9);
    assert_eq!((p.x, p.y), (7, -9));
    assert!(!p.resting);
    assert_eq!(p.vel_x, 10_000_000);
    assert!(-1_500_000 <= p.vel_y && p.vel_y < 1_500_000);
}

#[test]
fn launch_picks_the_side() {
    let right = Point::launch(1, 2, 0, 5, GREY);
    assert_eq!(right, Point { x: 1, y: 2, vel_x: 10_000_000, vel_y: 5, col: GREY, resting: false });
    let left = Point::launch(1, 2, 1, -5, GREY);
    assert_eq!(left, Point { x: 1, y: 2, vel_x: -10_000_000, vel_y: -5, col: GREY, resting: false });
}

#[test]
fn with_points_takes_what_is_well_formed() {
    let arena = Arena::new(800, 800, 20);
    let model = Model::with_points(arena, 25_000_000, vec![still(0, 0), still(5, 5)]).unwrap();
    assert_eq!(model.len(), 2);
    assert_eq!(model.points[1], still(5, 5));
    assert_eq!(model.rad, 25_000_000);
    assert_eq!(model.arena, arena);
    assert!(model.is_wf());
}

#[test]
fn with_points_refuses_what_is_not() {
    let arena = Arena::new(800, 800, 20);
    assert!(Model::with_points(arena, 25_000_000, vec![]).is_none());
    assert!(Model::with_points(arena, 2_999_999, vec![still(0, 0)]).is_none());
    assert!(Model::with_points(arena, 40_000_001, vec![still(0, 0)]).is_none());
    assert!(Model::with_points(arena, 3_000_000, vec![still(0, 0)]).is_some());
    assert!(Model::with_points(arena, 40_000_000, vec![still(0, 0)]).is_some());
    assert!(Model::with_points(arena, 25_000_000, vec![still(380_000_001, 0)]).is_none());
    assert!(Model::with_points(arena, 25_000_000, vec![still(380_000_000, -380_000_000)]).is_some());
    assert!(Model::with_points(arena, 25_000_000, vec![still(0, -380_000_001)]).is_none());
    let fast = Point { vel_x: 1_000_000_000_001, ..still(0, 0) };
    assert!(Model::with_points(arena, 25_000_000, vec![fast]).is_none());
    let bad = Arena::new(100, 100, 20);
    assert!(Model::with_points(bad, 25_000_000, vec![still(0, 0)]).is_none());
    let many: Vec<Point> = (0..101).map(|_| still(0, 0)).collect();
    assert!(Model::with_points(arena, 25_000_000, many).is_none());
}

#[test]
fn a_model_with_a_disc_outside_is_not_well_formed() {
    let arena = Arena::new(800, 800, 20);
    let mut model = Model::with_points(arena, 25_000_000, vec![still(0, 0)]).unwrap();
    model.points[0].x = 400_000_000;
    assert!(!model.is_wf());
}

#[test]
fn directions_are_vectors_in_the_unit_disc() {
    assert_eq!(Direction::toward(1_000_000, 0), Some(Direction { x: 1_000_000, y: 0, len: 1_000_000 }));
    assert_eq!(
        Direction::toward(600_000, -800_000),
        Some(Direction { x: 600_000, y: -800_000, len: 1_000_000 })
    );
    assert_eq!(
        Direction::toward(300_000, 400_000),
        Some(Direction { x: 300_000, y: 400_000, len: 500_000 })
    );
    assert_eq!(
        Direction::toward(700_000, 700_000),
        Some(Direction { x: 700_000, y: 700_000, len: 989_949 })
    );
    assert_eq!(Direction::toward(0, 0), None);
    assert_eq!(Direction::toward(299_999, 400_000), None);
    assert_eq!(Direction::toward(1_000_000, 1), None);
    assert_eq!(Direction::toward(1_000_000, 1_000_000), None);
    assert_eq!(Direction::toward(2_000_000, 0), None);
    assert_eq!(Direction::toward(0, -1_000_001), None);
}

#[test]
fn random_directions_are_directions() {
    let mut seen_other = false;
    for _ in 0..200 {
        let d = Direction::random();
        assert_eq!(Direction::toward(d.x, d.y), Some(d));
        let square = d.x * d.x + d.y * d.y;
        assert!(250_000_000_000 <= square && square <= 1_000_000_000_000);
        if d != (Direction { x: 1_000_000, y: 0, len: 1_000_000 }) {
            seen_other = true;
        }
    }
    assert!(seen_other);
}

#[test]
fn tie_break_hands_out_the_given_direction() {
    let d = Direction::toward(0, 1_000_000).unwrap();
    assert_eq!(TieBreak::Toward(d).pick(), d);
    let r = TieBreak::Random.pick();
    assert_eq!(Direction::toward(r.x, r.y), Some(r));
}
