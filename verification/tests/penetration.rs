use disc_arena::arena::Arena;
use disc_arena::direction::{Direction, TieBreak};
use disc_arena::model::Model;
use disc_arena::point::{Color, Point};

const RAD: i64 = 25_000_000;
const BLUE: Color = Color { red: 0, green: 0, blue: 200 };

fn arena() -> Arena {
    Arena::new(800, 800, 20)
}

fn at(x: i64, y: i64) -> Point {
    Point { x, y, vel_x: 1_234, vel_y: -5_678, col: BLUE, resting: false }
}

fn right() -> TieBreak {
    TieBreak::Toward(Direction::toward(1_000_000, 0).unwrap())
}

fn gap_squared(a: &Point, b: &Point) -> i128 {
    let dx = (b.x - a.x) as i128;
    let dy = (b.y - a.y) as i128;
    dx * dx + dy * dy
}

#[test]
fn overlapping_pair_is_pushed_apart_along_the_line_of_centres() {
    let (a, b) = at(0, 0).separate(at(30_000_000, 0), RAD, &arena(), &right());
    assert_eq!(a, at(-10_000_000, 0));
    assert_eq!(b, at(40_000_000, 0));
    let (a, b) = at(0, 0).separate(at(-18_000_000, 24_000_000), RAD, &arena(), &right());
    assert_eq!(a, at(6_000_000, -8_000_000));
    assert_eq!(b, at(-24_000_000, 32_000_000));
}

#[test]
fn pair_is_pushed_only_when_nearer_than_the_limit() {
    let (a, b) = at(0, 0).separate(at(30_000_000, 40_000_000), RAD, &arena(), &right());
    assert_eq!((a, b), (at(0, 0), at(30_000_000, 40_000_000)));
    let (a, b) = at(0, 0).separate(at(49_999_000, 0), RAD, &arena(), &right());
    assert_eq!((a, b), (at(0, 0), at(49_999_000, 0)));
    let (a, b) = at(0, 0).separate(at(49_998_999, 0), RAD, &arena(), &right());
    assert_eq!((a.x, b.x), (-500, 49_999_499));
    let (a, b) = at(0, 0).separate(at(49_998_000, 0), RAD, &arena(), &right());
    assert_eq!((a.x, b.x), (-1_000, 49_999_000));
}

#[test]
fn pair_on_the_same_spot_is_pushed_along_the_given_direction() {
    let (a, b) = at(5_000_000, 5_000_000).separate(at(5_000_000, 5_000_000), RAD, &arena(), &right());
    assert_eq!(a, at(-20_000_000, 5_000_000));
    assert_eq!(b, at(30_000_000, 5_000_000));
    let slant = TieBreak::Toward(Direction::toward(600_000, 800_000).unwrap());
    let (a, b) = at(0, 0).separate(at(0, 0), RAD, &arena(), &slant);
    assert_eq!(a, at(-15_000_000, -20_000_000));
    assert_eq!(b, at(15_000_000, 20_000_000));
    assert_eq!(gap_squared(&a, &b), 2_500_000_000_000_000);
}

#[test]
fn pair_nearly_on_the_same_spot_uses_the_given_direction() {
    let up = TieBreak::Toward(Direction::toward(0, 1_000_000).unwrap());
    let (a, b) = at(0, 0).separate(at(1_000, 0), RAD, &arena(), &up);
    assert_eq!(a, at(0, -24_999_500));
    assert_eq!(b, at(1_000, 24_999_500));
    let (a, b) = at(0, 0).separate(at(1_001, 0), RAD, &arena(), &up);
    assert_eq!((a.y, b.y), (0, 0));
    assert_eq!(b.x - a.x, 1_001 + 2 * 24_999_499);
}

#[test]
fn separated_discs_are_held_inside_the_arena() {
    let (a, b) = at(-355_000_000, 0).separate(at(-335_000_000, 0), RAD, &arena(), &right());
    assert_eq!(a, at(-355_000_000, 0));
    assert_eq!(b, at(-320_000_000, 0));
    let (a, b) = at(0, 350_000_000).separate(at(0, 355_000_000), RAD, &arena(), &right());
    assert_eq!(a, at(0, 327_500_000));
    assert_eq!(b, at(0, 355_000_000));
}

#[test]
fn identical_discs_end_twice_the_radius_apart() {
    let mut model = Model::with_points(arena(), RAD, vec![at(0, 0), at(0, 0)]).unwrap();
    model.resolve_ball_penetrations(&TieBreak::Random);
    let gap = gap_squared(&model.points[0], &model.points[1]);
    let low: i128 = 50_000_000 - 1_000;
    let high: i128 = 50_000_000 + 1_000;
    assert!(low * low <= gap && gap <= high * high);
    assert!(model.is_wf());
    assert_eq!((model.points[0].vel_x, model.points[0].vel_y), (1_234, -5_678));
    assert_eq!((model.points[1].vel_x, model.points[1].vel_y), (1_234, -5_678));
}

#[test]
fn identical_discs_are_parted_exactly_along_a_given_direction() {
    let mut model = Model::with_points(arena(), RAD, vec![at(0, 0), at(0, 0)]).unwrap();
    model.resolve_ball_penetrations(&right());
    assert_eq!(model.points, vec![at(-25_000_000, 0), at(25_000_000, 0)]);
    model.resolve_ball_penetrations(&right());
    assert_eq!(model.points, vec![at(-25_000_000, 0), at(25_000_000, 0)]);
}

#[test]
fn sweep_takes_the_pairs_in_order() {
    let mut model = Model::with_points(arena(), RAD, vec![at(0, 0), at(0, 0), at(0, 0)]).unwrap();
    model.resolve_ball_penetrations(&right());
    assert_eq!(model.points, vec![at(-37_500_000, 0), at(43_750_000, 0), at(-6_250_000, 0)]);
}

#[test]
fn sweeps_of_a_tick_part_a_small_heap() {
    let points = vec![at(0, 0), at(10_000_000, 0), at(0, 10_000_000), at(-10_000_000, -5_000_000)];
    let mut model = Model::with_points(arena(), RAD, points).unwrap();
    for _ in 0..40 {
        model.resolve_ball_penetrations(&TieBreak::Random);
    }
    let low: i128 = 50_000_000 - 1_000;
    for i in 0..4 {
        for j in (i + 1)..4 {
            assert!(gap_squared(&model.points[i], &model.points[j]) >= low * low);
        }
    }
}

#[test]
fn sweep_with_a_single_disc_changes_nothing() {
    let mut model = Model::with_points(arena(), RAD, vec![at(3, 4)]).unwrap();
    model.resolve_ball_penetrations(&TieBreak::Random);
    assert_eq!(model.points, vec![at(3, 4)]);
}
