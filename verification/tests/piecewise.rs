use traffic_sim::util::{CubicFunc, CubicFuncPiece, LinearFunc};

const M: i64 = 1_000_000;

#[test]
fn linear_func_passes_through_its_points() {
    let pts = [(0, 0), (10 * M, 5 * M), (20 * M, -5 * M), (40 * M, 15 * M)];
    let f = LinearFunc::from_points(&pts);
    assert_eq!(f.get_y(0), 0);
    assert_eq!(f.get_y(10 * M), 5 * M);
    assert_eq!(f.get_y(20 * M), -5 * M);
    assert_eq!(f.get_y(40 * M), 15 * M);
}

#[test]
fn linear_func_takes_the_last_point_s_value_at_its_right_end() {
    // the slope of a third is rounded, the value at the end is not
    let f = LinearFunc::from_points(&[(0, 0), (3 * M, M)]);
    assert_eq!(f.get_y(3 * M - 1), 999_998);
    assert_eq!(f.get_y(3 * M), M);
    let g = LinearFunc::from_points(&[(0, 7), (10, 7), (20, 9)]);
    assert_eq!(g.get_y(10), 7);
    assert_eq!(g.get_y(20), 9);
    let h = LinearFunc::from_const(-5 * M, 5 * M, 7 * M);
    assert_eq!(h.get_y(5 * M), 7 * M);
}

#[test]
fn linear_func_interpolates_between_points() {
    let pts = [(0, 0), (10 * M, 5 * M), (20 * M, -5 * M), (40 * M, 15 * M)];
    let f = LinearFunc::from_points(&pts);
    assert_eq!(f.get_y(4 * M), 2 * M);
    assert_eq!(f.get_y(15 * M), 0);
    assert_eq!(f.get_y(30 * M), 5 * M);
    assert_eq!(f.get_y(40 * M - 1), 14_999_999);
}

#[test]
fn linear_func_rounds_the_slope_toward_zero() {
    let f = LinearFunc::from_points(&[(0, 0), (3 * M, M)]);
    // the slope is 0.333333
    assert_eq!(f.get_y(M), 333_333);
    assert_eq!(f.get_y(2 * M), 666_666);
}

#[test]
fn linear_func_from_const_is_level() {
    let f = LinearFunc::from_const(-5 * M, 5 * M, 7 * M);
    assert_eq!(f.get_y(-5 * M), 7 * M);
    assert_eq!(f.get_y(0), 7 * M);
    assert_eq!(f.get_y(5 * M - 1), 7 * M);
}

#[test]
fn identity_over_a_link() {
    let f = LinearFunc::from_points(&[(0, 0), (1000 * M, 1000 * M)]);
    assert_eq!(f.get_y(0), 0);
    assert_eq!(f.get_y(123_456_789), 123_456_789);
}

#[test]
fn cubic_piece_starts_and_ends_level() {
    let p = CubicFuncPiece { min_x: 10 * M, max_x: 50 * M, y1: M, yd: -3 * M };
    assert_eq!(p.get_y(10 * M), M);
    assert_eq!(p.get_y(50 * M), -2 * M);
    assert_eq!(p.get_dy(10 * M), 0);
    assert_eq!(p.get_dy(50 * M), 0);
    assert_eq!(p.get_y2(), -2 * M);
    assert_eq!(p.get_y_and_dy(10 * M), (M, 0));
    assert_eq!(p.get_y_and_dy(50 * M), (-2 * M, 0));
}

#[test]
fn cubic_piece_is_clamped_outside_its_extent() {
    let p = CubicFuncPiece { min_x: 10 * M, max_x: 50 * M, y1: M, yd: -3 * M };
    assert_eq!(p.get_y_and_dy(-100 * M), (M, 0));
    assert_eq!(p.get_y_and_dy(100 * M), (-2 * M, 0));
}

#[test]
fn cubic_piece_follows_the_smooth_step() {
    let p = CubicFuncPiece { min_x: 0, max_x: 40 * M, y1: 0, yd: 3 * M };
    // t = 1/4: u = 5/32, y = 15/32, dy = (3/40) * 6 * (1/4) * (3/4)
    assert_eq!(p.get_y_and_dy(10 * M), (468_750, 84_375));
    // t = 1/2: u = 1/2, y = 3/2, dy = (3/40) * 6 / 4
    assert_eq!(p.get_y_and_dy(20 * M), (1_500_000, 112_500));
    let q = CubicFuncPiece { min_x: 10 * M, max_x: 50 * M, y1: M, yd: -3 * M };
    assert_eq!(q.get_y_and_dy(25 * M), (50_782, -105_468));
    assert_eq!(q.get_y(25 * M), 50_782);
    assert_eq!(q.get_dy(25 * M), -105_468);
}

#[test]
fn level_cubic_piece_is_its_start_everywhere() {
    let p = CubicFuncPiece { min_x: 0, max_x: 40 * M, y1: 2 * M, yd: 0 };
    assert_eq!(p.get_y_and_dy(-M), (2 * M, 0));
    assert_eq!(p.get_y_and_dy(20 * M), (2 * M, 0));
    assert_eq!(p.get_y_and_dy(50 * M), (2 * M, 0));
}

#[test]
fn translate_moves_the_piece_and_keeps_its_shape() {
    let p = CubicFuncPiece { min_x: 90 * M, max_x: 130 * M, y1: M, yd: 3 * M };
    let q = p.translate(-100 * M, 500_000);
    assert_eq!(q.min_x, -10 * M);
    assert_eq!(q.max_x, 30 * M);
    assert_eq!(q.y1, 1_500_000);
    assert_eq!(q.yd, 3 * M);
    assert_eq!(q.get_y(p.min_x - 100 * M), p.y1 + 500_000);
    assert_eq!(q.get_y(10 * M), p.get_y(110 * M) + 500_000);
}

#[test]
fn cubic_func_passes_through_its_points() {
    let f = CubicFunc::from_points(&[(0, 0), (10 * M, 3 * M), (30 * M, M)]);
    assert_eq!(f.get_y(0), 0);
    assert_eq!(f.get_y(10 * M), 3 * M);
    assert_eq!(f.get_y(30 * M), M);
    assert_eq!(f.get_dy(0), 0);
    assert_eq!(f.get_dy(10 * M), 0);
    assert_eq!(f.get_dy(30 * M), 0);
    assert_eq!(f.get_y_and_dy(5 * M), (1_500_000, 450_000));
    assert_eq!(f.get_y_and_dy(20 * M), (2 * M, -150_000));
}

#[test]
fn cubic_func_is_clamped_outside_its_domain() {
    let f = CubicFunc::from_points(&[(0, 0), (10 * M, 3 * M), (30 * M, M)]);
    assert_eq!(f.get_y_and_dy(-5 * M), (0, 0));
    assert_eq!(f.get_y_and_dy(35 * M), (M, 0));
}

#[test]
fn cubic_func_get_piece_finds_the_piece_that_holds_x() {
    let f = CubicFunc::from_points(&[(0, 0), (10 * M, 3 * M), (30 * M, M), (60 * M, 2 * M)]);
    let p = f.get_piece(15 * M);
    assert_eq!((p.min_x, p.max_x, p.y1, p.yd), (10 * M, 30 * M, 3 * M, -2 * M));
    let first = f.get_piece(-M);
    assert_eq!((first.min_x, first.max_x), (0, 10 * M));
    let last = f.get_piece(60 * M);
    assert_eq!((last.min_x, last.max_x), (30 * M, 60 * M));
    let edge = f.get_piece(30 * M);
    assert_eq!((edge.min_x, edge.max_x), (30 * M, 60 * M));
}

#[test]
fn try_from_points_wants_two_ascending_points() {
    assert!(CubicFunc::try_from_points(&[]).is_none());
    assert!(CubicFunc::try_from_points(&[(0, 0)]).is_none());
    assert!(CubicFunc::try_from_points(&[(0, 0), (0, M)]).is_none());
    assert!(CubicFunc::try_from_points(&[(0, 0), (2 * M, M), (M, M)]).is_none());
    let f = CubicFunc::try_from_points(&[(0, 0), (2 * M, M)]);
    assert!(f.is_some());
    assert_eq!(f.map(|f| f.get_y(2 * M)), Some(M));
}

#[test]
fn cubic_func_clone_is_the_same_function() {
    let f = CubicFunc::from_points(&[(0, 0), (10 * M, 3 * M)]);
    let g = f.clone();
    assert_eq!(g.get_y_and_dy(5 * M), f.get_y_and_dy(5 * M));
}
