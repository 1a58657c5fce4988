use traffic_sim::fixed::NEG_INFINITY;
use traffic_sim::simulation::link::Obstacle;
use traffic_sim::simulation::vehicle::{
    LaneDistances, Preference, Vehicle, VehicleState, COMF_DECEL, NO_LINK,
};
use traffic_sim::util::CubicFuncPiece;

const M: i64 = 1_000_000;

#[test]
fn a_new_vehicle_is_a_car_at_rest_off_the_network() {
    let v = Vehicle::new(42);
    assert_eq!(v.id, 0);
    assert_eq!(v.user_id, 42);
    assert_eq!(v.len, 4_600_000);
    assert_eq!(v.wid, 2_000_000);
    assert_eq!(v.max_acc, 3_000_000);
    assert_eq!(v.link, NO_LINK);
    assert_eq!((v.lane, v.old_lane, v.changing_lanes), (0, 0, false));
    assert_eq!((v.pos, v.vel, v.acc, v.lat, v.dlat), (0, 0, 0, 0, 0));
    assert!(v.path.is_none());
    assert!(v.link_route.is_empty());
    assert!(v.lane_route.is_empty());
    assert!(v.lane_dists.is_empty());
    assert_eq!(v.arrival_step, None);
    assert_eq!(v.get_link(0), None);
    assert_eq!(v.get_lane(0), None);
}

#[test]
fn the_comfort_coefficient_is_twice_the_root_of_acceleration_times_deceleration() {
    assert_eq!(COMF_DECEL, -2_500_000);
    // 2 * sqrt(3 * 2.5) = 5.477225..., the root rounded down to 2.738612
    assert_eq!(Vehicle::new(0).follow_c, 5_477_224);
}

#[test]
fn set_pos_starts_a_route_of_one_link() {
    let mut v = Vehicle::new(1);
    v.vel = 3 * M;
    v.set_pos(7, 2, 30 * M);
    assert_eq!((v.link, v.lane, v.pos), (7, 2, 30 * M));
    assert_eq!(v.get_links(), &[7]);
    assert_eq!(v.get_link(0), Some(7));
    assert_eq!(v.get_link(1), None);
    assert_eq!(v.get_lane(0), Some(2));
    assert_eq!(v.get_lane(1), None);
    assert_eq!(v.vel, 3 * M);
}

#[test]
fn set_route_puts_the_current_link_first() {
    let mut v = Vehicle::new(1);
    v.set_pos(7, 0, 0);
    v.lane_dists.push(LaneDistances { lanes: vec![[0, 0, 0, 0]] });
    v.set_route(vec![8, 9]);
    assert_eq!(v.get_links(), &[7, 8, 9]);
    assert!(v.lane_dists.is_empty());
    v.set_route(vec![7, 9]);
    assert_eq!(v.get_links(), &[7, 9]);
    v.set_route(vec![]);
    assert_eq!(v.get_links(), &[7]);
    assert_eq!(v.lane_route, vec![0]);
}

#[test]
fn the_obstacle_is_the_rear_end_of_the_vehicle() {
    let mut v = Vehicle::new(1);
    v.id = 3;
    v.set_pos(0, 1, 50 * M);
    v.vel = 7 * M;
    v.lat = 3 * M;
    assert_eq!(
        v.get_obstacle(),
        Obstacle { veh: 3, pos: 47_700_000, vel: 7 * M, lat: 3 * M, half_wid: M, lane: 1 }
    );
}

#[test]
fn the_obstacle_of_a_lane_change_takes_the_room_of_the_rest_of_the_move() {
    let mut v = Vehicle::new(1);
    v.id = 3;
    v.set_pos(0, 1, 50 * M);
    v.lat = M;
    v.changing_lanes = true;
    v.path = Some(CubicFuncPiece { min_x: 40 * M, max_x: 80 * M, y1: 0, yd: 3 * M });
    // the move ends at 3: one metre to go on either side of the middle, 2
    assert_eq!(
        v.get_obstacle(),
        Obstacle { veh: 3, pos: 47_700_000, vel: 0, lat: 2 * M, half_wid: 2 * M, lane: 1 }
    );
    v.path = Some(CubicFuncPiece { min_x: 40 * M, max_x: 80 * M, y1: 3 * M, yd: -3 * M });
    assert_eq!(
        v.get_obstacle(),
        Obstacle { veh: 3, pos: 47_700_000, vel: 0, lat: 500_000, half_wid: 1_500_000, lane: 1 }
    );
    v.path = None;
    assert_eq!(
        v.get_obstacle(),
        Obstacle { veh: 3, pos: 47_700_000, vel: 0, lat: M, half_wid: M, lane: 1 }
    );
}

#[test]
fn apply_acc_keeps_the_lowest_limit() {
    let mut v = Vehicle::new(1);
    v.acc = 3 * M;
    v.apply_acc(2 * M);
    assert_eq!(v.acc, 2 * M);
    v.apply_acc(5 * M);
    assert_eq!(v.acc, 2 * M);
    v.apply_acc(-M);
    assert_eq!(v.acc, -M);
}

#[test]
fn follow_applies_the_car_following_law() {
    let mut v = Vehicle::new(1);
    v.vel = 10 * M;
    v.acc = 3 * M;
    // gap 47.7, desired gap 2 + 20 + 50 / 5.477224 = 31.128627
    v.follow(50 * M, 5 * M);
    assert_eq!(v.acc, 1_722_369);
    // a limit that is higher changes nothing
    v.follow(500 * M, 10 * M);
    assert_eq!(v.acc, 1_722_369);
}

#[test]
fn follow_brakes_as_hard_as_possible_when_no_gap_is_left() {
    let mut v = Vehicle::new(1);
    v.acc = 3 * M;
    v.follow(2_300_000, 0);
    assert_eq!(v.acc, NEG_INFINITY);
    let mut w = Vehicle::new(1);
    w.acc = -20 * M;
    w.follow(-5 * M, 30 * M);
    assert_eq!(w.acc, NEG_INFINITY);
}

#[test]
fn stop_follows_a_leader_at_rest() {
    let mut v = Vehicle::new(1);
    v.vel = 10 * M;
    v.acc = 3 * M;
    let mut w = Vehicle::new(1);
    w.vel = 10 * M;
    w.acc = 3 * M;
    v.stop(80 * M);
    w.follow(80 * M, 0);
    assert_eq!(v.acc, w.acc);
    assert_eq!(v.acc, 2_194_677);
}

#[test]
fn get_state_tells_place_and_speed() {
    let mut v = Vehicle::new(9);
    v.set_pos(4, 0, 12 * M);
    v.vel = 2 * M;
    v.lat = 3 * M;
    v.dlat = -5;
    assert_eq!(
        v.get_state(),
        VehicleState { user_id: 9, link: 4, pos: 12 * M, vel: 2 * M, lat: 3 * M, dlat: -5 }
    );
}

#[test]
fn compare_lanes_goes_by_the_highest_tier_that_differs() {
    let mut v = Vehicle::new(0);
    v.lane_dists.push(LaneDistances {
        lanes: vec![[9, 9, 9, 1], [0, 0, 0, 2], [9, 0, 0, 2], [9, 0, 0, 2]],
    });
    assert_eq!(v.compare_lanes(0, 0, 1), Preference::Worse);
    assert_eq!(v.compare_lanes(0, 1, 0), Preference::Better);
    assert_eq!(v.compare_lanes(0, 2, 1), Preference::Better);
    assert_eq!(v.compare_lanes(0, 1, 2), Preference::Worse);
    assert_eq!(v.compare_lanes(0, 2, 3), Preference::Same);
    assert_eq!(v.compare_lanes(0, 1, 1), Preference::Same);
}

#[test]
fn compare_lanes_puts_a_missing_lane_last() {
    let mut v = Vehicle::new(0);
    v.lane_dists.push(LaneDistances { lanes: vec![[0, 0, 0, 0]] });
    assert_eq!(v.compare_lanes(0, 1, 0), Preference::Worse);
    assert_eq!(v.compare_lanes(0, 0, 1), Preference::Better);
    assert_eq!(v.compare_lanes(0, 255, 0), Preference::Worse);
    assert_eq!(v.compare_lanes(0, 5, 7), Preference::Same);
}
