use std::cmp::Ordering;
use traffic_sim::simulation::link::NO_LANE;
use traffic_sim::simulation::vehicle::{LaneDistances, Vehicle};
use traffic_sim::simulation::{Simulation, StopLineBuilder, StopLineType};
use traffic_sim::util::{CubicFunc, LinearFunc};

const M: i64 = 1_000_000;
const TENTH: i64 = 100_000;

fn add_road(sim: &mut Simulation, id: usize, length: i64, lanes: &[(i64, i64)]) {
    assert_eq!(sim.add_link(id, length, 25 * M), Ok(()));
    for (y0, y1) in lanes {
        let dist = LinearFunc::from_points(&[(0, 0), (length, length)]);
        let lat = CubicFunc::from_points(&[(0, *y0), (length, *y1)]);
        assert_eq!(sim.add_lane(id, dist, lat), Ok(()));
    }
}

fn place(sim: &mut Simulation, user_id: usize, link: usize, lane: u8, pos: i64, vel: i64) -> usize {
    let id = sim.add_vehicle(user_id);
    assert_eq!(sim.set_vehicle_pos(id, link, lane, pos), Ok(()));
    sim.get_vehicle_mut(id).unwrap().vel = vel;
    id
}

fn veh(sim: &Simulation, id: usize) -> &Vehicle {
    sim.get_vehicle(id).unwrap()
}

#[test]
fn a_free_vehicle_reaches_the_speed_limit() {
    let mut sim = Simulation::new(TENTH);
    add_road(&mut sim, 0, 1000 * M, &[(0, 0)]);
    let v = place(&mut sim, 0, 0, 0, 0, 0);
    for _ in 0..400 {
        sim.step();
    }
    let state = sim.get_vehicle_states()[0];
    assert_eq!(state.link, 0);
    assert!((state.vel - 25 * M).abs() <= 500_000);
    // forty seconds at 25 m/s less what was lost while speeding up
    assert!((state.pos - 881_270_000).abs() <= M);
    assert_eq!((state.lat, state.dlat), (0, 0));
    assert_eq!(sim.get_step(), 400);
    assert_eq!(veh(&sim, v).acc, 3 * M);
}

#[test]
fn speed_and_position_stay_in_range_tick_after_tick() {
    let mut sim = Simulation::new(TENTH);
    add_road(&mut sim, 0, 300 * M, &[(0, 0)]);
    add_road(&mut sim, 1, 300 * M, &[(0, 0)]);
    assert_eq!(sim.add_connection(0, 1, "0:0", 0), Ok(()));
    let a = place(&mut sim, 0, 0, 0, 100 * M, 0);
    let b = place(&mut sim, 1, 0, 0, 50 * M, 20 * M);
    assert_eq!(sim.set_vehicle_dest(a, 1), Ok(()));
    assert_eq!(sim.set_vehicle_dest(b, 1), Ok(()));
    for _ in 0..300 {
        sim.step();
        for s in sim.get_vehicle_states() {
            assert!(s.vel >= 0);
            assert!(s.pos >= 0);
            assert!(s.pos <= sim.get_link(s.link).unwrap().length);
        }
        for id in 0..2 {
            let obstacles = &sim.get_link(id).unwrap().obstacles;
            for pair in obstacles.windows(2) {
                assert!(pair[0].pos <= pair[1].pos);
            }
        }
    }
}

#[test]
fn a_follower_settles_behind_its_leader() {
    let mut sim = Simulation::new(TENTH);
    add_road(&mut sim, 0, 1000 * M, &[(0, 0)]);
    let a = place(&mut sim, 0, 0, 0, 100 * M, 0);
    let b = place(&mut sim, 1, 0, 0, 50 * M, 0);
    for _ in 0..100 {
        sim.step();
    }
    let (a, b) = (veh(&sim, a), veh(&sim, b));
    assert!(b.pos < a.pos - (2 * M + 2 * b.vel) + M);
    assert_eq!((a.pos, a.vel), (235_053_206, 23_201_241));
    assert_eq!((b.pos, b.vel), (174_235_213, 22_135_200));
}

#[test]
fn a_vehicle_passes_on_to_the_next_link_of_its_route() {
    let mut sim = Simulation::new(M);
    add_road(&mut sim, 0, 100 * M, &[(0, 0)]);
    add_road(&mut sim, 1, 100 * M, &[(0, 0)]);
    assert_eq!(sim.add_connection(0, 1, "0:0", 0), Ok(()));
    let v = place(&mut sim, 0, 0, 0, 95 * M, 10 * M);
    assert_eq!(sim.set_vehicle_dest(v, 1), Ok(()));
    sim.step();
    let after = veh(&sim, v);
    assert_eq!((after.link, after.lane, after.pos, after.vel), (1, 0, 5 * M, 10 * M));
    assert_eq!(after.get_links(), &[1]);
    assert_eq!(after.get_lane(0), Some(0));
    assert!(sim.get_link(0).unwrap().get_vehicles().is_empty());
    assert_eq!(sim.get_link(1).unwrap().get_vehicles(), vec![v]);
}

#[test]
fn a_vehicle_just_short_of_the_end_of_its_link_passes_on_within_a_tick() {
    let mut sim = Simulation::new(TENTH);
    add_road(&mut sim, 0, 100 * M, &[(0, 0)]);
    add_road(&mut sim, 1, 100 * M, &[(0, 0)]);
    assert_eq!(sim.add_connection(0, 1, "0:0", 0), Ok(()));
    let v = place(&mut sim, 0, 0, 0, 100 * M - 1, 1);
    assert_eq!(sim.set_vehicle_dest(v, 1), Ok(()));
    // the first tick leaves the speed as it is: the vehicle gains nothing
    sim.step();
    assert_eq!(veh(&sim, v).link, 0);
    sim.step();
    assert_eq!(veh(&sim, v).link, 1);
    assert!(veh(&sim, v).pos < M);
}

#[test]
fn a_vehicle_that_reaches_the_end_of_its_route_is_dropped() {
    let mut sim = Simulation::new(M);
    add_road(&mut sim, 0, 100 * M, &[(0, 0)]);
    let v = place(&mut sim, 0, 0, 0, 95 * M, 10 * M);
    sim.step();
    assert!(sim.get_vehicle(v).is_none());
    assert!(sim.get_vehicle_states().is_empty());
    assert!(sim.get_link(0).unwrap().get_vehicles().is_empty());
}

#[test]
fn a_vehicle_with_no_lane_ahead_stops_before_the_end_of_its_link() {
    let mut sim = Simulation::new(TENTH);
    add_road(&mut sim, 0, 500 * M, &[(0, 0), (3 * M, 3 * M)]);
    add_road(&mut sim, 1, 500 * M, &[(0, 0)]);
    // only lane 1 leads on, and the vehicle is told to stay in lane 0
    assert_eq!(sim.add_connection(0, 1, "1:0", 0), Ok(()));
    let v0 = 20 * M;
    let v = place(&mut sim, 0, 0, 0, 300 * M, v0);
    assert_eq!(sim.set_vehicle_dest(v, 1), Ok(()));
    {
        let veh = sim.get_vehicle_mut(v).unwrap();
        // lane 0 is made to look as good as lane 1
        veh.lane_dists = vec![
            LaneDistances { lanes: vec![[0, 0, 0, 0], [0, 0, 0, 0]] },
            LaneDistances { lanes: vec![[0, 0, 0, 0]] },
        ];
    }
    for _ in 0..600 {
        sim.step();
        let veh = veh(&sim, v);
        assert_eq!(veh.link, 0);
        assert_eq!(veh.get_lane(1), Some(NO_LANE));
        assert!(veh.pos <= 500 * M);
    }
    let veh = veh(&sim, v);
    assert!(veh.vel < 10_000);
    // within the distance that comfortable braking takes from the first speed
    assert!(veh.pos > 500 * M - 80 * M);
}

#[test]
fn a_vehicle_comes_through_a_give_way_line_without_conflicts() {
    let mut sim = Simulation::new(TENTH);
    add_road(&mut sim, 0, 200 * M, &[(0, 0)]);
    let built = StopLineBuilder::new(0, 0, 0, 90 * M)
        .of_type(StopLineType::Giveway)
        .add_to_simulation(&mut sim);
    assert_eq!(built, Ok(()));
    let v = place(&mut sim, 0, 0, 0, 0, 0);
    let mut committed_at = None;
    let mut passed_at = None;
    for tick in 0..1000 {
        sim.step();
        if sim.get_vehicle(v).is_none() {
            break;
        }
        if committed_at.is_none() && sim.get_stop_line(0).unwrap().committed_vehs == vec![v] {
            committed_at = Some(veh(&sim, v).pos);
        }
        if passed_at.is_none() && veh(&sim, v).pos > 90 * M {
            passed_at = Some(tick);
        }
    }
    // it commits once it is within six metres of the line, and goes through
    assert!(committed_at.is_some());
    assert!(committed_at.unwrap() >= 84 * M);
    assert!(committed_at.unwrap() <= 90 * M);
    assert!(passed_at.is_some());
    assert!(sim.get_vehicle(v).is_none());
    // once the vehicle is gone it is committed no more
    sim.step();
    assert!(sim.get_stop_line(0).unwrap().committed_vehs.is_empty());
}

#[test]
fn a_vehicle_waits_at_a_red_light_and_goes_at_green() {
    let mut sim = Simulation::new(TENTH);
    add_road(&mut sim, 0, 200 * M, &[(0, 0)]);
    let built = StopLineBuilder::new(0, 0, 0, 90 * M)
        .of_type("light".parse::<StopLineType>().unwrap())
        .add_to_simulation(&mut sim);
    assert_eq!(built, Ok(()));
    let v = place(&mut sim, 0, 0, 0, 0, 0);
    for _ in 0..600 {
        sim.step();
    }
    assert!(veh(&sim, v).pos < 90 * M);
    assert!(veh(&sim, v).pos > 80 * M);
    assert!(veh(&sim, v).vel < 10_000);
    assert!(sim.get_stop_line(0).unwrap().committed_vehs.is_empty());
    assert_eq!(sim.set_light(0, traffic_sim::simulation::TrafficLightState::Green), Ok(()));
    sim.step();
    assert_eq!(sim.get_stop_line(0).unwrap().committed_vehs, vec![v]);
    for _ in 0..30 {
        sim.step();
    }
    assert!(veh(&sim, v).pos > 90 * M);
    assert!(veh(&sim, v).pos < 110 * M);
}

#[test]
fn a_stream_waits_while_the_conflicting_stream_is_in_the_way() {
    let mut sim = Simulation::new(TENTH);
    add_road(&mut sim, 0, 200 * M, &[(0, 0)]);
    add_road(&mut sim, 1, 200 * M, &[(0, 0)]);
    for (id, link, pos) in [(1usize, 0usize, 50 * M), (2, 1, 8 * M)] {
        let built = StopLineBuilder::new(id, link, 0, pos)
            .of_type(StopLineType::Giveway)
            .add_to_simulation(&mut sim);
        assert_eq!(built, Ok(()));
    }
    assert_eq!(sim.add_conflict(1, 2, Ordering::Less, 10 * M), Ok(()));
    // the second vehicle stands within reach of its line and commits at once
    let v1 = place(&mut sim, 1, 0, 0, 46 * M, 0);
    let v2 = place(&mut sim, 2, 1, 0, 5 * M, 0);
    sim.get_vehicle_mut(v2).unwrap().max_acc = 100_000;
    sim.step();
    assert_eq!(sim.get_stop_line(2).unwrap().committed_vehs, vec![v2]);
    let mut held = 0;
    let mut released = false;
    for _ in 0..600 {
        let rear_of_v2 = veh(&sim, v2).pos - 2_300_000;
        sim.step();
        if rear_of_v2 < 10 * M {
            // the way is not clear: the first vehicle is not let through
            assert!(sim.get_stop_line(1).unwrap().committed_vehs.is_empty());
            assert!(veh(&sim, v1).pos < 50 * M);
            held += 1;
        } else if sim.get_stop_line(1).unwrap().committed_vehs == vec![v1] {
            released = true;
            break;
        }
    }
    assert!(held > 50);
    assert!(released);
}

#[test]
fn a_vehicle_changes_to_the_lane_that_leads_further() {
    let mut sim = Simulation::new(TENTH);
    add_road(&mut sim, 0, 400 * M, &[(0, 0), (3 * M, 3 * M)]);
    add_road(&mut sim, 1, 400 * M, &[(0, 0), (3 * M, 3 * M)]);
    assert_eq!(sim.add_connection(0, 1, "1:1", 0), Ok(()));
    let v = place(&mut sim, 0, 0, 0, 100 * M, 10 * M);
    assert_eq!(sim.set_vehicle_dest(v, 1), Ok(()));
    sim.step();
    {
        let veh = veh(&sim, v);
        assert!(veh.changing_lanes);
        assert_eq!((veh.old_lane, veh.lane), (0, 1));
        assert_eq!(veh.lane_route, vec![1, 1]);
        let path = veh.path.unwrap();
        assert_eq!((path.min_x, path.max_x, path.y1), (100 * M, 140 * M, 0));
        assert_eq!(path.get_y2(), 3 * M);
        // the lane distances: lane 1 leads on, lane 0 needs a change first
        assert_eq!(veh.lane_dists.len(), 2);
        assert_eq!(veh.lane_dists[0].lanes[1], [i64::MAX; 4]);
        assert_eq!(veh.lane_dists[0].lanes[0], [400 * M, i64::MAX, i64::MAX, i64::MAX]);
        assert_eq!(veh.lane_dists[1].lanes, vec![[i64::MAX; 4]; 2]);
    }
    let mut lat_before = 0;
    while veh(&sim, v).pos <= 140 * M {
        sim.step();
        let veh = veh(&sim, v);
        assert!(veh.lat >= lat_before);
        assert!(veh.lat <= 3 * M);
        lat_before = veh.lat;
    }
    let veh = veh(&sim, v);
    assert_eq!((veh.lat, veh.dlat), (3 * M, 0));
    assert!(!veh.changing_lanes);
    assert_eq!(veh.lane, 1);
}

#[test]
fn a_lane_change_can_be_called_for_by_the_lane_distances() {
    let mut sim = Simulation::new(TENTH);
    add_road(&mut sim, 0, 400 * M, &[(0, 0), (3 * M, 3 * M)]);
    add_road(&mut sim, 1, 400 * M, &[(0, 0), (3 * M, 3 * M)]);
    assert_eq!(sim.add_connection(0, 1, "0:0;1:1", 0), Ok(()));
    let v = place(&mut sim, 0, 0, 0, 100 * M, 10 * M);
    assert_eq!(sim.set_vehicle_dest(v, 1), Ok(()));
    sim.get_vehicle_mut(v).unwrap().lane_dists = vec![
        LaneDistances { lanes: vec![[0, 0, 0, 5], [0, 0, 0, 6]] },
        LaneDistances { lanes: vec![[0, 0, 0, 0], [0, 0, 0, 0]] },
    ];
    sim.step();
    let veh = veh(&sim, v);
    assert!(veh.changing_lanes);
    assert_eq!(veh.lane, 1);
    assert_eq!(veh.path.map(|p| p.get_y2()), Some(3 * M));
}

#[test]
fn a_vehicle_thinks_about_its_lanes_every_fifth_tick() {
    let mut sim = Simulation::new(TENTH);
    add_road(&mut sim, 0, 400 * M, &[(0, 0), (3 * M, 3 * M)]);
    add_road(&mut sim, 1, 400 * M, &[(0, 0), (3 * M, 3 * M)]);
    assert_eq!(sim.add_connection(0, 1, "1:1", 0), Ok(()));
    let _first = place(&mut sim, 0, 0, 0, 200 * M, 0);
    let _second = place(&mut sim, 1, 0, 0, 150 * M, 0);
    let third = place(&mut sim, 2, 0, 0, 100 * M, 0);
    assert_eq!(sim.set_vehicle_dest(third, 1), Ok(()));
    // the turn of vehicle 2 comes at the ticks 2, 7, 12, ...
    sim.step();
    assert!(!veh(&sim, third).changing_lanes);
    sim.step();
    assert!(!veh(&sim, third).changing_lanes);
    sim.step();
    assert!(veh(&sim, third).changing_lanes);
}

#[test]
fn every_vehicle_has_a_lane_or_none_for_each_link_of_its_route() {
    let mut sim = Simulation::new(TENTH);
    add_road(&mut sim, 0, 300 * M, &[(0, 0), (3 * M, 3 * M), (6 * M, 6 * M)]);
    add_road(&mut sim, 1, 300 * M, &[(0, 0), (3 * M, 3 * M)]);
    add_road(&mut sim, 2, 300 * M, &[(0, 0)]);
    add_road(&mut sim, 3, 300 * M, &[(0, 0)]);
    assert_eq!(sim.add_connection(0, 1, "1:0;2:1", 0), Ok(()));
    assert_eq!(sim.add_connection(1, 2, "1:0", 0), Ok(()));
    assert_eq!(sim.add_connection(2, 3, "0:0", 0), Ok(()));
    let mut ids = vec![];
    for (k, lane) in [0u8, 1, 2, 0, 1].into_iter().enumerate() {
        let id = place(&mut sim, k, 0, lane, (10 + 40 * k as i64) * M, 5 * M);
        assert_eq!(sim.set_vehicle_dest(id, 3), Ok(()));
        ids.push(id);
    }
    for _ in 0..5 {
        sim.step();
    }
    for id in ids {
        let v = veh(&sim, id);
        assert_eq!(v.get_links(), &[0, 1, 2, 3]);
        assert_eq!(v.lane_route.len(), v.get_links().len());
        assert_eq!(v.lane_dists.len(), v.get_links().len());
        for (link, lane) in v.get_links().iter().zip(v.lane_route.iter()) {
            let lanes = sim.get_link(*link).unwrap().lanes.len();
            assert!(*lane == NO_LANE || (*lane as usize) < lanes);
        }
        assert_eq!(v.lane_route[0], v.lane);
    }
    // the vehicles have made for the lane that leads all the way
    assert_eq!(veh(&sim, 2).lane_route, vec![2, 1, 0, 0]);
    assert_eq!(veh(&sim, 1).lane_route, vec![2, 1, 0, 0]);
    assert_eq!(veh(&sim, 0).lane_route, vec![1, 0, NO_LANE, NO_LANE]);
}

#[test]
fn a_vehicle_is_across_the_road_where_its_path_says() {
    let mut sim = Simulation::new(TENTH);
    add_road(&mut sim, 0, 200 * M, &[(0, 0), (3 * M, 5 * M)]);
    add_road(&mut sim, 1, 200 * M, &[(0, 2 * M), (5 * M, 5 * M)]);
    assert_eq!(sim.add_connection(0, 1, "0:0;1:1", 0), Ok(()));
    let a = place(&mut sim, 0, 0, 0, 150 * M, 15 * M);
    let b = place(&mut sim, 1, 0, 1, 20 * M, 15 * M);
    assert_eq!(sim.set_vehicle_dest(a, 1), Ok(()));
    assert_eq!(sim.set_vehicle_dest(b, 1), Ok(()));
    for _ in 0..60 {
        for id in [a, b] {
            let v = veh(&sim, id);
            let path = v.path.unwrap();
            assert_eq!(path.get_y_and_dy(v.pos), (v.lat, v.dlat));
        }
        sim.step();
    }
    assert_eq!(veh(&sim, a).link, 1);
    assert_eq!(veh(&sim, b).link, 0);
}
