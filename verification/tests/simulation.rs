use std::cmp::Ordering;
use traffic_sim::simulation::stopline::{Conflict, Priority};
use traffic_sim::simulation::vehicle::NO_LINK;
use traffic_sim::simulation::{
    SimError, Simulation, StopLineBuilder, StopLineType, TrafficLightState, VehicleState,
};
use traffic_sim::util::{CubicFunc, LinearFunc};

const M: i64 = 1_000_000;
const TENTH: i64 = 100_000;

fn add_road(sim: &mut Simulation, id: usize, length: i64, lanes: &[(i64, i64)]) {
    assert_eq!(sim.add_link(id, length, 25 * M), Ok(()));
    for (y0, y1) in lanes {
        let dist = LinearFunc::from_points(&[(0, 0), (length, length)]);
        let lat = CubicFunc::from_points(&[(0, *y0), (length, *y1)]);
        assert_eq!(sim.add_lane(id, dist, lat), Ok(()));
    }
}

fn lane_parts(length: i64) -> (LinearFunc, CubicFunc) {
    (
        LinearFunc::from_points(&[(0, 0), (length, length)]),
        CubicFunc::from_points(&[(0, 0), (length, 0)]),
    )
}

#[test]
fn a_new_simulation_is_empty() {
    let sim = Simulation::new(TENTH);
    assert_eq!(sim.get_step(), 0);
    assert!(sim.get_vehicle_states().is_empty());
    assert!(sim.get_link(0).is_none());
    assert!(sim.get_vehicle(0).is_none());
    assert!(sim.get_stop_line(0).is_none());
}

#[test]
fn add_link_wants_a_length_and_a_speed_limit() {
    let mut sim = Simulation::new(TENTH);
    assert_eq!(sim.add_link(0, 0, 25 * M), Err(SimError::InvalidConfig));
    assert_eq!(sim.add_link(0, -M, 25 * M), Err(SimError::InvalidConfig));
    assert_eq!(sim.add_link(0, 100 * M, 0), Err(SimError::InvalidConfig));
    assert_eq!(sim.add_link(0, 100 * M, -1), Err(SimError::InvalidConfig));
    assert_eq!(sim.add_link(usize::MAX, 100 * M, 25 * M), Err(SimError::InvalidConfig));
    assert!(sim.get_link(0).is_none());
    assert_eq!(sim.add_link(0, 1, 1), Ok(()));
    assert_eq!(sim.add_link(0, 100 * M, 25 * M), Err(SimError::InvalidConfig));
    let link = sim.get_link(0).unwrap();
    assert_eq!((link.id, link.length, link.speed_limit), (0, 1, 1));
}

#[test]
fn links_keep_the_ids_they_are_given() {
    let mut sim = Simulation::new(TENTH);
    assert_eq!(sim.add_link(5, 100 * M, 25 * M), Ok(()));
    assert_eq!(sim.add_link(2, 50 * M, 20 * M), Ok(()));
    assert_eq!(sim.get_link(5).map(|l| l.length), Some(100 * M));
    assert_eq!(sim.get_link(2).map(|l| l.length), Some(50 * M));
    assert!(sim.get_link(0).is_none());
    assert!(sim.get_link(6).is_none());
}

#[test]
fn add_lane_wants_a_link() {
    let mut sim = Simulation::new(TENTH);
    let (dist, lat) = lane_parts(100 * M);
    assert_eq!(sim.add_lane(0, dist, lat), Err(SimError::NotFound));
    add_road(&mut sim, 0, 100 * M, &[(0, 0), (3 * M, 3 * M)]);
    let link = sim.get_link(0).unwrap();
    assert_eq!(link.lanes.len(), 2);
    assert_eq!(link.get_lat(1, 50 * M), 3 * M);
}

#[test]
fn a_link_has_at_most_255_lanes() {
    let mut sim = Simulation::new(TENTH);
    assert_eq!(sim.add_link(0, 100 * M, 25 * M), Ok(()));
    for _ in 0..255 {
        let (dist, lat) = lane_parts(100 * M);
        assert_eq!(sim.add_lane(0, dist, lat), Ok(()));
    }
    let (dist, lat) = lane_parts(100 * M);
    assert_eq!(sim.add_lane(0, dist, lat), Err(SimError::InvalidConfig));
}

#[test]
fn add_vehicle_hands_out_ids_and_reuses_them() {
    let mut sim = Simulation::new(TENTH);
    add_road(&mut sim, 0, 100 * M, &[(0, 0)]);
    assert_eq!(sim.add_vehicle(100), 0);
    assert_eq!(sim.add_vehicle(101), 1);
    assert_eq!(sim.add_vehicle(102), 2);
    assert_eq!(sim.get_vehicle(1).map(|v| (v.id, v.user_id, v.link)), Some((1, 101, NO_LINK)));
    assert_eq!(sim.set_vehicle_pos(0, 0, 0, 0), Ok(()));
    assert_eq!(sim.set_vehicle_pos(2, 0, 0, 10 * M), Ok(()));
    // vehicle 1 is on no link: the tick drops it
    sim.step();
    assert!(sim.get_vehicle(1).is_none());
    assert_eq!(sim.get_vehicle_states().len(), 2);
    assert_eq!(sim.add_vehicle(103), 1);
    assert_eq!(sim.add_vehicle(104), 3);
    assert_eq!(sim.get_vehicle(1).map(|v| (v.id, v.user_id)), Some((1, 103)));
}

#[test]
fn set_vehicle_pos_wants_vehicle_link_and_lane() {
    let mut sim = Simulation::new(TENTH);
    add_road(&mut sim, 0, 100 * M, &[(0, 0)]);
    let v = sim.add_vehicle(7);
    assert_eq!(sim.set_vehicle_pos(v + 1, 0, 0, 0), Err(SimError::NotFound));
    assert_eq!(sim.set_vehicle_pos(v, 1, 0, 0), Err(SimError::NotFound));
    assert_eq!(sim.set_vehicle_pos(v, 0, 1, 0), Err(SimError::NotFound));
    assert_eq!(sim.get_vehicle(v).map(|v| v.link), Some(NO_LINK));
    assert!(sim.get_link(0).unwrap().get_vehicles().is_empty());
    assert_eq!(sim.set_vehicle_pos(v, 0, 0, 5 * M), Ok(()));
}

#[test]
fn set_vehicle_pos_wants_a_position_on_the_link() {
    let mut sim = Simulation::new(TENTH);
    add_road(&mut sim, 0, 100 * M, &[(0, 0)]);
    let v = sim.add_vehicle(7);
    assert_eq!(sim.set_vehicle_pos(v, 0, 0, -1), Err(SimError::InvalidConfig));
    assert_eq!(sim.set_vehicle_pos(v, 0, 0, 100 * M + 1), Err(SimError::InvalidConfig));
    assert_eq!(sim.get_vehicle(v).map(|v| (v.link, v.pos)), Some((NO_LINK, 0)));
    assert!(sim.get_link(0).unwrap().get_vehicles().is_empty());
    // what is missing is said before what is out of range
    assert_eq!(sim.set_vehicle_pos(v + 1, 0, 0, -1), Err(SimError::NotFound));
    assert_eq!(sim.set_vehicle_pos(v, 0, 1, -1), Err(SimError::NotFound));
    assert_eq!(sim.set_vehicle_pos(v, 0, 0, 0), Ok(()));
    assert_eq!(sim.set_vehicle_pos(v, 0, 0, 100 * M), Ok(()));
    assert_eq!(sim.get_vehicle(v).map(|v| (v.link, v.pos)), Some((0, 100 * M)));
}

#[test]
fn set_vehicle_pos_puts_the_vehicle_on_the_link() {
    let mut sim = Simulation::new(TENTH);
    add_road(&mut sim, 0, 100 * M, &[(0, 0), (3 * M, 5 * M)]);
    add_road(&mut sim, 1, 100 * M, &[(M, M)]);
    let v = sim.add_vehicle(7);
    assert_eq!(sim.set_vehicle_pos(v, 0, 1, 50 * M), Ok(()));
    {
        let veh = sim.get_vehicle(v).unwrap();
        assert_eq!((veh.link, veh.lane, veh.pos), (0, 1, 50 * M));
        assert_eq!(veh.get_links(), &[0]);
        assert_eq!(veh.get_lane(0), Some(1));
        // the centre line of lane 1 at the vehicle's place
        assert_eq!((veh.lat, veh.dlat), (4 * M, 30_000));
        assert_eq!(veh.path.map(|p| (p.min_x, p.max_x, p.y1, p.yd)), Some((0, 100 * M, 3 * M, 2 * M)));
    }
    assert_eq!(sim.get_link(0).unwrap().get_vehicles(), vec![v]);
    // moving it takes it off the old link
    assert_eq!(sim.set_vehicle_pos(v, 1, 0, 10 * M), Ok(()));
    assert!(sim.get_link(0).unwrap().get_vehicles().is_empty());
    assert_eq!(sim.get_link(1).unwrap().get_vehicles(), vec![v]);
    // the vehicle keeps its path until it has passed the end of it
    assert_eq!(sim.get_vehicle(v).map(|veh| veh.lat), Some(3_056_000));
    assert_eq!(sim.set_vehicle_pos(v, 1, 0, 20 * M), Ok(()));
    assert_eq!(sim.get_link(1).unwrap().get_vehicles(), vec![v]);
}

#[test]
fn add_connection_reads_the_lane_pairs() {
    let mut sim = Simulation::new(TENTH);
    add_road(&mut sim, 0, 100 * M, &[(0, 0), (3 * M, 3 * M)]);
    add_road(&mut sim, 1, 100 * M, &[(0, 0), (3 * M, 3 * M), (6 * M, 6 * M)]);
    assert_eq!(sim.add_connection(0, 1, "0:0;1:2", 500_000), Ok(()));
    let from = sim.get_link(0).unwrap();
    assert_eq!(from.links_out.len(), 1);
    assert!(from.links_in.is_empty());
    assert_eq!(from.get_lane_connections(1), vec![(0, 0), (1, 2)]);
    assert_eq!(from.get_offset_to_link(1), 500_000);
    assert_eq!((from.links_out[0].link_in, from.links_out[0].link_out), (0, 1));
    let to = sim.get_link(1).unwrap();
    assert!(to.links_out.is_empty());
    assert_eq!(to.links_in.len(), 1);
    assert_eq!((to.links_in[0].link_in, to.links_in[0].link_out), (0, 1));
    assert_eq!(to.links_in[0].lanes.to_vec(), vec![(0, 0), (1, 2)]);
    assert_eq!(to.links_in[0].offset, 500_000);
}

#[test]
fn add_connection_rejects_what_it_cannot_read_or_find() {
    let mut sim = Simulation::new(TENTH);
    add_road(&mut sim, 0, 100 * M, &[(0, 0), (3 * M, 3 * M)]);
    add_road(&mut sim, 1, 100 * M, &[(0, 0)]);
    assert_eq!(sim.add_connection(0, 1, "", 0), Err(SimError::Protocol));
    assert_eq!(sim.add_connection(0, 1, "0-0", 0), Err(SimError::Protocol));
    assert_eq!(sim.add_connection(0, 9, "0;0", 0), Err(SimError::Protocol));
    assert_eq!(sim.add_connection(0, 9, "0:0", 0), Err(SimError::NotFound));
    assert_eq!(sim.add_connection(9, 1, "0:0", 0), Err(SimError::NotFound));
    assert_eq!(sim.add_connection(0, 1, "2:0", 0), Err(SimError::NotFound));
    assert_eq!(sim.add_connection(0, 1, "0:0;1:1", 0), Err(SimError::NotFound));
    assert!(sim.get_link(0).unwrap().links_out.is_empty());
    assert!(sim.get_link(1).unwrap().links_in.is_empty());
    assert_eq!(sim.add_connection(0, 1, "0:0;1:0", 0), Ok(()));
}

#[test]
fn find_route_follows_the_connections() {
    let mut sim = Simulation::new(TENTH);
    for id in 0..5 {
        add_road(&mut sim, id, 100 * M, &[(0, 0)]);
    }
    // 0 -> 1 -> 3 -> 4 and 0 -> 2
    assert_eq!(sim.add_connection(0, 2, "0:0", 0), Ok(()));
    assert_eq!(sim.add_connection(0, 1, "0:0", 0), Ok(()));
    assert_eq!(sim.add_connection(1, 3, "0:0", 0), Ok(()));
    assert_eq!(sim.add_connection(3, 4, "0:0", 0), Ok(()));
    assert_eq!(sim.find_route(0, 4), vec![0, 1, 3, 4]);
    assert_eq!(sim.find_route(1, 4), vec![1, 3, 4]);
    assert_eq!(sim.find_route(0, 2), vec![0, 2]);
    assert_eq!(sim.find_route(3, 3), vec![3]);
}

#[test]
fn find_route_takes_the_shortest_way() {
    let mut sim = Simulation::new(TENTH);
    for id in 0..4 {
        add_road(&mut sim, id, 100 * M, &[(0, 0)]);
    }
    // 0 -> 1 -> 2 -> 3 and 0 -> 3
    assert_eq!(sim.add_connection(0, 1, "0:0", 0), Ok(()));
    assert_eq!(sim.add_connection(0, 3, "0:0", 0), Ok(()));
    assert_eq!(sim.add_connection(1, 2, "0:0", 0), Ok(()));
    assert_eq!(sim.add_connection(2, 3, "0:0", 0), Ok(()));
    assert_eq!(sim.find_route(0, 3), vec![0, 3]);
    assert_eq!(sim.find_route(1, 3), vec![1, 2, 3]);
}

#[test]
fn find_route_goes_by_the_lengths_of_the_links() {
    let mut sim = Simulation::new(TENTH);
    add_road(&mut sim, 0, 100 * M, &[(0, 0)]);
    add_road(&mut sim, 1, 1000 * M, &[(0, 0)]);
    add_road(&mut sim, 2, 10 * M, &[(0, 0)]);
    add_road(&mut sim, 3, 100 * M, &[(0, 0)]);
    for (from, to) in [(0, 1), (0, 2), (1, 3), (2, 3)] {
        assert_eq!(sim.add_connection(from, to, "0:0", 0), Ok(()));
    }
    assert_eq!(sim.find_route(0, 3), vec![0, 2, 3]);
}

#[test]
fn find_route_takes_more_links_where_they_are_shorter() {
    let mut sim = Simulation::new(TENTH);
    add_road(&mut sim, 0, 100 * M, &[(0, 0)]);
    add_road(&mut sim, 1, 500 * M, &[(0, 0)]);
    add_road(&mut sim, 2, 100 * M, &[(0, 0)]);
    add_road(&mut sim, 3, 100 * M, &[(0, 0)]);
    add_road(&mut sim, 4, 100 * M, &[(0, 0)]);
    // 0 -> 1 -> 4 is 600 m long, 0 -> 2 -> 3 -> 4 is 300 m long
    for (from, to) in [(0, 1), (1, 4), (0, 2), (2, 3), (3, 4)] {
        assert_eq!(sim.add_connection(from, to, "0:0", 0), Ok(()));
    }
    assert_eq!(sim.find_route(0, 4), vec![0, 2, 3, 4]);
    assert_eq!(sim.find_route(2, 4), vec![2, 3, 4]);
    assert_eq!(sim.find_route(1, 4), vec![1, 4]);
}

#[test]
fn of_two_ways_of_one_length_the_earlier_connection_is_taken() {
    let mut sim = Simulation::new(TENTH);
    for id in 0..4 {
        add_road(&mut sim, id, 100 * M, &[(0, 0)]);
    }
    for (from, to) in [(0, 2), (0, 1), (1, 3), (2, 3)] {
        assert_eq!(sim.add_connection(from, to, "0:0", 0), Ok(()));
    }
    assert_eq!(sim.find_route(0, 3), vec![0, 2, 3]);
}

#[test]
fn find_route_stops_where_no_way_leads_on() {
    let mut sim = Simulation::new(TENTH);
    for id in 0..4 {
        add_road(&mut sim, id, 100 * M, &[(0, 0)]);
    }
    assert_eq!(sim.add_connection(0, 1, "0:0", 0), Ok(()));
    assert_eq!(sim.add_connection(2, 3, "0:0", 0), Ok(()));
    assert_eq!(sim.find_route(0, 3), vec![0]);
    assert_eq!(sim.find_route(1, 0), vec![1]);
    assert_eq!(sim.find_route(0, 7), vec![0]);
    assert_eq!(sim.find_route(7, 0), vec![7]);
}

#[test]
fn find_route_gets_through_a_network_with_a_loop() {
    let mut sim = Simulation::new(TENTH);
    for id in 0..4 {
        add_road(&mut sim, id, 100 * M, &[(0, 0)]);
    }
    // 0 -> 1 -> 2 -> 0 and 2 -> 3
    assert_eq!(sim.add_connection(0, 1, "0:0", 0), Ok(()));
    assert_eq!(sim.add_connection(1, 2, "0:0", 0), Ok(()));
    assert_eq!(sim.add_connection(2, 0, "0:0", 0), Ok(()));
    assert_eq!(sim.add_connection(2, 3, "0:0", 0), Ok(()));
    assert_eq!(sim.find_route(0, 3), vec![0, 1, 2, 3]);
    assert_eq!(sim.find_route(1, 0), vec![1, 2, 0]);
    assert_eq!(sim.find_route(3, 0), vec![3]);
}

#[test]
fn a_way_that_opens_later_is_found() {
    let mut sim = Simulation::new(TENTH);
    for id in 0..3 {
        add_road(&mut sim, id, 100 * M, &[(0, 0)]);
    }
    assert_eq!(sim.add_connection(0, 1, "0:0", 0), Ok(()));
    assert_eq!(sim.find_route(0, 2), vec![0]);
    assert_eq!(sim.add_connection(1, 2, "0:0", 0), Ok(()));
    assert_eq!(sim.find_route(0, 2), vec![0, 1, 2]);
    assert_eq!(sim.find_route(1, 2), vec![1, 2]);
    // a shorter way that opens later still is taken from then on
    assert_eq!(sim.add_connection(0, 2, "0:0", 0), Ok(()));
    assert_eq!(sim.find_route(0, 2), vec![0, 2]);
    // and a link that is added later is found too
    add_road(&mut sim, 3, 100 * M, &[(0, 0)]);
    assert_eq!(sim.find_route(0, 3), vec![0]);
    assert_eq!(sim.add_connection(2, 3, "0:0", 0), Ok(()));
    assert_eq!(sim.find_route(0, 3), vec![0, 2, 3]);
    assert_eq!(sim.find_route(0, 2), vec![0, 2]);
}

#[test]
fn set_vehicle_dest_gives_the_vehicle_its_route() {
    let mut sim = Simulation::new(TENTH);
    for id in 0..3 {
        add_road(&mut sim, id, 100 * M, &[(0, 0)]);
    }
    assert_eq!(sim.add_connection(0, 1, "0:0", 0), Ok(()));
    assert_eq!(sim.add_connection(1, 2, "0:0", 0), Ok(()));
    let v = sim.add_vehicle(1);
    assert_eq!(sim.set_vehicle_dest(v, 2), Err(SimError::NotFound));
    assert_eq!(sim.set_vehicle_pos(v, 0, 0, 0), Ok(()));
    assert_eq!(sim.set_vehicle_dest(v + 1, 2), Err(SimError::NotFound));
    assert_eq!(sim.set_vehicle_dest(v, 3), Err(SimError::NotFound));
    assert_eq!(sim.get_vehicle(v).unwrap().get_links(), &[0]);
    assert_eq!(sim.set_vehicle_dest(v, 2), Ok(()));
    assert_eq!(sim.get_vehicle(v).unwrap().get_links(), &[0, 1, 2]);
    // the way to the vehicle's own link is that link alone
    assert_eq!(sim.set_vehicle_dest(v, 0), Ok(()));
    assert_eq!(sim.get_vehicle(v).unwrap().get_links(), &[0]);
}

#[test]
fn a_stop_line_is_built_step_by_step() {
    let mut sim = Simulation::new(TENTH);
    add_road(&mut sim, 0, 100 * M, &[(0, 0)]);
    let built = StopLineBuilder::new(3, 0, 0, 90 * M)
        .of_type(StopLineType::Stop)
        .conflicts_with(5, Ordering::Less, 10 * M)
        .conflicts_with(6, Ordering::Greater, 20 * M)
        .add_to_simulation(&mut sim);
    assert_eq!(built, Ok(()));
    let s = sim.get_stop_line(3).unwrap();
    assert_eq!((s.id, s.link, s.lane, s.pos), (3, 0, 0, 90 * M));
    // the rest of the link, and fifty metres of sight
    assert_eq!((s.len, s.sight_pos), (10 * M, 40 * M));
    assert_eq!(s.kind, StopLineType::Stop);
    assert_eq!(
        s.conflicts,
        vec![
            Conflict { stopline: 5, priority: Priority::Lower, max_pos: 10 * M },
            Conflict { stopline: 6, priority: Priority::Higher, max_pos: 20 * M },
        ]
    );
    assert!(s.committed_vehs.is_empty());
    assert_eq!((s.time_until_enter, s.min_arrival, s.clear_before), (0, usize::MAX, 0));
    assert!(sim.get_stop_line(0).is_none());
}

#[test]
fn a_stop_line_takes_the_length_and_sight_it_is_given() {
    let mut sim = Simulation::new(TENTH);
    add_road(&mut sim, 0, 100 * M, &[(0, 0)]);
    let built = StopLineBuilder::new(0, 0, 0, 90 * M)
        .with_length(4 * M)
        .with_sight_dist(30 * M)
        .of_type(StopLineType::Giveway)
        .add_to_simulation(&mut sim);
    assert_eq!(built, Ok(()));
    let s = sim.get_stop_line(0).unwrap();
    assert_eq!((s.len, s.sight_pos), (4 * M, 60 * M));
}

#[test]
fn a_stop_line_wants_a_link_a_kind_and_a_free_id() {
    let mut sim = Simulation::new(TENTH);
    add_road(&mut sim, 0, 100 * M, &[(0, 0)]);
    let no_link =
        StopLineBuilder::new(0, 1, 0, 0).of_type(StopLineType::Stop).add_to_simulation(&mut sim);
    assert_eq!(no_link, Err(SimError::NotFound));
    let no_lane =
        StopLineBuilder::new(0, 0, 1, 0).of_type(StopLineType::Stop).add_to_simulation(&mut sim);
    assert_eq!(no_lane, Err(SimError::NotFound));
    let no_lane_and_no_kind = StopLineBuilder::new(0, 0, 1, 0).add_to_simulation(&mut sim);
    assert_eq!(no_lane_and_no_kind, Err(SimError::NotFound));
    let no_kind = StopLineBuilder::new(0, 0, 0, 0).add_to_simulation(&mut sim);
    assert_eq!(no_kind, Err(SimError::InvalidConfig));
    assert!(sim.get_stop_line(0).is_none());
    let first =
        StopLineBuilder::new(0, 0, 0, 0).of_type(StopLineType::Stop).add_to_simulation(&mut sim);
    assert_eq!(first, Ok(()));
    let again = StopLineBuilder::new(0, 0, 0, 5)
        .of_type(StopLineType::Giveway)
        .add_to_simulation(&mut sim);
    assert_eq!(again, Err(SimError::InvalidConfig));
    assert_eq!(sim.get_stop_line(0).map(|s| s.kind), Some(StopLineType::Stop));
}

#[test]
fn add_conflict_wants_both_stop_lines() {
    let mut sim = Simulation::new(TENTH);
    add_road(&mut sim, 0, 100 * M, &[(0, 0)]);
    for id in [1usize, 2] {
        let built = StopLineBuilder::new(id, 0, 0, 50 * M)
            .of_type(StopLineType::Giveway)
            .add_to_simulation(&mut sim);
        assert_eq!(built, Ok(()));
    }
    assert_eq!(sim.add_conflict(1, 3, Ordering::Less, 10 * M), Err(SimError::NotFound));
    assert_eq!(sim.add_conflict(3, 1, Ordering::Less, 10 * M), Err(SimError::NotFound));
    assert!(sim.get_stop_line(1).unwrap().conflicts.is_empty());
    assert_eq!(sim.add_conflict(1, 2, Ordering::Less, 10 * M), Ok(()));
    assert_eq!(sim.add_conflict(1, 2, Ordering::Equal, 11 * M), Ok(()));
    assert_eq!(
        sim.get_stop_line(1).unwrap().conflicts,
        vec![
            Conflict { stopline: 2, priority: Priority::Lower, max_pos: 10 * M },
            Conflict { stopline: 2, priority: Priority::Equal, max_pos: 11 * M },
        ]
    );
    assert!(sim.get_stop_line(2).unwrap().conflicts.is_empty());
}

#[test]
fn set_light_changes_a_traffic_light() {
    let mut sim = Simulation::new(TENTH);
    add_road(&mut sim, 0, 100 * M, &[(0, 0)]);
    let light = StopLineBuilder::new(0, 0, 0, 50 * M)
        .of_type(StopLineType::TrafficLight { state: TrafficLightState::Red })
        .add_to_simulation(&mut sim);
    assert_eq!(light, Ok(()));
    let sign =
        StopLineBuilder::new(1, 0, 0, 60 * M).of_type(StopLineType::Stop).add_to_simulation(&mut sim);
    assert_eq!(sign, Ok(()));
    assert_eq!(sim.set_light(0, TrafficLightState::Green), Ok(()));
    assert_eq!(
        sim.get_stop_line(0).map(|s| s.kind),
        Some(StopLineType::TrafficLight { state: TrafficLightState::Green })
    );
    assert_eq!(sim.set_light(1, TrafficLightState::Green), Err(SimError::InvalidConfig));
    assert_eq!(sim.set_light(2, TrafficLightState::Green), Err(SimError::NotFound));
    assert_eq!(sim.get_stop_line(1).map(|s| s.kind), Some(StopLineType::Stop));
}

#[test]
fn vehicle_states_come_in_the_order_of_the_ids() {
    let mut sim = Simulation::new(TENTH);
    add_road(&mut sim, 0, 100 * M, &[(0, 0), (3 * M, 3 * M)]);
    let a = sim.add_vehicle(30);
    let b = sim.add_vehicle(10);
    assert_eq!(sim.set_vehicle_pos(a, 0, 0, 50 * M), Ok(()));
    assert_eq!(sim.set_vehicle_pos(b, 0, 1, 20 * M), Ok(()));
    assert_eq!(
        sim.get_vehicle_states(),
        vec![
            VehicleState { user_id: 30, link: 0, pos: 50 * M, vel: 0, lat: 0, dlat: 0 },
            VehicleState { user_id: 10, link: 0, pos: 20 * M, vel: 0, lat: 3 * M, dlat: 0 },
        ]
    );
}

#[test]
fn step_counts_the_ticks() {
    let mut sim = Simulation::new(TENTH);
    assert_eq!(sim.get_step(), 0);
    sim.step();
    sim.step();
    assert_eq!(sim.get_step(), 2);
}

#[test]
fn a_vehicle_changed_in_place_keeps_its_change() {
    let mut sim = Simulation::new(TENTH);
    add_road(&mut sim, 0, 100 * M, &[(0, 0)]);
    let v = sim.add_vehicle(1);
    assert_eq!(sim.set_vehicle_pos(v, 0, 0, 0), Ok(()));
    sim.get_vehicle_mut(v).unwrap().vel = 10 * M;
    assert_eq!(sim.get_vehicle(v).map(|veh| veh.vel), Some(10 * M));
    assert!(sim.get_vehicle_mut(v + 1).is_none());
}

#[test]
fn a_route_goes_from_link_to_link_by_connections() {
    let mut sim = Simulation::new(TENTH);
    for id in 0..6 {
        add_road(&mut sim, id, 100 * M, &[(0, 0)]);
    }
    for (from, to) in [(0, 1), (1, 2), (2, 0), (2, 3), (3, 4), (1, 5), (5, 4)] {
        assert_eq!(sim.add_connection(from, to, "0:0", 0), Ok(()));
    }
    for src in 0..6 {
        for dst in 0..6 {
            let route = sim.find_route(src, dst);
            assert_eq!(route[0], src);
            for pair in route.windows(2) {
                assert!(sim.get_link(pair[0]).unwrap().find_connection(pair[1]).is_some());
            }
        }
    }
    for src in 0..6 {
        for dst in 0..6 {
            let route = sim.find_route(src, dst);
            // no link twice
            for (i, link) in route.iter().enumerate() {
                assert!(!route[..i].contains(link));
            }
        }
    }
    assert_eq!(sim.find_route(0, 4), vec![0, 1, 5, 4]);
    assert_eq!(sim.find_route(2, 4), vec![2, 3, 4]);
    assert_eq!(sim.find_route(5, 3), vec![5]);
    assert_eq!(sim.find_route(1, 0), vec![1, 2, 0]);
}

#[test]
fn a_tick_is_its_phases_one_after_the_other() {
    let build = || {
        let mut sim = Simulation::new(TENTH);
        add_road(&mut sim, 0, 200 * M, &[(0, 0), (3 * M, 3 * M)]);
        add_road(&mut sim, 1, 200 * M, &[(0, 0)]);
        assert_eq!(sim.add_connection(0, 1, "1:0", 0), Ok(()));
        let built = StopLineBuilder::new(0, 0, 1, 150 * M)
            .of_type(StopLineType::Stop)
            .add_to_simulation(&mut sim);
        assert_eq!(built, Ok(()));
        for (k, pos) in [20, 60, 100, 140, 180].into_iter().enumerate() {
            let v = sim.add_vehicle(k);
            assert_eq!(sim.set_vehicle_pos(v, 0, (k % 2) as u8, pos * M), Ok(()));
            assert_eq!(sim.set_vehicle_dest(v, 1), Ok(()));
            sim.get_vehicle_mut(v).unwrap().vel = 10 * M;
        }
        sim
    };
    let mut whole = build();
    let mut parts = build();
    for _ in 0..40 {
        whole.step();
        parts.decide_lanes();
        parts.update_obstacles();
        parts.follow_cars();
        parts.run_stop_lines();
        parts.advance_vehicles();
        parts.reap_vehicles();
        assert_eq!(whole.get_step(), parts.get_step());
        assert_eq!(whole.get_vehicle_states(), parts.get_vehicle_states());
        assert_eq!(
            whole.get_stop_line(0).unwrap().committed_vehs,
            parts.get_stop_line(0).unwrap().committed_vehs
        );
    }
    assert!(!whole.get_vehicle_states().is_empty());
}
