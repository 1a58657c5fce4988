use traffic_sim::simulation::link::{Lane, LanePairs, Link, LinkConnection, NO_LANE};
use traffic_sim::simulation::vehicle::{LaneDistances, Vehicle};
use traffic_sim::util::{CubicFunc, IdMap, LinearFunc};

const M: i64 = 1_000_000;
const INF: i64 = i64::MAX;

fn road(id: usize, length: i64, lanes: &[(i64, i64)]) -> Link {
    let mut link = Link::new(id, length, 25 * M);
    for (y0, y1) in lanes {
        link.lanes.push(Lane {
            dist: LinearFunc::from_points(&[(0, 0), (length, length)]),
            lat: CubicFunc::from_points(&[(0, *y0), (length, *y1)]),
        });
    }
    link
}

fn connect(links: &mut IdMap<Link>, from: usize, to: usize, pairs: &[(u8, u8)], offset: i64) {
    links.get_mut(from).unwrap().links_out.push(LinkConnection {
        link_in: from,
        link_out: to,
        lanes: LanePairs::from_pairs(&pairs.to_vec()),
        offset,
    });
}

/// Three links in a row: three lanes, then two, then one. The right lane of
/// each leads on to the next.
fn narrowing_road() -> IdMap<Link> {
    let mut links: IdMap<Link> = IdMap::new();
    links.insert(0, road(0, 100 * M, &[(0, 0), (3 * M, 3 * M), (6 * M, 6 * M)]));
    links.insert(1, road(1, 200 * M, &[(3 * M, 3 * M), (6 * M, 6 * M)]));
    links.insert(2, road(2, 300 * M, &[(6 * M, 6 * M)]));
    connect(&mut links, 0, 1, &[(1, 0), (2, 1)], 0);
    connect(&mut links, 1, 2, &[(1, 0)], 0);
    links
}

fn traveller(lane: u8, pos: i64) -> Vehicle {
    let mut v = Vehicle::new(0);
    v.set_pos(0, lane, pos);
    v.set_route(vec![0, 1, 2]);
    v
}

#[test]
fn lane_distances_are_worked_out_from_the_end_of_the_route() {
    let links = narrowing_road();
    let mut v = traveller(0, 10 * M);
    v.compute_lane_dists(&links);
    assert_eq!(v.lane_dists.len(), 3);
    assert_eq!(v.lane_dists[2].lanes, vec![[INF; 4]]);
    assert_eq!(v.lane_dists[1].lanes, vec![[200 * M, INF, INF, INF], [INF; 4]]);
    assert_eq!(
        v.lane_dists[0].lanes,
        vec![[100 * M, INF, INF, INF], [300 * M, INF, INF, INF], [INF; 4]]
    );
    // nothing else has changed
    assert_eq!((v.lane, v.pos), (0, 10 * M));
    assert_eq!(v.lane_route, vec![0]);
}

#[test]
fn lane_distances_of_links_that_are_missing_or_not_connected() {
    let links = narrowing_road();
    let mut v = traveller(0, 0);
    v.set_route(vec![0, 2, 7, 1]);
    v.compute_lane_dists(&links);
    assert_eq!(v.lane_dists.len(), 4);
    assert_eq!(v.lane_dists[3].lanes, vec![[INF; 4]; 2]);
    assert!(v.lane_dists[2].lanes.is_empty());
    assert_eq!(v.lane_dists[1].lanes, vec![[INF; 4]]);
    assert_eq!(v.lane_dists[0].lanes, vec![[INF; 4]; 3]);
}

#[test]
fn a_vehicle_moves_one_lane_at_a_time_towards_the_lane_that_leads_on() {
    let links = narrowing_road();
    let mut v = traveller(0, 10 * M);
    v.lane_decisions(&links);
    assert!(v.changing_lanes);
    assert_eq!((v.old_lane, v.lane), (0, 1));
    assert_eq!(v.lane_route, vec![1, 0, NO_LANE]);
    assert_eq!(v.path.map(|p| (p.min_x, p.max_x, p.y1, p.yd)), Some((10 * M, 50 * M, 0, 3 * M)));
    // in the middle of a change the vehicle does not decide again
    v.lane_decisions(&links);
    assert_eq!(v.lane, 1);
    v.changing_lanes = false;
    v.lane_decisions(&links);
    assert_eq!((v.old_lane, v.lane), (1, 2));
    assert_eq!(v.lane_route, vec![2, 1, 0]);
    v.changing_lanes = false;
    v.lane_decisions(&links);
    assert!(!v.changing_lanes);
    assert_eq!((v.old_lane, v.lane), (2, 2));
    assert_eq!(v.lane_route, vec![2, 1, 0]);
}

#[test]
fn a_vehicle_with_one_link_to_go_keeps_its_lanes() {
    let links = narrowing_road();
    let mut v = Vehicle::new(0);
    v.set_pos(2, 0, 0);
    v.lane_decisions(&links);
    assert!(!v.changing_lanes);
    assert_eq!(v.lane_dists.len(), 1);
    assert_eq!(v.lane_dists[0].lanes, vec![[INF; 4]]);
    assert_eq!((v.old_lane, v.lane), (0, 0));
    assert_eq!(v.lane_route, vec![0]);
    assert!(v.path.is_none());
}

#[test]
fn a_vehicle_with_one_link_to_go_changes_to_the_better_lane() {
    let mut links: IdMap<Link> = IdMap::new();
    links.insert(0, road(0, 400 * M, &[(0, 0), (3 * M, 3 * M)]));
    let mut v = Vehicle::new(0);
    v.set_pos(0, 0, 100 * M);
    v.lane_dists = vec![LaneDistances { lanes: vec![[0, 0, 0, 5], [0, 0, 0, 6]] }];
    v.lane_decisions(&links);
    assert!(v.changing_lanes);
    assert_eq!((v.old_lane, v.lane), (0, 1));
    assert_eq!(v.link_route, vec![0]);
    assert_eq!(v.lane_route, vec![1]);
    assert_eq!(
        v.path.map(|p| (p.min_x, p.max_x, p.y1, p.yd)),
        Some((100 * M, 140 * M, 0, 3 * M))
    );
    // on the better lane it stays
    v.changing_lanes = false;
    v.lane_decisions(&links);
    assert!(!v.changing_lanes);
    assert_eq!((v.old_lane, v.lane), (1, 1));
    assert_eq!(v.lane_route, vec![1]);
}

#[test]
fn a_vehicle_without_a_route_decides_nothing() {
    let links = narrowing_road();
    let mut v = Vehicle::new(0);
    v.lane_decisions(&links);
    assert!(v.link_route.is_empty());
    assert!(v.lane_route.is_empty());
    assert!(v.lane_dists.is_empty());
    assert!(!v.changing_lanes);
    assert!(v.path.is_none());
}

#[test]
fn a_route_given_in_the_middle_of_a_change_gets_its_lanes() {
    let links = narrowing_road();
    let mut v = Vehicle::new(0);
    v.set_pos(0, 1, 10 * M);
    v.old_lane = 0;
    v.changing_lanes = true;
    v.set_route(vec![0, 1, 2]);
    assert_eq!(v.lane_route, vec![1]);
    v.lane_decisions(&links);
    // no second change is begun, but the lanes are laid out to the route's end
    assert!(v.changing_lanes);
    assert_eq!((v.old_lane, v.lane), (0, 1));
    assert_eq!(v.lane_route, vec![1, 0, NO_LANE]);
    assert_eq!(v.lane_dists.len(), 3);
    assert!(v.path.is_none());
}

#[test]
fn lanes_beyond_the_end_of_a_shorter_route_are_dropped() {
    let links = narrowing_road();
    let mut v = traveller(2, 10 * M);
    v.lane_decisions(&links);
    assert!(!v.changing_lanes);
    assert_eq!(v.lane_route, vec![2, 1, 0]);
    v.set_route(vec![0, 1]);
    v.lane_decisions(&links);
    assert!(!v.changing_lanes);
    assert_eq!(v.link_route, vec![0, 1]);
    assert_eq!(v.lane_route, vec![2, 1]);
    assert_eq!(v.lane_dists.len(), 2);
}

#[test]
fn the_left_lane_wins_a_tie() {
    let links = narrowing_road();
    let mut v = traveller(1, 10 * M);
    v.lane_dists = vec![
        LaneDistances { lanes: vec![[0, 0, 0, 7], [0, 0, 0, 0], [0, 0, 0, 7]] },
        LaneDistances { lanes: vec![[0, 0, 0, 0], [0, 0, 0, 0]] },
        LaneDistances { lanes: vec![[0, 0, 0, 0]] },
    ];
    v.lane_decisions(&links);
    assert_eq!((v.old_lane, v.lane), (1, 0));
    let mut w = traveller(1, 10 * M);
    w.lane_dists = vec![
        LaneDistances { lanes: vec![[0, 0, 0, 7], [0, 0, 0, 0], [0, 0, 0, 8]] },
        LaneDistances { lanes: vec![[0, 0, 0, 0], [0, 0, 0, 0]] },
        LaneDistances { lanes: vec![[0, 0, 0, 0]] },
    ];
    w.lane_decisions(&links);
    assert_eq!((w.old_lane, w.lane), (1, 2));
}

#[test]
fn the_end_of_a_lane_change_is_looked_for_along_the_route() {
    let mut links = narrowing_road();
    links.get_mut(0).unwrap().links_out[0].offset = 500_000;
    let mut v = traveller(1, 80 * M);
    v.lane_route = vec![1, 0, 0];
    // 40 m on, the vehicle is 20 m into the next link
    assert_eq!(v.get_lat_at_pos(120 * M, &links), 2_500_000);
    assert_eq!(v.get_lat_at_pos(90 * M, &links), 3 * M);
    // beyond the end of the route the last lane goes on as it ends
    assert_eq!(v.get_lat_at_pos(900 * M, &links), 5_500_000);
    v.lane_route = vec![2];
    assert_eq!(v.get_lat_at_pos(90 * M, &links), 6 * M);
    assert_eq!(v.get_lat_at_pos(120 * M, &links), -500_000);
}

#[test]
fn the_speed_limit_holds_a_vehicle_back() {
    let mut links = narrowing_road();
    links.get_mut(1).unwrap().speed_limit = 10 * M;
    let mut v = traveller(1, 70 * M);
    v.vel = 10 * M;
    v.acc = 3 * M;
    v.apply_speedlimit(&links);
    // the limit of 10 m/s lies 30 m ahead: sqrt(100 + 150) = 15.811388
    assert_eq!(v.acc, 2_520_003);
    let mut w = traveller(1, 70 * M);
    w.vel = 20 * M;
    w.acc = 3 * M;
    w.set_route(vec![0]);
    w.apply_speedlimit(&links);
    // 3 * (1 - (20 / 25)^4)
    assert_eq!(w.acc, 1_771_200);
    let mut off = Vehicle::new(0);
    off.acc = 3 * M;
    off.apply_speedlimit(&links);
    assert_eq!(off.acc, 3 * M);
}

#[test]
fn integrate_moves_the_vehicle_and_resets_its_acceleration() {
    let mut links = narrowing_road();
    let mut v = traveller(1, 70 * M);
    links.get_mut(0).unwrap().add_veh(0);
    v.vel = 10 * M;
    v.acc = -2 * M;
    v.integrate(500_000, &mut links);
    assert_eq!((v.vel, v.pos, v.acc), (9 * M, 74_500_000, 3 * M));
    assert_eq!((v.link, v.lat, v.dlat), (0, 3 * M, 0));
    // the speed does not fall below zero
    v.acc = -40 * M;
    v.integrate(500_000, &mut links);
    assert_eq!((v.vel, v.pos, v.acc), (0, 74_500_000, 3 * M));
    assert_eq!(links.get(0).unwrap().get_vehicles(), vec![0]);
}

#[test]
fn integrate_carries_the_path_of_a_lane_change_over_to_the_next_link() {
    let mut links = narrowing_road();
    links.get_mut(0).unwrap().links_out[0].offset = 500_000;
    let mut v = traveller(0, 90 * M);
    links.get_mut(0).unwrap().add_veh(0);
    v.lane_decisions(&links);
    assert_eq!(v.lane_route, vec![1, 0, NO_LANE]);
    v.vel = 20 * M;
    v.acc = 0;
    v.integrate(M, &mut links);
    assert_eq!((v.link, v.lane, v.pos), (1, 0, 10 * M));
    assert_eq!(v.get_links(), &[1, 2]);
    assert_eq!(v.lane_route, vec![0, NO_LANE]);
    assert_eq!(v.lane_dists.len(), 2);
    assert!(v.changing_lanes);
    // the path began at 90 on the old link and ends 40 m on
    let path = v.path.unwrap();
    assert_eq!((path.min_x, path.max_x, path.y1), (-10 * M, 30 * M, 500_000));
    assert_eq!(v.lat, path.get_y(10 * M));
    assert!(links.get(0).unwrap().get_vehicles().is_empty());
    assert_eq!(links.get(1).unwrap().get_vehicles(), vec![0]);
}
