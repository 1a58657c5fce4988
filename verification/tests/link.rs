use traffic_sim::simulation::link::{Lane, LanePairs, Link, LinkConnection, Obstacle, NO_LANE};
use traffic_sim::simulation::vehicle::Vehicle;
use traffic_sim::util::{CubicFunc, IdMap, LinearFunc};

const M: i64 = 1_000_000;

fn lane(length: i64, y0: i64, y1: i64) -> Lane {
    Lane {
        dist: LinearFunc::from_points(&[(0, 0), (length, length)]),
        lat: CubicFunc::from_points(&[(0, y0), (length, y1)]),
    }
}

fn road(id: usize, length: i64, lanes: &[(i64, i64)]) -> Link {
    let mut link = Link::new(id, length, 25 * M);
    for (y0, y1) in lanes {
        link.lanes.push(lane(length, *y0, *y1));
    }
    link
}

fn connect(link: &mut Link, to: usize, pairs: &[(u8, u8)], offset: i64) {
    let link_in = link.id;
    link.links_out.push(LinkConnection {
        link_in,
        link_out: to,
        lanes: LanePairs::from_pairs(&pairs.to_vec()),
        offset,
    });
}

fn car(vehs: &mut IdMap<Vehicle>, link: &mut Link, lane: u8, pos: i64, vel: i64) -> usize {
    let id = vehs.insert_free(Vehicle::new(0));
    let v = vehs.get_mut(id).unwrap();
    v.id = id;
    v.set_pos(link.id, lane, pos);
    v.vel = vel;
    v.acc = v.max_acc;
    v.lat = link.get_lat(lane, pos);
    link.add_veh(id);
    id
}

#[test]
fn a_new_link_is_bare() {
    let link = Link::new(3, 100 * M, 20 * M);
    assert_eq!((link.id, link.length, link.speed_limit), (3, 100 * M, 20 * M));
    assert!(link.links_in.is_empty());
    assert!(link.links_out.is_empty());
    assert!(link.lanes.is_empty());
    assert!(link.obstacles.is_empty());
    assert!(link.get_vehicles().is_empty());
}

#[test]
fn add_veh_puts_an_obstacle_at_the_start() {
    let mut link = Link::new(0, 100 * M, 20 * M);
    link.add_veh(4);
    link.add_veh(9);
    assert_eq!(link.get_vehicles(), vec![9, 4]);
    assert_eq!(
        link.obstacles[0],
        Obstacle { veh: 9, pos: 0, vel: 0, lat: 0, half_wid: 0, lane: 0 }
    );
}

#[test]
fn remove_veh_takes_the_last_obstacle_of_the_vehicle() {
    let mut link = Link::new(0, 100 * M, 20 * M);
    link.add_veh(4);
    link.add_veh(9);
    link.add_veh(4);
    link.obstacles[0].pos = 1;
    link.obstacles[2].pos = 3;
    link.remove_veh(4);
    assert_eq!(link.get_vehicles(), vec![4, 9]);
    assert_eq!(link.obstacles[0].pos, 1);
    link.remove_veh(7);
    assert_eq!(link.get_vehicles(), vec![4, 9]);
    link.remove_veh(9);
    link.remove_veh(4);
    assert!(link.get_vehicles().is_empty());
    link.remove_veh(4);
    assert!(link.get_vehicles().is_empty());
}

#[test]
fn connections_are_found_by_their_far_end() {
    let mut link = road(0, 100 * M, &[(0, 0)]);
    connect(&mut link, 5, &[(0, 1)], 250_000);
    connect(&mut link, 6, &[(0, 0), (0, 1)], -M);
    connect(&mut link, 5, &[(0, 2)], 9 * M);
    assert_eq!(link.find_connection(5), Some(0));
    assert_eq!(link.find_connection(6), Some(1));
    assert_eq!(link.find_connection(7), None);
    assert_eq!(link.get_offset_to_link(5), 250_000);
    assert_eq!(link.get_offset_to_link(6), -M);
    assert_eq!(link.get_lane_connections(5), vec![(0, 1)]);
    assert_eq!(link.get_lane_connections(6), vec![(0, 0), (0, 1)]);
}

#[test]
fn lane_pairs_keep_what_they_are_given() {
    let pairs = vec![(0, 1), (2, 3), (4, 5), (6, 7), (8, 9), (10, 11), (12, 13), (14, 15), (16, 17)];
    let kept = LanePairs::from_pairs(&pairs);
    assert_eq!(kept.to_vec(), pairs);
    assert_eq!(LanePairs::from_pairs(&vec![]).to_vec(), vec![]);
}

#[test]
fn get_lat_is_the_centre_line_of_the_lane() {
    let link = road(0, 100 * M, &[(0, 0), (3 * M, 5 * M)]);
    assert_eq!(link.get_lat(0, 50 * M), 0);
    assert_eq!(link.get_lat(1, 0), 3 * M);
    assert_eq!(link.get_lat(1, 50 * M), 4 * M);
    assert_eq!(link.get_lat(1, 100 * M), 5 * M);
    assert_eq!(link.get_lat(1, 200 * M), 5 * M);
    assert_eq!(link.get_lat(2, 50 * M), 0);
    assert_eq!(link.get_lat(NO_LANE, 50 * M), 0);
}

#[test]
fn update_obstacles_refreshes_and_sorts_by_position() {
    let mut vehs: IdMap<Vehicle> = IdMap::new();
    let mut link = road(0, 1000 * M, &[(0, 0), (3 * M, 3 * M)]);
    let a = car(&mut vehs, &mut link, 0, 300 * M, 5 * M);
    let b = car(&mut vehs, &mut link, 1, 100 * M, 6 * M);
    let c = car(&mut vehs, &mut link, 0, 200 * M, 7 * M);
    link.update_obstacles(&vehs);
    assert_eq!(link.get_vehicles(), vec![b, c, a]);
    assert_eq!(
        link.obstacles,
        vec![
            Obstacle { veh: b, pos: 97_700_000, vel: 6 * M, lat: 3 * M, half_wid: M, lane: 1 },
            Obstacle { veh: c, pos: 197_700_000, vel: 7 * M, lat: 0, half_wid: M, lane: 0 },
            Obstacle { veh: a, pos: 297_700_000, vel: 5 * M, lat: 0, half_wid: M, lane: 0 },
        ]
    );
}

#[test]
fn update_obstacles_keeps_the_order_of_vehicles_at_the_same_position() {
    let mut vehs: IdMap<Vehicle> = IdMap::new();
    let mut link = road(0, 1000 * M, &[(0, 0), (3 * M, 3 * M)]);
    let a = car(&mut vehs, &mut link, 0, 100 * M, 0);
    let b = car(&mut vehs, &mut link, 1, 100 * M, 0);
    let c = car(&mut vehs, &mut link, 0, 50 * M, 0);
    let d = car(&mut vehs, &mut link, 1, 100 * M, 0);
    // the obstacles stand in the order d, c, b, a
    link.update_obstacles(&vehs);
    assert_eq!(link.get_vehicles(), vec![c, d, b, a]);
    link.update_obstacles(&vehs);
    assert_eq!(link.get_vehicles(), vec![c, d, b, a]);
}

#[test]
fn update_obstacles_leaves_the_obstacle_of_a_missing_vehicle() {
    let vehs: IdMap<Vehicle> = IdMap::new();
    let mut link = road(0, 1000 * M, &[(0, 0)]);
    link.add_veh(3);
    link.obstacles[0].pos = 5;
    link.update_obstacles(&vehs);
    assert_eq!(
        link.obstacles,
        vec![Obstacle { veh: 3, pos: 5, vel: 0, lat: 0, half_wid: 0, lane: 0 }]
    );
}

#[test]
fn a_vehicle_follows_the_next_one_in_its_lane() {
    let mut vehs: IdMap<Vehicle> = IdMap::new();
    let mut links: IdMap<Link> = IdMap::new();
    let mut link = road(0, 1000 * M, &[(0, 0), (3 * M, 3 * M)]);
    let follower = car(&mut vehs, &mut link, 0, 0, 10 * M);
    let other_lane = car(&mut vehs, &mut link, 1, 30 * M, 0);
    let leader = car(&mut vehs, &mut link, 0, 52_300_000, 5 * M);
    link.update_obstacles(&vehs);
    links.insert(0, link);
    links.get(0).unwrap().car_follow_model(&mut vehs, &links);
    // the leader's rear end is at 50: see the car-following law
    assert_eq!(vehs.get(follower).unwrap().acc, 1_722_369);
    assert_eq!(vehs.get(other_lane).unwrap().acc, 3 * M);
    assert_eq!(vehs.get(leader).unwrap().acc, 3 * M);
}

#[test]
fn a_vehicle_follows_one_that_is_in_its_way_in_another_lane() {
    let mut vehs: IdMap<Vehicle> = IdMap::new();
    let mut links: IdMap<Link> = IdMap::new();
    // the lanes are 1.5 m apart: cars of 2 m do not fit side by side
    let mut link = road(0, 1000 * M, &[(0, 0), (1_500_000, 1_500_000)]);
    let follower = car(&mut vehs, &mut link, 0, 0, 10 * M);
    let beside = car(&mut vehs, &mut link, 1, 52_300_000, 5 * M);
    link.update_obstacles(&vehs);
    links.insert(0, link);
    links.get(0).unwrap().car_follow_model(&mut vehs, &links);
    assert_eq!(vehs.get(follower).unwrap().acc, 1_722_369);
    assert_eq!(vehs.get(beside).unwrap().acc, 3 * M);
}

#[test]
fn the_search_goes_on_in_the_next_link_of_the_route() {
    let mut vehs: IdMap<Vehicle> = IdMap::new();
    let mut links: IdMap<Link> = IdMap::new();
    let mut first = road(0, 30 * M, &[(0, 0)]);
    let mut second = road(1, 1000 * M, &[(0, 0)]);
    connect(&mut first, 1, &[(0, 0)], 0);
    let follower = car(&mut vehs, &mut first, 0, 0, 10 * M);
    let leader = car(&mut vehs, &mut second, 0, 22_300_000, 5 * M);
    {
        let v = vehs.get_mut(follower).unwrap();
        v.link_route = vec![0, 1];
        v.lane_route = vec![0, 0];
    }
    first.update_obstacles(&vehs);
    second.update_obstacles(&vehs);
    links.insert(0, first);
    links.insert(1, second);
    links.get(0).unwrap().car_follow_model(&mut vehs, &links);
    links.get(1).unwrap().car_follow_model(&mut vehs, &links);
    // the leader's rear end is 30 + 20 = 50 ahead
    assert_eq!(vehs.get(follower).unwrap().acc, 1_722_369);
    assert_eq!(vehs.get(leader).unwrap().acc, 3 * M);
}

#[test]
fn a_vehicle_without_a_lane_on_the_next_link_stops_at_the_end_of_its_link() {
    let mut vehs: IdMap<Vehicle> = IdMap::new();
    let mut links: IdMap<Link> = IdMap::new();
    let mut first = road(0, 80 * M, &[(0, 0)]);
    let second = road(1, 1000 * M, &[(0, 0)]);
    connect(&mut first, 1, &[(0, 0)], 0);
    let v = car(&mut vehs, &mut first, 0, 0, 10 * M);
    {
        let veh = vehs.get_mut(v).unwrap();
        veh.link_route = vec![0, 1];
        veh.lane_route = vec![0, NO_LANE];
    }
    first.update_obstacles(&vehs);
    links.insert(0, first);
    links.insert(1, second);
    links.get(0).unwrap().car_follow_model(&mut vehs, &links);
    // as if a vehicle stood at 80
    assert_eq!(vehs.get(v).unwrap().acc, 2_194_677);
}

#[test]
fn a_vehicle_at_the_end_of_its_route_is_not_held_back() {
    let mut vehs: IdMap<Vehicle> = IdMap::new();
    let mut links: IdMap<Link> = IdMap::new();
    let mut first = road(0, 80 * M, &[(0, 0)]);
    let v = car(&mut vehs, &mut first, 0, 70 * M, 10 * M);
    first.update_obstacles(&vehs);
    links.insert(0, first);
    links.get(0).unwrap().car_follow_model(&mut vehs, &links);
    assert_eq!(vehs.get(v).unwrap().acc, 3 * M);
}
