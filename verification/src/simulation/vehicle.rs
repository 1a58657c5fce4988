//! Vehicles: their kinematic state, their route, the car-following law and
//! the choice of lanes.
use super::link::Obstacle;
use crate::fixed::{
    lesser, magnitude, minus, over, plus, root, square, times, HALF, NEG_INFINITY, ONE, TWO,
};
use crate::util::CubicFuncPiece;
use vstd::prelude::*;

verus! {

/// The deceleration that drivers find comfortable (negative).
pub const COMF_DECEL: i64 = -2_500_000;

/// The time gap that a follower keeps to its leader.
pub const HEADWAY: i64 = 2_000_000;

/// The distance that a follower keeps to a leader at rest.
pub const MIN_GAP: i64 = 2_000_000;

/// The distance over which a lane change is carried out.
pub const LANE_CHANGE_DIST: i64 = 40_000_000;

/// The link number that stands for "not on the network".
pub const NO_LINK: usize = usize::MAX;

/// How one lane compares with another.
#[derive(Clone, Copy, Debug, PartialEq, Eq, Structural)]
pub enum Preference {
    Worse,
    Same,
    Better,
}

/// For each lane of one link of the route, how far the vehicle gets from the
/// start of that link before it is forced to change lanes: tier 0 is the
/// weakest statement, tier 3 the strongest.
pub struct LaneDistances {
    pub lanes: Vec<[i64; 4]>,
}

/// A vehicle: what it is, where it is, where it wants to go and how it gets
/// there.
pub struct Vehicle {
    // what the vehicle is
    pub id: usize,
    pub user_id: usize,
    pub len: i64,
    pub wid: i64,
    pub max_acc: i64,
    pub follow_c: i64,
    // where it is and what it does
    pub link: usize,
    pub lane: u8,
    pub old_lane: u8,
    pub changing_lanes: bool,
    pub pos: i64,
    pub vel: i64,
    pub acc: i64,
    pub path: Option<CubicFuncPiece>,
    /// The links still to be travelled, the current one first.
    pub link_route: Vec<usize>,
    /// The lane to take on each link of the route.
    pub lane_route: Vec<u8>,
    pub lane_dists: Vec<LaneDistances>,
    pub arrival_step: Option<usize>,
    // what follows from its path
    pub lat: i64,
    pub dlat: i64,
}

/// What the outside world is told of a vehicle.
#[derive(Clone, Copy, Debug, PartialEq, Eq, Structural)]
pub struct VehicleState {
    pub user_id: usize,
    pub link: usize,
    pub pos: i64,
    pub vel: i64,
    pub lat: i64,
    pub dlat: i64,
}

/// The comfort coefficient `2 * sqrt(max_acc * |COMF_DECEL|)` of the
/// car-following law.
pub open spec fn comfort_coefficient(max_acc: i64) -> i64 {
    times(TWO, root(times(max_acc, minus(0, COMF_DECEL))))
}

/// Compares the lowest `k` tiers of two lanes, the highest of them first.
pub open spec fn compare_tiers(a: Seq<i64>, b: Seq<i64>, k: int) -> Preference
    decreases k,
{
    if k <= 0 {
        Preference::Same
    } else if a[k - 1] < b[k - 1] {
        Preference::Worse
    } else if a[k - 1] > b[k - 1] {
        Preference::Better
    } else {
        compare_tiers(a, b, k - 1)
    }
}

/// How lane `a` compares with lane `b` in a table of lane distances: tier by
/// tier from the highest down, and a lane that the table lacks is worse than
/// one that it has.
pub open spec fn compare_in(lanes: Seq<[i64; 4]>, a: u8, b: u8) -> Preference {
    if a >= lanes.len() && b >= lanes.len() {
        Preference::Same
    } else if a >= lanes.len() {
        Preference::Worse
    } else if b >= lanes.len() {
        Preference::Better
    } else {
        compare_tiers(lanes[a as int]@, lanes[b as int]@, 4)
    }
}

impl Vehicle {
    /// The vehicle is as `new` makes it, but for its id: a car of 4.6 m by
    /// 2 m that accelerates at up to 3 m/s^2, at rest and not on the network.
    pub open spec fn is_new(&self, user_id: usize, id: usize) -> bool {
        &&& self.id == id
        &&& self.user_id == user_id
        &&& self.len == 4_600_000
        &&& self.wid == 2_000_000
        &&& self.max_acc == 3_000_000
        &&& self.follow_c == comfort_coefficient(self.max_acc)
        &&& self.link == NO_LINK
        &&& self.lane == 0
        &&& self.old_lane == 0
        &&& !self.changing_lanes
        &&& self.pos == 0
        &&& self.vel == 0
        &&& self.acc == 0
        &&& self.path is None
        &&& self.link_route@.len() == 0
        &&& self.lane_route@.len() == 0
        &&& self.lane_dists@.len() == 0
        &&& self.arrival_step is None
        &&& self.lat == 0
        &&& self.dlat == 0
    }

    /// The vehicle with another acceleration.
    pub open spec fn with_acc(self, acc: i64) -> Vehicle {
        Vehicle { acc, ..self }
    }

    /// The vehicle with no acceleration: what of it does not change while
    /// limits are put on its acceleration.
    pub open spec fn without_acc(self) -> Vehicle {
        Vehicle { acc: 0, ..self }
    }

    /// The distance from the vehicle's front to `pos`.
    pub open spec fn gap_to(&self, pos: i64) -> i64 {
        minus(pos, plus(self.pos, times(HALF, self.len)))
    }

    /// The gap that the vehicle wants to a leader that moves at `vel`.
    pub open spec fn desired_gap(&self, vel: i64) -> i64 {
        plus(
            plus(MIN_GAP, times(HEADWAY, self.vel)),
            over(times(minus(self.vel, vel), self.vel), self.follow_c),
        )
    }

    /// The acceleration that keeps the vehicle behind a leader at `pos` that
    /// moves at `vel`: `max_acc * (1 - (desired_gap / gap)^2)`, and the hardest
    /// braking where no gap is left.
    pub open spec fn follow_acc(&self, pos: i64, vel: i64) -> i64 {
        if self.gap_to(pos) <= 0 {
            NEG_INFINITY
        } else {
            times(self.max_acc, minus(ONE, square(over(self.desired_gap(vel), self.gap_to(pos)))))
        }
    }

    pub open spec fn spec_get_link(&self, i: usize) -> Option<usize> {
        if i < self.link_route@.len() {
            Some(self.link_route@[i as int])
        } else {
            None
        }
    }

    pub open spec fn spec_get_lane(&self, i: usize) -> Option<u8> {
        if i < self.lane_route@.len() {
            Some(self.lane_route@[i as int])
        } else {
            None
        }
    }

    pub open spec fn spec_get_obstacle(&self) -> Obstacle {
        if self.changing_lanes && self.path is Some {
            let half_delta = times(HALF, minus(self.path->0.spec_get_y2(), self.lat));
            Obstacle {
                veh: self.id,
                pos: minus(self.pos, times(HALF, self.len)),
                vel: self.vel,
                lat: plus(self.lat, half_delta),
                half_wid: plus(times(HALF, self.wid), magnitude(half_delta)),
                lane: self.lane,
            }
        } else {
            Obstacle {
                veh: self.id,
                pos: minus(self.pos, times(HALF, self.len)),
                vel: self.vel,
                lat: self.lat,
                half_wid: times(HALF, self.wid),
                lane: self.lane,
            }
        }
    }

    pub open spec fn spec_get_state(&self) -> VehicleState {
        VehicleState {
            user_id: self.user_id,
            link: self.link,
            pos: self.pos,
            vel: self.vel,
            lat: self.lat,
            dlat: self.dlat,
        }
    }

    pub open spec fn spec_compare_lanes(&self, i: usize, lane1: u8, lane2: u8) -> Preference {
        compare_in(self.lane_dists@[i as int].lanes@, lane1, lane2)
    }

    /// A car of 4.6 m by 2 m that accelerates at up to 3 m/s^2, at rest and
    /// not on the network.
    pub fn new(user_id: usize) -> (v: Self)
        ensures
            v.id == 0,
            v.user_id == user_id,
            v.len == 4_600_000,
            v.wid == 2_000_000,
            v.max_acc == 3_000_000,
            v.follow_c == comfort_coefficient(v.max_acc),
            v.link == NO_LINK,
            v.lane == 0,
            v.old_lane == 0,
            !v.changing_lanes,
            v.pos == 0,
            v.vel == 0,
            v.acc == 0,
            v.path is None,
            v.link_route@.len() == 0,
            v.lane_route@.len() == 0,
            v.lane_dists@.len() == 0,
            v.arrival_step is None,
            v.lat == 0,
            v.dlat == 0,
    {
        let max_acc: i64 = 3_000_000;
        Self {
            id: 0,
            user_id,
            len: 4_600_000,
            wid: 2_000_000,
            max_acc,
            follow_c: times(TWO, root(times(max_acc, minus(0, COMF_DECEL)))),
            link: NO_LINK,
            lane: 0,
            old_lane: 0,
            changing_lanes: false,
            pos: 0,
            vel: 0,
            acc: 0,
            path: None,
            link_route: Vec::new(),
            lane_route: Vec::new(),
            lane_dists: Vec::new(),
            arrival_step: None,
            lat: 0,
            dlat: 0,
        }
    }

    /// Everything but the place and the route is the same in both vehicles.
    pub open spec fn same_but_place(&self, other: &Vehicle) -> bool {
        &&& self.id == other.id
        &&& self.user_id == other.user_id
        &&& self.len == other.len
        &&& self.wid == other.wid
        &&& self.max_acc == other.max_acc
        &&& self.follow_c == other.follow_c
        &&& self.old_lane == other.old_lane
        &&& self.changing_lanes == other.changing_lanes
        &&& self.vel == other.vel
        &&& self.acc == other.acc
        &&& self.path == other.path
        &&& self.lane_dists == other.lane_dists
        &&& self.arrival_step == other.arrival_step
        &&& self.lat == other.lat
        &&& self.dlat == other.dlat
    }

    /// Places the vehicle at `pos` on `lane` of `link`; its route is then that
    /// link alone.
    pub fn set_pos(&mut self, link: usize, lane: u8, pos: i64)
        ensures
            final(self).link == link,
            final(self).lane == lane,
            final(self).pos == pos,
            final(self).link_route@ == seq![link],
            final(self).lane_route@ == seq![lane],
            final(self).same_but_place(old(self)),
    {
        self.link = link;
        self.pos = pos;
        self.lane = lane;
        let mut links: Vec<usize> = Vec::new();
        links.push(link);
        let mut lanes: Vec<u8> = Vec::new();
        lanes.push(lane);
        proof {
            assert(links@ =~= seq![link]);
            assert(lanes@ =~= seq![lane]);
        }
        self.link_route = links;
        self.lane_route = lanes;
    }

    /// The `i`-th link of the route, the current link being the 0-th.
    #[verifier::when_used_as_spec(spec_get_link)]
    pub fn get_link(&self, i: usize) -> (r: Option<usize>)
        ensures
            r == self.spec_get_link(i),
    {
        if i < self.link_route.len() {
            Some(self.link_route[i])
        } else {
            None
        }
    }

    /// The links of the route.
    pub fn get_links(&self) -> (r: &[usize])
        ensures
            r@ == self.link_route@,
    {
        self.link_route.as_slice()
    }

    /// The lane to take on the `i`-th link of the route.
    #[verifier::when_used_as_spec(spec_get_lane)]
    pub fn get_lane(&self, i: usize) -> (r: Option<u8>)
        ensures
            r == self.spec_get_lane(i),
    {
        if i < self.lane_route.len() {
            Some(self.lane_route[i])
        } else {
            None
        }
    }

    /// Gives the vehicle a route. The current link is put in front of it
    /// where the route does not start there; the lane distances are dropped,
    /// to be worked out again for the new route.
    pub fn set_route(&mut self, route: Vec<usize>)
        ensures
            final(self).link_route@ == if route@.len() > 0 && route@[0] == old(self).link {
                route@
            } else {
                route@.insert(0, old(self).link)
            },
            final(self).lane_dists@.len() == 0,
            *final(self) == (Vehicle {
                link_route: final(self).link_route,
                lane_dists: final(self).lane_dists,
                ..*old(self)
            }),
    {
        self.link_route = route;
        if !(self.link_route.len() > 0 && self.link_route[0] == self.link) {
            self.link_route.insert(0, self.link);
        }
        self.lane_dists = Vec::new();
    }

    /// The obstacle that the vehicle is to those behind it: its rear end, and
    /// while it changes lanes the whole corridor that it sweeps.
    #[verifier::when_used_as_spec(spec_get_obstacle)]
    pub fn get_obstacle(&self) -> (o: Obstacle)
        ensures
            o == self.spec_get_obstacle(),
    {
        let pos = minus(self.pos, times(HALF, self.len));
        match self.path {
            Some(path) if self.changing_lanes => {
                let half_delta = times(HALF, minus(path.get_y2(), self.lat));
                Obstacle {
                    veh: self.id,
                    pos,
                    vel: self.vel,
                    lat: plus(self.lat, half_delta),
                    half_wid: plus(times(HALF, self.wid), magnitude(half_delta)),
                    lane: self.lane,
                }
            },
            _ => Obstacle {
                veh: self.id,
                pos,
                vel: self.vel,
                lat: self.lat,
                half_wid: times(HALF, self.wid),
                lane: self.lane,
            },
        }
    }

    /// How `lane1` compares with `lane2` on the `i`-th link of the route.
    #[verifier::loop_isolation(false)]
    #[verifier::when_used_as_spec(spec_compare_lanes)]
    pub fn compare_lanes(&self, i: usize, lane1: u8, lane2: u8) -> (p: Preference)
        requires
            i < self.lane_dists@.len(),
        ensures
            p == self.spec_compare_lanes(i, lane1, lane2),
    {
        let dists = &self.lane_dists[i].lanes;
        let n = dists.len();
        if lane1 as usize >= n && lane2 as usize >= n {
            Preference::Same
        } else if lane1 as usize >= n {
            Preference::Worse
        } else if lane2 as usize >= n {
            Preference::Better
        } else {
            let a = &dists[lane1 as usize];
            let b = &dists[lane2 as usize];
            let mut k: usize = 4;
            while k > 0
                invariant
                    0 <= k <= 4,
                    compare_tiers(a@, b@, 4) == compare_tiers(a@, b@, k as int),
                decreases k,
            {
                if a[k - 1] < b[k - 1] {
                    return Preference::Worse;
                }
                if a[k - 1] > b[k - 1] {
                    return Preference::Better;
                }
                k -= 1;
            }
            Preference::Same
        }
    }

    /// Lowers the acceleration to `acc` where it is higher: of all the limits
    /// put on a vehicle in one tick, the lowest holds.
    pub fn apply_acc(&mut self, acc: i64)
        ensures
            *final(self) == old(self).with_acc(lesser(old(self).acc, acc)),
    {
        if acc < self.acc {
            self.acc = acc;
        }
    }

    /// Limits the acceleration so that the vehicle stays behind a leader
    /// whose rear end is at `pos` and which moves at `vel`.
    pub fn follow(&mut self, pos: i64, vel: i64)
        ensures
            *final(self) == old(self).with_acc(
                lesser(old(self).acc, old(self).follow_acc(pos, vel)),
            ),
    {
        let dist = minus(pos, plus(self.pos, times(HALF, self.len)));
        if dist <= 0 {
            self.acc = NEG_INFINITY;
            return ;
        }
        let approach_rate = minus(self.vel, vel);
        let ss = plus(
            plus(MIN_GAP, times(HEADWAY, self.vel)),
            over(times(approach_rate, self.vel), self.follow_c),
        );
        let acc = times(self.max_acc, minus(ONE, square(over(ss, dist))));
        self.apply_acc(acc);
    }

    /// Limits the acceleration so that the vehicle comes to rest before `pos`.
    pub fn stop(&mut self, pos: i64)
        ensures
            *final(self) == old(self).with_acc(lesser(old(self).acc, old(self).follow_acc(pos, 0))),
    {
        self.follow(pos, 0);
    }

    #[verifier::when_used_as_spec(spec_get_state)]
    pub fn get_state(&self) -> (s: VehicleState)
        ensures
            s == self.spec_get_state(),
    {
        VehicleState {
            user_id: self.user_id,
            link: self.link,
            pos: self.pos,
            vel: self.vel,
            lat: self.lat,
            dlat: self.dlat,
        }
    }
}

} // verus!
