//! Road links, their lanes and connections, and the search for the vehicle
//! that a vehicle has to follow.
use super::vehicle::Vehicle;
use crate::fixed::{lesser, magnitude, minus, plus, times, HALF, INFINITY, ONE};
use crate::util::{decides, insertion_sort, stably_sorted, CubicFunc, IdMap, LinearFunc};
use core::cmp::Ordering;
use smallvec::SmallVec;
use vstd::prelude::*;

verus! {

/// The lane number that stands for "no lane".
pub const NO_LANE: u8 = 255;

/// The lane pairings `(lane_in, lane_out)` of a connection, in the order in
/// which they were given. They are kept in a `smallvec::SmallVec` with room
/// for eight pairs before it moves to the heap; nothing here is verified
/// against that crate.
#[verifier::external_body]
pub struct LanePairs {
    inner: SmallVec<[(u8, u8); 8]>,
}

/// The pairs that a `LanePairs` holds.
pub uninterp spec fn lane_pairs(p: LanePairs) -> Seq<(u8, u8)>;

impl View for LanePairs {
    type V = Seq<(u8, u8)>;

    open spec fn view(&self) -> Seq<(u8, u8)> {
        lane_pairs(*self)
    }
}

impl LanePairs {
    /// `SmallVec::new`: a vector that holds nothing.
    #[verifier::external_body]
    pub(crate) fn new() -> (p: Self)
        ensures
            lane_pairs(p) == Seq::<(u8, u8)>::empty(),
    {
        LanePairs { inner: SmallVec::new() }
    }

    /// `SmallVec::push`: appends one item and leaves the others as they are.
    #[verifier::external_body]
    pub(crate) fn push(&mut self, pair: (u8, u8))
        ensures
            lane_pairs(*final(self)) == lane_pairs(*old(self)).push(pair),
    {
        self.inner.push(pair)
    }

    /// `SmallVec::len`: the number of items.
    #[verifier::external_body]
    pub(crate) fn len(&self) -> (n: usize)
        ensures
            n == lane_pairs(*self).len(),
    {
        self.inner.len()
    }

    /// Indexing a `SmallVec`, which indexes the slice of its items: the item
    /// at `i`. It panics beyond the end, which `requires` leaves out.
    #[verifier::external_body]
    pub(crate) fn get(&self, i: usize) -> (pair: (u8, u8))
        requires
            i < lane_pairs(*self).len(),
        ensures
            pair == lane_pairs(*self)[i as int],
    {
        self.inner[i]
    }
}

impl LanePairs {
    /// The pairs of `pairs`, in their order.
    pub fn from_pairs(pairs: &Vec<(u8, u8)>) -> (p: Self)
        ensures
            p@ == pairs@,
    {
        let mut p = LanePairs::new();
        let mut i: usize = 0;
        while i < pairs.len()
            invariant
                0 <= i <= pairs@.len(),
                p@ == pairs@.take(i as int),
            decreases pairs@.len() - i,
        {
            p.push(pairs[i]);
            i += 1;
            proof {
                assert(p@ =~= pairs@.take(i as int));
            }
        }
        proof {
            assert(pairs@.take(i as int) =~= pairs@);
        }
        p
    }

    /// The pairs, in their order.
    pub fn to_vec(&self) -> (pairs: Vec<(u8, u8)>)
        ensures
            pairs@ == self@,
    {
        let mut pairs: Vec<(u8, u8)> = Vec::new();
        let mut i: usize = 0;
        while i < self.len()
            invariant
                0 <= i <= self@.len(),
                pairs@ == self@.take(i as int),
            decreases self@.len() - i,
        {
            pairs.push(self.get(i));
            i += 1;
            proof {
                assert(pairs@ =~= self@.take(i as int));
            }
        }
        proof {
            assert(self@.take(i as int) =~= self@);
        }
        pairs
    }
}

/// A permitted transition from one link to the next.
pub struct LinkConnection {
    pub link_in: usize,
    pub link_out: usize,
    pub lanes: LanePairs,
    /// What to add to a lateral position on `link_in` to get the same place
    /// as seen from `link_out`.
    pub offset: i64,
}

/// A lane: how far along the road a position lies, and where the lane's
/// centre line runs.
#[derive(Clone, Debug)]
pub struct Lane {
    pub dist: LinearFunc,
    pub lat: CubicFunc,
}

/// What a following vehicle has to know of a vehicle ahead.
#[derive(Clone, Copy, Debug, PartialEq, Eq, Structural)]
pub struct Obstacle {
    pub veh: usize,
    pub pos: i64,
    pub vel: i64,
    pub lat: i64,
    pub half_wid: i64,
    pub lane: u8,
}

/// A directed road segment.
pub struct Link {
    pub id: usize,
    pub links_in: Vec<LinkConnection>,
    pub links_out: Vec<LinkConnection>,
    pub length: i64,
    pub lanes: Vec<Lane>,
    pub speed_limit: i64,
    /// One obstacle for each vehicle on the link.
    pub obstacles: Vec<Obstacle>,
}

/// The obstacle that stands for a vehicle until the next refresh.
pub open spec fn fresh_obstacle(veh: usize) -> Obstacle {
    Obstacle { veh, pos: 0, vel: 0, lat: 0, half_wid: 0, lane: 0 }
}

/// The index of the last obstacle of vehicle `veh` among the first `n`.
pub open spec fn last_index_of(obstacles: Seq<Obstacle>, veh: usize, n: int) -> Option<int>
    decreases n,
{
    if n <= 0 {
        None
    } else if obstacles[n - 1].veh == veh {
        Some(n - 1)
    } else {
        last_index_of(obstacles, veh, n - 1)
    }
}

/// The index of the first connection in `conns` that leads to `link`, at or
/// after `from`.
pub open spec fn first_to(conns: Seq<LinkConnection>, link: usize, from: int) -> Option<int>
    decreases conns.len() - from,
{
    if from < 0 || from >= conns.len() {
        None
    } else if conns[from].link_out == link {
        Some(from)
    } else {
        first_to(conns, link, from + 1)
    }
}

/// The order of obstacles along the link: by position.
pub open spec fn by_pos() -> spec_fn(Obstacle, Obstacle) -> bool {
    |a: Obstacle, b: Obstacle| a.pos <= b.pos
}

/// The obstacle `o` brought up to date: that of its vehicle as `vehs` has
/// it; `o` itself where `vehs` has no such vehicle.
pub open spec fn refresh(o: Obstacle, vehs: Seq<Option<Vehicle>>) -> Obstacle {
    if o.veh < vehs.len() && vehs[o.veh as int] is Some {
        vehs[o.veh as int]->0.spec_get_obstacle()
    } else {
        o
    }
}

/// Each obstacle brought up to date.
pub open spec fn refreshed(obstacles: Seq<Obstacle>, vehs: Seq<Option<Vehicle>>) -> Seq<Obstacle> {
    obstacles.map_values(|o: Obstacle| refresh(o, vehs))
}

impl Link {
    /// Where the vehicle `ego` will be across the road, and how much room it
    /// will take to either side, when it comes up to the obstacle `o` on this
    /// link, which it travels on `lane`. `dist` is the distance from the start
    /// of the vehicle's own link to the start of this one, and `offset` the
    /// lateral offset between the two. As far as the vehicle's path reaches,
    /// the path says where it will be, and a lane change takes the room of
    /// the whole remaining move; beyond the path it is the lane's centre line.
    pub open spec fn footprint(
        &self,
        ego: Vehicle,
        lane: u8,
        offset: i64,
        dist: i64,
        o: Obstacle,
    ) -> (i64, i64) {
        let pos = minus(o.pos, plus(times(HALF, ego.len), ONE));
        if ego.path is Some && plus(pos, dist) <= ego.path->0.max_x {
            let path = ego.path->0;
            let lat = path.spec_get_y(plus(pos, dist));
            if ego.changing_lanes {
                let half_delta = times(HALF, minus(path.spec_get_y2(), lat));
                (
                    plus(plus(lat, half_delta), offset),
                    plus(times(HALF, ego.wid), magnitude(half_delta)),
                )
            } else {
                (plus(lat, offset), times(HALF, ego.wid))
            }
        } else {
            (self.spec_get_lat(lane, pos), times(HALF, ego.wid))
        }
    }

    /// Whether the obstacle `o`, in another lane, is in the way of `ego`:
    /// less than half a metre would be left between the two.
    pub open spec fn blocks(
        &self,
        ego: Vehicle,
        lane: u8,
        offset: i64,
        dist: i64,
        o: Obstacle,
    ) -> bool {
        let (lat, half_wid) = self.footprint(ego, lane, offset, dist, o);
        minus(magnitude(minus(lat, o.lat)), plus(half_wid, o.half_wid)) < HALF
    }

    /// The lowest acceleration that the obstacles ahead allow the vehicle
    /// `ego`, searched from obstacle `j` of this link, which is the `r`-th
    /// link of the vehicle's route and is travelled on `lane`.
    ///
    /// Obstacles are taken in turn. One in the vehicle's lane is followed and
    /// ends the search; one in another lane is followed where it is in the
    /// way. Past the last obstacle the search goes on in the next link of the
    /// route, on the lane that the route takes there. Where the route goes on
    /// but names no lane for the next link, or the network lacks that link or
    /// the connection to it, the vehicle has to stop at the end of this link.
    /// Where the route ends, nothing more limits the vehicle.
    pub open spec fn bound_from(
        &self,
        j: int,
        ego: Vehicle,
        lane: u8,
        r: int,
        offset: i64,
        dist: i64,
        links: Seq<Option<Link>>,
    ) -> i64
        decreases ego.link_route@.len() - r, self.obstacles@.len() - j,
    {
        if 0 <= j < self.obstacles@.len() {
            let o = self.obstacles@[j];
            if o.lane == lane {
                ego.follow_acc(plus(dist, o.pos), o.vel)
            } else if self.blocks(ego, lane, offset, dist, o) {
                lesser(
                    ego.follow_acc(plus(dist, o.pos), o.vel),
                    self.bound_from(j + 1, ego, lane, r, offset, dist, links),
                )
            } else {
                self.bound_from(j + 1, ego, lane, r, offset, dist, links)
            }
        } else if 0 <= r && r + 1 < ego.link_route@.len() {
            let next = ego.link_route@[r + 1];
            if r + 1 < ego.lane_route@.len() && ego.lane_route@[r + 1] != NO_LANE && next
                < links.len() && links[next as int] is Some && self.connection_to(next) is Some {
                links[next as int]->0.bound_from(
                    0,
                    ego,
                    ego.lane_route@[r + 1],
                    r + 1,
                    plus(offset, self.spec_get_offset_to_link(next)),
                    plus(dist, self.length),
                    links,
                )
            } else {
                ego.follow_acc(plus(dist, self.length), 0)
            }
        } else {
            INFINITY
        }
    }

    /// The vehicles after those of the first `k` obstacles of this link have
    /// been given the acceleration that the obstacles ahead of them allow.
    pub open spec fn followed(
        &self,
        vehs: Seq<Option<Vehicle>>,
        links: Seq<Option<Link>>,
        k: int,
    ) -> Seq<Option<Vehicle>>
        decreases k,
    {
        if k <= 0 {
            vehs
        } else {
            let prev = self.followed(vehs, links, k - 1);
            let id = self.obstacles@[k - 1].veh;
            if id < prev.len() && prev[id as int] is Some {
                let v = prev[id as int]->0;
                prev.update(
                    id as int,
                    Some(
                        v.with_acc(
                            lesser(v.acc, self.bound_from(k, v.without_acc(), v.lane, 0, 0, 0,
                                links)),
                        ),
                    ),
                )
            } else {
                prev
            }
        }
    }

    /// The first outbound connection that leads to `link`.
    pub open spec fn connection_to(&self, link: usize) -> Option<int> {
        first_to(self.links_out@, link, 0)
    }

    pub open spec fn spec_get_offset_to_link(&self, link: usize) -> i64 {
        self.links_out@[self.connection_to(link)->0].offset
    }

    pub open spec fn spec_get_lat(&self, lane: u8, pos: i64) -> i64 {
        if lane < self.lanes@.len() {
            self.lanes@[lane as int].lat.spec_get_y(pos)
        } else {
            0
        }
    }

    /// The link is as `new` makes it: without lanes, connections or
    /// vehicles.
    pub open spec fn is_bare(&self, id: usize, length: i64, speed_limit: i64) -> bool {
        &&& self.id == id
        &&& self.length == length
        &&& self.speed_limit == speed_limit
        &&& self.links_in@.len() == 0
        &&& self.links_out@.len() == 0
        &&& self.lanes@.len() == 0
        &&& self.obstacles@.len() == 0
    }

    /// A link without lanes, connections or vehicles.
    pub fn new(id: usize, length: i64, speed_limit: i64) -> (link: Self)
        ensures
            link.is_bare(id, length, speed_limit),
    {
        Self {
            id,
            links_in: Vec::new(),
            links_out: Vec::new(),
            length,
            lanes: Vec::new(),
            speed_limit,
            obstacles: Vec::new(),
        }
    }

    /// Everything but the obstacles is the same in both links.
    pub open spec fn same_road(&self, other: &Link) -> bool {
        &&& self.id == other.id
        &&& self.links_in == other.links_in
        &&& self.links_out == other.links_out
        &&& self.length == other.length
        &&& self.lanes == other.lanes
        &&& self.speed_limit == other.speed_limit
    }

    /// Puts vehicle `veh` on the link, with an obstacle at the link's start
    /// that the next refresh fills in.
    pub fn add_veh(&mut self, veh: usize)
        ensures
            final(self).obstacles@ == old(self).obstacles@.insert(0, fresh_obstacle(veh)),
            final(self).same_road(old(self)),
    {
        self.obstacles.insert(
            0,
            Obstacle { veh, pos: 0, vel: 0, lat: 0, half_wid: 0, lane: 0 },
        );
    }

    /// Takes vehicle `veh` off the link: its last obstacle, if it has one.
    pub fn remove_veh(&mut self, veh: usize)
        ensures
            final(self).same_road(old(self)),
            match last_index_of(old(self).obstacles@, veh, old(self).obstacles@.len() as int) {
                Some(k) => final(self).obstacles@ == old(self).obstacles@.remove(k),
                None => final(self).obstacles@ == old(self).obstacles@,
            },
    {
        let mut i: usize = self.obstacles.len();
        while i > 0
            invariant
                0 <= i <= self.obstacles@.len(),
                *self == *old(self),
                last_index_of(self.obstacles@, veh, self.obstacles@.len() as int) == last_index_of(
                    self.obstacles@,
                    veh,
                    i as int,
                ),
            decreases i,
        {
            if self.obstacles[i - 1].veh == veh {
                self.obstacles.remove(i - 1);
                return ;
            }
            i -= 1;
        }
    }

    /// The index of the first outbound connection that leads to `link`.
    pub fn find_connection(&self, link: usize) -> (r: Option<usize>)
        ensures
            match r {
                Some(k) => self.connection_to(link) == Some(k as int) && k < self.links_out@.len()
                    && self.links_out@[k as int].link_out == link,
                None => self.connection_to(link) is None,
            },
    {
        let mut i: usize = 0;
        while i < self.links_out.len()
            invariant
                0 <= i <= self.links_out@.len(),
                self.connection_to(link) == first_to(self.links_out@, link, i as int),
            decreases self.links_out@.len() - i,
        {
            if self.links_out[i].link_out == link {
                return Some(i);
            }
            i += 1;
        }
        None
    }

    /// The lateral offset of the first outbound connection that leads to
    /// `link`; there must be one.
    #[verifier::when_used_as_spec(spec_get_offset_to_link)]
    pub fn get_offset_to_link(&self, link: usize) -> (offset: i64)
        requires
            self.connection_to(link) is Some,
        ensures
            offset == self.spec_get_offset_to_link(link),
    {
        match self.find_connection(link) {
            Some(k) => self.links_out[k].offset,
            None => 0,
        }
    }

    /// The lane pairings of the first outbound connection that leads to
    /// `link`; there must be one.
    pub fn get_lane_connections(&self, link: usize) -> (pairs: Vec<(u8, u8)>)
        requires
            self.connection_to(link) is Some,
        ensures
            pairs@ == self.links_out@[self.connection_to(link)->0].lanes@,
    {
        match self.find_connection(link) {
            Some(k) => self.links_out[k].lanes.to_vec(),
            None => Vec::new(),
        }
    }

    /// The vehicles on the link, in the order of their obstacles.
    pub fn get_vehicles(&self) -> (vehs: Vec<usize>)
        ensures
            vehs@ == self.obstacles@.map_values(|o: Obstacle| o.veh),
    {
        let mut vehs: Vec<usize> = Vec::new();
        let mut i: usize = 0;
        while i < self.obstacles.len()
            invariant
                0 <= i <= self.obstacles@.len(),
                vehs@ == self.obstacles@.take(i as int).map_values(|o: Obstacle| o.veh),
            decreases self.obstacles@.len() - i,
        {
            vehs.push(self.obstacles[i].veh);
            i += 1;
            proof {
                assert(vehs@ =~= self.obstacles@.take(i as int).map_values(|o: Obstacle| o.veh));
            }
        }
        proof {
            assert(self.obstacles@.take(i as int) =~= self.obstacles@);
        }
        vehs
    }

    /// Where the centre line of `lane` runs at `pos`; zero for a lane that
    /// the link lacks.
    #[verifier::when_used_as_spec(spec_get_lat)]
    pub fn get_lat(&self, lane: u8, pos: i64) -> (lat: i64)
        ensures
            lat == self.spec_get_lat(lane, pos),
    {
        if (lane as usize) < self.lanes.len() {
            self.lanes[lane as usize].lat.get_y(pos)
        } else {
            0
        }
    }

    /// Brings each obstacle up to date, in place.
    fn refresh_obstacles(&mut self, vehs: &IdMap<Vehicle>)
        ensures
            final(self).same_road(old(self)),
            final(self).obstacles@ == refreshed(old(self).obstacles@, vehs@),
    {
        let mut i: usize = 0;
        while i < self.obstacles.len()
            invariant
                0 <= i <= self.obstacles@.len(),
                self.same_road(old(self)),
                self.obstacles@.len() == old(self).obstacles@.len(),
                forall|k: int| 0 <= k < i ==> self.obstacles@[k]
                    == refresh(old(self).obstacles@[k], vehs@),
                forall|k: int| i <= k < self.obstacles@.len() ==> self.obstacles@[k]
                    == old(self).obstacles@[k],
            decreases self.obstacles@.len() - i,
        {
            let veh = self.obstacles[i].veh;
            match vehs.get(veh) {
                Some(v) => {
                    self.obstacles[i] = v.get_obstacle();
                },
                None => {},
            }
            i += 1;
        }
        proof {
            assert(self.obstacles@ =~= refreshed(old(self).obstacles@, vehs@));
        }
    }

    /// Brings the obstacles up to date with the vehicles and sorts them by
    /// position, obstacles at the same position staying in their order.
    pub fn update_obstacles(&mut self, vehs: &IdMap<Vehicle>)
        ensures
            final(self).same_road(old(self)),
            stably_sorted(final(self).obstacles@, refreshed(old(self).obstacles@, vehs@), by_pos()),
            final(self).obstacles@.to_multiset()
                == refreshed(old(self).obstacles@, vehs@).to_multiset(),
            final(self).obstacles@.len() == old(self).obstacles@.len(),
    {
        self.refresh_obstacles(vehs);
        let order = |a: &Obstacle, b: &Obstacle| -> (o: Ordering)
            ensures
                (o is Greater) <==> a.pos > b.pos,
            {
                if a.pos < b.pos {
                    Ordering::Less
                } else if a.pos > b.pos {
                    Ordering::Greater
                } else {
                    Ordering::Equal
                }
            };
        proof {
            assert(decides(order, by_pos()));
        }
        insertion_sort(&mut self.obstacles, order);
    }

    /// Limits the acceleration of every vehicle on the link by what the
    /// obstacles ahead of it allow. The obstacles must be up to date.
    pub fn car_follow_model(&self, vehs: &mut IdMap<Vehicle>, links: &IdMap<Link>)
        ensures
            final(vehs)@ == self.followed(old(vehs)@, links@, self.obstacles@.len() as int),
            final(vehs).free() == old(vehs).free(),
            old(vehs).wf() ==> final(vehs).wf(),
    {
        let num_obst = self.obstacles.len();
        let mut i: usize = 0;
        while i < num_obst
            invariant
                0 <= i <= num_obst,
                num_obst == self.obstacles@.len(),
                vehs@ == self.followed(old(vehs)@, links@, i as int),
                vehs.free() == old(vehs).free(),
                old(vehs).wf() ==> vehs.wf(),
            decreases num_obst - i,
        {
            match vehs.get_mut(self.obstacles[i].veh) {
                Some(veh) => {
                    let lane = veh.lane;
                    self.car_follow_inner(i + 1, veh, lane, 0, 0, 0, links);
                },
                None => {},
            }
            i += 1;
        }
    }

    /// Searches the obstacles from the `i`-th on, and then the links that
    /// follow on the route, for what limits the vehicle's acceleration.
    pub fn car_follow_inner(
        &self,
        i: usize,
        veh: &mut Vehicle,
        lane: u8,
        r: usize,
        offset: i64,
        dist: i64,
        links: &IdMap<Link>,
    )
        ensures
            *final(veh) == old(veh).with_acc(
                lesser(
                    old(veh).acc,
                    self.bound_from(i as int, old(veh).without_acc(), lane, r as int, offset, dist,
                        links@),
                ),
            ),
        decreases old(veh).link_route@.len() - r,
    {
        let ghost ego = veh.without_acc();
        let num_obst = self.obstacles.len();
        let mut j: usize = i;
        while j < num_obst
            invariant
                num_obst == self.obstacles@.len(),
                veh.without_acc() == ego,
                ego == old(veh).without_acc(),
                lesser(veh.acc, self.bound_from(j as int, ego, lane, r as int, offset, dist,
                    links@))
                    == lesser(
                    old(veh).acc,
                    self.bound_from(i as int, ego, lane, r as int, offset, dist, links@),
                ),
            decreases num_obst - j,
        {
            let obst = self.obstacles[j];
            // a vehicle in the same lane is followed, and nothing beyond it matters
            if obst.lane == lane {
                veh.follow(plus(dist, obst.pos), obst.vel);
                return ;
            }
            // a vehicle in another lane is followed where it is in the way
            let pos = minus(obst.pos, plus(times(HALF, veh.len), ONE));
            let (lat, halfwid) = match veh.path {
                Some(path) if plus(pos, dist) <= path.max_x => {
                    let lat = path.get_y(plus(pos, dist));
                    if veh.changing_lanes {
                        let half_delta = times(HALF, minus(path.get_y2(), lat));
                        (
                            plus(plus(lat, half_delta), offset),
                            plus(times(HALF, veh.wid), magnitude(half_delta)),
                        )
                    } else {
                        (plus(lat, offset), times(HALF, veh.wid))
                    }
                },
                _ => (self.get_lat(lane, pos), times(HALF, veh.wid)),
            };
            let gap = minus(magnitude(minus(lat, obst.lat)), plus(halfwid, obst.half_wid));
            proof {
                assert((lat, halfwid) == self.footprint(ego, lane, offset, dist, obst));
            }
            if gap < HALF {
                veh.follow(plus(dist, obst.pos), obst.vel);
            }
            j += 1;
        }
        // the search goes on in the next link of the route
        if r < usize::MAX {
            let r1 = r + 1;
            if let Some(next_link) = veh.get_link(r1) {
                if let Some(next_lane) = veh.get_lane(r1) {
                    if next_lane != NO_LANE {
                        if let Some(link) = links.get(next_link) {
                            if let Some(k) = self.find_connection(next_link) {
                                let offset = plus(offset, self.links_out[k].offset);
                                link.car_follow_inner(
                                    0,
                                    veh,
                                    next_lane,
                                    r1,
                                    offset,
                                    plus(dist, self.length),
                                    links,
                                );
                                return ;
                            }
                        }
                    }
                }
                // there is no way on: the vehicle stops at the end of this link
                veh.stop(plus(dist, self.length));
            }
        } else {
            proof {
                assert(ego.link_route@.len() == veh.link_route.len());
            }
        }
    }
}

} // verus!
