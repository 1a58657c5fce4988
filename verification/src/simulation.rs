//! The simulation: a road network, the vehicles on it and the stop lines
//! that gate them.
pub mod commitments;
pub mod lanes;
pub mod laws;
pub mod link;
pub mod listing;
pub mod motion;
pub mod route;
pub mod stopline;
pub mod vehicle;

use crate::fixed::{minus, INFINITY};
use crate::util::idmap::ids_where;
use crate::util::{stably_sorted, CubicFunc, IdMap, LinearFunc};
use crate::wire::{lane_pair_list, parse_lane_pairs};
use core::cmp::Ordering;
use link::{by_pos, fresh_obstacle, refreshed, Lane, LanePairs, Link, LinkConnection};
use motion::{same_roads, without_veh};
use route::{
    find_route_in, is_path, lemma_route_arrives, lemma_table_kept, lemma_way_is_shortest,
    lengths_positive, path_cost, route_from, table_exact, way, RouteTableEntry,
};
use std::collections::HashMap;
use stopline::{Conflict, Priority, StopLine, DEFAULT_SIGHT_DIST};
use vehicle::{Vehicle, NO_LINK};
use vstd::prelude::*;
use vstd::string::StringSliceAdditionalSpecFns;

pub use stopline::{StopLineType, TrafficLightState};
pub use vehicle::VehicleState;

verus! {

/// Why the simulation turned a request down.
#[derive(Clone, Copy, Debug, PartialEq, Eq, Structural)]
pub enum SimError {
    /// The request is not written as it should be.
    Protocol,
    /// The request names a link, lane, vehicle or stop line that does not
    /// exist.
    NotFound,
    /// The request asks for something that cannot be: a link without length
    /// or speed limit, an id that is taken.
    InvalidConfig,
}

/// How many lanes a link can have: lane numbers are bytes, and the highest
/// byte stands for "no lane".
pub const MAX_LANES: usize = 255;

/// A road network with its vehicles and stop lines, at some tick of a run.
pub struct Simulation {
    step: usize,
    step_delta: i64,
    links: IdMap<Link>,
    vehs: IdMap<Vehicle>,
    stoplines: IdMap<StopLine>,
    route_table: HashMap<usize, Vec<Vec<RouteTableEntry>>>,
    lane_route_period: usize,
}

/// The obstacles of each link of `after` are those of `before` once vehicle
/// `veh` has been taken off link `from`, if it was on one, and put at the
/// start of link `to`; nothing else differs.
pub open spec fn vehicle_moved(
    before: Seq<Option<Link>>,
    after: Seq<Option<Link>>,
    from: Option<usize>,
    to: usize,
    veh: usize,
) -> bool {
    &&& same_roads(before, after)
    &&& forall|i: int|
        0 <= i < before.len() && before[i] is Some ==> (#[trigger] after[i])->0.obstacles@ == ({
            let o = before[i]->0.obstacles@;
            let left = if from is Some && from->0 == i {
                without_veh(o, veh)
            } else {
                o
            };
            if i == to {
                left.insert(0, fresh_obstacle(veh))
            } else {
                left
            }
        })
}

/// Whether `c` is the connection from `src` to `dst` with the lane pairings
/// `pairs` and the lateral offset `offset`.
pub open spec fn is_connection(
    c: LinkConnection,
    src: usize,
    dst: usize,
    pairs: Seq<(u8, u8)>,
    offset: i64,
) -> bool {
    c.link_in == src && c.link_out == dst && c.lanes@ == pairs && c.offset == offset
}

/// The link `after` is the link `before` but for its connections; `ins`
/// and `outs` say whether the inbound and the outbound ones are the same
/// too.
pub open spec fn same_but_connections(before: Link, after: Link, ins: bool, outs: bool) -> bool {
    &&& after.id == before.id
    &&& after.length == before.length
    &&& after.speed_limit == before.speed_limit
    &&& after.lanes == before.lanes
    &&& after.obstacles == before.obstacles
    &&& ins ==> after.links_in == before.links_in
    &&& outs ==> after.links_out == before.links_out
}

/// The priority that an ordering stands for.
pub open spec fn priority_for(o: Ordering) -> Priority {
    match o {
        Ordering::Less => Priority::Lower,
        Ordering::Equal => Priority::Equal,
        Ordering::Greater => Priority::Higher,
    }
}

/// The priority that an ordering stands for.
#[verifier::when_used_as_spec(priority_for)]
pub fn priority_of(o: Ordering) -> (p: Priority)
    ensures
        p == priority_for(o),
{
    match o {
        Ordering::Less => Priority::Lower,
        Ordering::Equal => Priority::Equal,
        Ordering::Greater => Priority::Higher,
    }
}

/// The stop line `after` is the stop line `before` but for its conflicts.
pub open spec fn same_but_conflicts(before: StopLine, after: StopLine) -> bool {
    &&& after.id == before.id
    &&& after.link == before.link
    &&& after.lane == before.lane
    &&& after.pos == before.pos
    &&& after.len == before.len
    &&& after.kind == before.kind
    &&& after.sight_pos == before.sight_pos
    &&& after.committed_vehs == before.committed_vehs
    &&& after.time_until_enter == before.time_until_enter
    &&& after.min_arrival == before.min_arrival
    &&& after.clear_before == before.clear_before
}

/// Every lane pairing names a lane that the link on its side has.
pub open spec fn pairs_fit(pairs: Seq<(u8, u8)>, lanes_in: nat, lanes_out: nat) -> bool {
    forall|i: int| 0 <= i < pairs.len() ==> (#[trigger] pairs[i]).0 < lanes_in
        && pairs[i].1 < lanes_out
}

/// The vehicles after the links with ids below `n` have each put their
/// vehicles under the car-following law.
pub open spec fn all_followed(
    links: Seq<Option<Link>>,
    vehs: Seq<Option<Vehicle>>,
    n: int,
) -> Seq<Option<Vehicle>>
    decreases n,
{
    if n <= 0 {
        vehs
    } else {
        let prev = all_followed(links, vehs, n - 1);
        if n - 1 < links.len() && links[n - 1] is Some {
            links[n - 1]->0.followed(prev, links, links[n - 1]->0.obstacles@.len() as int)
        } else {
            prev
        }
    }
}

/// Whether `lines_after` and `vehs_after` are the stop lines and vehicles
/// after stop line `k` has made its tick.
pub open spec fn one_line_stepped(
    links: Seq<Option<Link>>,
    lines: Seq<Option<StopLine>>,
    vehs: Seq<Option<Vehicle>>,
    k: int,
    lines_after: Seq<Option<StopLine>>,
    vehs_after: Seq<Option<Vehicle>>,
) -> bool {
    if 0 <= k < lines.len() && lines[k] is Some {
        let line = lines[k]->0;
        let g = line.stepped(links, line.spec_is_clear(lines), vehs);
        &&& lines_after.len() == lines.len()
        &&& forall|j: int| 0 <= j < lines.len() && j != k ==> lines_after[j] == lines[j]
        &&& lines_after[k] is Some
        &&& lines_after[k]->0.same_line(&line)
        &&& lines_after[k]->0.committed_vehs@ == g.committed
        &&& lines_after[k]->0.clear_before == g.clear_before
        &&& lines_after[k]->0.time_until_enter == INFINITY
        &&& lines_after[k]->0.min_arrival == usize::MAX
        &&& vehs_after == g.vehs
    } else {
        lines_after == lines && vehs_after == vehs
    }
}

/// Whether `lines_n` and `vehs_n` are the stop lines and vehicles after the
/// stop lines with ids below `n` have made their tick, one after the other.
pub open spec fn lines_stepped(
    links: Seq<Option<Link>>,
    lines: Seq<Option<StopLine>>,
    vehs: Seq<Option<Vehicle>>,
    n: nat,
    lines_n: Seq<Option<StopLine>>,
    vehs_n: Seq<Option<Vehicle>>,
) -> bool
    decreases n,
{
    if n == 0 {
        lines_n == lines && vehs_n == vehs
    } else {
        exists|lines_p: Seq<Option<StopLine>>, vehs_p: Seq<Option<Vehicle>>|
            #![trigger one_line_stepped(links, lines_p, vehs_p, n - 1, lines_n, vehs_n)]
            lines_stepped(links, lines, vehs, (n - 1) as nat, lines_p, vehs_p) && one_line_stepped(
                links,
                lines_p,
                vehs_p,
                n - 1,
                lines_n,
                vehs_n,
            )
    }
}

/// Whether `links_after` and `vehs_after` are the network and vehicles after
/// vehicle `k` has been held to the speed limits and moved through a tick of
/// `delta`.
pub open spec fn one_advanced(
    delta: i64,
    links: Seq<Option<Link>>,
    vehs: Seq<Option<Vehicle>>,
    k: int,
    links_after: Seq<Option<Link>>,
    vehs_after: Seq<Option<Vehicle>>,
) -> bool {
    if 0 <= k < vehs.len() && vehs[k] is Some {
        let v = vehs[k]->0;
        &&& vehs_after.len() == vehs.len()
        &&& forall|j: int| 0 <= j < vehs.len() && j != k ==> vehs_after[j] == vehs[j]
        &&& vehs_after[k] is Some
        &&& v.with_acc(v.spec_limited_acc(links)).integrated(
            delta,
            links,
            vehs_after[k]->0,
            links_after,
        )
    } else {
        links_after == links && vehs_after == vehs
    }
}

/// Whether `links_n` and `vehs_n` are the network and vehicles after the
/// vehicles with ids below `n` have been moved, one after the other.
pub open spec fn all_advanced(
    delta: i64,
    links: Seq<Option<Link>>,
    vehs: Seq<Option<Vehicle>>,
    n: nat,
    links_n: Seq<Option<Link>>,
    vehs_n: Seq<Option<Vehicle>>,
) -> bool
    decreases n,
{
    if n == 0 {
        links_n == links && vehs_n == vehs
    } else {
        exists|links_p: Seq<Option<Link>>, vehs_p: Seq<Option<Vehicle>>|
            #![trigger one_advanced(delta, links_p, vehs_p, n - 1, links_n, vehs_n)]
            all_advanced(delta, links, vehs, (n - 1) as nat, links_p, vehs_p) && one_advanced(
                delta,
                links_p,
                vehs_p,
                n - 1,
                links_n,
                vehs_n,
            )
    }
}

/// The route that is found is a path through the network, and it ends at
/// the destination or is the first link alone; where it ends at the
/// destination, it is as long as the shortest way.
pub proof fn lemma_route_found(links: Seq<Option<Link>>, src: usize, dst: usize)
    ensures
        is_path(links, seq![src] + route_from(links, src, dst, links.len())),
        (seq![src] + route_from(links, src, dst, links.len())).last() == dst || seq![src]
            + route_from(links, src, dst, links.len()) == seq![src],
        way(links, src, dst, links.len()).dist < INFINITY ==> (seq![src] + route_from(
            links,
            src,
            dst,
            links.len(),
        )).last() == dst,
        (seq![src] + route_from(links, src, dst, links.len())).last() == dst ==> path_cost(
            links,
            seq![src] + route_from(links, src, dst, links.len()),
        ) == way(links, src, dst, links.len()).dist,
{
    let route = seq![src] + route_from(links, src, dst, links.len());
    if way(links, src, dst, links.len()).dist < INFINITY {
        lemma_route_arrives(links, src, dst, links.len());
    } else {
        assert(route =~= seq![src]);
        assert(src != dst);
    }
}

/// One more stop line has made its tick.
proof fn lemma_lines_step(
    links: Seq<Option<Link>>,
    lines: Seq<Option<StopLine>>,
    vehs: Seq<Option<Vehicle>>,
    n: nat,
    lines_p: Seq<Option<StopLine>>,
    vehs_p: Seq<Option<Vehicle>>,
    lines_n: Seq<Option<StopLine>>,
    vehs_n: Seq<Option<Vehicle>>,
)
    requires
        n > 0,
        lines_stepped(links, lines, vehs, (n - 1) as nat, lines_p, vehs_p),
        one_line_stepped(links, lines_p, vehs_p, n - 1, lines_n, vehs_n),
    ensures
        lines_stepped(links, lines, vehs, n, lines_n, vehs_n),
{
}

/// One more vehicle has been moved.
proof fn lemma_advance_step(
    delta: i64,
    links: Seq<Option<Link>>,
    vehs: Seq<Option<Vehicle>>,
    n: nat,
    links_p: Seq<Option<Link>>,
    vehs_p: Seq<Option<Vehicle>>,
    links_n: Seq<Option<Link>>,
    vehs_n: Seq<Option<Vehicle>>,
)
    requires
        n > 0,
        all_advanced(delta, links, vehs, (n - 1) as nat, links_p, vehs_p),
        one_advanced(delta, links_p, vehs_p, n - 1, links_n, vehs_n),
    ensures
        all_advanced(delta, links, vehs, n, links_n, vehs_n),
{
}

impl Simulation {
    /// The links, each at its id.
    pub closed spec fn links(&self) -> Seq<Option<Link>> {
        self.links@
    }

    /// The network has no more links than there are ids, so that no link has
    /// the id that stands for "no link".
    pub proof fn lemma_links_fit(&self)
        ensures
            self.links().len() <= usize::MAX,
    {
        self.links.lemma_len_fits();
    }

    /// The vehicles, each at its id.
    pub closed spec fn vehicles(&self) -> Seq<Option<Vehicle>> {
        self.vehs@
    }

    /// The vehicle ids that are free to be given out again, the next one
    /// last.
    pub closed spec fn free_vehicle_ids(&self) -> Seq<usize> {
        self.vehs.free()
    }

    /// The stop lines, each at its id.
    pub closed spec fn stop_lines(&self) -> Seq<Option<StopLine>> {
        self.stoplines@
    }

    /// The number of ticks made so far.
    pub closed spec fn spec_get_step(&self) -> usize {
        self.step
    }

    /// The length of a tick, in seconds.
    pub closed spec fn delta(&self) -> i64 {
        self.step_delta
    }

    /// Every how many ticks a vehicle thinks about its lanes.
    pub closed spec fn period(&self) -> usize {
        self.lane_route_period
    }

    /// The simulation's books are in order.
    pub closed spec fn wf(&self) -> bool {
        &&& self.links.wf()
        &&& self.vehs.wf()
        &&& self.stoplines.wf()
        &&& self.lane_route_period > 0
        &&& table_exact(self.links@, self.route_table@)
        &&& lengths_positive(self.links@)
        &&& lanes::connections_fit(self.links@)
        &&& forall|i: int|
            0 <= i < self.stoplines@.len() && (#[trigger] self.stoplines@[i]) is Some
                ==> self.stoplines@[i]->0.wf()
    }

    /// In a simulation whose books are in order, every lane pairing of every
    /// connection leads to a lane that the link at the connection's end has,
    /// every link has a length above zero, and no stop line has a vehicle
    /// committed twice.
    pub proof fn lemma_wf_network(&self)
        requires
            self.wf(),
        ensures
            lanes::connections_fit(self.links()),
            lengths_positive(self.links()),
            forall|i: int|
                0 <= i < self.stop_lines().len() && (#[trigger] self.stop_lines()[i]) is Some
                    ==> self.stop_lines()[i]->0.wf(),
    {
    }

    /// The two simulations differ in nothing but what is named: `links`,
    /// `vehicles` (with the free vehicle ids), `stop_lines`.
    pub open spec fn same_but(
        &self,
        other: &Simulation,
        links: bool,
        vehicles: bool,
        stop_lines: bool,
    ) -> bool {
        &&& links || self.links() == other.links()
        &&& vehicles || (self.vehicles() == other.vehicles() && self.free_vehicle_ids()
            == other.free_vehicle_ids())
        &&& stop_lines || self.stop_lines() == other.stop_lines()
        &&& self.spec_get_step() == other.spec_get_step()
        &&& self.delta() == other.delta()
        &&& self.period() == other.period()
    }

    /// The link with id `id`.
    pub open spec fn link(&self, id: usize) -> Link {
        self.links()[id as int]->0
    }

    /// The vehicle with id `id`.
    pub open spec fn vehicle(&self, id: usize) -> Vehicle {
        self.vehicles()[id as int]->0
    }

    /// The stop line with id `id`.
    pub open spec fn stop_line(&self, id: usize) -> StopLine {
        self.stop_lines()[id as int]->0
    }

    /// All stop lines but the one with id `id` are the same in both
    /// simulations.
    pub open spec fn other_stop_lines_same(&self, other: &Simulation, id: usize) -> bool {
        &&& self.stop_lines().len() == other.stop_lines().len()
        &&& forall|i: int|
            0 <= i < self.stop_lines().len() && i != id ==> self.stop_lines()[i]
                == other.stop_lines()[i]
    }

    /// All links but those with ids `a` and `b` are the same in both
    /// simulations.
    pub open spec fn other_links_same(&self, other: &Simulation, a: usize, b: usize) -> bool {
        &&& self.links().len() == other.links().len()
        &&& forall|i: int|
            0 <= i < self.links().len() && i != a && i != b ==> self.links()[i] == other.links()[i]
    }

    /// All vehicles but the one with id `id` are the same in both
    /// simulations.
    pub open spec fn other_vehicles_same(&self, other: &Simulation, id: usize) -> bool {
        &&& self.vehicles().len() == other.vehicles().len()
        &&& self.free_vehicle_ids() == other.free_vehicle_ids()
        &&& forall|i: int|
            0 <= i < self.vehicles().len() && i != id ==> self.vehicles()[i] == other.vehicles()[i]
    }

    /// An empty simulation whose ticks are `step_delta` seconds long.
    pub fn new(step_delta: i64) -> (sim: Self)
        ensures
            sim.wf(),
            sim.links().len() == 0,
            sim.vehicles().len() == 0,
            sim.free_vehicle_ids().len() == 0,
            sim.stop_lines().len() == 0,
            sim.spec_get_step() == 0,
            sim.delta() == step_delta,
            sim.period() == 5,
    {
        broadcast use vstd::std_specs::hash::group_hash_axioms;

        Self {
            step: 0,
            step_delta,
            links: IdMap::new(),
            vehs: IdMap::new(),
            stoplines: IdMap::new(),
            route_table: HashMap::new(),
            lane_route_period: 5,
        }
    }

    /// Whether `out` is this simulation with one more vehicle, known to the
    /// outside world as `user_id` and kept under `id`: the id that was freed
    /// last, or the next new one. The vehicle is not on the network yet.
    pub open spec fn vehicle_added(&self, out: &Simulation, user_id: usize, id: usize) -> bool {
        &&& id == if self.free_vehicle_ids().len() > 0 {
            self.free_vehicle_ids().last()
        } else {
            self.vehicles().len() as usize
        }
        &&& !self.has_vehicle(id)
        &&& out.has_vehicle(id)
        &&& out.vehicles()[id as int]->0.is_new(user_id, id)
        &&& out.vehicles().len() == if id < self.vehicles().len() {
            self.vehicles().len()
        } else {
            self.vehicles().len() + 1
        }
        &&& forall|i: int|
            0 <= i < self.vehicles().len() && i != id ==> out.vehicles()[i]
                == self.vehicles()[i]
        &&& out.same_but(self, false, true, false)
    }

    /// Adds a vehicle that the outside world knows as `user_id`, and returns
    /// the id under which the simulation keeps it: the id that was freed
    /// last, or the next new one. The vehicle is not on the network yet.
    pub fn add_vehicle(&mut self, user_id: usize) -> (id: usize)
        requires
            old(self).wf(),
        ensures
            final(self).wf(),
            old(self).vehicle_added(final(self), user_id, id),
    {
        let id = self.vehs.insert_free(Vehicle::new(user_id));
        match self.vehs.get_mut(id) {
            Some(veh) => {
                veh.id = id;
            },
            None => {},
        }
        id
    }

    /// Whether the simulation has a vehicle with id `id`.
    pub open spec fn has_vehicle(&self, id: usize) -> bool {
        id < self.vehicles().len() && self.vehicles()[id as int] is Some
    }

    /// Whether the network has a link with id `id`.
    pub open spec fn has_link(&self, id: usize) -> bool {
        id < self.links().len() && self.links()[id as int] is Some
    }

    /// Whether the simulation has a stop line with id `id`.
    pub open spec fn has_stop_line(&self, id: usize) -> bool {
        id < self.stop_lines().len() && self.stop_lines()[id as int] is Some
    }

    /// Whether link `link` exists and has a lane `lane`.
    pub open spec fn has_lane(&self, link: usize, lane: u8) -> bool {
        self.has_link(link) && lane < self.links()[link as int]->0.lanes@.len()
    }

    /// Whether `out` and `r` are what `add_link` leaves of this simulation:
    /// the link is added where `length` and `speed_limit` are positive and
    /// the id is free, and turned down otherwise.
    pub open spec fn link_added(
        &self,
        out: &Simulation,
        id: usize,
        length: i64,
        speed_limit: i64,
        r: Result<(), SimError>,
    ) -> bool {
        &&& out.same_but(self, true, false, false)
        &&& r is Err <==> (length <= 0 || speed_limit <= 0 || self.has_link(id) || id
            == usize::MAX)
        &&& r is Err ==> r == Err::<(), SimError>(SimError::InvalidConfig) && out.links()
            == self.links()
        &&& r is Ok ==> {
            &&& out.links().len() == if id < self.links().len() {
                self.links().len() as int
            } else {
                id + 1
            }
            &&& out.has_link(id)
            &&& out.links()[id as int]->0.is_bare(id, length, speed_limit)
            &&& forall|i: int|
                0 <= i < out.links().len() && i != id ==> out.links()[i] == if i
                    < self.links().len() {
                    self.links()[i]
                } else {
                    None
                }
        }
    }

    /// Adds a link of `length` metres with a speed limit of `speed_limit`
    /// metres per second; both must be positive, and the id free.
    pub fn add_link(
        &mut self,
        id: usize,
        length: i64,
        speed_limit: i64,
    ) -> (r: Result<(), SimError>)
        requires
            old(self).wf(),
        ensures
            final(self).wf(),
            old(self).link_added(final(self), id, length, speed_limit, r),
    {
        if length <= 0 || speed_limit <= 0 || id == usize::MAX || self.links.has_key(id) {
            return Err(SimError::InvalidConfig);
        }
        self.links.insert(id, Link::new(id, length, speed_limit));
        // the ways are worked out afresh for the network as it is now
        self.route_table = HashMap::new();
        Ok(())
    }

    /// Whether `out` and `r` are what `add_lane` leaves of this simulation:
    /// the lane is added to the link, which must exist and have room for it.
    pub open spec fn lane_added(
        &self,
        out: &Simulation,
        link: usize,
        dist_func: LinearFunc,
        lat_func: CubicFunc,
        r: Result<(), SimError>,
    ) -> bool {
        &&& out.same_but(self, true, false, false)
        &&& !self.has_link(link) ==> r == Err::<(), SimError>(SimError::NotFound)
        &&& self.has_link(link) && self.links()[link as int]->0.lanes@.len() >= MAX_LANES
            ==> r == Err::<(), SimError>(SimError::InvalidConfig)
        &&& self.has_link(link) && self.links()[link as int]->0.lanes@.len() < MAX_LANES
            ==> r is Ok
        &&& r is Err ==> out.links() == self.links()
        &&& r is Ok ==> {
            let before = self.links()[link as int]->0;
            let after = out.links()[link as int]->0;
            &&& out.links().len() == self.links().len()
            &&& out.has_link(link)
            &&& after.lanes@ == before.lanes@.push(Lane { dist: dist_func, lat: lat_func })
            &&& after.id == before.id
            &&& after.length == before.length
            &&& after.speed_limit == before.speed_limit
            &&& after.links_in == before.links_in
            &&& after.links_out == before.links_out
            &&& after.obstacles == before.obstacles
            &&& forall|i: int|
                0 <= i < self.links().len() && i != link ==> out.links()[i] == self.links()[i]
        }
    }

    /// Adds a lane to link `link`, to the right of the lanes that it has.
    pub fn add_lane(
        &mut self,
        link: usize,
        dist_func: LinearFunc,
        lat_func: CubicFunc,
    ) -> (r: Result<(), SimError>)
        requires
            old(self).wf(),
        ensures
            final(self).wf(),
            old(self).lane_added(final(self), link, dist_func, lat_func, r),
    {
        match self.links.get(link) {
            Some(l) => {
                if l.lanes.len() >= MAX_LANES {
                    return Err(SimError::InvalidConfig);
                }
            },
            None => {
                return Err(SimError::NotFound);
            },
        }
        match self.links.get_mut(link) {
            Some(l) => {
                l.lanes.push(Lane { dist: dist_func, lat: lat_func });
            },
            None => {},
        }
        proof {
            lemma_table_kept(old(self).links@, self.links@, self.route_table@);
        }
        Ok(())
    }

    /// Whether `pos` is a position on link `link`: from its start to its end.
    pub open spec fn has_pos(&self, link: usize, pos: i64) -> bool {
        self.has_link(link) && 0 <= pos <= self.link(link).length
    }

    /// Whether `out` and `r` are what `set_vehicle_pos` leaves of this
    /// simulation: the vehicle is put on the lane of the link, both of which
    /// must exist, as the vehicle must, at a position that the link has.
    pub open spec fn vehicle_placed(
        &self,
        out: &Simulation,
        id: usize,
        link: usize,
        lane: u8,
        pos: i64,
        r: Result<(), SimError>,
    ) -> bool {
        &&& out.same_but(self, true, true, false)
        &&& r is Ok <==> self.has_vehicle(id) && self.has_lane(link, lane) && self.has_pos(
            link,
            pos,
        )
        &&& r is Err ==> r == Err::<(), SimError>(
            if self.has_vehicle(id) && self.has_lane(link, lane) {
                SimError::InvalidConfig
            } else {
                SimError::NotFound
            },
        ) && out.links() == self.links() && out.vehicles() == self.vehicles()
            && out.free_vehicle_ids() == self.free_vehicle_ids()
        &&& r is Ok ==> {
            let before = self.vehicle(id);
            let after = out.vehicle(id);
            let placed = Vehicle {
                link,
                lane,
                pos,
                link_route: after.link_route,
                lane_route: after.lane_route,
                ..before
            };
            &&& out.has_vehicle(id)
            &&& out.other_vehicles_same(self, id)
            &&& after.link_route@ == seq![link]
            &&& after.lane_route@ == seq![lane]
            &&& after == placed.spec_update_path(self.links())
            &&& vehicle_moved(
                self.links(),
                out.links(),
                before.spec_get_link(0),
                link,
                id,
            )
        }
    }

    /// Puts vehicle `id` at `pos` on lane `lane` of link `link`. The vehicle's
    /// route is then that link alone, and its path is brought up to date. A
    /// vehicle, link or lane that the simulation lacks is not found; a
    /// position before the link's start or beyond its end is turned down.
    pub fn set_vehicle_pos(
        &mut self,
        id: usize,
        link: usize,
        lane: u8,
        pos: i64,
    ) -> (r: Result<(), SimError>)
        requires
            old(self).wf(),
        ensures
            final(self).wf(),
            old(self).vehicle_placed(final(self), id, link, lane, pos, r),
    {
        let length = match self.links.get(link) {
            Some(l) => {
                if lane as usize >= l.lanes.len() {
                    return Err(SimError::NotFound);
                }
                l.length
            },
            None => {
                return Err(SimError::NotFound);
            },
        };
        if !self.vehs.has_key(id) {
            return Err(SimError::NotFound);
        }
        if pos < 0 || pos > length {
            return Err(SimError::InvalidConfig);
        }
        let from = match self.vehs.get_mut(id) {
            Some(veh) => {
                let from = veh.get_link(0);
                veh.set_pos(link, lane, pos);
                veh.update_path(&self.links);
                from
            },
            None => {
                return Err(SimError::NotFound);
            },
        };
        match from {
            Some(old_link) => {
                match self.links.get_mut(old_link) {
                    Some(l) => {
                        l.remove_veh(id);
                    },
                    None => {},
                }
            },
            None => {},
        }
        let ghost mid = self.links@;
        match self.links.get_mut(link) {
            Some(l) => {
                l.add_veh(id);
            },
            None => {},
        }
        proof {
            let before = old(self).links@;
            let after = self.links@;
            assert forall|i: int| 0 <= i < before.len() && before[i] is Some implies (
            #[trigger] after[i])->0.obstacles@ == ({
                let o = before[i]->0.obstacles@;
                let left = if from is Some && from->0 == i {
                    without_veh(o, id)
                } else {
                    o
                };
                if i == link {
                    left.insert(0, fresh_obstacle(id))
                } else {
                    left
                }
            }) by {
                if i != link {
                    assert(after[i] == mid[i]);
                }
                if !(from is Some && from->0 == i) {
                    assert(mid[i] == before[i]);
                }
            }
            assert forall|i: int| 0 <= i < before.len() && before[i] is Some implies (
            #[trigger] after[i])->0.same_road(&before[i]->0) by {
                if i != link {
                    assert(after[i] == mid[i]);
                }
                if !(from is Some && from->0 == i) {
                    assert(mid[i] == before[i]);
                }
            }
            assert forall|i: int| 0 <= i < before.len() implies ((#[trigger] after[i]) is Some
                <==> before[i] is Some) by {
                if i != link {
                    assert(after[i] == mid[i]);
                }
                if !(from is Some && from->0 == i) {
                    assert(mid[i] == before[i]);
                }
            }
            lemma_table_kept(before, after, self.route_table@);
        }
        Ok(())
    }

    /// Whether `out` and `r` are what `set_vehicle_dest` leaves of this
    /// simulation: the vehicle, which must be on the network, is given the
    /// route from its link towards `link`, which must exist.
    pub open spec fn vehicle_routed(
        &self,
        out: &Simulation,
        id: usize,
        link: usize,
        r: Result<(), SimError>,
    ) -> bool {
        &&& out.links() == self.links()
        &&& out.stop_lines() == self.stop_lines()
        &&& out.spec_get_step() == self.spec_get_step()
        &&& out.delta() == self.delta()
        &&& out.period() == self.period()
        &&& r is Err <==> !(self.has_vehicle(id) && self.vehicle(id).link_route@.len() > 0
            && self.has_link(link))
        &&& r is Err ==> r == Err::<(), SimError>(SimError::NotFound) && out.vehicles()
            == self.vehicles() && out.free_vehicle_ids() == self.free_vehicle_ids()
        &&& r is Ok ==> {
            let before = self.vehicle(id);
            let after = out.vehicle(id);
            let src = before.link_route@[0];
            let route = seq![src] + route_from(self.links(), src, link, self.links().len());
            &&& out.has_vehicle(id)
            &&& out.other_vehicles_same(self, id)
            &&& after.link_route@ == if src == before.link {
                route
            } else {
                route.insert(0, before.link)
            }
            &&& after.lane_dists@.len() == 0
            &&& after == (Vehicle {
                link_route: after.link_route,
                lane_dists: after.lane_dists,
                ..before
            })
        }
    }

    /// Gives vehicle `id`, which must be on the network, the route from its
    /// link towards link `link`.
    pub fn set_vehicle_dest(&mut self, id: usize, link: usize) -> (r: Result<(), SimError>)
        requires
            old(self).wf(),
        ensures
            final(self).wf(),
            old(self).vehicle_routed(final(self), id, link, r),
    {
        if !self.links.has_key(link) {
            return Err(SimError::NotFound);
        }
        let src_link = match self.vehs.get(id) {
            Some(veh) => match veh.get_link(0) {
                Some(src_link) => src_link,
                None => {
                    return Err(SimError::NotFound);
                },
            },
            None => {
                return Err(SimError::NotFound);
            },
        };
        let route = self.find_route(src_link, link);
        match self.vehs.get_mut(id) {
            Some(veh) => {
                veh.set_route(route);
            },
            None => {},
        }
        Ok(())
    }

    /// Whether `out` and `r` are what `connect` leaves of this simulation: a
    /// connection from `src_link` to `dst_link` with the lane pairings
    /// `pairs` and the lateral offset `offset` is added to the outbound
    /// connections of the one and to the inbound ones of the other. Both links
    /// must exist, and every pairing must name lanes that they have.
    pub open spec fn connected(
        &self,
        out: &Simulation,
        src_link: usize,
        dst_link: usize,
        pairs: Seq<(u8, u8)>,
        offset: i64,
        r: Result<(), SimError>,
    ) -> bool {
        &&& out.same_but(self, true, false, false)
        &&& r is Err <==> !(self.has_link(src_link) && self.has_link(dst_link) && pairs_fit(
            pairs,
            self.link(src_link).lanes@.len(),
            self.link(dst_link).lanes@.len(),
        ))
        &&& r is Err ==> r == Err::<(), SimError>(SimError::NotFound) && out.links() == self.links()
        &&& r is Ok ==> {
            let outs = out.link(src_link).links_out@;
            let ins = out.link(dst_link).links_in@;
            &&& out.other_links_same(self, src_link, dst_link)
            &&& out.has_link(src_link)
            &&& out.has_link(dst_link)
            &&& outs.len() == self.link(src_link).links_out@.len() + 1
            &&& outs.drop_last() == self.link(src_link).links_out@
            &&& is_connection(outs.last(), src_link, dst_link, pairs, offset)
            &&& ins.len() == self.link(dst_link).links_in@.len() + 1
            &&& ins.drop_last() == self.link(dst_link).links_in@
            &&& is_connection(ins.last(), src_link, dst_link, pairs, offset)
            &&& same_but_connections(
                self.link(src_link),
                out.link(src_link),
                src_link != dst_link,
                false,
            )
            &&& same_but_connections(
                self.link(dst_link),
                out.link(dst_link),
                false,
                src_link != dst_link,
            )
        }
    }

    /// Lets traffic pass from link `src_link` to link `dst_link`. `lanes`
    /// writes the lane pairings, such as `0:0;1:2`, and every pairing must
    /// name lanes that the two links have. `offset` is what to add to a
    /// lateral position on `src_link` to get the same place on `dst_link`.
    pub fn add_connection(
        &mut self,
        src_link: usize,
        dst_link: usize,
        lanes: &str,
        offset: i64,
    ) -> (r: Result<(), SimError>)
        requires
            old(self).wf(),
        ensures
            final(self).wf(),
            match lane_pair_list(lanes.spec_bytes(), 0) {
                Some(pairs) => old(self).connected(final(self), src_link, dst_link, pairs, offset,
                    r),
                None => r == Err::<(), SimError>(SimError::Protocol) && final(self).same_but(
                    old(self),
                    false,
                    false,
                    false,
                ),
            },
    {
        match parse_lane_pairs(lanes) {
            Some(pairs) => self.connect(src_link, dst_link, &pairs, offset),
            None => Err(SimError::Protocol),
        }
    }

    /// Lets traffic pass from link `src_link` to link `dst_link`, between the
    /// lanes that `pairs` pairs.
    #[verifier::loop_isolation(false)]
    pub fn connect(
        &mut self,
        src_link: usize,
        dst_link: usize,
        pairs: &Vec<(u8, u8)>,
        offset: i64,
    ) -> (r: Result<(), SimError>)
        requires
            old(self).wf(),
        ensures
            final(self).wf(),
            old(self).connected(final(self), src_link, dst_link, pairs@, offset, r),
    {
        let lanes_in = match self.links.get(src_link) {
            Some(l) => l.lanes.len(),
            None => {
                return Err(SimError::NotFound);
            },
        };
        let lanes_out = match self.links.get(dst_link) {
            Some(l) => l.lanes.len(),
            None => {
                return Err(SimError::NotFound);
            },
        };
        let mut i: usize = 0;
        while i < pairs.len()
            invariant
                0 <= i <= pairs@.len(),
                pairs_fit(pairs@.take(i as int), lanes_in as nat, lanes_out as nat),
            decreases pairs@.len() - i,
        {
            if pairs[i].0 as usize >= lanes_in || pairs[i].1 as usize >= lanes_out {
                proof {
                    if pairs_fit(pairs@, lanes_in as nat, lanes_out as nat) {
                        assert(pairs@[i as int].0 < lanes_in);
                    }
                }
                return Err(SimError::NotFound);
            }
            i += 1;
            proof {
                assert forall|k: int| 0 <= k < pairs@.take(i as int).len() implies (
                #[trigger] pairs@.take(i as int)[k]).0 < lanes_in && pairs@.take(i as int)[k].1
                    < lanes_out by {
                    if k < i - 1 {
                        assert(pairs@.take(i - 1)[k] == pairs@[k]);
                    }
                }
            }
        }
        proof {
            assert(pairs@.take(i as int) =~= pairs@);
        }
        match self.links.get_mut(src_link) {
            Some(l) => {
                l.links_out.push(
                    LinkConnection {
                        link_in: src_link,
                        link_out: dst_link,
                        lanes: LanePairs::from_pairs(pairs),
                        offset,
                    },
                );
            },
            None => {},
        }
        match self.links.get_mut(dst_link) {
            Some(l) => {
                l.links_in.push(
                    LinkConnection {
                        link_in: src_link,
                        link_out: dst_link,
                        lanes: LanePairs::from_pairs(pairs),
                        offset,
                    },
                );
            },
            None => {},
        }
        proof {
            let outs = self.links@[src_link as int]->0.links_out@;
            let ins = self.links@[dst_link as int]->0.links_in@;
            assert(outs.drop_last() =~= old(self).links@[src_link as int]->0.links_out@);
            assert(ins.drop_last() =~= old(self).links@[dst_link as int]->0.links_in@);
        }
        // the ways that were remembered may be shorter now
        self.route_table = HashMap::new();
        Ok(())
    }

    /// The route from `src_link` towards `dst_link`: the links to travel, the
    /// first of them `src_link`, each connected to the next, none of them
    /// twice. Where there is a way, the route is a shortest one, by the
    /// lengths of the links that are entered, and ends at `dst_link`; where
    /// there is none, the route is `src_link` alone.
    pub fn find_route(&mut self, src_link: usize, dst_link: usize) -> (route: Vec<usize>)
        requires
            old(self).wf(),
        ensures
            final(self).wf(),
            final(self).same_but(old(self), false, false, false),
            route@ == seq![src_link] + route_from(
                old(self).links(),
                src_link,
                dst_link,
                old(self).links().len(),
            ),
            route@[0] == src_link,
            is_path(old(self).links(), route@),
            route@.no_duplicates(),
            route@.last() == dst_link || route@ == seq![src_link],
            (forall|path: Seq<usize>|
                path.len() >= 1 && path[0] == src_link && path.last() == dst_link
                    ==> !#[trigger] is_path(
                    old(self).links(),
                    path,
                )) ==> route@ == seq![src_link],
            route@.last() == dst_link ==> path_cost(old(self).links(), route@) == way(
                old(self).links(),
                src_link,
                dst_link,
                old(self).links().len(),
            ).dist,
            forall|path: Seq<usize>|
                is_path(old(self).links(), path) && path.len() >= 1 && path[0] == src_link
                    && path.last() == dst_link && (path.len() <= old(self).links().len() + 1
                    || path.no_duplicates()) && (#[trigger] path_cost(old(self).links(), path))
                    < INFINITY ==> route@.last()
                    == dst_link && path_cost(old(self).links(), route@) <= path_cost(
                    old(self).links(),
                    path,
                ),
    {
        let route = find_route_in(&self.links, &mut self.route_table, src_link, dst_link);
        proof {
            lemma_route_found(self.links@, src_link, dst_link);
            route::lemma_route_simple(self.links@, src_link, dst_link, self.links@.len());
            assert forall|path: Seq<usize>|
                is_path(self.links@, path) && path.len() >= 1 && path[0] == src_link && path.last()
                    == dst_link && (path.len() <= self.links@.len() + 1 || path.no_duplicates())
                        && (
                #[trigger] path_cost(self.links@, path)) < INFINITY implies route@.last()
                    == dst_link && path_cost(self.links@, route@) <= path_cost(
                    self.links@,
                    path,
                ) by {
                if path.len() > 1 {
                    assert(route::leads_to(self.links@, path[0], path[1]));
                    if path.no_duplicates() {
                        route::lemma_simple_path_short(self.links@, path);
                    }
                    lemma_way_is_shortest(self.links@, src_link, dst_link, self.links@.len(), path);
                }
            }
        }
        route
    }

    /// Whether it is the turn of vehicle `v` to think about its lanes.
    pub open spec fn due(&self, v: Vehicle) -> bool {
        self.period() > 0 && v.id % self.period() == self.spec_get_step() % self.period()
    }

    /// Whether `after` is this simulation after the vehicles whose turn it is
    /// have decided on their lanes.
    pub open spec fn lanes_decided(&self, after: &Simulation) -> bool {
        &&& after.same_but(self, false, true, false)
        &&& after.free_vehicle_ids() == self.free_vehicle_ids()
        &&& after.vehicles().len() == self.vehicles().len()
        &&& forall|i: int|
            0 <= i < self.vehicles().len() ==> match (#[trigger] self.vehicles()[i]) {
                Some(v) => after.vehicles()[i] is Some && if self.due(v) {
                    v.lanes_decided(after.vehicles()[i]->0, self.links())
                } else {
                    after.vehicles()[i] == Some(v)
                },
                None => after.vehicles()[i] is None,
            }
    }

    /// Whether `after` is this simulation after every link has brought its
    /// obstacles up to date with the vehicles and sorted them by position.
    pub open spec fn obstacles_updated(&self, after: &Simulation) -> bool {
        &&& after.same_but(self, true, false, false)
        &&& same_roads(self.links(), after.links())
        &&& forall|i: int|
            0 <= i < self.links().len() && (#[trigger] self.links()[i]) is Some ==> stably_sorted(
                after.links()[i]->0.obstacles@,
                refreshed(self.links()[i]->0.obstacles@, self.vehicles()),
                by_pos(),
            )
    }

    /// Whether `after` is this simulation after every link, in the order of
    /// the links' ids, has put its vehicles under the car-following law.
    pub open spec fn cars_followed(&self, after: &Simulation) -> bool {
        &&& after.same_but(self, false, true, false)
        &&& after.free_vehicle_ids() == self.free_vehicle_ids()
        &&& after.vehicles() == all_followed(
            self.links(),
            self.vehicles(),
            self.links().len() as int,
        )
    }

    /// Whether `after` is this simulation after every stop line, in the
    /// order of the stop lines' ids, has made its tick.
    pub open spec fn stop_lines_stepped(&self, after: &Simulation) -> bool {
        &&& after.same_but(self, false, true, true)
        &&& after.free_vehicle_ids() == self.free_vehicle_ids()
        &&& lines_stepped(
            self.links(),
            self.stop_lines(),
            self.vehicles(),
            self.stop_lines().len(),
            after.stop_lines(),
            after.vehicles(),
        )
    }

    /// Whether `after` is this simulation after every vehicle, in the order
    /// of the vehicles' ids, has been held to the speed limits and moved
    /// through a tick.
    pub open spec fn vehicles_advanced(&self, after: &Simulation) -> bool {
        &&& after.same_but(self, true, true, false)
        &&& after.free_vehicle_ids() == self.free_vehicle_ids()
        &&& all_advanced(
            self.delta(),
            self.links(),
            self.vehicles(),
            self.vehicles().len(),
            after.links(),
            after.vehicles(),
        )
    }

    /// Whether vehicle `i` has left the network.
    pub open spec fn has_left(&self, i: int) -> bool {
        0 <= i < self.vehicles().len() && self.vehicles()[i] is Some && self.vehicles()[i]->0.link
            == NO_LINK
    }

    /// Whether `after` is this simulation after the vehicles that have left
    /// the network have been dropped, their ids freed in ascending order, and
    /// the tick counted.
    pub open spec fn vehicles_reaped(&self, after: &Simulation) -> bool {
        &&& after.links() == self.links()
        &&& after.stop_lines() == self.stop_lines()
        &&& after.delta() == self.delta()
        &&& after.period() == self.period()
        &&& after.spec_get_step() == if self.spec_get_step() < usize::MAX {
            (self.spec_get_step() + 1) as usize
        } else {
            self.spec_get_step()
        }
        &&& after.vehicles().len() == self.vehicles().len()
        &&& forall|i: int|
            0 <= i < self.vehicles().len() ==> (#[trigger] after.vehicles()[i]) == if self.has_left(
                i,
            ) {
                None
            } else {
                self.vehicles()[i]
            }
        &&& after.free_vehicle_ids() == self.free_vehicle_ids() + ids_where(
            self.vehicles().len() as int,
            |i: int| self.has_left(i),
        )
    }

    /// Lets every vehicle whose turn it is decide on its lanes. A vehicle's
    /// turn comes every `period` ticks.
    pub fn decide_lanes(&mut self)
        requires
            old(self).wf(),
        ensures
            final(self).wf(),
            old(self).lanes_decided(final(self)),
    {
        let per = self.lane_route_period;
        let mut i: usize = 0;
        while i < self.vehs.len()
            invariant
                0 <= i <= self.vehs@.len(),
                per == self.lane_route_period,
                per > 0,
                self.wf(),
                self.same_but(old(self), false, true, false),
                self.vehs.free() == old(self).vehs.free(),
                self.vehs@.len() == old(self).vehs@.len(),
                forall|k: int| i <= k < self.vehs@.len() ==> self.vehs@[k] == old(self).vehs@[k],
                forall|k: int|
                    0 <= k < i ==> match (#[trigger] old(self).vehs@[k]) {
                        Some(v) => self.vehs@[k] is Some && if old(self).due(v) {
                            v.lanes_decided(self.vehs@[k]->0, old(self).links@)
                        } else {
                            self.vehs@[k] == Some(v)
                        },
                        None => self.vehs@[k] is None,
                    },
            decreases self.vehs@.len() - i,
        {
            let ghost before = self.vehs@;
            match self.vehs.get_mut(i) {
                Some(veh) => {
                    if veh.id % per == self.step % per {
                        veh.lane_decisions(&self.links);
                    }
                },
                None => {},
            }
            proof {
                assert(self.vehs@[i as int] is Some ==> before[i as int] is Some);
                assert forall|k: int| 0 <= k < i + 1 implies match (#[trigger] old(self).vehs@[k]) {
                    Some(v) => self.vehs@[k] is Some && if old(self).due(v) {
                        v.lanes_decided(self.vehs@[k]->0, old(self).links@)
                    } else {
                        self.vehs@[k] == Some(v)
                    },
                    None => self.vehs@[k] is None,
                } by {
                    if k < i {
                        assert(self.vehs@[k] == before[k]);
                    }
                }
            }
            i += 1;
        }
    }

    /// Lets every link bring its obstacles up to date and sort them.
    pub fn update_obstacles(&mut self)
        requires
            old(self).wf(),
        ensures
            final(self).wf(),
            old(self).obstacles_updated(final(self)),
    {
        let mut i: usize = 0;
        while i < self.links.len()
            invariant
                0 <= i <= self.links@.len(),
                self.wf(),
                self.same_but(old(self), true, false, false),
                self.links@.len() == old(self).links@.len(),
                forall|k: int| i <= k < self.links@.len() ==> self.links@[k] == old(self).links@[k],
                forall|k: int|
                    0 <= k < self.links@.len() ==> ((#[trigger] self.links@[k]) is Some
                        <==> old(self).links@[k] is Some),
                forall|k: int|
                    0 <= k < i && old(self).links@[k] is Some
                        ==> (#[trigger] self.links@[k])->0.same_road(
                        &old(self).links@[k]->0,
                    ) && stably_sorted(
                        self.links@[k]->0.obstacles@,
                        refreshed(old(self).links@[k]->0.obstacles@, self.vehs@),
                        by_pos(),
                    ),
            decreases self.links@.len() - i,
        {
            let ghost before = self.links@;
            match self.links.get_mut(i) {
                Some(link) => {
                    link.update_obstacles(&self.vehs);
                },
                None => {},
            }
            proof {
                lemma_table_kept(before, self.links@, self.route_table@);
                assert forall|k: int| 0 <= k < i + 1 && old(self).links@[k] is Some implies (
                #[trigger] self.links@[k])->0.same_road(&old(self).links@[k]->0) && stably_sorted(
                    self.links@[k]->0.obstacles@,
                    refreshed(old(self).links@[k]->0.obstacles@, self.vehs@),
                    by_pos(),
                ) by {
                    if k < i {
                        assert(self.links@[k] == before[k]);
                    }
                }
                assert forall|k: int| 0 <= k < self.links@.len() implies ((
                #[trigger] self.links@[k]) is Some <==> old(self).links@[k] is Some) by {
                    if k != i {
                        assert(self.links@[k] == before[k]);
                    }
                }
            }
            i += 1;
        }
        proof {
            assert forall|k: int|
                0 <= k < old(self).links@.len() && old(self).links@[k] is Some implies (
            #[trigger] self.links@[k])->0.same_road(&old(self).links@[k]->0) by {}
        }
    }

    /// Puts the vehicles of every link under the car-following law.
    pub fn follow_cars(&mut self)
        requires
            old(self).wf(),
        ensures
            final(self).wf(),
            old(self).cars_followed(final(self)),
    {
        let mut i: usize = 0;
        while i < self.links.len()
            invariant
                0 <= i <= self.links@.len(),
                self.wf(),
                self.same_but(old(self), false, true, false),
                self.vehs.free() == old(self).vehs.free(),
                self.vehs@ == all_followed(self.links@, old(self).vehs@, i as int),
            decreases self.links@.len() - i,
        {
            match self.links.get(i) {
                Some(link) => {
                    link.car_follow_model(&mut self.vehs, &self.links);
                },
                None => {},
            }
            i += 1;
        }
    }

    /// Lets every stop line make its tick.
    pub fn run_stop_lines(&mut self)
        requires
            old(self).wf(),
        ensures
            final(self).wf(),
            old(self).stop_lines_stepped(final(self)),
    {
        let mut i: usize = 0;
        while i < self.stoplines.len()
            invariant
                0 <= i <= self.stoplines@.len(),
                self.wf(),
                self.same_but(old(self), false, true, true),
                self.vehs.free() == old(self).vehs.free(),
                self.stoplines@.len() == old(self).stoplines@.len(),
                lines_stepped(
                    self.links@,
                    old(self).stoplines@,
                    old(self).vehs@,
                    i as nat,
                    self.stoplines@,
                    self.vehs@,
                ),
            decreases self.stoplines@.len() - i,
        {
            let ghost lines_p = self.stoplines@;
            let ghost vehs_p = self.vehs@;
            let clear = match self.stoplines.get(i) {
                Some(line) => line.is_clear(&self.stoplines),
                None => false,
            };
            match self.stoplines.get_mut(i) {
                Some(line) => {
                    line.step(&mut self.vehs, &self.links, clear);
                },
                None => {},
            }
            proof {
                assert(self.stoplines@ =~= lines_p || lines_p[i as int] is Some);
                assert(one_line_stepped(
                    self.links@,
                    lines_p,
                    vehs_p,
                    i as int,
                    self.stoplines@,
                    self.vehs@,
                ));
                let n = (i + 1) as nat;
                assert(lines_stepped(
                    self.links@,
                    old(self).stoplines@,
                    old(self).vehs@,
                    (n - 1) as nat,
                    lines_p,
                    vehs_p,
                ));
                lemma_lines_step(
                    self.links@,
                    old(self).stoplines@,
                    old(self).vehs@,
                    n,
                    lines_p,
                    vehs_p,
                    self.stoplines@,
                    self.vehs@,
                );
            }
            i += 1;
        }
    }

    /// Holds every vehicle to the speed limits and moves it through a tick.
    pub fn advance_vehicles(&mut self)
        requires
            old(self).wf(),
        ensures
            final(self).wf(),
            old(self).vehicles_advanced(final(self)),
            forall|i: int|
                0 <= i < final(self).vehicles().len() && (#[trigger] final(self).vehicles()[i])
                    is Some ==> final(self).vehicles()[i]->0.vel >= 0,
    {
        let mut i: usize = 0;
        while i < self.vehs.len()
            invariant
                0 <= i <= self.vehs@.len(),
                self.wf(),
                self.same_but(old(self), true, true, false),
                self.vehs.free() == old(self).vehs.free(),
                self.vehs@.len() == old(self).vehs@.len(),
                all_advanced(
                    self.step_delta,
                    old(self).links@,
                    old(self).vehs@,
                    i as nat,
                    self.links@,
                    self.vehs@,
                ),
                forall|k: int|
                    0 <= k < i && (#[trigger] self.vehs@[k]) is Some ==> self.vehs@[k]->0.vel >= 0,
            decreases self.vehs@.len() - i,
        {
            let ghost links_p = self.links@;
            let ghost vehs_p = self.vehs@;
            match self.vehs.get_mut(i) {
                Some(veh) => {
                    veh.apply_speedlimit(&self.links);
                    veh.integrate(self.step_delta, &mut self.links);
                },
                None => {},
            }
            proof {
                lemma_table_kept(links_p, self.links@, self.route_table@);
                assert(self.vehs@ =~= vehs_p || vehs_p[i as int] is Some);
                assert(one_advanced(
                    self.step_delta,
                    links_p,
                    vehs_p,
                    i as int,
                    self.links@,
                    self.vehs@,
                ));
                let n = (i + 1) as nat;
                assert(all_advanced(
                    self.step_delta,
                    old(self).links@,
                    old(self).vehs@,
                    (n - 1) as nat,
                    links_p,
                    vehs_p,
                ));
                lemma_advance_step(
                    self.step_delta,
                    old(self).links@,
                    old(self).vehs@,
                    n,
                    links_p,
                    vehs_p,
                    self.links@,
                    self.vehs@,
                );
                assert forall|k: int| 0 <= k < i + 1 && (#[trigger] self.vehs@[k]) is Some
                    implies self.vehs@[k]->0.vel
                    >= 0 by {
                    if k < i {
                        assert(self.vehs@[k] == vehs_p[k]);
                    }
                }
            }
            i += 1;
        }
        proof {
            assert forall|k: int|
                0 <= k < self.vehs@.len() && (#[trigger] self.vehs@[k]) is Some
                    implies self.vehs@[k]->0.vel
                >= 0 by {
                if old(self).vehs@[k] is None {
                }
            }
        }
    }

    /// Drops the vehicles that have left the network and counts the tick.
    pub fn reap_vehicles(&mut self)
        requires
            old(self).wf(),
        ensures
            final(self).wf(),
            old(self).vehicles_reaped(final(self)),
    {
        let gone = |v: &Vehicle| -> (b: bool)
            ensures
                b == (v.link == NO_LINK),
            { v.link == NO_LINK };
        self.vehs.remove_where(gone);
        if self.step < usize::MAX {
            self.step += 1;
        }
        proof {
            let n = old(self).vehs@.len() as int;
            let p = |i: int| old(self).vehs@[i] is Some && self.vehs@[i] is None;
            let q = |i: int| old(self).has_left(i);
            assert forall|i: int| 0 <= i < n implies (#[trigger] p(i)) == q(i) by {
                let _ = old(self).vehs@[i];
            }
            crate::util::idmap::lemma_ids_where_agree(n, p, q);
            assert forall|i: int| 0 <= i < n implies (#[trigger] self.vehs@[i])
                == if old(self).has_left(i) {
                None
            } else {
                old(self).vehs@[i]
            } by {
                let _ = old(self).vehs@[i];
            }
        }
    }

    /// One tick: the vehicles whose turn it is decide on their lanes; the
    /// links bring their obstacles up to date; the car-following law and then
    /// the stop lines limit the vehicles' accelerations; the vehicles are held
    /// to the speed limits and moved; and those that have left the network
    /// are dropped.
    pub fn step(&mut self)
        requires
            old(self).wf(),
        ensures
            final(self).wf(),
            old(self).ticked(final(self)),
            forall|i: int|
                0 <= i < final(self).vehicles().len() && (#[trigger] final(self).vehicles()[i])
                    is Some ==> final(self).vehicles()[i]->0.vel >= 0
                        && final(self).vehicles()[i]->0.link != NO_LINK,
    {
        self.decide_lanes();
        let ghost a = *self;
        self.update_obstacles();
        let ghost b = *self;
        self.follow_cars();
        let ghost c = *self;
        self.run_stop_lines();
        let ghost d = *self;
        self.advance_vehicles();
        let ghost e = *self;
        self.reap_vehicles();
        proof {
            assert forall|i: int|
                0 <= i < self.vehicles().len() && (#[trigger] self.vehicles()[i]) is Some
                    implies self.vehicles()[i]->0.vel
                >= 0 && self.vehicles()[i]->0.link != NO_LINK by {
                assert(self.vehicles()[i] == e.vehicles()[i]);
                assert(!e.has_left(i));
            }
            assert(old(self).lanes_decided(&a) && a.obstacles_updated(&b) && b.cars_followed(&c)
                && c.stop_lines_stepped(&d) && d.vehicles_advanced(&e) && e.vehicles_reaped(
                &*self,
            ));
        }
    }

    /// Whether `after` is this simulation one tick later.
    pub open spec fn ticked(&self, after: &Simulation) -> bool {
        exists|a: Simulation, b: Simulation, c: Simulation, d: Simulation, e: Simulation|
            #![trigger
                self.lanes_decided(&a),
                a.obstacles_updated(&b),
                b.cars_followed(&c),
                c.stop_lines_stepped(&d),
                d.vehicles_advanced(&e)]
            self.lanes_decided(&a) && a.obstacles_updated(&b) && b.cars_followed(&c)
                && c.stop_lines_stepped(&d) && d.vehicles_advanced(&e) && e.vehicles_reaped(after)
    }

    /// Whether `out` and `r` are what `add_conflict` leaves of this
    /// simulation: stop line `stop1` has one more conflict, with the stream of
    /// stop line `stop2`. Both stop lines must exist.
    pub open spec fn conflict_added(
        &self,
        out: &Simulation,
        stop1: usize,
        stop2: usize,
        priority: Priority,
        max_pos: i64,
        r: Result<(), SimError>,
    ) -> bool {
        &&& out.same_but(self, false, false, true)
        &&& r is Err <==> !(self.has_stop_line(stop1) && self.has_stop_line(stop2))
        &&& r is Err ==> r == Err::<(), SimError>(SimError::NotFound) && out.stop_lines()
            == self.stop_lines()
        &&& r is Ok ==> {
            &&& out.has_stop_line(stop1)
            &&& out.other_stop_lines_same(self, stop1)
            &&& out.stop_line(stop1).conflicts@ == self.stop_line(stop1).conflicts@.push(
                Conflict { stopline: stop2, priority, max_pos },
            )
            &&& same_but_conflicts(self.stop_line(stop1), out.stop_line(stop1))
        }
    }

    /// Tells stop line `stop1` that the stream of stop line `stop2` crosses
    /// its own: while a vehicle that is committed to passing `stop2` has not
    /// come as far as `max_pos`, the way past `stop1` is not clear.
    pub fn add_conflict(
        &mut self,
        stop1: usize,
        stop2: usize,
        priority: Ordering,
        max_pos: i64,
    ) -> (r: Result<(), SimError>)
        requires
            old(self).wf(),
        ensures
            final(self).wf(),
            old(self).conflict_added(final(self), stop1, stop2, priority_of(priority), max_pos, r),
    {
        self.put_conflict(stop1, stop2, priority_of(priority), max_pos)
    }

    /// Adds a conflict of the given priority.
    pub fn put_conflict(
        &mut self,
        stop1: usize,
        stop2: usize,
        priority: Priority,
        max_pos: i64,
    ) -> (r: Result<(), SimError>)
        requires
            old(self).wf(),
        ensures
            final(self).wf(),
            old(self).conflict_added(final(self), stop1, stop2, priority, max_pos, r),
    {
        if !self.stoplines.has_key(stop2) || !self.stoplines.has_key(stop1) {
            return Err(SimError::NotFound);
        }
        match self.stoplines.get_mut(stop1) {
            Some(stopline) => {
                stopline.conflicts.push(Conflict { stopline: stop2, priority, max_pos });
            },
            None => {},
        }
        Ok(())
    }

    /// Sets the light of stop line `id`, which must be a traffic light.
    pub fn set_light(&mut self, id: usize, state: TrafficLightState) -> (r: Result<(), SimError>)
        requires
            old(self).wf(),
        ensures
            final(self).wf(),
            final(self).same_but(old(self), false, false, true),
            !old(self).has_stop_line(id) ==> r == Err::<(), SimError>(SimError::NotFound),
            old(self).has_stop_line(id) && !(old(self).stop_line(id).kind is TrafficLight) ==> r
                == Err::<(), SimError>(SimError::InvalidConfig),
            old(self).has_stop_line(id) && old(self).stop_line(id).kind is TrafficLight ==> r is Ok,
            r is Err ==> final(self).stop_lines() == old(self).stop_lines(),
            r is Ok ==> {
                &&& final(self).has_stop_line(id)
                &&& final(self).other_stop_lines_same(old(self), id)
                &&& final(self).stop_line(id) == (StopLine {
                    kind: StopLineType::TrafficLight { state },
                    ..old(self).stop_line(id)
                })
            },
    {
        match self.stoplines.get_mut(id) {
            Some(stopline) => {
                match stopline.kind {
                    StopLineType::TrafficLight { state: _ } => {
                        stopline.kind = StopLineType::TrafficLight { state };
                        Ok(())
                    },
                    _ => Err(SimError::InvalidConfig),
                }
            },
            None => Err(SimError::NotFound),
        }
    }

    /// The vehicle with id `id`, if there is one.
    pub fn get_vehicle(&self, id: usize) -> (r: Option<&Vehicle>)
        ensures
            self.has_vehicle(id) ==> r == Some(&self.vehicle(id)),
            !self.has_vehicle(id) ==> r is None,
    {
        self.vehs.get(id)
    }

    /// The vehicle with id `id`, to be changed in place.
    pub fn get_vehicle_mut(&mut self, id: usize) -> (r: Option<&mut Vehicle>)
        requires
            old(self).wf(),
        ensures
            final(self).wf(),
            final(self).same_but(old(self), false, true, false),
            final(self).free_vehicle_ids() == old(self).free_vehicle_ids(),
            match r {
                Some(v) => old(self).has_vehicle(id) && *v == old(self).vehicle(id)
                    && final(self).vehicles()
                        == old(self).vehicles().update(id as int, Some(*final(v))),
                None => !old(self).has_vehicle(id) && final(self).vehicles()
                    == old(self).vehicles(),
            },
    {
        self.vehs.get_mut(id)
    }

    /// The link with id `id`, if there is one.
    pub fn get_link(&self, id: usize) -> (r: Option<&Link>)
        ensures
            self.has_link(id) ==> r == Some(&self.link(id)),
            !self.has_link(id) ==> r is None,
    {
        self.links.get(id)
    }

    /// The stop line with id `id`, if there is one.
    pub fn get_stop_line(&self, id: usize) -> (r: Option<&StopLine>)
        ensures
            self.has_stop_line(id) ==> r == Some(&self.stop_line(id)),
            !self.has_stop_line(id) ==> r is None,
    {
        self.stoplines.get(id)
    }

    /// The number of ticks made so far.
    #[verifier::when_used_as_spec(spec_get_step)]
    pub fn get_step(&self) -> (n: usize)
        ensures
            n == self.spec_get_step(),
    {
        self.step
    }

    /// What the outside world is told of each vehicle, in the order of the
    /// vehicles' ids.
    pub open spec fn vehicle_states(&self) -> Seq<VehicleState> {
        crate::util::idmap::occupants(self.vehicles()).map_values(|v: Vehicle| v.spec_get_state())
    }

    /// What the outside world is told of each vehicle, in the order of the
    /// vehicles' ids.
    pub fn get_vehicle_states(&self) -> (states: Vec<VehicleState>)
        ensures
            states@ == self.vehicle_states(),
    {
        let vehs = self.vehs.iter();
        let mut states: Vec<VehicleState> = Vec::new();
        let mut i: usize = 0;
        while i < vehs.len()
            invariant
                0 <= i <= vehs@.len(),
                vehs@.len() == crate::util::idmap::occupants(self.vehs@).len(),
                forall|k: int|
                    0 <= k < vehs@.len() ==> *(#[trigger] vehs@[k])
                        == crate::util::idmap::occupants(
                        self.vehs@,
                    )[k],
                states@.len() == i,
                forall|k: int|
                    0 <= k < i ==> (#[trigger] states@[k]) == crate::util::idmap::occupants(
                        self.vehs@,
                    )[k].spec_get_state(),
            decreases vehs@.len() - i,
        {
            states.push(vehs[i].get_state());
            i += 1;
        }
        proof {
            assert(states@ =~= crate::util::idmap::occupants(self.vehs@).map_values(
                |v: Vehicle| v.spec_get_state(),
            ));
        }
        states
    }
}

/// Gathers what makes a stop line before it is added to a simulation.
pub struct StopLineBuilder {
    pub id: usize,
    pub link: usize,
    pub lane: u8,
    pub pos: i64,
    pub len: Option<i64>,
    pub kind: Option<StopLineType>,
    pub sight_dist: Option<i64>,
    pub conflicts: Vec<Conflict>,
}

impl StopLineBuilder {
    /// The builder with another length.
    pub open spec fn spec_with_length(self, len: i64) -> Self {
        StopLineBuilder { len: Some(len), ..self }
    }

    /// The builder with another kind.
    pub open spec fn spec_of_type(self, kind: StopLineType) -> Self {
        StopLineBuilder { kind: Some(kind), ..self }
    }

    /// The builder with another sight distance.
    pub open spec fn spec_with_sight_dist(self, dist: i64) -> Self {
        StopLineBuilder { sight_dist: Some(dist), ..self }
    }

    /// A stop line with id `id` at `pos` on lane `lane` of link `link`; its
    /// kind has still to be said.
    pub fn new(id: usize, link: usize, lane: u8, pos: i64) -> (b: Self)
        ensures
            b.id == id,
            b.link == link,
            b.lane == lane,
            b.pos == pos,
            b.len is None,
            b.kind is None,
            b.sight_dist is None,
            b.conflicts@.len() == 0,
    {
        Self { id, link, lane, pos, len: None, kind: None, sight_dist: None, conflicts: Vec::new() }
    }

    /// Says how long the stretch is that the stop line guards; left unsaid,
    /// it is the rest of the link.
    #[verifier::when_used_as_spec(spec_with_length)]
    pub fn with_length(self, len: i64) -> (b: Self)
        ensures
            b == self.spec_with_length(len),
    {
        let mut b = self;
        b.len = Some(len);
        b
    }

    /// Says of what kind the stop line is.
    #[verifier::when_used_as_spec(spec_of_type)]
    pub fn of_type(self, kind: StopLineType) -> (b: Self)
        ensures
            b == self.spec_of_type(kind),
    {
        let mut b = self;
        b.kind = Some(kind);
        b
    }

    /// Says from how far upstream the stop line is seen; left unsaid, it is
    /// `DEFAULT_SIGHT_DIST`.
    #[verifier::when_used_as_spec(spec_with_sight_dist)]
    pub fn with_sight_dist(self, dist: i64) -> (b: Self)
        ensures
            b == self.spec_with_sight_dist(dist),
    {
        let mut b = self;
        b.sight_dist = Some(dist);
        b
    }

    /// Adds a conflict with the stream of stop line `stopline`.
    pub fn conflicts_with(self, stopline: usize, priority: Ordering, max_pos: i64) -> (b: Self)
        ensures
            b.conflicts@ == self.conflicts@.push(
                Conflict { stopline, priority: priority_of(priority), max_pos },
            ),
            b == (StopLineBuilder { conflicts: b.conflicts, ..self }),
    {
        let mut b = self;
        b.conflicts.push(Conflict { stopline, priority: priority_of(priority), max_pos });
        b
    }

    /// Whether `line` is the stop line that the builder describes, on a link
    /// of length `link_length`.
    pub open spec fn builds(&self, line: StopLine, link_length: i64) -> bool {
        &&& self.kind is Some
        &&& line.id == self.id
        &&& line.link == self.link
        &&& line.lane == self.lane
        &&& line.pos == self.pos
        &&& line.len == match self.len {
            Some(len) => len,
            None => minus(link_length, self.pos),
        }
        &&& line.kind == self.kind->0
        &&& line.sight_pos == minus(
            self.pos,
            match self.sight_dist {
                Some(dist) => dist,
                None => DEFAULT_SIGHT_DIST,
            },
        )
        &&& line.conflicts == self.conflicts
        &&& line.committed_vehs@.len() == 0
        &&& line.time_until_enter == 0
        &&& line.min_arrival == usize::MAX
        &&& line.clear_before == 0
    }

    /// Whether the simulation `sim` has the lane that the stop line is to
    /// stand on.
    pub open spec fn has_place(&self, sim: &Simulation) -> bool {
        sim.has_link(self.link) && self.lane < sim.link(self.link).lanes@.len()
    }

    /// Whether `out` and `r` are what `add_to_simulation` leaves of the
    /// simulation `sim`: the stop line that the builder describes is added
    /// under its id.
    pub open spec fn added(
        &self,
        sim: &Simulation,
        out: &Simulation,
        r: Result<(), SimError>,
    ) -> bool {
        &&& out.same_but(sim, false, false, true)
        &&& !self.has_place(sim) ==> r == Err::<(), SimError>(SimError::NotFound)
        &&& self.has_place(sim) && (self.kind is None || self.id == usize::MAX
            || sim.has_stop_line(self.id)) ==> r == Err::<(), SimError>(
            SimError::InvalidConfig,
        )
        &&& self.has_place(sim) && self.kind is Some && self.id < usize::MAX
            && !sim.has_stop_line(self.id) ==> r is Ok
        &&& r is Err ==> out.stop_lines() == sim.stop_lines()
        &&& r is Ok ==> {
            &&& out.has_stop_line(self.id)
            &&& self.builds(
                out.stop_line(self.id),
                sim.link(self.link).length,
            )
            &&& out.stop_lines().len() == if self.id < sim.stop_lines().len() {
                sim.stop_lines().len() as int
            } else {
                self.id + 1
            }
            &&& forall|i: int|
                0 <= i < out.stop_lines().len() && i != self.id ==> out.stop_lines()[i]
                    == if i < sim.stop_lines().len() {
                    sim.stop_lines()[i]
                } else {
                    None
                }
        }
    }

    /// Adds the stop line to `simulation`. Its link must exist and have the
    /// lane, its kind must have been said, and its id must be free.
    pub fn add_to_simulation(self, simulation: &mut Simulation) -> (r: Result<(), SimError>)
        requires
            old(simulation).wf(),
        ensures
            final(simulation).wf(),
            self.added(old(simulation), final(simulation), r),
    {
        let length = match simulation.links.get(self.link) {
            Some(link) => {
                if self.lane as usize >= link.lanes.len() {
                    return Err(SimError::NotFound);
                }
                link.length
            },
            None => {
                return Err(SimError::NotFound);
            },
        };
        let kind = match self.kind {
            Some(kind) => kind,
            None => {
                return Err(SimError::InvalidConfig);
            },
        };
        if self.id == usize::MAX || simulation.stoplines.has_key(self.id) {
            return Err(SimError::InvalidConfig);
        }
        let len = match self.len {
            Some(len) => len,
            None => minus(length, self.pos),
        };
        let sight_dist = match self.sight_dist {
            Some(dist) => dist,
            None => DEFAULT_SIGHT_DIST,
        };
        simulation.stoplines.insert(
            self.id,
            StopLine {
                id: self.id,
                link: self.link,
                lane: self.lane,
                pos: self.pos,
                len,
                kind,
                sight_pos: minus(self.pos, sight_dist),
                conflicts: self.conflicts,
                committed_vehs: Vec::new(),
                time_until_enter: 0,
                min_arrival: usize::MAX,
                clear_before: 0,
            },
        );
        Ok(())
    }
}

} // verus!
