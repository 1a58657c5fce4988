//! The choice of lanes: how far each lane of each link of a route leads, the
//! lane to take on each link, and the path of a lane change.
use super::link::{Link, NO_LANE};
use super::vehicle::{LaneDistances, Preference, Vehicle, LANE_CHANGE_DIST};
use crate::fixed::{minus, plus, INFINITY};
use crate::util::{CubicFuncPiece, IdMap};
use vstd::prelude::*;

verus! {

/// A table of lane distances as plain numbers: for each lane its four tiers.
pub open spec fn tiers_of(lanes: Seq<[i64; 4]>) -> Seq<Seq<i64>> {
    lanes.map_values(|a: [i64; 4]| a@)
}

/// The table of a link beyond which the route does not go: nothing forces a
/// change of lanes there, so every tier of every lane is unlimited.
pub open spec fn open_table(num_lanes: nat) -> Seq<Seq<i64>> {
    Seq::new(num_lanes, |i: int| Seq::new(4, |k: int| INFINITY))
}

/// How many lanes `lane` is away from `lane_in`.
pub open spec fn lane_offset(lane: int, lane_in: u8) -> int {
    if lane >= lane_in {
        lane - lane_in
    } else {
        lane_in - lane
    }
}

/// Tier `k` of lane `lane` after the first `n` lane pairings of a connection
/// have been merged in. A tier starts at zero. A pairing `(lane_in,
/// lane_out)` raises it to tier `k` of `lane_out` in the successor's table
/// where that is greater, for every tier `k` that is at least the number of
/// lanes between `lane` and `lane_in`.
pub open spec fn merged_tier(
    succ: Seq<Seq<i64>>,
    pairs: Seq<(u8, u8)>,
    n: int,
    lane: int,
    k: int,
) -> i64
    decreases n,
{
    if n <= 0 {
        0
    } else {
        let prev = merged_tier(succ, pairs, n - 1, lane, k);
        let (lane_in, lane_out) = pairs[n - 1];
        if k >= lane_offset(lane, lane_in) && lane_out < succ.len() && succ[lane_out as int][k]
            > prev {
            succ[lane_out as int][k]
        } else {
            prev
        }
    }
}

/// The least number of lanes between any lane of a link with `num_lanes`
/// lanes and the `lane_in` of any of the first `n` pairings, and 4 where
/// that is less.
pub open spec fn least_offset(pairs: Seq<(u8, u8)>, num_lanes: int, n: int) -> int
    decreases n,
{
    if n <= 0 {
        4
    } else {
        let prev = least_offset(pairs, num_lanes, n - 1);
        let lane_in = pairs[n - 1].0;
        let here = if num_lanes <= 0 {
            4
        } else if lane_in < num_lanes {
            0
        } else {
            lane_in - (num_lanes - 1)
        };
        if here < prev {
            here
        } else {
            prev
        }
    }
}

/// Tier `k` of a lane once its merged tiers have been moved down by `shift`
/// and the link's length has been added; the tiers that the move leaves
/// open are unlimited.
pub open spec fn settled_tier(merged: Seq<i64>, shift: int, length: i64, k: int) -> i64 {
    if k < 4 - shift {
        plus(merged[k + shift], length)
    } else {
        INFINITY
    }
}

/// The table of a link of length `length` with `num_lanes` lanes, whose
/// connection to its successor on the route has the pairings `pairs`, from
/// the successor's table.
pub open spec fn hop_table(
    num_lanes: int,
    length: i64,
    pairs: Seq<(u8, u8)>,
    succ: Seq<Seq<i64>>,
) -> Seq<Seq<i64>> {
    Seq::new(
        num_lanes as nat,
        |i: int|
            Seq::new(
                4,
                |k: int|
                    settled_tier(
                        Seq::new(4, |t: int| merged_tier(succ, pairs, pairs.len() as int, i, t)),
                        least_offset(pairs, num_lanes, pairs.len() as int),
                        length,
                        k,
                    ),
            ),
    )
}

/// The number of lanes of link `id`, zero where the network lacks it.
pub open spec fn lanes_of(links: Seq<Option<Link>>, id: usize) -> int {
    if id < links.len() && links[id as int] is Some {
        links[id as int]->0.lanes@.len() as int
    } else {
        0
    }
}

/// The lane pairings of the connection from link `id` to link `next`; none
/// where the network lacks the link or the connection.
pub open spec fn pairs_between(links: Seq<Option<Link>>, id: usize, next: usize) -> Seq<(u8, u8)> {
    if id < links.len() && links[id as int] is Some && links[id as int]->0.connection_to(next)
        is Some {
        let link = links[id as int]->0;
        link.links_out@[link.connection_to(next)->0].lanes@
    } else {
        Seq::empty()
    }
}

/// The length of link `id`, zero where the network lacks it.
pub open spec fn length_of(links: Seq<Option<Link>>, id: usize) -> i64 {
    if id < links.len() && links[id as int] is Some {
        links[id as int]->0.length
    } else {
        0
    }
}

/// The table of lane distances of the `h`-th link of `route`.
pub open spec fn lane_table(links: Seq<Option<Link>>, route: Seq<usize>, h: int) -> Seq<Seq<i64>>
    decreases route.len() - h,
{
    if h < 0 || h >= route.len() {
        Seq::empty()
    } else if h == route.len() - 1 {
        open_table(lanes_of(links, route[h]) as nat)
    } else {
        hop_table(
            lanes_of(links, route[h]),
            length_of(links, route[h]),
            pairs_between(links, route[h], route[h + 1]),
            lane_table(links, route, h + 1),
        )
    }
}

/// A table with `n` lanes whose tiers are all `x`.
fn uniform_table(n: usize, x: i64) -> (t: Vec<[i64; 4]>)
    ensures
        tiers_of(t@) == Seq::new(n as nat, |i: int| Seq::new(4, |k: int| x)),
{
    let mut t: Vec<[i64; 4]> = Vec::new();
    let mut i: usize = 0;
    while i < n
        invariant
            0 <= i <= n,
            t@.len() == i,
            forall|a: int, k: int| 0 <= a < i && 0 <= k < 4 ==> (#[trigger] t@[a]@[k]) == x,
        decreases n - i,
    {
        t.push([x, x, x, x]);
        i += 1;
    }
    proof {
        assert forall|a: int| 0 <= a < n implies (#[trigger] tiers_of(t@)[a]) == Seq::new(
            4,
            |k: int| x,
        ) by {
            assert(tiers_of(t@)[a] =~= Seq::new(4, |k: int| x));
        }
        assert(tiers_of(t@) =~= Seq::new(n as nat, |i: int| Seq::new(4, |k: int| x)));
    }
    t
}

/// The tiers of lane `lane` merged from all pairings of a connection.
fn merge_lane(succ: &Vec<[i64; 4]>, pairs: &Vec<(u8, u8)>, lane: usize) -> (a: [i64; 4])
    ensures
        forall|k: int|
            0 <= k < 4 ==> (#[trigger] a@[k]) == merged_tier(
                tiers_of(succ@),
                pairs@,
                pairs@.len() as int,
                lane as int,
                k,
            ),
{
    let mut a: [i64; 4] = [0, 0, 0, 0];
    let mut n: usize = 0;
    while n < pairs.len()
        invariant
            0 <= n <= pairs@.len(),
            forall|k: int|
                0 <= k < 4 ==> (#[trigger] a@[k]) == merged_tier(
                    tiers_of(succ@),
                    pairs@,
                    n as int,
                    lane as int,
                    k,
                ),
        decreases pairs@.len() - n,
    {
        let (lane_in, lane_out) = pairs[n];
        let offset: usize = if lane >= lane_in as usize {
            lane - lane_in as usize
        } else {
            lane_in as usize - lane
        };
        let ghost before = a@;
        if (lane_out as usize) < succ.len() {
            let b = &succ[lane_out as usize];
            let mut k: usize = 0;
            while k < 4
                invariant
                    0 <= k <= 4,
                    n < pairs@.len(),
                    (lane_in, lane_out) == pairs@[n as int],
                    offset == lane_offset(lane as int, lane_in),
                    (lane_out as int) < succ@.len(),
                    *b == succ@[lane_out as int],
                    forall|t: int|
                        0 <= t < 4 ==> before[t] == merged_tier(
                            tiers_of(succ@),
                            pairs@,
                            n as int,
                            lane as int,
                            t,
                        ),
                    forall|t: int|
                        0 <= t < k ==> (#[trigger] a@[t]) == merged_tier(
                            tiers_of(succ@),
                            pairs@,
                            n + 1,
                            lane as int,
                            t,
                        ),
                    forall|t: int| k <= t < 4 ==> (#[trigger] a@[t]) == before[t],
                decreases 4 - k,
            {
                proof {
                    assert(tiers_of(succ@)[lane_out as int] == b@);
                }
                if k >= offset && b[k] > a[k] {
                    a[k] = b[k];
                }
                k += 1;
            }
        }
        n += 1;
    }
    a
}

/// The least offset of a connection's pairings, as `least_offset` defines it.
fn shift_of(pairs: &Vec<(u8, u8)>, num_lanes: usize) -> (m: usize)
    ensures
        m == least_offset(pairs@, num_lanes as int, pairs@.len() as int),
        0 <= m <= 4,
{
    let mut m: usize = 4;
    let mut n: usize = 0;
    while n < pairs.len()
        invariant
            0 <= n <= pairs@.len(),
            0 <= m <= 4,
            m == least_offset(pairs@, num_lanes as int, n as int),
        decreases pairs@.len() - n,
    {
        let lane_in = pairs[n].0 as usize;
        if num_lanes > 0 {
            let here: usize = if lane_in < num_lanes {
                0
            } else {
                lane_in - (num_lanes - 1)
            };
            if here < m {
                m = here;
            }
        }
        n += 1;
    }
    m
}

/// The table of one link of the route, from that of its successor.
fn hop_lanes(
    num_lanes: usize,
    length: i64,
    pairs: &Vec<(u8, u8)>,
    succ: &Vec<[i64; 4]>,
) -> (t: Vec<[i64; 4]>)
    ensures
        tiers_of(t@) == hop_table(num_lanes as int, length, pairs@, tiers_of(succ@)),
{
    let shift = shift_of(pairs, num_lanes);
    let mut t: Vec<[i64; 4]> = Vec::new();
    let mut i: usize = 0;
    while i < num_lanes
        invariant
            0 <= i <= num_lanes,
            0 <= shift <= 4,
            shift == least_offset(pairs@, num_lanes as int, pairs@.len() as int),
            t@.len() == i,
            forall|a: int|
                0 <= a < i ==> (#[trigger] t@[a])@ == hop_table(
                    num_lanes as int,
                    length,
                    pairs@,
                    tiers_of(succ@),
                )[a],
        decreases num_lanes - i,
    {
        let merged = merge_lane(succ, pairs, i);
        let mut lane: [i64; 4] = [INFINITY, INFINITY, INFINITY, INFINITY];
        let mut k: usize = 0;
        while k < 4 - shift
            invariant
                0 <= k <= 4 - shift,
                0 <= shift <= 4,
                forall|t: int| 0 <= t < k ==> (#[trigger] lane@[t]) == plus(merged@[t
                    + shift], length),
                forall|t: int| k <= t < 4 ==> (#[trigger] lane@[t]) == INFINITY,
            decreases 4 - shift - k,
        {
            lane[k] = plus(merged[k + shift], length);
            k += 1;
        }
        proof {
            let want = hop_table(num_lanes as int, length, pairs@, tiers_of(succ@))[i as int];
            let m = Seq::new(
                4,
                |t: int| merged_tier(tiers_of(succ@), pairs@, pairs@.len() as int, i as int, t),
            );
            assert forall|t: int| 0 <= t < 4 implies lane@[t] == want[t] by {
                if t < 4 - shift {
                    assert(m[t + shift] == merged@[t + shift]);
                }
            }
            assert(lane@ =~= want);
        }
        t.push(lane);
        i += 1;
    }
    proof {
        let want = hop_table(num_lanes as int, length, pairs@, tiers_of(succ@));
        assert forall|a: int| 0 <= a < num_lanes implies (#[trigger] tiers_of(t@)[a])
            == want[a] by {
            assert(tiers_of(t@)[a] == t@[a]@);
        }
        assert(tiers_of(t@) =~= want);
    }
    t
}

/// The lane to take after `prev_lane`, chosen among the first `n` lane
/// pairings of a connection: of the lanes that `prev_lane` leads to, the one
/// that the table prefers, the earlier of two that it likes the same; no lane
/// where `prev_lane` leads nowhere.
pub open spec fn next_lane(pairs: Seq<(u8, u8)>, table: Seq<[i64; 4]>, prev_lane: u8, n: int) -> u8
    decreases n,
{
    if n <= 0 {
        NO_LANE
    } else {
        let best = next_lane(pairs, table, prev_lane, n - 1);
        let (lane_in, lane_out) = pairs[n - 1];
        if lane_in == prev_lane && super::vehicle::compare_in(table, best, lane_out)
            == Preference::Worse {
            lane_out
        } else {
            best
        }
    }
}

/// `n` times no lane.
pub open spec fn no_lanes(n: int) -> Seq<u8> {
    Seq::new(n as nat, |i: int| NO_LANE)
}

/// The lanes `start`, continued link by link to the end of `route`. Each
/// further lane is the one that the lane before it leads to and that the
/// table of that link prefers; where a lane leads nowhere, the rest of the
/// route has no lane.
pub open spec fn lane_plan(
    links: Seq<Option<Link>>,
    route: Seq<usize>,
    dists: Seq<LaneDistances>,
    start: Seq<u8>,
) -> Seq<u8>
    decreases route.len() - start.len(),
{
    if start.len() >= route.len() || start.len() == 0 {
        start
    } else {
        let i = start.len() - 1;
        let pairs = pairs_between(links, route[i], route[i + 1]);
        let lane = next_lane(pairs, dists[i].lanes@, start[i], pairs.len() as int);
        if lane == NO_LANE {
            start + no_lanes(route.len() - start.len())
        } else {
            lane_plan(links, route, dists, start.push(lane))
        }
    }
}

impl Vehicle {
    /// Whether the lane to the left is better than the vehicle's own.
    pub open spec fn left_better(&self) -> bool {
        self.lane > 0 && self.spec_compare_lanes(0, (self.lane - 1) as u8, self.lane)
            == Preference::Better
    }

    /// Whether the lane to the right is better than the vehicle's own.
    pub open spec fn right_better(&self) -> bool {
        self.lane < 255 && self.spec_compare_lanes(0, (self.lane + 1) as u8, self.lane)
            == Preference::Better
    }

    /// The lane that the vehicle chooses on its current link: a neighbouring
    /// lane that is better than its own, and of two such the better one, the
    /// left one where they are alike.
    pub open spec fn chosen_lane(&self) -> u8 {
        if self.left_better() && self.right_better() {
            if self.spec_compare_lanes(0, (self.lane - 1) as u8, (self.lane + 1) as u8)
                == Preference::Worse {
                (self.lane + 1) as u8
            } else {
                (self.lane - 1) as u8
            }
        } else if self.left_better() {
            (self.lane - 1) as u8
        } else if self.right_better() {
            (self.lane + 1) as u8
        } else {
            self.lane
        }
    }

    /// Where the centre line of the vehicle's lanes runs at `pos`, measured
    /// from the start of link `id`, the `ind`-th of the route, and seen from
    /// the vehicle's own link, from which `offset` has been gathered so far. A
    /// position beyond the end of a link lies on the next link of the route,
    /// as long as the route goes on and the network has the connection.
    pub open spec fn lat_ahead(
        &self,
        links: Seq<Option<Link>>,
        ind: int,
        id: usize,
        pos: i64,
        offset: i64,
    ) -> i64
        decreases self.link_route@.len() - ind,
    {
        if id < links.len() && links[id as int] is Some {
            let link = links[id as int]->0;
            if pos > link.length && 0 <= ind && ind + 1 < self.link_route@.len()
                && link.connection_to(self.link_route@[ind + 1]) is Some {
                let next = self.link_route@[ind + 1];
                self.lat_ahead(
                    links,
                    ind + 1,
                    next,
                    minus(pos, link.length),
                    plus(offset, link.spec_get_offset_to_link(next)),
                )
            } else {
                minus(link.spec_get_lat(self.lane_at(ind), pos), offset)
            }
        } else {
            minus(0, offset)
        }
    }

    /// The lane on the `ind`-th link of the route, no lane where the lane
    /// route does not reach so far.
    pub open spec fn lane_at(&self, ind: int) -> u8 {
        if 0 <= ind < self.lane_route@.len() {
            self.lane_route@[ind]
        } else {
            NO_LANE
        }
    }

    pub open spec fn spec_get_lat_at_pos(&self, pos: i64, links: Seq<Option<Link>>) -> i64 {
        self.lat_ahead(links, 0, self.link, pos, 0)
    }

    /// Where the centre line of the lanes that the vehicle will take runs at
    /// `pos`, which is measured from the start of the vehicle's link and may
    /// lie beyond its end.
    pub fn get_lat_at_pos(&self, pos: i64, links: &IdMap<Link>) -> (lat: i64)
        ensures
            lat == self.spec_get_lat_at_pos(pos, links@),
    {
        let mut ind: usize = 0;
        let mut offset: i64 = 0;
        let mut rest = pos;
        let mut id = self.link;
        loop
            invariant
                0 <= ind,
                self.lat_ahead(links@, ind as int, id, rest, offset) == self.spec_get_lat_at_pos(
                    pos,
                    links@,
                ),
            decreases self.link_route@.len() - ind,
        {
            match links.get(id) {
                Some(link) => {
                    if rest > link.length && ind < usize::MAX && ind + 1 < self.link_route.len() {
                        let next = self.link_route[ind + 1];
                        match link.find_connection(next) {
                            Some(k) => {
                                rest = minus(rest, link.length);
                                offset = plus(offset, link.links_out[k].offset);
                                id = next;
                                ind += 1;
                                continue ;
                            },
                            None => {},
                        }
                    }
                    let lane = if ind < self.lane_route.len() {
                        self.lane_route[ind]
                    } else {
                        NO_LANE
                    };
                    proof {
                        assert(self.link_route@.len() == self.link_route.len());
                    }
                    return minus(link.get_lat(lane, rest), offset);
                },
                None => {
                    return minus(0, offset);
                },
            }
        }
    }

    /// The lane that the vehicle decides on: the lane that it is in while it
    /// changes lanes, and the lane that it chooses otherwise.
    pub open spec fn decided_lane(&self) -> u8 {
        if self.changing_lanes {
            self.lane
        } else {
            self.chosen_lane()
        }
    }

    /// The lanes that the vehicle plans from: the decided lane alone where it
    /// begins to change lanes; otherwise its lane route, cut off where the
    /// route ends, and its own lane where it has no lane route.
    pub open spec fn plan_start(&self) -> Seq<u8> {
        if self.decided_lane() != self.lane {
            seq![self.decided_lane()]
        } else if self.lane_route@.len() == 0 {
            seq![self.lane]
        } else if self.lane_route@.len() > self.link_route@.len() {
            self.lane_route@.take(self.link_route@.len() as int)
        } else {
            self.lane_route@
        }
    }

    /// The path of a lane change that begins where the vehicle is: a smooth
    /// step from its lateral position to the centre line of the planned lanes
    /// `LANE_CHANGE_DIST` further on.
    pub open spec fn change_path(&self, links: Seq<Option<Link>>) -> CubicFuncPiece {
        CubicFuncPiece {
            min_x: self.pos,
            max_x: plus(self.pos, LANE_CHANGE_DIST),
            y1: self.lat,
            yd: minus(self.spec_get_lat_at_pos(plus(self.pos, LANE_CHANGE_DIST), links), self.lat),
        }
    }

    /// Whether `after` is the vehicle after it has decided on its lane on the
    /// current link and planned its lanes along the route on the network
    /// `links`.
    ///
    /// A vehicle without a route stays as it is. Any other first works out
    /// its lane distances, where it has fewer of them than links on its
    /// route. Unless it is in the middle of a lane change, it then chooses
    /// its lane, and where that is another lane, begins to change lanes and
    /// lays the path of the change. In any case it plans its lanes for all
    /// the links of its route.
    pub open spec fn lanes_decided(&self, after: Vehicle, links: Seq<Option<Link>>) -> bool {
        if self.link_route@.len() == 0 {
            after == *self
        } else {
            let ready = if self.lane_dists@.len() < self.link_route@.len() {
                Vehicle { lane_dists: after.lane_dists, ..*self }
            } else {
                *self
            };
            let planned = Vehicle {
                old_lane: if self.changing_lanes {
                    ready.old_lane
                } else {
                    ready.lane
                },
                lane: ready.decided_lane(),
                changing_lanes: self.changing_lanes || ready.decided_lane() != ready.lane,
                lane_route: after.lane_route,
                ..ready
            };
            &&& self.lane_dists@.len() < self.link_route@.len() ==> after.dists_match(links)
            &&& self.lane_dists@.len() >= self.link_route@.len() ==> after.lane_dists
                == self.lane_dists
            &&& after.lane_route@ == lane_plan(
                links,
                ready.link_route@,
                ready.lane_dists@,
                ready.plan_start(),
            )
            &&& after == if ready.decided_lane() != ready.lane {
                Vehicle { path: Some(planned.change_path(links)), ..planned }
            } else {
                planned
            }
        }
    }

    /// Decides on the lane on the current link and plans the lanes along the
    /// route; where the vehicle begins to change lanes, lays the path of the
    /// change.
    pub fn lane_decisions(&mut self, links: &IdMap<Link>)
        ensures
            old(self).lanes_decided(*final(self), links@),
    {
        if self.link_route.len() == 0 {
            return ;
        }
        if self.lane_dists.len() < self.link_route.len() {
            self.compute_lane_dists(links);
        }
        let ghost ready = *self;

        // the lane on the current link; a lane change that is under way is
        // carried through first
        let mut chosen = self.lane;
        if !self.changing_lanes {
            self.old_lane = self.lane;
            let left_better = self.lane > 0 && self.compare_lanes(0, self.lane - 1, self.lane)
                == Preference::Better;
            let right_better = self.lane < 255 && self.compare_lanes(0, self.lane + 1, self.lane)
                == Preference::Better;
            chosen = if left_better && right_better {
                if self.compare_lanes(0, self.lane - 1, self.lane + 1) == Preference::Worse {
                    self.lane + 1
                } else {
                    self.lane - 1
                }
            } else if left_better {
                self.lane - 1
            } else if right_better {
                self.lane + 1
            } else {
                self.lane
            };
        }
        proof {
            assert(chosen == ready.decided_lane());
        }
        let begins = chosen != self.lane;
        if chosen != self.lane {
            self.lane = chosen;
            self.changing_lanes = true;
            let mut lanes: Vec<u8> = Vec::new();
            lanes.push(chosen);
            self.lane_route = lanes;
            proof {
                assert(self.lane_route@ =~= seq![chosen]);
            }
        } else if self.lane_route.len() == 0 {
            self.lane_route.push(chosen);
            proof {
                assert(self.lane_route@ =~= seq![chosen]);
            }
        } else if self.lane_route.len() > self.link_route.len() {
            self.lane_route.truncate(self.link_route.len());
            proof {
                assert(self.lane_route@ =~= ready.lane_route@.take(ready.link_route@.len() as int));
            }
        }
        proof {
            assert(self.lane_route@ == ready.plan_start());
        }
        let ghost planned = Vehicle {
            old_lane: if ready.changing_lanes {
                ready.old_lane
            } else {
                ready.lane
            },
            lane: ready.decided_lane(),
            changing_lanes: ready.changing_lanes || ready.decided_lane() != ready.lane,
            lane_route: self.lane_route,
            ..ready
        };
        assert(*self == planned);
        while self.lane_route.len() < self.link_route.len()
            invariant
                self.lane_route@.len() >= 1,
                self.lane_dists@.len() >= self.link_route@.len(),
                *self == (Vehicle { lane_route: self.lane_route, ..planned }),
                lane_plan(links@, self.link_route@, self.lane_dists@, self.lane_route@)
                    == lane_plan(
                    links@,
                    ready.link_route@,
                    ready.lane_dists@,
                    ready.plan_start(),
                ),
            ensures
                self.lane_route@.len() >= self.link_route@.len(),
            decreases self.link_route@.len() - self.lane_route@.len(),
        {
            let i = self.lane_route.len() - 1;
            let prev_lane = self.lane_route[i];
            let prev_link = self.link_route[i];
            let link = self.link_route[i + 1];
            let pairs = match links.get(prev_link) {
                Some(l) => match l.find_connection(link) {
                    Some(_) => l.get_lane_connections(link),
                    None => Vec::new(),
                },
                None => Vec::new(),
            };
            proof {
                assert(pairs@ =~= pairs_between(links@, prev_link, link));
            }
            let mut best: u8 = NO_LANE;
            let mut n: usize = 0;
            while n < pairs.len()
                invariant
                    0 <= n <= pairs@.len(),
                    i < self.lane_dists@.len(),
                    best == next_lane(pairs@, self.lane_dists@[i as int].lanes@, prev_lane,
                        n as int),
                decreases pairs@.len() - n,
            {
                let (lane_in, lane_out) = pairs[n];
                if lane_in == prev_lane && self.compare_lanes(i, best, lane_out)
                    == Preference::Worse {
                    best = lane_out;
                }
                n += 1;
            }
            if best == NO_LANE {
                let ghost before = self.lane_route@;
                while self.lane_route.len() < self.link_route.len()
                    invariant
                        before.len() <= self.lane_route@.len() <= self.link_route@.len(),
                        *self == (Vehicle { lane_route: self.lane_route, ..planned }),
                        self.lane_route@ == before
                            + no_lanes(self.lane_route@.len() - before.len()),
                    decreases self.link_route@.len() - self.lane_route@.len(),
                {
                    self.lane_route.push(NO_LANE);
                    proof {
                        assert(self.lane_route@ =~= before + no_lanes(
                            self.lane_route@.len() - before.len(),
                        ));
                    }
                }
                proof {
                    assert(lane_plan(links@, self.link_route@, self.lane_dists@, before)
                        == self.lane_route@);
                }
                break ;
            }
            self.lane_route.push(best);
        }
        proof {
            assert(self.lane_route@ == lane_plan(
                links@,
                ready.link_route@,
                ready.lane_dists@,
                ready.plan_start(),
            ));
        }

        // the path of a lane change that begins
        if begins {
            let end_lat = self.get_lat_at_pos(plus(self.pos, LANE_CHANGE_DIST), links);
            self.path = Some(
                CubicFuncPiece {
                    min_x: self.pos,
                    max_x: plus(self.pos, LANE_CHANGE_DIST),
                    y1: self.lat,
                    yd: minus(end_lat, self.lat),
                },
            );
        }
    }

    /// The lane distances are those of the route on the network `links`.
    pub open spec fn dists_match(&self, links: Seq<Option<Link>>) -> bool {
        &&& self.lane_dists@.len() == self.link_route@.len()
        &&& forall|h: int|
            0 <= h < self.lane_dists@.len() ==> tiers_of((#[trigger] self.lane_dists@[h]).lanes@)
                == lane_table(links, self.link_route@, h)
    }

    /// Works out the lane distances of the route, from its last link back to
    /// the current one.
    pub fn compute_lane_dists(&mut self, links: &IdMap<Link>)
        requires
            old(self).link_route@.len() >= 1,
        ensures
            final(self).dists_match(links@),
            *final(self) == (Vehicle { lane_dists: final(self).lane_dists, ..*old(self) }),
    {
        let n = self.link_route.len();
        // the tables, the last link's first
        let mut tables: Vec<LaneDistances> = Vec::new();
        let last = self.link_route[n - 1];
        let num = match links.get(last) {
            Some(link) => link.lanes.len(),
            None => 0,
        };
        tables.push(LaneDistances { lanes: uniform_table(num, INFINITY) });
        let mut h: usize = n - 1;
        proof {
            assert(tiers_of(tables@[0].lanes@) =~= lane_table(links@, self.link_route@, n - 1));
        }
        while h > 0
            invariant
                0 <= h < n,
                n == self.link_route@.len(),
                *self == *old(self),
                tables@.len() == n - h,
                forall|g: int|
                    h <= g < n ==> tiers_of((#[trigger] tables@[n - 1 - g]).lanes@) == lane_table(
                        links@,
                        self.link_route@,
                        g,
                    ),
            decreases h,
        {
            h -= 1;
            let id = self.link_route[h];
            let next = self.link_route[h + 1];
            let succ = &tables[tables.len() - 1].lanes;
            proof {
                assert(tables@[n - 1 - (h + 1)].lanes == *succ);
            }
            let lanes = match links.get(id) {
                Some(link) => {
                    let pairs = match link.find_connection(next) {
                        Some(_) => link.get_lane_connections(next),
                        None => Vec::new(),
                    };
                    hop_lanes(link.lanes.len(), link.length, &pairs, succ)
                },
                None => {
                    let pairs: Vec<(u8, u8)> = Vec::new();
                    hop_lanes(0, 0, &pairs, succ)
                },
            };
            tables.push(LaneDistances { lanes });
        }
        // the tables in the order of the route
        let mut dists: Vec<LaneDistances> = Vec::new();
        while tables.len() > 0
            invariant
                n == self.link_route@.len(),
                *self == *old(self),
                dists@.len() + tables@.len() == n,
                forall|g: int|
                    dists@.len() <= g < n ==> tiers_of((#[trigger] tables@[n - 1 - g]).lanes@)
                        == lane_table(links@, self.link_route@, g),
                forall|g: int|
                    0 <= g < dists@.len() ==> tiers_of((#[trigger] dists@[g]).lanes@) == lane_table(
                        links@,
                        self.link_route@,
                        g,
                    ),
            decreases tables@.len(),
        {
            let ghost g = dists@.len() as int;
            proof {
                assert(tiers_of(tables@[n - 1 - g].lanes@)
                    == lane_table(links@, self.link_route@, g));
            }
            match tables.pop() {
                Some(t) => {
                    dists.push(t);
                },
                None => {},
            }
        }
        self.lane_dists = dists;
    }
}

/// Every lane pairing of every connection leads to a lane that the link at
/// the connection's end has.
pub open spec fn connections_fit(links: Seq<Option<Link>>) -> bool {
    forall|i: int, c: int, k: int|
        0 <= i < links.len() && links[i] is Some && 0 <= c < links[i]->0.links_out@.len() && 0 <= k
            < links[i]->0.links_out@[c].lanes@.len() ==> (
        #[trigger] links[i]->0.links_out@[c].lanes@[k]).1 < lanes_of(
            links,
            links[i]->0.links_out@[c].link_out,
        )
}

/// Each of the lanes `lanes` is a lane that the link in its place on `route`
/// has, or no lane.
pub open spec fn lanes_fit(links: Seq<Option<Link>>, route: Seq<usize>, lanes: Seq<u8>) -> bool {
    forall|i: int|
        0 <= i < lanes.len() && i < route.len() ==> (#[trigger] lanes[i]) == NO_LANE || lanes[i]
            < lanes_of(links, route[i])
}

/// The connection that `first_to` finds leads to the link asked for.
pub proof fn lemma_first_to(conns: Seq<super::link::LinkConnection>, link: usize, from: int)
    requires
        0 <= from,
    ensures
        match super::link::first_to(conns, link, from) {
            Some(k) => from <= k < conns.len() && conns[k].link_out == link,
            None => true,
        },
    decreases conns.len() - from,
{
    if from < conns.len() && conns[from].link_out != link {
        lemma_first_to(conns, link, from + 1);
    }
}

/// The lane that `next_lane` chooses is no lane or the far end of one of the
/// pairings.
pub proof fn lemma_next_lane_is_paired(
    pairs: Seq<(u8, u8)>,
    table: Seq<[i64; 4]>,
    prev_lane: u8,
    n: int,
)
    requires
        0 <= n <= pairs.len(),
    ensures
        next_lane(pairs, table, prev_lane, n) == NO_LANE || exists|k: int|
            0 <= k < n && (#[trigger] pairs[k]).1 == next_lane(pairs, table, prev_lane, n),
    decreases n,
{
    if n > 0 {
        lemma_next_lane_is_paired(pairs, table, prev_lane, n - 1);
        let best = next_lane(pairs, table, prev_lane, n - 1);
        let now = next_lane(pairs, table, prev_lane, n);
        if now != best {
            assert(pairs[n - 1].1 == now);
        } else if best != NO_LANE {
            let k = choose|k: int| 0 <= k < n - 1 && (#[trigger] pairs[k]).1 == best;
            assert(pairs[k].1 == now);
        }
    }
}

/// A lane plan begins with the lanes that it started from and has a lane,
/// or no lane, for every link of the route.
pub proof fn lemma_lane_plan_len(
    links: Seq<Option<Link>>,
    route: Seq<usize>,
    dists: Seq<LaneDistances>,
    start: Seq<u8>,
)
    requires
        start.len() >= 1,
    ensures
        lane_plan(links, route, dists, start).len() == if start.len() >= route.len() {
            start.len()
        } else {
            route.len()
        },
        lane_plan(links, route, dists, start).take(start.len() as int) == start,
    decreases route.len() - start.len(),
{
    let plan = lane_plan(links, route, dists, start);
    if start.len() >= route.len() {
        assert(plan.take(start.len() as int) =~= start);
    } else {
        let i = start.len() - 1;
        let pairs = pairs_between(links, route[i], route[i + 1]);
        let lane = next_lane(pairs, dists[i].lanes@, start[i], pairs.len() as int);
        if lane == NO_LANE {
            assert(plan.take(start.len() as int) =~= start);
        } else {
            lemma_lane_plan_len(links, route, dists, start.push(lane));
            assert(plan.take(start.len() as int) =~= plan.take(start.len() as int + 1).take(
                start.len() as int,
            ));
            assert(start.push(lane).take(start.len() as int) =~= start);
        }
    }
}

/// On a network whose connections fit, a lane plan that starts from lanes
/// that the links of the route have names, for every link of the route, a
/// lane that the link has, or no lane.
pub proof fn lemma_lane_plan_fits(
    links: Seq<Option<Link>>,
    route: Seq<usize>,
    dists: Seq<LaneDistances>,
    start: Seq<u8>,
)
    requires
        connections_fit(links),
        lanes_fit(links, route, start),
        start.len() >= 1,
    ensures
        lanes_fit(links, route, lane_plan(links, route, dists, start)),
    decreases route.len() - start.len(),
{
    let plan = lane_plan(links, route, dists, start);
    if start.len() < route.len() {
        let i = start.len() - 1;
        let pairs = pairs_between(links, route[i], route[i + 1]);
        let lane = next_lane(pairs, dists[i].lanes@, start[i], pairs.len() as int);
        if lane == NO_LANE {
            assert forall|a: int| 0 <= a < plan.len() && a < route.len() implies (
            #[trigger] plan[a]) == NO_LANE || plan[a] < lanes_of(links, route[a]) by {
                if a < start.len() {
                    assert(plan[a] == start[a]);
                }
            }
        } else {
            lemma_next_lane_is_paired(pairs, dists[i].lanes@, start[i], pairs.len() as int);
            let k = choose|k: int| 0 <= k < pairs.len() && (#[trigger] pairs[k]).1 == lane;
            // the pairing belongs to the connection to the next link
            let id = route[i];
            let from = links[id as int]->0;
            let c = from.connection_to(route[i + 1])->0;
            lemma_first_to(from.links_out@, route[i + 1], 0);
            assert(from.links_out@[c].lanes@[k].1 < lanes_of(links, from.links_out@[c].link_out));
            let longer = start.push(lane);
            assert forall|a: int| 0 <= a < longer.len() && a < route.len() implies (
            #[trigger] longer[a]) == NO_LANE || longer[a] < lanes_of(links, route[a]) by {
                if a < start.len() {
                    assert(longer[a] == start[a]);
                }
            }
            lemma_lane_plan_fits(links, route, dists, longer);
        }
    }
}

/// After a vehicle has decided on its lanes, it has a lane, or no lane, for
/// every link of its route.
///
/// This holds of every vehicle that has a route.
pub proof fn lemma_lanes_decided_lengths(v: Vehicle, after: Vehicle, links: Seq<Option<Link>>)
    requires
        v.lanes_decided(after, links),
        v.link_route@.len() >= 1,
    ensures
        after.lane_route@.len() == after.link_route@.len(),
{
    let ready = if v.lane_dists@.len() < v.link_route@.len() {
        Vehicle { lane_dists: after.lane_dists, ..v }
    } else {
        v
    };
    lemma_lane_plan_len(links, ready.link_route@, ready.lane_dists@, ready.plan_start());
}

/// After a vehicle has decided on its lanes on a network whose connections
/// fit, each lane of its lane route is a lane that the link in its place on
/// the route has, or no lane.
///
/// This holds of a vehicle with a route whose lane and lane route fitted
/// before, and whose lane distances, where it had them, were those of its
/// route.
pub proof fn lemma_lanes_decided_fit(v: Vehicle, after: Vehicle, links: Seq<Option<Link>>)
    requires
        v.lanes_decided(after, links),
        v.link_route@.len() >= 1,
        connections_fit(links),
        lanes_fit(links, v.link_route@, v.lane_route@),
        v.lane < lanes_of(links, v.link_route@[0]),
        v.lane_dists@.len() >= v.link_route@.len() ==> v.dists_match(links),
    ensures
        lanes_fit(links, after.link_route@, after.lane_route@),
        after.lane < lanes_of(links, after.link_route@[0]),
{
    let ready = if v.lane_dists@.len() < v.link_route@.len() {
        Vehicle { lane_dists: after.lane_dists, ..v }
    } else {
        v
    };
    assert(ready.dists_match(links));
    let route = ready.link_route@;
    let table = ready.lane_dists@[0].lanes@;
    assert(tiers_of(table) == lane_table(links, route, 0));
    assert(table.len() == tiers_of(table).len());
    assert(lane_table(links, route, 0).len() == lanes_of(links, route[0]));
    let chosen = ready.decided_lane();
    assert(chosen < lanes_of(links, route[0]));
    let start = ready.plan_start();
    assert forall|a: int| 0 <= a < start.len() && a < route.len() implies (#[trigger] start[a])
        == NO_LANE || start[a] < lanes_of(links, route[a]) by {
        if chosen != ready.lane {
        } else if ready.lane_route@.len() == 0 {
        } else {
            assert(start[a] == v.lane_route@[a]);
        }
    }
    lemma_lane_plan_fits(links, route, ready.lane_dists@, start);
}

} // verus!
