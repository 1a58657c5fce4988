//! How a vehicle moves in one tick: the speed limit's hold on its
//! acceleration, the step in time, the passage to the next link and the
//! lateral path.
use super::link::{fresh_obstacle, last_index_of, Link};
use super::vehicle::{Vehicle, COMF_DECEL, NO_LINK};
use crate::fixed::{lesser, minus, over, plus, root, square, times, ONE, TWO};
use crate::util::{CubicFuncPiece, IdMap};
use vstd::prelude::*;

verus! {

/// The speed from which a vehicle can still slow down comfortably to `limit`
/// over `dist`: `sqrt(limit^2 - 2 * COMF_DECEL * dist)`, and `limit` itself
/// where no distance is left.
pub open spec fn reachable_limit(limit: i64, dist: i64) -> i64 {
    if dist > 0 {
        root(minus(square(limit), times(times(TWO, COMF_DECEL), dist)))
    } else {
        limit
    }
}

/// The links `after` are the links `before`, but that link `id` has the
/// obstacles `obstacles`.
pub open spec fn obstacles_replaced(
    before: Seq<Option<Link>>,
    after: Seq<Option<Link>>,
    id: usize,
    obstacles: Seq<super::link::Obstacle>,
) -> bool {
    &&& after.len() == before.len()
    &&& id < before.len()
    &&& before[id as int] is Some
    &&& after[id as int] is Some
    &&& after[id as int]->0.same_road(&before[id as int]->0)
    &&& after[id as int]->0.obstacles@ == obstacles
    &&& forall|i: int| 0 <= i < before.len() && i != id ==> after[i] == before[i]
}

/// The obstacles `obstacles` without the last one of vehicle `veh`.
pub open spec fn without_veh(
    obstacles: Seq<super::link::Obstacle>,
    veh: usize,
) -> Seq<super::link::Obstacle> {
    match last_index_of(obstacles, veh, obstacles.len() as int) {
        Some(k) => obstacles.remove(k),
        None => obstacles,
    }
}

/// A sequence without its first element; an empty one as it is.
pub open spec fn rest_of<T>(s: Seq<T>) -> Seq<T> {
    if s.len() > 0 {
        s.skip(1)
    } else {
        s
    }
}

/// The network apart from the obstacles: each link of `after` is the same
/// road as the link of `before` in its place.
pub open spec fn same_roads(before: Seq<Option<Link>>, after: Seq<Option<Link>>) -> bool {
    &&& after.len() == before.len()
    &&& forall|i: int|
        0 <= i < before.len() ==> ((#[trigger] after[i]) is Some <==> before[i] is Some)
    &&& forall|i: int|
        0 <= i < before.len() && before[i] is Some ==> (#[trigger] after[i])->0.same_road(
            &before[i]->0,
        )
}

impl Vehicle {
    /// The acceleration that keeps the vehicle within a speed limit `limit`
    /// that begins `dist` ahead: `max_acc * (1 - (vel / reachable_limit)^4)`.
    pub open spec fn limit_acc(&self, limit: i64, dist: i64) -> i64 {
        times(
            self.max_acc,
            minus(ONE, square(square(over(self.vel, reachable_limit(limit, dist))))),
        )
    }

    /// The vehicle's link in the network `links`, if the network has it.
    pub open spec fn on_link(&self, links: Seq<Option<Link>>) -> bool {
        self.link < links.len() && links[self.link as int] is Some
    }

    /// The next link of the route in the network `links`, if the route goes
    /// on and the network has the link.
    pub open spec fn has_next(&self, links: Seq<Option<Link>>) -> bool {
        self.link_route@.len() >= 2 && self.link_route@[1] < links.len()
            && links[self.link_route@[1] as int]
            is Some
    }

    /// The acceleration under the speed limits of the vehicle's link and of
    /// the next link of its route.
    pub open spec fn spec_limited_acc(&self, links: Seq<Option<Link>>) -> i64 {
        if self.on_link(links) {
            let link = links[self.link as int]->0;
            let here = lesser(self.acc, self.limit_acc(link.speed_limit, 0));
            if self.has_next(links) {
                let next = links[self.link_route@[1] as int]->0;
                lesser(here, self.limit_acc(next.speed_limit, minus(link.length, self.pos)))
            } else {
                here
            }
        } else {
            self.acc
        }
    }

    fn apply_limit(&mut self, limit: i64, dist: i64)
        ensures
            *final(self)
                == old(self).with_acc(lesser(old(self).acc, old(self).limit_acc(limit, dist))),
    {
        let limit = if dist > 0 {
            root(minus(square(limit), times(times(TWO, COMF_DECEL), dist)))
        } else {
            limit
        };
        let acc = times(self.max_acc, minus(ONE, square(square(over(self.vel, limit)))));
        self.apply_acc(acc);
    }

    /// Limits the acceleration by the speed limit of the vehicle's link and
    /// by that of the next link of its route. A vehicle that is on no link of
    /// the network is left alone.
    pub fn apply_speedlimit(&mut self, links: &IdMap<Link>)
        ensures
            *final(self) == old(self).with_acc(old(self).spec_limited_acc(links@)),
    {
        match links.get(self.link) {
            Some(link) => {
                // the limit of the vehicle's link
                self.apply_limit(link.speed_limit, 0);
                // the limit of the next link, which the vehicle slows down for
                if self.link_route.len() >= 2 {
                    match links.get(self.link_route[1]) {
                        Some(next_link) => {
                            self.apply_limit(next_link.speed_limit, minus(link.length, self.pos));
                        },
                        None => {},
                    }
                }
            },
            None => {},
        }
    }

    /// Whether the vehicle needs a new path: it has none, or has passed the
    /// end of the one it has.
    pub open spec fn path_spent(&self) -> bool {
        match self.path {
            Some(p) => self.pos > p.max_x,
            None => true,
        }
    }

    /// The piece of the lane's centre line at the vehicle's position, if the
    /// network has the vehicle's link and the link has the vehicle's lane.
    pub open spec fn lane_piece(&self, links: Seq<Option<Link>>) -> Option<CubicFuncPiece> {
        if self.on_link(links) && self.lane < links[self.link as int]->0.lanes@.len() {
            Some(links[self.link as int]->0.lanes@[self.lane as int].lat.spec_get_piece(self.pos))
        } else {
            None
        }
    }

    /// The vehicle with its path brought up to date. A spent path is replaced
    /// by the piece of the lane's centre line, which ends a lane change. The
    /// lateral position and its slope are then those of the path at the
    /// vehicle's position; without a path they stay as they are.
    pub open spec fn spec_update_path(self, links: Seq<Option<Link>>) -> Vehicle {
        let v = if self.path_spent() {
            Vehicle { path: self.lane_piece(links), changing_lanes: false, ..self }
        } else {
            self
        };
        match v.path {
            Some(p) => Vehicle { lat: p.spec_get_y(v.pos), dlat: p.spec_get_dy(v.pos), ..v },
            None => v,
        }
    }

    /// Brings the vehicle's path up to date, and with it the lateral position
    /// and its slope.
    pub fn update_path(&mut self, links: &IdMap<Link>)
        ensures
            *final(self) == old(self).spec_update_path(links@),
            final(self).path is Some ==> final(self).lat == final(self).path->0.spec_get_y(
                final(self).pos,
            ) && final(self).dlat == final(self).path->0.spec_get_dy(final(self).pos),
    {
        let spent = match self.path {
            Some(p) => self.pos > p.max_x,
            None => true,
        };
        if spent {
            self.path = match links.get(self.link) {
                Some(link) => if (self.lane as usize) < link.lanes.len() {
                    Some(link.lanes[self.lane as usize].lat.get_piece(self.pos))
                } else {
                    None
                },
                None => None,
            };
            self.changing_lanes = false;
        }
        match self.path {
            Some(p) => {
                let (lat, dlat) = p.get_y_and_dy(self.pos);
                self.lat = lat;
                self.dlat = dlat;
            },
            None => {},
        }
    }

    /// The speed after a tick of `delta`: `vel + acc * delta`, but not below
    /// zero.
    pub open spec fn next_vel(&self, delta: i64) -> i64 {
        if plus(self.vel, times(self.acc, delta)) < 0 {
            0
        } else {
            plus(self.vel, times(self.acc, delta))
        }
    }

    /// The position after a tick of `delta`, on the link that the vehicle is
    /// on: `pos + next_vel * delta`.
    pub open spec fn next_pos(&self, delta: i64) -> i64 {
        plus(self.pos, times(self.next_vel(delta), delta))
    }

    /// Whether a tick of `delta` takes the vehicle past the end of its link.
    pub open spec fn leaves_link(&self, delta: i64, links: Seq<Option<Link>>) -> bool {
        self.on_link(links) && self.next_pos(delta) > links[self.link as int]->0.length
    }

    /// The lateral offset of the connection from the vehicle's link to the
    /// next link of its route, zero where the network has no such connection.
    pub open spec fn offset_to_next(&self, links: Seq<Option<Link>>) -> i64 {
        let link = links[self.link as int]->0;
        if link.connection_to(self.link_route@[1]) is Some {
            link.spec_get_offset_to_link(self.link_route@[1])
        } else {
            0
        }
    }

    /// The vehicle's path as it is carried over to the next link, whose start
    /// lies `len` further on: moved back by `len` and across by the
    /// connection's offset during a lane change, and dropped otherwise.
    pub open spec fn carried_path(
        &self,
        len: i64,
        links: Seq<Option<Link>>,
    ) -> Option<CubicFuncPiece> {
        if self.changing_lanes {
            match self.path {
                Some(p) => Some(p.spec_translate(minus(0, len), self.offset_to_next(links))),
                None => None,
            }
        } else {
            None
        }
    }

    /// Whether `after` and `links_after` are the vehicle and the network after
    /// the vehicle has moved through a tick of `delta` on the network `links`.
    ///
    /// The speed changes by the acceleration, the position by the new speed,
    /// and the acceleration goes back to the highest that the vehicle has. A
    /// vehicle that passes the end of its link is taken off that link and
    /// loses the head of its route; it goes on to the next link of the route,
    /// and leaves the network where the route has ended or names a link that
    /// the network lacks. A vehicle that stays on the network has its path
    /// brought up to date.
    pub open spec fn integrated(
        &self,
        delta: i64,
        links: Seq<Option<Link>>,
        after: Vehicle,
        links_after: Seq<Option<Link>>,
    ) -> bool {
        &&& after.vel == self.next_vel(delta)
        &&& after.acc == self.max_acc
        &&& same_roads(links, links_after)
        // a vehicle that stays on its link, or is on none
        &&& !self.leaves_link(delta, links) ==> {
                let moved = Vehicle {
                    vel: self.next_vel(delta),
                    pos: self.next_pos(delta),
                    acc: self.max_acc,
                    ..*self
                };
                &&& links_after == links
                &&& after == if self.on_link(links) {
                    moved.spec_update_path(links)
                } else {
                    moved
                }
            }
        // a vehicle that passes the end of its link
        &&& self.leaves_link(delta, links) ==> {
                let len = links[self.link as int]->0.length;
                let left = without_veh(
                    links[self.link as int]->0.obstacles@,
                    self.id,
                );
                &&& after.link_route@ == rest_of(self.link_route@)
                &&& after.lane_route@ == rest_of(self.lane_route@)
                &&& after.lane_dists@ == rest_of(self.lane_dists@)
                &&& if self.has_next(links) {
                    let next = self.link_route@[1];
                    let entered = Vehicle {
                        vel: self.next_vel(delta),
                        pos: minus(self.next_pos(delta), len),
                        acc: self.max_acc,
                        link: next,
                        lane: if self.lane_route@.len() >= 2 {
                            self.lane_route@[1]
                        } else {
                            self.lane
                        },
                        path: self.carried_path(len, links),
                        link_route: after.link_route,
                        lane_route: after.lane_route,
                        lane_dists: after.lane_dists,
                        ..*self
                    };
                    &&& after == entered.spec_update_path(links_after)
                    &&& if next == self.link {
                        obstacles_replaced(
                            links,
                            links_after,
                            next,
                            left.insert(0, fresh_obstacle(self.id)),
                        )
                    } else {
                        &&& links_after.len() == links.len()
                        &&& links_after[self.link as int]->0.obstacles@ == left
                        &&& links_after[next as int]->0.obstacles@
                            == links[next as int]->0.obstacles@.insert(
                            0,
                            fresh_obstacle(self.id),
                        )
                        &&& forall|i: int|
                            0 <= i < links.len() && i != next && i != self.link
                                ==> links_after[i] == links[i]
                    }
                } else {
                    &&& obstacles_replaced(links, links_after, self.link, left)
                    &&& after == (Vehicle {
                        vel: self.next_vel(delta),
                        pos: self.next_pos(delta),
                        acc: self.max_acc,
                        link: NO_LINK,
                        link_route: after.link_route,
                        lane_route: after.lane_route,
                        lane_dists: after.lane_dists,
                        ..*self
                    })
                }
            }
    }

    /// Moves the vehicle through a tick of `delta`.
    pub fn integrate(&mut self, delta: i64, links: &mut IdMap<Link>)
        ensures
            final(self).vel >= 0,
            final(links).free() == old(links).free(),
            old(links).wf() ==> final(links).wf(),
            old(self).integrated(delta, old(links)@, *final(self), final(links)@),
    {
        // speed and position; the acceleration starts the next tick at its highest
        self.vel = plus(self.vel, times(self.acc, delta));
        if self.vel < 0 {
            self.vel = 0;
        }
        self.pos = plus(self.pos, times(self.vel, delta));
        self.acc = self.max_acc;

        // the passage to the next link
        let len = match links.get(self.link) {
            Some(link) => link.length,
            None => {
                return ;
            },
        };
        if self.pos > len {
            let here = self.link;
            match links.get_mut(here) {
                Some(link) => {
                    link.remove_veh(self.id);
                },
                None => {},
            }
            let ghost mid_links = links@;
            proof {
                assert(obstacles_replaced(
                    old(links)@,
                    mid_links,
                    here,
                    without_veh(old(links)@[here as int]->0.obstacles@, self.id),
                ));
            }
            let next = if self.link_route.len() >= 2 {
                Some(self.link_route[1])
            } else {
                None
            };
            let next_lane = if self.lane_route.len() >= 2 {
                self.lane_route[1]
            } else {
                self.lane
            };
            if self.link_route.len() > 0 {
                self.link_route.remove(0);
            }
            if self.lane_route.len() > 0 {
                self.lane_route.remove(0);
            }
            if self.lane_dists.len() > 0 {
                self.lane_dists.remove(0);
            }
            proof {
                assert(self.link_route@ =~= rest_of(old(self).link_route@));
                assert(self.lane_route@ =~= rest_of(old(self).lane_route@));
                assert(self.lane_dists@ =~= rest_of(old(self).lane_dists@));
            }
            let entered = match next {
                Some(next_link) => {
                    let lat_off = match links.get(here) {
                        Some(link) => match link.find_connection(next_link) {
                            Some(k) => link.links_out[k].offset,
                            None => 0,
                        },
                        None => 0,
                    };
                    match links.get_mut(next_link) {
                        Some(link) => {
                            link.add_veh(self.id);
                            self.link = next_link;
                            self.pos = minus(self.pos, len);
                            self.lane = next_lane;
                            self.path = if self.changing_lanes {
                                match self.path {
                                    Some(p) => Some(p.translate(minus(0, len), lat_off)),
                                    None => None,
                                }
                            } else {
                                None
                            };
                            true
                        },
                        None => false,
                    }
                },
                None => false,
            };
            if !entered {
                // the route has ended: the vehicle leaves the network
                self.link = NO_LINK;
                return ;
            }
        }
        // the path, and with it the lateral position and its slope

        self.update_path(links);
    }
}

/// A vehicle whose path has been brought up to date is, across the road,
/// exactly where its path says, and turned as its path says.
pub proof fn lemma_path_continuity(v: Vehicle, links: Seq<Option<Link>>)
    ensures
        v.spec_update_path(links).path is Some ==> v.spec_update_path(links).lat
            == v.spec_update_path(
            links,
        ).path->0.spec_get_y(v.spec_update_path(links).pos) && v.spec_update_path(links).dlat
            == v.spec_update_path(links).path->0.spec_get_dy(v.spec_update_path(links).pos),
        v.spec_update_path(links).pos == v.pos,
{
}

/// After a tick a vehicle does not move backwards, and one that is still on
/// the network is on a link of the network, at a position that is not
/// negative and, unless the tick has carried it past the whole of the link
/// that it has entered, not beyond the link's end.
///
/// The vehicle must be on a link of the network at a position that is not
/// negative, and the tick must not run backwards in time.
pub proof fn lemma_integrated_bounds(
    v: Vehicle,
    delta: i64,
    links: Seq<Option<Link>>,
    after: Vehicle,
    links_after: Seq<Option<Link>>,
)
    requires
        v.integrated(delta, links, after, links_after),
        v.on_link(links),
        v.pos >= 0,
        delta >= 0,
    ensures
        after.vel >= 0,
        after.link != NO_LINK ==> after.on_link(links_after) && after.pos >= 0,
        !v.leaves_link(delta, links) ==> after.link == v.link && v.pos <= after.pos
            <= links_after[after.link as int]->0.length,
        v.leaves_link(delta, links) && v.has_next(links) ==> after.link == v.link_route@[1]
            && after.pos > 0 && (v.next_pos(delta) - links[v.link as int]->0.length
            <= links[v.link_route@[1] as int]->0.length ==> after.pos
            <= links_after[after.link as int]->0.length),
        v.leaves_link(delta, links) && !v.has_next(links) ==> after.link == NO_LINK,
{
    let vel = v.next_vel(delta);
    crate::fixed::lemma_times_nonneg(vel, delta);
    assert(v.next_pos(delta) >= v.pos);
    if v.leaves_link(delta, links) {
        if v.has_next(links) {
            let next = v.link_route@[1];
            assert(links_after[next as int] is Some);
            assert(links_after[next as int]->0.same_road(&links[next as int]->0));
        }
    } else {
    }
}

} // verus!
