//! What holds of every tick: limits only ever lower an acceleration, and
//! vehicles stay on their links.
use super::lanes::{
    lanes_fit, lanes_of, lemma_lanes_decided_fit, lemma_lanes_decided_lengths,
};
use super::link::Link;
use super::motion::{lemma_integrated_bounds, rest_of, same_roads};
use crate::fixed::{minus, plus, times};
use super::stopline::{Gate, StopLine};
use super::vehicle::{Vehicle, NO_LINK};
use super::{all_advanced, all_followed, lines_stepped, one_advanced, one_line_stepped, Simulation};
use vstd::prelude::*;

verus! {

/// The vehicle `b` is the vehicle `a` with an acceleration that is no higher.
pub open spec fn held_back(a: Vehicle, b: Vehicle) -> bool {
    b == a.with_acc(b.acc) && b.acc <= a.acc
}

/// The vehicles `after` are the vehicles `before`, each with an acceleration
/// that is no higher.
pub open spec fn all_held_back(before: Seq<Option<Vehicle>>, after: Seq<Option<Vehicle>>) -> bool {
    &&& after.len() == before.len()
    &&& forall|i: int|
        0 <= i < before.len() ==> match #[trigger] before[i] {
            Some(v) => after[i] is Some && held_back(v, after[i]->0),
            None => after[i] is None,
        }
}

/// Holding back twice is holding back.
pub proof fn lemma_held_back_twice(
    a: Seq<Option<Vehicle>>,
    b: Seq<Option<Vehicle>>,
    c: Seq<Option<Vehicle>>,
)
    requires
        all_held_back(a, b),
        all_held_back(b, c),
    ensures
        all_held_back(a, c),
{
    assert forall|i: int| 0 <= i < a.len() implies match #[trigger] a[i] {
        Some(v) => c[i] is Some && held_back(v, c[i]->0),
        None => c[i] is None,
    } by {
        let _ = b[i];
    }
}

/// The car-following law on a link only holds vehicles back.
pub proof fn lemma_followed_holds_back(
    link: Link,
    vehs: Seq<Option<Vehicle>>,
    links: Seq<Option<Link>>,
    k: int,
)
    ensures
        all_held_back(vehs, link.followed(vehs, links, k)),
    decreases k,
{
    if k > 0 {
        lemma_followed_holds_back(link, vehs, links, k - 1);
        let prev = link.followed(vehs, links, k - 1);
        let now = link.followed(vehs, links, k);
        assert(all_held_back(prev, now)) by {
            assert forall|i: int| 0 <= i < prev.len() implies match #[trigger] prev[i] {
                Some(v) => now[i] is Some && held_back(v, now[i]->0),
                None => now[i] is None,
            } by {}
        }
        lemma_held_back_twice(vehs, prev, now);
    } else {
        assert forall|i: int| 0 <= i < vehs.len() implies match #[trigger] vehs[i] {
            Some(v) => vehs[i] is Some && held_back(v, vehs[i]->0),
            None => vehs[i] is None,
        } by {}
    }
}

/// The car-following law on all links only holds vehicles back.
pub proof fn lemma_all_followed_holds_back(
    links: Seq<Option<Link>>,
    vehs: Seq<Option<Vehicle>>,
    n: int,
)
    ensures
        all_held_back(vehs, all_followed(links, vehs, n)),
    decreases n,
{
    if n > 0 {
        lemma_all_followed_holds_back(links, vehs, n - 1);
        let prev = all_followed(links, vehs, n - 1);
        if n - 1 < links.len() && links[n - 1] is Some {
            let link = links[n - 1]->0;
            lemma_followed_holds_back(link, prev, links, link.obstacles@.len() as int);
            lemma_held_back_twice(vehs, prev, all_followed(links, vehs, n));
        }
    } else {
        lemma_held_back_same(vehs);
    }
}

/// Vehicles that are left alone are held back.
pub proof fn lemma_held_back_same(vehs: Seq<Option<Vehicle>>)
    ensures
        all_held_back(vehs, vehs),
{
    assert forall|i: int| 0 <= i < vehs.len() implies match #[trigger] vehs[i] {
        Some(v) => vehs[i] is Some && held_back(v, vehs[i]->0),
        None => vehs[i] is None,
    } by {}
}

/// A stop line that deals with the vehicles of a link only holds vehicles
/// back.
pub proof fn lemma_scan_holds_back(
    line: StopLine,
    obstacles: Seq<super::link::Obstacle>,
    k: int,
    g: Gate,
    route: Seq<usize>,
    pos: i64,
    clear: bool,
)
    ensures
        all_held_back(g.vehs, line.scan(obstacles, k, g, route, pos, clear).0.vehs),
    decreases k,
{
    if k > 0 {
        let (g1, halted) = line.visit(g, obstacles[k - 1].veh, route, pos, clear);
        assert(all_held_back(g.vehs, g1.vehs)) by {
            assert forall|i: int| 0 <= i < g.vehs.len() implies match #[trigger] g.vehs[i] {
                Some(v) => g1.vehs[i] is Some && held_back(v, g1.vehs[i]->0),
                None => g1.vehs[i] is None,
            } by {}
        }
        if !halted {
            lemma_scan_holds_back(line, obstacles, k - 1, g1, route, pos, clear);
            lemma_held_back_twice(
                g.vehs,
                g1.vehs,
                line.scan(obstacles, k - 1, g1, route, pos, clear).0.vehs,
            );
        }
    } else {
        lemma_held_back_same(g.vehs);
    }
}

/// A stop line that deals with the vehicles on a link and upstream of it only
/// holds vehicles back.
pub proof fn lemma_reach_holds_back(
    line: StopLine,
    links: Seq<Option<Link>>,
    id: usize,
    route: Seq<usize>,
    pos: i64,
    depth: nat,
    clear: bool,
    g: Gate,
)
    ensures
        all_held_back(g.vehs, line.reach(links, id, route, pos, depth, clear, g).vehs),
    decreases depth, 1nat, 0nat,
{
    if id < links.len() && links[id as int] is Some {
        let link = links[id as int]->0;
        lemma_scan_holds_back(
            line,
            link.obstacles@,
            link.obstacles@.len() as int,
            g,
            route,
            pos,
            clear,
        );
        let (g1, halted) = line.scan(
            link.obstacles@,
            link.obstacles@.len() as int,
            g,
            route,
            pos,
            clear,
        );
        if !(halted || depth == 0) {
            lemma_upstream_holds_back(
                line,
                links,
                id,
                link.links_in@.len(),
                route,
                pos,
                depth,
                clear,
                g1,
            );
            lemma_held_back_twice(
                g.vehs,
                g1.vehs,
                line.reach_upstream(
                    links,
                    id,
                    link.links_in@.len(),
                    route,
                    pos,
                    depth,
                    clear,
                    g1,
                ).vehs,
            );
        }
    } else {
        lemma_held_back_same(g.vehs);
    }
}

/// A stop line that deals with the vehicles upstream of a link only holds
/// vehicles back.
pub proof fn lemma_upstream_holds_back(
    line: StopLine,
    links: Seq<Option<Link>>,
    id: usize,
    n: nat,
    route: Seq<usize>,
    pos: i64,
    depth: nat,
    clear: bool,
    g: Gate,
)
    ensures
        all_held_back(g.vehs, line.reach_upstream(links, id, n, route, pos, depth, clear, g).vehs),
    decreases depth, 0nat, n,
{
    if n == 0 || depth == 0 || !(id < links.len() && links[id as int] is Some) {
        lemma_held_back_same(g.vehs);
    } else {
        lemma_upstream_holds_back(line, links, id, (n - 1) as nat, route, pos, depth, clear, g);
        let g1 = line.reach_upstream(links, id, (n - 1) as nat, route, pos, depth, clear, g);
        let from = links[id as int]->0.links_in@[n - 1].link_in;
        if from < links.len() && links[from as int] is Some {
            let further = super::stopline::route_through(id, route);
            let there = crate::fixed::plus(pos, links[from as int]->0.length);
            lemma_reach_holds_back(line, links, from, further, there, (depth - 1) as nat, clear,
                g1);
            lemma_held_back_twice(
                g.vehs,
                g1.vehs,
                line.reach(links, from, further, there, (depth - 1) as nat, clear, g1).vehs,
            );
        }
    }
}

/// The stop lines, each making its tick, only hold vehicles back.
pub proof fn lemma_lines_hold_back(
    links: Seq<Option<Link>>,
    lines: Seq<Option<StopLine>>,
    vehs: Seq<Option<Vehicle>>,
    n: nat,
    lines_n: Seq<Option<StopLine>>,
    vehs_n: Seq<Option<Vehicle>>,
)
    requires
        lines_stepped(links, lines, vehs, n, lines_n, vehs_n),
    ensures
        all_held_back(vehs, vehs_n),
    decreases n,
{
    if n == 0 {
        lemma_held_back_same(vehs);
    } else {
        let (lines_p, vehs_p) = choose|lines_p: Seq<Option<StopLine>>, vehs_p: Seq<Option<Vehicle>>|
            #![trigger one_line_stepped(links, lines_p, vehs_p, n - 1, lines_n, vehs_n)]
            lines_stepped(links, lines, vehs, (n - 1) as nat, lines_p, vehs_p) && one_line_stepped(
                links,
                lines_p,
                vehs_p,
                n - 1,
                lines_n,
                vehs_n,
            );
        lemma_lines_hold_back(links, lines, vehs, (n - 1) as nat, lines_p, vehs_p);
        if 0 <= n - 1 < lines_p.len() && lines_p[n - 1] is Some {
            let line = lines_p[n - 1]->0;
            let clear = line.spec_is_clear(lines_p);
            let start = Gate {
                committed: super::stopline::kept(
                    line.committed_vehs@,
                    vehs_p,
                    line.link,
                    line.committed_vehs@.len() as int,
                ),
                clear_before: super::stopline::cleared_to(
                    line.committed_vehs@,
                    vehs_p,
                    line.link,
                    line.committed_vehs@.len() as int,
                ),
                vehs: vehs_p,
            };
            lemma_reach_holds_back(
                line,
                links,
                line.link,
                Seq::empty(),
                line.pos,
                super::stopline::UPSTREAM_HOPS as nat,
                clear,
                start,
            );
        } else {
            lemma_held_back_same(vehs_p);
        }
        lemma_held_back_twice(vehs, vehs_p, vehs_n);
    }
}

/// The vehicle `b` is where the vehicle `a` is, with the same route.
pub open spec fn same_place(a: Vehicle, b: Vehicle) -> bool {
    b.pos == a.pos && b.link == a.link && b.link_route@ == a.link_route@
}

/// A vehicle that decides on its lanes stays where it is, with the same
/// route.
pub proof fn lemma_lanes_decided_same_place(v: Vehicle, after: Vehicle, links: Seq<Option<Link>>)
    requires
        v.lanes_decided(after, links),
    ensures
        same_place(v, after),
{
}

/// Networks of the same roads, one after the other.
pub proof fn lemma_same_roads_twice(
    a: Seq<Option<Link>>,
    b: Seq<Option<Link>>,
    c: Seq<Option<Link>>,
)
    requires
        same_roads(a, b),
        same_roads(b, c),
    ensures
        same_roads(a, c),
{
    assert forall|i: int| 0 <= i < a.len() implies ((#[trigger] c[i]) is Some
        <==> a[i] is Some) by {
        let _ = b[i];
    }
    assert forall|i: int| 0 <= i < a.len() && a[i] is Some implies (#[trigger] c[i])->0.same_road(
        &a[i]->0,
    ) by {
        assert(b[i]->0.same_road(&a[i]->0));
        assert(c[i]->0.same_road(&b[i]->0));
    }
}

/// Whether a tick of `delta` would carry the vehicle `v`, with the
/// acceleration that it has, past the whole of the next link of its route:
/// past the end of its own link by more than the next link is long.
pub open spec fn past_next_link(v: Vehicle, delta: i64, links: Seq<Option<Link>>) -> bool {
    v.on_link(links) && v.has_next(links) && v.next_pos(delta) - links[v.link as int]->0.length
        > links[v.link_route@[1] as int]->0.length
}

/// The vehicle `after` is in range after a tick of `delta` that `before` has
/// gone through: its speed is not negative; and if it is still on the
/// network, it is on a link of the network, at a position that is not
/// negative and, unless the tick could carry it past the whole of the next
/// link of its route, not beyond the end of its link.
pub open spec fn in_range_after(
    before: Vehicle,
    after: Vehicle,
    delta: i64,
    links: Seq<Option<Link>>,
) -> bool {
    &&& after.vel >= 0
    &&& after.link != NO_LINK ==> {
        &&& after.on_link(links)
        &&& after.pos >= 0
        &&& !past_next_link(before, delta, links) ==> after.pos
            <= links[after.link as int]->0.length
    }
}

/// A vehicle that is held back does not get further in a tick that does not
/// run backwards.
pub proof fn lemma_held_back_gets_less_far(a: Vehicle, b: Vehicle, delta: i64)
    requires
        held_back(a, b),
        delta >= 0,
    ensures
        b.next_vel(delta) <= a.next_vel(delta),
        b.next_pos(delta) <= a.next_pos(delta),
{
    crate::fixed::lemma_times_grows(b.acc, a.acc, delta);
    crate::fixed::lemma_times_grows(b.next_vel(delta), a.next_vel(delta), delta);
}

/// Being in range does not depend on the obstacles on the links.
pub proof fn lemma_in_range_same_roads(
    before: Vehicle,
    after: Vehicle,
    delta: i64,
    links: Seq<Option<Link>>,
    others: Seq<Option<Link>>,
)
    requires
        in_range_after(before, after, delta, links),
        same_roads(links, others),
    ensures
        in_range_after(before, after, delta, others),
{
    if after.link != NO_LINK {
        assert(others[after.link as int]->0.same_road(&links[after.link as int]->0));
    }
    if past_next_link(before, delta, others) {
        assert(others[before.link as int]->0.same_road(&links[before.link as int]->0));
        let next = before.link_route@[1] as int;
        assert(others[next]->0.same_road(&links[next]->0));
    }
}

/// When the vehicles have been moved one after the other through a tick that
/// does not run backwards, the roads are the same as before, and every
/// vehicle that was on a link of the network at a position that was not
/// negative is in range.
pub proof fn lemma_all_advanced_in_range(
    delta: i64,
    links: Seq<Option<Link>>,
    vehs: Seq<Option<Vehicle>>,
    n: nat,
    links_n: Seq<Option<Link>>,
    vehs_n: Seq<Option<Vehicle>>,
)
    requires
        all_advanced(delta, links, vehs, n, links_n, vehs_n),
        delta >= 0,
        n <= vehs.len(),
    ensures
        same_roads(links, links_n),
        vehs_n.len() == vehs.len(),
        forall|j: int| n <= j < vehs.len() ==> vehs_n[j] == vehs[j],
        forall|j: int|
            0 <= j < n ==> match #[trigger] vehs[j] {
                Some(v) => vehs_n[j] is Some && (v.on_link(links) && v.pos >= 0 ==> in_range_after(
                    v,
                    vehs_n[j]->0,
                    delta,
                    links_n,
                )),
                None => vehs_n[j] is None,
            },
    decreases n,
{
    if n == 0 {
        assert forall|i: int| 0 <= i < links.len() && links[i] is Some implies (
        #[trigger] links_n[i])->0.same_road(&links[i]->0) by {}
    } else {
        let (links_p, vehs_p) = choose|links_p: Seq<Option<Link>>, vehs_p: Seq<Option<Vehicle>>|
            #![trigger one_advanced(delta, links_p, vehs_p, n - 1, links_n, vehs_n)]
            all_advanced(delta, links, vehs, (n - 1) as nat, links_p, vehs_p) && one_advanced(
                delta,
                links_p,
                vehs_p,
                n - 1,
                links_n,
                vehs_n,
            );
        lemma_all_advanced_in_range(delta, links, vehs, (n - 1) as nat, links_p, vehs_p);
        let k = n - 1;
        assert(vehs_p[k] == vehs[k]);
        if vehs_p[k] is Some {
            let v = vehs_p[k]->0;
            let w = v.with_acc(v.spec_limited_acc(links_p));
            let after = vehs_n[k]->0;
            assert(w.integrated(delta, links_p, after, links_n));
            lemma_same_roads_twice(links, links_p, links_n);
            if v.on_link(links) && v.pos >= 0 {
                assert(links_p[v.link as int]->0.same_road(&links[v.link as int]->0));
                assert(w.on_link(links_p));
                lemma_integrated_bounds(w, delta, links_p, after, links_n);
                assert(held_back(v, w));
                lemma_held_back_gets_less_far(v, w, delta);
                if after.link != NO_LINK && !past_next_link(v, delta, links_n) {
                    if w.leaves_link(delta, links_p) {
                        assert(w.has_next(links_p));
                        let next = w.link_route@[1] as int;
                        assert(links_n[v.link as int]->0.same_road(&links_p[v.link as int]->0));
                        assert(links_n[next]->0.same_road(&links_p[next]->0));
                    }
                }
                assert(in_range_after(v, after, delta, links_n));
            }
        }
        assert forall|j: int| 0 <= j < n implies match #[trigger] vehs[j] {
            Some(v) => vehs_n[j] is Some && (v.on_link(links) && v.pos >= 0 ==> in_range_after(
                v,
                vehs_n[j]->0,
                delta,
                links_n,
            )),
            None => vehs_n[j] is None,
        } by {
            if j < k {
                assert(vehs_n[j] == vehs_p[j]);
                if vehs[j] is Some && vehs[j]->0.on_link(links) && vehs[j]->0.pos >= 0 {
                    lemma_in_range_same_roads(vehs[j]->0, vehs_p[j]->0, delta, links_p, links_n);
                }
            }
        }
    }
}

/// After a tick that does not run backwards, a vehicle that was on a link of
/// the network, at a position that was not negative, has left the network or
/// is in range: its speed is not negative, it is on a link of the network,
/// its position is not negative and, unless the tick could carry it past the
/// whole of the next link of its route, not beyond the end of its link.
pub proof fn lemma_tick_keeps_in_range(before: Simulation, after: Simulation, i: int)
    requires
        before.ticked(&after),
        before.delta() >= 0,
        0 <= i < before.vehicles().len(),
        before.vehicles()[i] is Some,
        before.vehicles()[i]->0.on_link(before.links()),
        before.vehicles()[i]->0.pos >= 0,
    ensures
        after.vehicles().len() == before.vehicles().len(),
        after.vehicles()[i] is Some ==> after.vehicles()[i]->0.link != NO_LINK && in_range_after(
            before.vehicles()[i]->0,
            after.vehicles()[i]->0,
            before.delta(),
            after.links(),
        ),
{
    let (a, b, c, d, e) = choose|
        a: Simulation,
        b: Simulation,
        c: Simulation,
        d: Simulation,
        e: Simulation,
    |
        #![trigger
            before.lanes_decided(&a),
            a.obstacles_updated(&b),
            b.cars_followed(&c),
            c.stop_lines_stepped(&d),
            d.vehicles_advanced(&e)]
        before.lanes_decided(&a) && a.obstacles_updated(&b) && b.cars_followed(&c)
            && c.stop_lines_stepped(&d) && d.vehicles_advanced(&e) && e.vehicles_reaped(&after);
    let v0 = before.vehicles()[i]->0;
    // the vehicle decides on its lanes
    let v1 = a.vehicles()[i]->0;
    if before.due(v0) {
        lemma_lanes_decided_same_place(v0, v1, before.links());
    }
    assert(same_place(v0, v1));
    // the obstacles are brought up to date
    assert(b.vehicles() == a.vehicles());
    // the car-following law and the stop lines hold the vehicle back
    lemma_all_followed_holds_back(b.links(), b.vehicles(), b.links().len() as int);
    let v3 = c.vehicles()[i]->0;
    assert(held_back(v1, v3));
    lemma_lines_hold_back(
        c.links(),
        c.stop_lines(),
        c.vehicles(),
        c.stop_lines().len(),
        d.stop_lines(),
        d.vehicles(),
    );
    let v4 = d.vehicles()[i]->0;
    assert(held_back(v3, v4));
    assert(same_place(v0, v4));
    // the vehicle is moved
    assert(same_roads(before.links(), d.links())) by {
        assert(a.links() == before.links());
        assert(same_roads(a.links(), b.links()));
        assert(c.links() == b.links());
        assert(d.links() == c.links());
    }
    assert(v4.on_link(d.links())) by {
        assert(d.links()[v0.link as int]->0.same_road(&before.links()[v0.link as int]->0));
    }
    lemma_all_advanced_in_range(
        d.delta(),
        d.links(),
        d.vehicles(),
        d.vehicles().len(),
        e.links(),
        e.vehicles(),
    );
    let _ = d.vehicles()[i];
    let v5 = e.vehicles()[i]->0;
    assert(in_range_after(v4, v5, d.delta(), e.links()));
    assert(v1.acc == v0.acc && v1.vel == v0.vel);
    assert(v4.acc <= v0.acc && v4.vel == v0.vel);
    lemma_held_back_gets_less_far(v4.with_acc(v0.acc), v4, d.delta());
    assert(v4.with_acc(v0.acc).next_pos(d.delta()) == v0.next_pos(d.delta()));
    assert(same_roads(d.links(), e.links()));
    assert(in_range_after(v0, v5, before.delta(), e.links())) by {
        if v5.link != NO_LINK && !past_next_link(v0, before.delta(), e.links()) {
            let here = v0.link as int;
            assert(e.links()[here]->0.same_road(&d.links()[here]->0));
            if v4.has_next(d.links()) {
                let next = v4.link_route@[1] as int;
                assert(e.links()[next]->0.same_road(&d.links()[next]->0));
            }
            assert(!past_next_link(v4, d.delta(), e.links()));
        }
    }
    // those that have left are dropped
    assert(after.links() == e.links());
    if after.vehicles()[i] is Some {
        assert(!e.has_left(i));
        assert(after.vehicles()[i] == e.vehicles()[i]);
    }
}

/// Whether `after` is where a tick of `delta` takes the vehicle `v`, which
/// is on a link of the network `links`, at the speed that `after` has: as far
/// on as the new speed takes it in the tick; and where that is beyond the end
/// of its link, on the next link of its route, as far in as it has got
/// beyond that end, and off the network where the route does not go on.
pub open spec fn moved_on(
    v: Vehicle,
    after: Vehicle,
    delta: i64,
    links: Seq<Option<Link>>,
) -> bool {
    let reach = plus(v.pos, times(after.vel, delta));
    let len = links[v.link as int]->0.length;
    if reach <= len {
        after.link == v.link && after.pos == reach && after.link_route@ == v.link_route@
    } else if v.has_next(links) {
        after.link == v.link_route@[1] && after.pos == minus(reach, len) && after.link_route@
            == rest_of(v.link_route@)
    } else {
        after.link == NO_LINK
    }
}

/// When the vehicles have been moved one after the other through a tick,
/// every vehicle that was on a link of the network has moved on as its new
/// speed says.
pub proof fn lemma_all_advanced_moved_on(
    delta: i64,
    links: Seq<Option<Link>>,
    vehs: Seq<Option<Vehicle>>,
    n: nat,
    links_n: Seq<Option<Link>>,
    vehs_n: Seq<Option<Vehicle>>,
)
    requires
        all_advanced(delta, links, vehs, n, links_n, vehs_n),
        delta >= 0,
        n <= vehs.len(),
    ensures
        vehs_n.len() == vehs.len(),
        forall|j: int|
            0 <= j < n && (#[trigger] vehs[j]) is Some && vehs[j]->0.on_link(links) ==> vehs_n[j]
                is Some && moved_on(vehs[j]->0, vehs_n[j]->0, delta, links),
    decreases n,
{
    lemma_all_advanced_in_range(delta, links, vehs, n, links_n, vehs_n);
    if n > 0 {
        let (links_p, vehs_p) = choose|links_p: Seq<Option<Link>>, vehs_p: Seq<Option<Vehicle>>|
            #![trigger one_advanced(delta, links_p, vehs_p, n - 1, links_n, vehs_n)]
            all_advanced(delta, links, vehs, (n - 1) as nat, links_p, vehs_p) && one_advanced(
                delta,
                links_p,
                vehs_p,
                n - 1,
                links_n,
                vehs_n,
            );
        lemma_all_advanced_moved_on(delta, links, vehs, (n - 1) as nat, links_p, vehs_p);
        lemma_all_advanced_in_range(delta, links, vehs, (n - 1) as nat, links_p, vehs_p);
        let k = n - 1;
        assert(vehs_p[k] == vehs[k]);
        if vehs[k] is Some && vehs[k]->0.on_link(links) {
            let v = vehs[k]->0;
            let w = v.with_acc(v.spec_limited_acc(links_p));
            let after = vehs_n[k]->0;
            assert(w.integrated(delta, links_p, after, links_n));
            assert(links_p[v.link as int]->0.same_road(&links[v.link as int]->0));
            if v.link_route@.len() >= 2 && v.link_route@[1] < links.len() {
                let next = v.link_route@[1] as int;
                assert(links_p[next] is Some <==> links[next] is Some);
            }
            assert(w.has_next(links_p) == v.has_next(links));
            assert(w.next_pos(delta) == plus(v.pos, times(after.vel, delta)));
            assert(moved_on(v, after, delta, links));
        }
        assert forall|j: int|
            0 <= j < n && (#[trigger] vehs[j]) is Some && vehs[j]->0.on_link(links)
                implies vehs_n[j]
            is Some && moved_on(vehs[j]->0, vehs_n[j]->0, delta, links) by {
            if j < k {
                assert(vehs_n[j] == vehs_p[j]);
            }
        }
    }
}

/// After a tick that does not run backwards, a vehicle that was on a link of
/// the network has moved on as its new speed says: by the new speed times
/// the length of the tick, and on to the next link of its route where that
/// takes it beyond the end of its link. It is dropped only where its route
/// ends.
pub proof fn lemma_tick_moves_on(before: Simulation, after: Simulation, i: int)
    requires
        before.ticked(&after),
        before.delta() >= 0,
        0 <= i < before.vehicles().len(),
        before.vehicles()[i] is Some,
        before.vehicles()[i]->0.on_link(before.links()),
    ensures
        after.vehicles().len() == before.vehicles().len(),
        after.vehicles()[i] is Some ==> moved_on(
            before.vehicles()[i]->0,
            after.vehicles()[i]->0,
            before.delta(),
            before.links(),
        ),
        before.vehicles()[i]->0.has_next(before.links()) ==> after.vehicles()[i] is Some,
{
    let (a, b, c, d, e) = choose|
        a: Simulation,
        b: Simulation,
        c: Simulation,
        d: Simulation,
        e: Simulation,
    |
        #![trigger
            before.lanes_decided(&a),
            a.obstacles_updated(&b),
            b.cars_followed(&c),
            c.stop_lines_stepped(&d),
            d.vehicles_advanced(&e)]
        before.lanes_decided(&a) && a.obstacles_updated(&b) && b.cars_followed(&c)
            && c.stop_lines_stepped(&d) && d.vehicles_advanced(&e) && e.vehicles_reaped(&after);
    let v0 = before.vehicles()[i]->0;
    let v1 = a.vehicles()[i]->0;
    if before.due(v0) {
        lemma_lanes_decided_same_place(v0, v1, before.links());
    }
    assert(same_place(v0, v1));
    assert(b.vehicles() == a.vehicles());
    lemma_all_followed_holds_back(b.links(), b.vehicles(), b.links().len() as int);
    let v3 = c.vehicles()[i]->0;
    assert(held_back(v1, v3));
    lemma_lines_hold_back(
        c.links(),
        c.stop_lines(),
        c.vehicles(),
        c.stop_lines().len(),
        d.stop_lines(),
        d.vehicles(),
    );
    let v4 = d.vehicles()[i]->0;
    assert(held_back(v3, v4));
    assert(same_place(v0, v4));
    assert(same_roads(before.links(), d.links())) by {
        assert(a.links() == before.links());
        assert(same_roads(a.links(), b.links()));
        assert(c.links() == b.links());
        assert(d.links() == c.links());
    }
    assert(d.links()[v0.link as int]->0.same_road(&before.links()[v0.link as int]->0));
    assert(v4.on_link(d.links()));
    lemma_all_advanced_moved_on(
        d.delta(),
        d.links(),
        d.vehicles(),
        d.vehicles().len(),
        e.links(),
        e.vehicles(),
    );
    let _ = d.vehicles()[i];
    let v5 = e.vehicles()[i]->0;
    assert(moved_on(v4, v5, d.delta(), d.links()));
    if v0.link_route@.len() >= 2 && v0.link_route@[1] < before.links().len() {
        let next = v0.link_route@[1] as int;
        assert(d.links()[next] is Some <==> before.links()[next] is Some);
    }
    assert(v4.has_next(d.links()) == v0.has_next(before.links()));
    assert(moved_on(v0, v5, before.delta(), before.links()));
    if v0.has_next(before.links()) {
        before.lemma_links_fit();
        assert(v5.link != NO_LINK);
        assert(!e.has_left(i));
    }
    if after.vehicles()[i] is Some {
        assert(!e.has_left(i));
        assert(after.vehicles()[i] == e.vehicles()[i]);
    }
}

/// When the vehicles of a simulation whose books are in order have decided
/// on their lanes, a vehicle with a route whose turn it was has a lane, or no
/// lane, for every link of its route, and each of these lanes is one that
/// the link in its place on the route has.
///
/// The second part holds of a vehicle whose lane and lanes fitted its route
/// before, and whose lane distances, where it had them, were those of its
/// route.
pub proof fn lemma_decided_lanes_fit(before: Simulation, after: Simulation, i: int)
    requires
        before.wf(),
        before.lanes_decided(&after),
        0 <= i < before.vehicles().len(),
        before.vehicles()[i] is Some,
        before.due(before.vehicles()[i]->0),
        before.vehicles()[i]->0.link_route@.len() >= 1,
        lanes_fit(
            before.links(),
            before.vehicles()[i]->0.link_route@,
            before.vehicles()[i]->0.lane_route@,
        ),
        before.vehicles()[i]->0.lane < lanes_of(
            before.links(),
            before.vehicles()[i]->0.link_route@[0],
        ),
        before.vehicles()[i]->0.lane_dists@.len() >= before.vehicles()[i]->0.link_route@.len()
            ==> before.vehicles()[i]->0.dists_match(before.links()),
    ensures
        after.vehicles()[i] is Some,
        after.vehicles()[i]->0.lane_route@.len() == after.vehicles()[i]->0.link_route@.len(),
        lanes_fit(
            after.links(),
            after.vehicles()[i]->0.link_route@,
            after.vehicles()[i]->0.lane_route@,
        ),
{
    let v = before.vehicles()[i]->0;
    let w = after.vehicles()[i]->0;
    before.lemma_wf_network();
    lemma_lanes_decided_lengths(v, w, before.links());
    lemma_lanes_decided_fit(v, w, before.links());
}

} // verus!
