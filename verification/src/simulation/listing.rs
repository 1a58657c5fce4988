//! Which link lists a vehicle after the vehicles have been moved: a vehicle
//! that has passed on to another link is listed there, and no longer on the
//! link that it has left.
use super::commitments::ids_agree;
use super::laws::{
    all_held_back, held_back, lemma_all_advanced_in_range, lemma_all_followed_holds_back,
    lemma_lines_hold_back,
};
use super::link::{by_pos, fresh_obstacle, last_index_of, refresh, refreshed, Link, Obstacle};
use super::motion::without_veh;
use super::route::known;
use super::vehicle::{Vehicle, NO_LINK};
use super::{all_advanced, one_advanced, Simulation};
use crate::util::lemma_ranks_keep_multiset;
use vstd::prelude::*;

verus! {

/// Whether one of the obstacles is that of vehicle `veh`.
pub open spec fn names(obstacles: Seq<Obstacle>, veh: usize) -> bool {
    exists|m: int| 0 <= m < obstacles.len() && (#[trigger] obstacles[m]).veh == veh
}

/// Whether two of the obstacles are those of vehicle `veh`.
pub open spec fn names_twice(obstacles: Seq<Obstacle>, veh: usize) -> bool {
    exists|m: int, n: int|
        0 <= m < n < obstacles.len() && (#[trigger] obstacles[m]).veh == veh
            && (#[trigger] obstacles[n]).veh == veh
}

/// Whether link `link` of the network lists vehicle `veh`.
pub open spec fn lists(links: Seq<Option<Link>>, link: usize, veh: usize) -> bool {
    known(links, link) && names(links[link as int]->0.obstacles@, veh)
}

/// Whether link `link` of the network lists vehicle `veh` twice.
pub open spec fn lists_twice(links: Seq<Option<Link>>, link: usize, veh: usize) -> bool {
    known(links, link) && names_twice(links[link as int]->0.obstacles@, veh)
}

/// Whether both networks list vehicle `veh` on the same links, and twice on
/// the same links.
pub open spec fn listed_alike(a: Seq<Option<Link>>, b: Seq<Option<Link>>, veh: usize) -> bool {
    &&& forall|l: usize| (#[trigger] lists(b, l, veh)) == lists(a, l, veh)
    &&& forall|l: usize| (#[trigger] lists_twice(b, l, veh)) == lists_twice(a, l, veh)
}

/// Obstacles without one of another vehicle name vehicle `veh` as before.
pub proof fn lemma_removal_of_another(obstacles: Seq<Obstacle>, r: int, veh: usize)
    requires
        0 <= r < obstacles.len(),
        obstacles[r].veh != veh,
    ensures
        names(obstacles.remove(r), veh) == names(obstacles, veh),
        names_twice(obstacles.remove(r), veh) == names_twice(obstacles, veh),
{
    let left = obstacles.remove(r);
    if names(obstacles, veh) {
        let m = choose|m: int| 0 <= m < obstacles.len() && (#[trigger] obstacles[m]).veh == veh;
        let at = if m < r {
            m
        } else {
            m - 1
        };
        assert(left[at].veh == veh);
    }
    if names(left, veh) {
        let m = choose|m: int| 0 <= m < left.len() && (#[trigger] left[m]).veh == veh;
        let at = if m < r {
            m
        } else {
            m + 1
        };
        assert(obstacles[at].veh == veh);
    }
    if names_twice(obstacles, veh) {
        let (m, n) = choose|m: int, n: int|
            0 <= m < n < obstacles.len() && (#[trigger] obstacles[m]).veh == veh
                && (#[trigger] obstacles[n]).veh == veh;
        let a = if m < r {
            m
        } else {
            m - 1
        };
        let b = if n < r {
            n
        } else {
            n - 1
        };
        assert(left[a].veh == veh && left[b].veh == veh);
    }
    if names_twice(left, veh) {
        let (m, n) = choose|m: int, n: int|
            0 <= m < n < left.len() && (#[trigger] left[m]).veh == veh && (#[trigger] left[n]).veh
                == veh;
        let a = if m < r {
            m
        } else {
            m + 1
        };
        let b = if n < r {
            n
        } else {
            n + 1
        };
        assert(obstacles[a].veh == veh && obstacles[b].veh == veh);
    }
}

/// Obstacles that name a vehicle once name it no longer without that one.
pub proof fn lemma_removal_of_the_one(obstacles: Seq<Obstacle>, r: int, veh: usize)
    requires
        0 <= r < obstacles.len(),
        obstacles[r].veh == veh,
        !names_twice(obstacles, veh),
    ensures
        !names(obstacles.remove(r), veh),
{
    let left = obstacles.remove(r);
    if names(left, veh) {
        let m = choose|m: int| 0 <= m < left.len() && (#[trigger] left[m]).veh == veh;
        if m < r {
            assert(obstacles[m].veh == veh && obstacles[r].veh == veh);
        } else {
            assert(obstacles[r].veh == veh && obstacles[m + 1].veh == veh);
        }
    }
}

/// Obstacles with one more in front name the vehicle of that one, and name
/// every other vehicle as before.
pub proof fn lemma_one_in_front(obstacles: Seq<Obstacle>, o: Obstacle, veh: usize)
    ensures
        o.veh == veh ==> names(obstacles.insert(0, o), veh),
        o.veh != veh ==> names(obstacles.insert(0, o), veh) == names(obstacles, veh)
            && names_twice(obstacles.insert(0, o), veh) == names_twice(obstacles, veh),
{
    let more = obstacles.insert(0, o);
    assert(more[0] == o);
    if o.veh != veh {
        if names(obstacles, veh) {
            let m = choose|m: int| 0 <= m < obstacles.len() && (#[trigger] obstacles[m]).veh == veh;
            assert(more[m + 1].veh == veh);
        }
        if names(more, veh) {
            let m = choose|m: int| 0 <= m < more.len() && (#[trigger] more[m]).veh == veh;
            assert(obstacles[m - 1].veh == veh);
        }
        if names_twice(obstacles, veh) {
            let (m, n) = choose|m: int, n: int|
                0 <= m < n < obstacles.len() && (#[trigger] obstacles[m]).veh == veh
                    && (#[trigger] obstacles[n]).veh == veh;
            assert(more[m + 1].veh == veh && more[n + 1].veh == veh);
        }
        if names_twice(more, veh) {
            let (m, n) = choose|m: int, n: int|
                0 <= m < n < more.len() && (#[trigger] more[m]).veh == veh
                    && (#[trigger] more[n]).veh
                    == veh;
            assert(obstacles[m - 1].veh == veh && obstacles[n - 1].veh == veh);
        }
    }
}

/// The last obstacle of a vehicle is found where the obstacles name the
/// vehicle, and is one of that vehicle.
pub proof fn lemma_last_index(obstacles: Seq<Obstacle>, veh: usize, n: int)
    requires
        0 <= n <= obstacles.len(),
    ensures
        match last_index_of(obstacles, veh, n) {
            Some(r) => 0 <= r < n && obstacles[r].veh == veh,
            None => forall|m: int| 0 <= m < n ==> (#[trigger] obstacles[m]).veh != veh,
        },
    decreases n,
{
    if n > 0 && obstacles[n - 1].veh != veh {
        lemma_last_index(obstacles, veh, n - 1);
    }
}

/// Obstacles without the last one of vehicle `gone` name another vehicle
/// as before, and name `gone` no longer if they named it once.
pub proof fn lemma_without_veh(obstacles: Seq<Obstacle>, gone: usize, veh: usize)
    ensures
        gone != veh ==> names(without_veh(obstacles, gone), veh) == names(obstacles, veh)
            && names_twice(without_veh(obstacles, gone), veh) == names_twice(obstacles, veh),
        gone == veh && !names_twice(obstacles, veh) ==> !names(without_veh(obstacles, gone), veh),
{
    lemma_last_index(obstacles, gone, obstacles.len() as int);
    match last_index_of(obstacles, gone, obstacles.len() as int) {
        Some(r) => {
            if gone != veh {
                lemma_removal_of_another(obstacles, r, veh);
            } else if !names_twice(obstacles, veh) {
                lemma_removal_of_the_one(obstacles, r, veh);
            }
        },
        None => {},
    }
}

/// When vehicle `k`, which bears its id, has been moved, every other vehicle
/// is listed as before.
pub proof fn lemma_one_advanced_lists_others(
    delta: i64,
    links: Seq<Option<Link>>,
    vehs: Seq<Option<Vehicle>>,
    k: int,
    links_after: Seq<Option<Link>>,
    vehs_after: Seq<Option<Vehicle>>,
    veh: usize,
)
    requires
        one_advanced(delta, links, vehs, k, links_after, vehs_after),
        0 <= k < vehs.len() && vehs[k] is Some ==> vehs[k]->0.id == k,
        k != veh,
    ensures
        listed_alike(links, links_after, veh),
{
    if 0 <= k < vehs.len() && vehs[k] is Some {
        let v = vehs[k]->0;
        let w = v.with_acc(v.spec_limited_acc(links));
        let after = vehs_after[k]->0;
        assert(w.integrated(delta, links, after, links_after));
        if w.leaves_link(delta, links) {
            let here = links[w.link as int]->0.obstacles@;
            let left = without_veh(here, w.id);
            lemma_without_veh(here, w.id, veh);
            lemma_one_in_front(left, fresh_obstacle(w.id), veh);
            if w.has_next(links) {
                let next = w.link_route@[1];
                lemma_one_in_front(links[next as int]->0.obstacles@, fresh_obstacle(w.id), veh);
            }
            assert forall|l: usize| (#[trigger] lists(links_after, l, veh)) == lists(
                links,
                l,
                veh,
            ) by {
                if l < links.len() {
                    let _ = links_after[l as int];
                }
            }
            assert forall|l: usize| (#[trigger] lists_twice(links_after, l, veh)) == lists_twice(
                links,
                l,
                veh,
            ) by {
                if l < links.len() {
                    let _ = links_after[l as int];
                }
            }
        }
    }
}

/// When vehicle `k`, which bears its id, has been moved and has passed on
/// to another link, that link lists it, and the link that it has left, which
/// listed it once, lists it no longer.
pub proof fn lemma_one_advanced_relists(
    delta: i64,
    links: Seq<Option<Link>>,
    vehs: Seq<Option<Vehicle>>,
    k: int,
    links_after: Seq<Option<Link>>,
    vehs_after: Seq<Option<Vehicle>>,
)
    requires
        one_advanced(delta, links, vehs, k, links_after, vehs_after),
        0 <= k < vehs.len(),
        vehs[k] is Some,
        vehs[k]->0.id == k,
        vehs[k]->0.on_link(links),
        vehs_after[k]->0.link != vehs[k]->0.link,
        vehs_after[k]->0.link != NO_LINK,
    ensures
        lists(links_after, vehs_after[k]->0.link, k as usize),
        !lists_twice(links, vehs[k]->0.link, k as usize) ==> !lists(
            links_after,
            vehs[k]->0.link,
            k as usize,
        ),
{
    let v = vehs[k]->0;
    let w = v.with_acc(v.spec_limited_acc(links));
    let after = vehs_after[k]->0;
    assert(w.integrated(delta, links, after, links_after));
    assert(w.leaves_link(delta, links) && w.has_next(links));
    let next = w.link_route@[1];
    let here = links[w.link as int]->0.obstacles@;
    lemma_without_veh(here, w.id, w.id);
    lemma_one_in_front(links[next as int]->0.obstacles@, fresh_obstacle(w.id), w.id);
}

/// When the vehicles with ids below `n` have been moved, a vehicle with an
/// id of `n` or more is listed as before.
pub proof fn lemma_all_advanced_lists_later(
    delta: i64,
    links: Seq<Option<Link>>,
    vehs: Seq<Option<Vehicle>>,
    n: nat,
    links_n: Seq<Option<Link>>,
    vehs_n: Seq<Option<Vehicle>>,
    veh: usize,
)
    requires
        all_advanced(delta, links, vehs, n, links_n, vehs_n),
        ids_agree(vehs),
        delta >= 0,
        n <= veh,
        n <= vehs.len(),
    ensures
        listed_alike(links, links_n, veh),
    decreases n,
{
    if n > 0 {
        let (links_p, vehs_p) = choose|links_p: Seq<Option<Link>>, vehs_p: Seq<Option<Vehicle>>|
            #![trigger one_advanced(delta, links_p, vehs_p, n - 1, links_n, vehs_n)]
            all_advanced(delta, links, vehs, (n - 1) as nat, links_p, vehs_p) && one_advanced(
                delta,
                links_p,
                vehs_p,
                n - 1,
                links_n,
                vehs_n,
            );
        lemma_all_advanced_lists_later(delta, links, vehs, (n - 1) as nat, links_p, vehs_p, veh);
        lemma_all_advanced_in_range(delta, links, vehs, (n - 1) as nat, links_p, vehs_p);
        assert(vehs_p[n - 1] == vehs[n - 1]);
        lemma_one_advanced_lists_others(delta, links_p, vehs_p, n - 1, links_n, vehs_n, veh);
        assert forall|l: usize| (#[trigger] lists(links_n, l, veh)) == lists(links, l, veh) by {
            assert(lists(links_p, l, veh) == lists(links, l, veh));
        }
        assert forall|l: usize| (#[trigger] lists_twice(links_n, l, veh)) == lists_twice(
            links,
            l,
            veh,
        ) by {
            assert(lists_twice(links_p, l, veh) == lists_twice(links, l, veh));
        }
    }
}

/// When the vehicles with ids below `n` have been moved through a tick that
/// does not run backwards, one of them that has passed on to another link is
/// listed there, and no longer on the link that it has left, if that listed
/// it once.
///
/// Each vehicle must bear the id under which it is kept.
pub proof fn lemma_all_advanced_relists(
    delta: i64,
    links: Seq<Option<Link>>,
    vehs: Seq<Option<Vehicle>>,
    n: nat,
    links_n: Seq<Option<Link>>,
    vehs_n: Seq<Option<Vehicle>>,
    veh: usize,
)
    requires
        all_advanced(delta, links, vehs, n, links_n, vehs_n),
        ids_agree(vehs),
        delta >= 0,
        veh < n <= vehs.len(),
        vehs[veh as int] is Some,
        vehs[veh as int]->0.on_link(links),
        vehs_n[veh as int] is Some,
        vehs_n[veh as int]->0.link != vehs[veh as int]->0.link,
        vehs_n[veh as int]->0.link != NO_LINK,
    ensures
        lists(links_n, vehs_n[veh as int]->0.link, veh),
        !lists_twice(links, vehs[veh as int]->0.link, veh) ==> !lists(
            links_n,
            vehs[veh as int]->0.link,
            veh,
        ),
    decreases n,
{
    let (links_p, vehs_p) = choose|links_p: Seq<Option<Link>>, vehs_p: Seq<Option<Vehicle>>|
        #![trigger one_advanced(delta, links_p, vehs_p, n - 1, links_n, vehs_n)]
        all_advanced(delta, links, vehs, (n - 1) as nat, links_p, vehs_p) && one_advanced(
            delta,
            links_p,
            vehs_p,
            n - 1,
            links_n,
            vehs_n,
        );
    lemma_all_advanced_in_range(delta, links, vehs, (n - 1) as nat, links_p, vehs_p);
    assert(vehs_p[n - 1] == vehs[n - 1]);
    let from = vehs[veh as int]->0.link;
    let to = vehs_n[veh as int]->0.link;
    if n - 1 == veh {
        lemma_all_advanced_lists_later(delta, links, vehs, (n - 1) as nat, links_p, vehs_p, veh);
        assert(links_p[from as int]->0.same_road(&links[from as int]->0));
        lemma_one_advanced_relists(delta, links_p, vehs_p, n - 1, links_n, vehs_n);
        assert(lists_twice(links_p, from, veh) == lists_twice(links, from, veh));
    } else {
        assert(vehs_n[veh as int] == vehs_p[veh as int]);
        lemma_all_advanced_relists(delta, links, vehs, (n - 1) as nat, links_p, vehs_p, veh);
        lemma_one_advanced_lists_others(delta, links_p, vehs_p, n - 1, links_n, vehs_n, veh);
        assert(lists(links_n, to, veh) == lists(links_p, to, veh));
        assert(lists(links_n, from, veh) == lists(links_p, from, veh));
    }
}

/// Obstacles that are the same, in whatever order, name the same vehicles,
/// and name the same vehicles twice.
pub proof fn lemma_same_obstacles_name_alike(s: Seq<Obstacle>, t: Seq<Obstacle>, veh: usize)
    requires
        s.to_multiset() == t.to_multiset(),
    ensures
        names(s, veh) ==> names(t, veh),
        names_twice(s, veh) ==> names_twice(t, veh),
{
    broadcast use vstd::multiset::group_multiset_axioms;

    if names(s, veh) {
        let m = choose|m: int| 0 <= m < s.len() && (#[trigger] s[m]).veh == veh;
        assert(s.contains(s[m]));
        vstd::seq_lib::to_multiset_contains(s, s[m]);
        vstd::seq_lib::to_multiset_contains(t, s[m]);
        assert(t.contains(s[m]));
        let j = t.index_of(s[m]);
        assert(t[j].veh == veh);
    }
    if names_twice(s, veh) {
        let (m, n) = choose|m: int, n: int|
            0 <= m < n < s.len() && (#[trigger] s[m]).veh == veh && (#[trigger] s[n]).veh == veh;
        assert(s.contains(s[n]));
        vstd::seq_lib::to_multiset_contains(s, s[n]);
        vstd::seq_lib::to_multiset_contains(t, s[n]);
        assert(t.contains(s[n]));
        let j = t.index_of(s[n]);
        // without one of the two, the other is still there
        let s1 = s.remove(n);
        let t1 = t.remove(j);
        vstd::seq_lib::to_multiset_remove(s, n);
        vstd::seq_lib::to_multiset_remove(t, j);
        assert(s1[m] == s[m]);
        assert(s1.contains(s[m]));
        vstd::seq_lib::to_multiset_contains(s1, s[m]);
        vstd::seq_lib::to_multiset_contains(t1, s[m]);
        assert(t1.contains(s[m]));
        let r = t1.index_of(s[m]);
        let k = if r < j {
            r
        } else {
            r + 1
        };
        assert(t[k] == s[m]);
        if k < j {
            assert(t[k].veh == veh && t[j].veh == veh);
        } else {
            assert(t[j].veh == veh && t[k].veh == veh);
        }
    }
}

/// Obstacles that have been brought up to date with vehicles that bear
/// their ids name the vehicles that they named before.
pub proof fn lemma_refreshed_name_alike(s: Seq<Obstacle>, vehs: Seq<Option<Vehicle>>, veh: usize)
    requires
        ids_agree(vehs),
    ensures
        names(refreshed(s, vehs), veh) == names(s, veh),
        names_twice(refreshed(s, vehs), veh) == names_twice(s, veh),
{
    let t = refreshed(s, vehs);
    assert forall|m: int| 0 <= m < s.len() implies (#[trigger] t[m]).veh == s[m].veh by {
        let o = s[m];
        assert(t[m] == refresh(o, vehs));
        if o.veh < vehs.len() && vehs[o.veh as int] is Some {
            assert(vehs[o.veh as int]->0.id == o.veh);
        }
    }
    if names(s, veh) {
        let m = choose|m: int| 0 <= m < s.len() && (#[trigger] s[m]).veh == veh;
        assert(t[m].veh == veh);
    }
    if names(t, veh) {
        let m = choose|m: int| 0 <= m < t.len() && (#[trigger] t[m]).veh == veh;
        assert(s[m].veh == veh);
    }
    if names_twice(s, veh) {
        let (m, n) = choose|m: int, n: int|
            0 <= m < n < s.len() && (#[trigger] s[m]).veh == veh && (#[trigger] s[n]).veh == veh;
        assert(t[m].veh == veh && t[n].veh == veh);
    }
    if names_twice(t, veh) {
        let (m, n) = choose|m: int, n: int|
            0 <= m < n < t.len() && (#[trigger] t[m]).veh == veh && (#[trigger] t[n]).veh == veh;
        assert(s[m].veh == veh && s[n].veh == veh);
    }
}

/// Vehicles that bear their ids bear them when they have been held back.
pub proof fn lemma_held_back_ids(before: Seq<Option<Vehicle>>, after: Seq<Option<Vehicle>>)
    requires
        ids_agree(before),
        all_held_back(before, after),
    ensures
        ids_agree(after),
{
    assert forall|i: int| 0 <= i < after.len() && after[i] is Some
        implies (#[trigger] after[i])->0.id
        == i by {
        let _ = before[i];
    }
}

/// After a tick that does not run backwards, a vehicle that has passed on
/// to another link is listed there, and no longer on the link that it has
/// left, if that listed it once.
///
/// Each vehicle must bear the id under which it is kept.
pub proof fn lemma_tick_relists(before: Simulation, after: Simulation, i: usize)
    requires
        before.ticked(&after),
        before.delta() >= 0,
        ids_agree(before.vehicles()),
        i < before.vehicles().len(),
        before.vehicles()[i as int] is Some,
        before.vehicles()[i as int]->0.on_link(before.links()),
        i < after.vehicles().len(),
        after.vehicles()[i as int] is Some,
        after.vehicles()[i as int]->0.link != before.vehicles()[i as int]->0.link,
    ensures
        lists(after.links(), after.vehicles()[i as int]->0.link, i),
        !lists_twice(before.links(), before.vehicles()[i as int]->0.link, i) ==> !lists(
            after.links(),
            before.vehicles()[i as int]->0.link,
            i,
        ),
{
    let (a, b, c, d, e) = choose|
        a: Simulation,
        b: Simulation,
        c: Simulation,
        d: Simulation,
        e: Simulation,
    |
        #![trigger
            before.lanes_decided(&a),
            a.obstacles_updated(&b),
            b.cars_followed(&c),
            c.stop_lines_stepped(&d),
            d.vehicles_advanced(&e)]
        before.lanes_decided(&a) && a.obstacles_updated(&b) && b.cars_followed(&c)
            && c.stop_lines_stepped(&d) && d.vehicles_advanced(&e) && e.vehicles_reaped(&after);
    let from = before.vehicles()[i as int]->0.link;
    // the vehicles bear their ids all through the tick
    assert(ids_agree(a.vehicles())) by {
        assert forall|j: int|
            0 <= j < a.vehicles().len() && a.vehicles()[j] is Some implies (
        #[trigger] a.vehicles()[j])->0.id == j by {
            let _ = before.vehicles()[j];
        }
    }
    assert(b.vehicles() == a.vehicles());
    lemma_all_followed_holds_back(b.links(), b.vehicles(), b.links().len() as int);
    lemma_held_back_ids(b.vehicles(), c.vehicles());
    lemma_lines_hold_back(
        c.links(),
        c.stop_lines(),
        c.vehicles(),
        c.stop_lines().len(),
        d.stop_lines(),
        d.vehicles(),
    );
    lemma_held_back_ids(c.vehicles(), d.vehicles());
    let v1 = a.vehicles()[i as int]->0;
    let v3 = c.vehicles()[i as int]->0;
    let v4 = d.vehicles()[i as int]->0;
    let _ = before.vehicles()[i as int];
    assert(v1.link == from);
    assert(held_back(v1, v3));
    assert(held_back(v3, v4));
    // the links list the vehicle as before until the vehicles are moved
    assert(a.links() == before.links());
    assert(c.links() == b.links());
    assert(d.links() == c.links());
    assert(known(b.links(), from) && lists_twice(b.links(), from, i) ==> lists_twice(
        a.links(),
        from,
        i,
    )) by {
        let _ = a.links()[from as int];
        let was = a.links()[from as int]->0.obstacles@;
        let now = b.links()[from as int]->0.obstacles@;
        lemma_ranks_keep_multiset(now, refreshed(was, a.vehicles()), by_pos());
        lemma_same_obstacles_name_alike(now, refreshed(was, a.vehicles()), i);
        lemma_refreshed_name_alike(was, a.vehicles(), i);
    }
    assert(v4.on_link(d.links())) by {
        assert(b.links()[from as int]->0.same_road(&a.links()[from as int]->0));
    }
    // the vehicle is moved, and stays
    assert(after.links() == e.links());
    assert(!e.has_left(i as int));
    assert(after.vehicles()[i as int] == e.vehicles()[i as int]);
    lemma_all_advanced_relists(
        d.delta(),
        d.links(),
        d.vehicles(),
        d.vehicles().len(),
        e.links(),
        e.vehicles(),
        i,
    );
}

} // verus!
