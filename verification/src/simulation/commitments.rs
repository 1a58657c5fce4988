//! What holds of the vehicles that a stop line has let through: one that has
//! left the line behind is committed no longer, and one that is still on the
//! line's link holds the stretch behind it.
use super::laws::{all_held_back, held_back, lemma_held_back_same, lemma_held_back_twice};
use super::link::{Link, Obstacle};
use super::stopline::{
    cleared_to, kept, lemma_kept_still_passing, route_through, still_passing, veh_at, Gate,
    StopLine, UPSTREAM_HOPS,
};
use super::vehicle::Vehicle;
use crate::fixed::{minus, plus, times, HALF};
use vstd::prelude::*;

verus! {

/// Whether each vehicle bears the id under which it is kept.
pub open spec fn ids_agree(vehs: Seq<Option<Vehicle>>) -> bool {
    forall|i: int| 0 <= i < vehs.len() && vehs[i] is Some ==> (#[trigger] vehs[i])->0.id == i
}

/// Whether every vehicle that link `link` lists among its obstacles is on
/// that link.
pub open spec fn listed_are_on(
    links: Seq<Option<Link>>,
    link: usize,
    vehs: Seq<Option<Vehicle>>,
) -> bool {
    link < links.len() && links[link as int] is Some ==> forall|k: int|
        0 <= k < links[link as int]->0.obstacles@.len() ==> match veh_at(
            vehs,
            (#[trigger] links[link as int]->0.obstacles@[k]).veh,
        ) {
            Some(v) => v.link == link,
            None => true,
        }
}

/// Where the rear end of the vehicle `v` is.
pub open spec fn rear_end(v: Vehicle) -> i64 {
    minus(v.pos, times(HALF, v.len))
}

/// Whether the state `h` can follow the state `g` while a stop line deals
/// with vehicles: vehicles are only held back, committed vehicles stay
/// committed, and the stretch that is clear stays as it is or falls to
/// nothing.
pub open spec fn grown(g: Gate, h: Gate) -> bool {
    &&& all_held_back(g.vehs, h.vehs)
    &&& forall|x: usize| g.committed.contains(x) ==> h.committed.contains(x)
    &&& h.clear_before == g.clear_before || h.clear_before == 0
}

/// Whether, in the state `g`, the vehicle `vid` has left the stop line
/// `line` behind: it is not committed, and it is gone, or is neither on the
/// line's link nor on its way there.
pub open spec fn left_behind(
    line: StopLine,
    links: Seq<Option<Link>>,
    g: Gate,
    vid: usize,
) -> bool {
    &&& ids_agree(g.vehs)
    &&& listed_are_on(links, line.link, g.vehs)
    &&& !still_passing(veh_at(g.vehs, vid), line.link)
    &&& !g.committed.contains(vid)
}

/// Whether a stop line on link `link` looks at link `id` along `route`: at
/// its own link with no route, and at another along a route that holds its
/// own link.
pub open spec fn looks_at(link: usize, id: usize, route: Seq<usize>) -> bool {
    if route.len() == 0 {
        id == link
    } else {
        route.contains(link)
    }
}

/// States that follow one another.
pub proof fn lemma_grown_twice(a: Gate, b: Gate, c: Gate)
    requires
        grown(a, b),
        grown(b, c),
    ensures
        grown(a, c),
{
    lemma_held_back_twice(a.vehs, b.vehs, c.vehs);
}

/// A state follows itself.
pub proof fn lemma_grown_same(g: Gate)
    ensures
        grown(g, g),
{
    lemma_held_back_same(g.vehs);
}

/// Dealing with one vehicle lets the state grow.
pub proof fn lemma_visit_grows(
    line: StopLine,
    g: Gate,
    x: usize,
    route: Seq<usize>,
    pos: i64,
    clear: bool,
)
    ensures
        grown(g, line.visit(g, x, route, pos, clear).0),
{
    let h = line.visit(g, x, route, pos, clear).0;
    assert(all_held_back(g.vehs, h.vehs)) by {
        assert forall|i: int| 0 <= i < g.vehs.len() implies match #[trigger] g.vehs[i] {
            Some(v) => h.vehs[i] is Some && held_back(v, h.vehs[i]->0),
            None => h.vehs[i] is None,
        } by {}
    }
    assert forall|y: usize| g.committed.contains(y) implies h.committed.contains(y) by {
        let i = g.committed.index_of(y);
        if h.committed != g.committed {
            assert(h.committed[i] == y);
        }
    }
}

/// Dealing with the vehicles of a link lets the state grow.
pub proof fn lemma_scan_grows(
    line: StopLine,
    obstacles: Seq<Obstacle>,
    k: int,
    g: Gate,
    route: Seq<usize>,
    pos: i64,
    clear: bool,
)
    ensures
        grown(g, line.scan(obstacles, k, g, route, pos, clear).0),
    decreases k,
{
    if k > 0 {
        let (g1, halted) = line.visit(g, obstacles[k - 1].veh, route, pos, clear);
        lemma_visit_grows(line, g, obstacles[k - 1].veh, route, pos, clear);
        if !halted {
            lemma_scan_grows(line, obstacles, k - 1, g1, route, pos, clear);
            lemma_grown_twice(g, g1, line.scan(obstacles, k - 1, g1, route, pos, clear).0);
        }
    } else {
        lemma_grown_same(g);
    }
}

/// Dealing with the vehicles on a link and upstream of it lets the state
/// grow.
pub proof fn lemma_reach_grows(
    line: StopLine,
    links: Seq<Option<Link>>,
    id: usize,
    route: Seq<usize>,
    pos: i64,
    depth: nat,
    clear: bool,
    g: Gate,
)
    ensures
        grown(g, line.reach(links, id, route, pos, depth, clear, g)),
    decreases depth, 1nat, 0nat,
{
    if id < links.len() && links[id as int] is Some {
        let link = links[id as int]->0;
        let n = link.obstacles@.len() as int;
        lemma_scan_grows(line, link.obstacles@, n, g, route, pos, clear);
        let (g1, halted) = line.scan(link.obstacles@, n, g, route, pos, clear);
        if !(halted || depth == 0) {
            lemma_upstream_grows(line, links, id, link.links_in@.len(), route, pos, depth, clear,
                g1);
            lemma_grown_twice(
                g,
                g1,
                line.reach_upstream(links, id, link.links_in@.len(), route, pos, depth, clear, g1),
            );
        }
    } else {
        lemma_grown_same(g);
    }
}

/// Dealing with the vehicles upstream of a link lets the state grow.
pub proof fn lemma_upstream_grows(
    line: StopLine,
    links: Seq<Option<Link>>,
    id: usize,
    n: nat,
    route: Seq<usize>,
    pos: i64,
    depth: nat,
    clear: bool,
    g: Gate,
)
    ensures
        grown(g, line.reach_upstream(links, id, n, route, pos, depth, clear, g)),
    decreases depth, 0nat, n,
{
    if n == 0 || depth == 0 || !(id < links.len() && links[id as int] is Some) {
        lemma_grown_same(g);
    } else {
        lemma_upstream_grows(line, links, id, (n - 1) as nat, route, pos, depth, clear, g);
        let g1 = line.reach_upstream(links, id, (n - 1) as nat, route, pos, depth, clear, g);
        let from = links[id as int]->0.links_in@[n - 1].link_in;
        if from < links.len() && links[from as int] is Some {
            let far = plus(pos, links[from as int]->0.length);
            lemma_reach_grows(
                line,
                links,
                from,
                route_through(id, route),
                far,
                (depth - 1) as nat,
                clear,
                g1,
            );
            lemma_grown_twice(
                g,
                g1,
                line.reach(links, from, route_through(id, route), far, (depth - 1) as nat, clear,
                    g1),
            );
        }
    }
}

/// A vehicle that has left a stop line behind has still left it behind when
/// the line has dealt with a vehicle, which is one that its own link lists
/// where it looks at its own link.
pub proof fn lemma_visit_leaves_behind(
    line: StopLine,
    links: Seq<Option<Link>>,
    g: Gate,
    x: usize,
    route: Seq<usize>,
    pos: i64,
    clear: bool,
    vid: usize,
)
    requires
        left_behind(line, links, g, vid),
        route.len() > 0 ==> route.contains(line.link),
        route.len() == 0 ==> match veh_at(g.vehs, x) {
            Some(v) => v.link == line.link,
            None => true,
        },
    ensures
        left_behind(line, links, line.visit(g, x, route, pos, clear).0, vid),
{
    let h = line.visit(g, x, route, pos, clear).0;
    lemma_visit_grows(line, g, x, route, pos, clear);
    lemma_left_behind_held_back(line, links, g, h.vehs, vid);
    if h.committed != g.committed {
        let veh = g.vehs[x as int]->0;
        assert(veh.id == x);
        assert(h.committed == g.committed.push(x));
        if x == vid {
            if route.len() > 0 {
                let j = route.index_of(line.link);
                assert(veh.link_route@.subrange(1, route.len() as int + 1)[j] == line.link);
                assert(veh.link_route@[j + 1] == line.link);
            }
            assert(false);
        }
        if h.committed.contains(vid) {
            let i = h.committed.index_of(vid);
            assert(g.committed[i] == vid);
        }
    }
}

/// Holding vehicles back changes nothing about a vehicle's having left a
/// stop line behind.
pub proof fn lemma_left_behind_held_back(
    line: StopLine,
    links: Seq<Option<Link>>,
    g: Gate,
    vehs: Seq<Option<Vehicle>>,
    vid: usize,
)
    requires
        left_behind(line, links, g, vid),
        all_held_back(g.vehs, vehs),
    ensures
        left_behind(line, links, Gate { vehs, ..g }, vid),
{
    assert forall|i: int| 0 <= i < vehs.len() && vehs[i] is Some implies (#[trigger] vehs[i])->0.id
        == i by {
        let _ = g.vehs[i];
    }
    if vid < vehs.len() {
        let _ = g.vehs[vid as int];
    }
    if line.link < links.len() && links[line.link as int] is Some {
        let obstacles = links[line.link as int]->0.obstacles@;
        assert forall|k: int| 0 <= k < obstacles.len() implies match veh_at(
            vehs,
            (#[trigger] obstacles[k]).veh,
        ) {
            Some(v) => v.link == line.link,
            None => true,
        } by {
            let y = obstacles[k].veh;
            if y < vehs.len() {
                let _ = g.vehs[y as int];
                assert(match veh_at(g.vehs, y) {
                    Some(v) => v.link == line.link,
                    None => true,
                });
            }
        }
    }
}

/// A vehicle that has left a stop line behind has still left it behind when
/// the line has dealt with the vehicles of a link.
pub proof fn lemma_scan_leaves_behind(
    line: StopLine,
    links: Seq<Option<Link>>,
    k: int,
    g: Gate,
    id: usize,
    route: Seq<usize>,
    pos: i64,
    clear: bool,
    vid: usize,
)
    requires
        left_behind(line, links, g, vid),
        looks_at(line.link, id, route),
        id < links.len() && links[id as int] is Some,
        0 <= k <= links[id as int]->0.obstacles@.len(),
    ensures
        left_behind(
            line,
            links,
            line.scan(links[id as int]->0.obstacles@, k, g, route, pos, clear).0,
            vid,
        ),
    decreases k,
{
    if k > 0 {
        let obstacles = links[id as int]->0.obstacles@;
        let x = obstacles[k - 1].veh;
        let (g1, halted) = line.visit(g, x, route, pos, clear);
        lemma_visit_leaves_behind(line, links, g, x, route, pos, clear, vid);
        if !halted {
            lemma_scan_leaves_behind(line, links, k - 1, g1, id, route, pos, clear, vid);
        }
    }
}

/// A vehicle that has left a stop line behind has still left it behind when
/// the line has dealt with the vehicles on a link and upstream of it.
pub proof fn lemma_reach_leaves_behind(
    line: StopLine,
    links: Seq<Option<Link>>,
    id: usize,
    route: Seq<usize>,
    pos: i64,
    depth: nat,
    clear: bool,
    g: Gate,
    vid: usize,
)
    requires
        left_behind(line, links, g, vid),
        looks_at(line.link, id, route),
    ensures
        left_behind(line, links, line.reach(links, id, route, pos, depth, clear, g), vid),
    decreases depth, 1nat, 0nat,
{
    if id < links.len() && links[id as int] is Some {
        let link = links[id as int]->0;
        let n = link.obstacles@.len() as int;
        lemma_scan_leaves_behind(line, links, n, g, id, route, pos, clear, vid);
        let (g1, halted) = line.scan(link.obstacles@, n, g, route, pos, clear);
        if !(halted || depth == 0) {
            lemma_upstream_leaves_behind(
                line,
                links,
                id,
                link.links_in@.len(),
                route,
                pos,
                depth,
                clear,
                g1,
                vid,
            );
        }
    }
}

/// A vehicle that has left a stop line behind has still left it behind when
/// the line has dealt with the vehicles upstream of a link.
pub proof fn lemma_upstream_leaves_behind(
    line: StopLine,
    links: Seq<Option<Link>>,
    id: usize,
    n: nat,
    route: Seq<usize>,
    pos: i64,
    depth: nat,
    clear: bool,
    g: Gate,
    vid: usize,
)
    requires
        left_behind(line, links, g, vid),
        looks_at(line.link, id, route),
    ensures
        left_behind(line, links, line.reach_upstream(links, id, n, route, pos, depth, clear, g),
            vid),
    decreases depth, 0nat, n,
{
    if !(n == 0 || depth == 0 || !(id < links.len() && links[id as int] is Some)) {
        lemma_upstream_leaves_behind(line, links, id, (n - 1) as nat, route, pos, depth, clear, g,
            vid);
        let g1 = line.reach_upstream(links, id, (n - 1) as nat, route, pos, depth, clear, g);
        let from = links[id as int]->0.links_in@[n - 1].link_in;
        if from < links.len() && links[from as int] is Some {
            let on = route_through(id, route);
            assert(on.contains(line.link)) by {
                if route.len() == 0 {
                    assert(on[0] == line.link);
                } else {
                    let j = route.index_of(line.link);
                    assert(on[j + 1] == line.link);
                }
            }
            lemma_reach_leaves_behind(
                line,
                links,
                from,
                on,
                plus(pos, links[from as int]->0.length),
                (depth - 1) as nat,
                clear,
                g1,
                vid,
            );
        }
    }
}

/// After a tick of a stop line, a vehicle that has left the line behind is
/// committed no longer: one that is gone, or is neither on the line's link
/// nor has that link on its route.
///
/// Each vehicle must bear the id under which it is kept, and the line's link
/// must list no vehicle that is elsewhere.
pub proof fn lemma_step_uncommits(
    line: StopLine,
    links: Seq<Option<Link>>,
    vehs: Seq<Option<Vehicle>>,
    clear: bool,
    vid: usize,
)
    requires
        ids_agree(vehs),
        listed_are_on(links, line.link, vehs),
        !still_passing(veh_at(vehs, vid), line.link),
    ensures
        !line.stepped(links, clear, vehs).committed.contains(vid),
{
    let n = line.committed_vehs@.len() as int;
    let g = Gate {
        committed: kept(line.committed_vehs@, vehs, line.link, n),
        clear_before: cleared_to(line.committed_vehs@, vehs, line.link, n),
        vehs,
    };
    lemma_kept_still_passing(line.committed_vehs@, vehs, line.link, n, vid);
    lemma_reach_leaves_behind(
        line,
        links,
        line.link,
        Seq::empty(),
        line.pos,
        UPSTREAM_HOPS as nat,
        clear,
        g,
        vid,
    );
}

/// How far the committed vehicles have cleared a link depends only on those
/// of them that are still on their way through.
pub proof fn lemma_cleared_to_kept(
    committed: Seq<usize>,
    vehs: Seq<Option<Vehicle>>,
    link: usize,
    n: int,
)
    requires
        0 <= n <= committed.len(),
    ensures
        cleared_to(committed, vehs, link, n) == cleared_to(
            kept(committed, vehs, link, n),
            vehs,
            link,
            kept(committed, vehs, link, n).len() as int,
        ),
    decreases n,
{
    if n > 0 {
        lemma_cleared_to_kept(committed, vehs, link, n - 1);
        let prev = kept(committed, vehs, link, n - 1);
        if still_passing(veh_at(vehs, committed[n - 1]), link) {
            lemma_cleared_to_prefix(prev.push(committed[n - 1]), prev, vehs, link,
                prev.len() as int);
        }
    }
}

/// How far the first `n` committed vehicles have cleared a link depends on
/// those `n` alone.
pub proof fn lemma_cleared_to_prefix(
    a: Seq<usize>,
    b: Seq<usize>,
    vehs: Seq<Option<Vehicle>>,
    link: usize,
    n: int,
)
    requires
        0 <= n <= a.len(),
        n <= b.len(),
        forall|i: int| 0 <= i < n ==> a[i] == b[i],
    ensures
        cleared_to(a, vehs, link, n) == cleared_to(b, vehs, link, n),
    decreases n,
{
    if n > 0 {
        lemma_cleared_to_prefix(a, b, vehs, link, n - 1);
    }
}

/// Behind a committed vehicle that is on the link, with its rear end on the
/// link too, no more is clear than up to that rear end.
pub proof fn lemma_cleared_to_rear(
    committed: Seq<usize>,
    vehs: Seq<Option<Vehicle>>,
    link: usize,
    n: int,
    k: int,
)
    requires
        0 <= k < n <= committed.len(),
        veh_at(vehs, committed[k]) is Some,
        veh_at(vehs, committed[k])->0.link == link,
        rear_end(veh_at(vehs, committed[k])->0) >= 0,
    ensures
        cleared_to(committed, vehs, link, n) <= rear_end(veh_at(vehs, committed[k])->0),
    decreases n,
{
    if k < n - 1 {
        lemma_cleared_to_rear(committed, vehs, link, n - 1, k);
    }
}

/// After a tick of a stop line, a vehicle that was committed and is on the
/// line's link, with its rear end on the link too, is still committed, and
/// no more is clear behind the line than up to the vehicle's rear end.
pub proof fn lemma_step_holds_stretch(
    line: StopLine,
    links: Seq<Option<Link>>,
    vehs: Seq<Option<Vehicle>>,
    clear: bool,
    k: int,
)
    requires
        0 <= k < line.committed_vehs@.len(),
        veh_at(vehs, line.committed_vehs@[k]) is Some,
        veh_at(vehs, line.committed_vehs@[k])->0.link == line.link,
        rear_end(veh_at(vehs, line.committed_vehs@[k])->0) >= 0,
    ensures
        line.stepped(links, clear, vehs).committed.contains(line.committed_vehs@[k]),
        line.stepped(links, clear, vehs).clear_before <= rear_end(
            veh_at(vehs, line.committed_vehs@[k])->0,
        ),
{
    let n = line.committed_vehs@.len() as int;
    let g = Gate {
        committed: kept(line.committed_vehs@, vehs, line.link, n),
        clear_before: cleared_to(line.committed_vehs@, vehs, line.link, n),
        vehs,
    };
    lemma_kept_still_passing(line.committed_vehs@, vehs, line.link, n, line.committed_vehs@[k]);
    lemma_cleared_to_rear(line.committed_vehs@, vehs, line.link, n, k);
    lemma_reach_grows(line, links, line.link, Seq::empty(), line.pos, UPSTREAM_HOPS as nat, clear,
        g);
}

} // verus!
