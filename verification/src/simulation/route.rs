//! Routes through the network: the shortest way from link to link, by the
//! lengths of the links that are entered.
//!
//! The way from a link to a destination is worked out for a growing number
//! of connections: with none, only the destination itself is reached; with
//! one more, a link reaches what its outbound connections lead to. What
//! has been worked out for a destination is remembered in a route table.
use super::link::{first_to, Link, LinkConnection};
use super::vehicle::NO_LINK;
use crate::fixed::{plus, INFINITY};
use crate::util::IdMap;
use std::collections::HashMap;
use vstd::prelude::*;

verus! {

/// What is known of the way from one link to another: the link to go to
/// next, and the distance left, which is unlimited where there is no way.
#[derive(Clone, Copy, Debug, PartialEq, Eq, Structural)]
pub struct RouteTableEntry {
    pub next_link: usize,
    pub dist: i64,
}

/// The entry of a link from which there is no way.
pub open spec fn no_way() -> RouteTableEntry {
    RouteTableEntry { next_link: NO_LINK, dist: INFINITY }
}

/// The entry of the destination itself.
pub open spec fn arrived() -> RouteTableEntry {
    RouteTableEntry { next_link: NO_LINK, dist: 0 }
}

/// Whether the network has link `id`.
pub open spec fn known(links: Seq<Option<Link>>, id: usize) -> bool {
    id < links.len() && links[id as int] is Some
}

/// Whether an outbound connection of link `from` leads to link `to`.
pub open spec fn leads_to(links: Seq<Option<Link>>, from: usize, to: usize) -> bool {
    known(links, from) && links[from as int]->0.connection_to(to) is Some
}

/// Whether each link of `route` but the first is a link of the network that
/// is reached from the link before it by a connection.
pub open spec fn is_path(links: Seq<Option<Link>>, route: Seq<usize>) -> bool {
    forall|i: int|
        0 <= i < route.len() - 1 ==> leads_to(links, #[trigger] route[i], route[i + 1]) && known(
            links,
            route[i + 1],
        )
}

/// Every link of the network has a length above zero.
pub open spec fn lengths_positive(links: Seq<Option<Link>>) -> bool {
    forall|i: int| 0 <= i < links.len() && (#[trigger] links[i]) is Some ==> links[i]->0.length > 0
}

/// The distance of a way that enters link `to` and then has `rest` to go:
/// the length of `to` more, and unlimited where the rest is or the network
/// lacks the link.
pub open spec fn via(links: Seq<Option<Link>>, to: usize, rest: i64) -> i64 {
    if rest == INFINITY || !known(links, to) {
        INFINITY
    } else {
        plus(rest, links[to as int]->0.length)
    }
}

/// The length of the way along `path`: the lengths of its links after the
/// first, added up.
pub open spec fn path_cost(links: Seq<Option<Link>>, path: Seq<usize>) -> i64
    decreases path.len(),
{
    if path.len() <= 1 {
        0
    } else {
        via(links, path[1], path_cost(links, path.skip(1)))
    }
}

/// The shortest way from link `x` to link `dst` over at most `k`
/// connections: the link to go to next and the distance. Of two connections
/// that are as good, the earlier one is taken.
pub open spec fn way(links: Seq<Option<Link>>, x: usize, dst: usize, k: nat) -> RouteTableEntry
    decreases k, 1nat, 0nat,
{
    if x == dst {
        arrived()
    } else if k == 0 || !known(links, x) {
        no_way()
    } else {
        best_of(links, x, dst, k, links[x as int]->0.links_out@.len())
    }
}

/// The shortest way from link `x` to link `dst` over at most `k`
/// connections, the first of them one of the first `n` outbound connections
/// of `x`.
pub open spec fn best_of(
    links: Seq<Option<Link>>,
    x: usize,
    dst: usize,
    k: nat,
    n: nat,
) -> RouteTableEntry
    decreases k, 0nat, n,
{
    if n == 0 || k == 0 || !known(links, x) {
        no_way()
    } else {
        let best = best_of(links, x, dst, k, (n - 1) as nat);
        let to = links[x as int]->0.links_out@[n - 1].link_out;
        let dist = via(links, to, way(links, to, dst, (k - 1) as nat).dist);
        if dist < best.dist {
            RouteTableEntry { next_link: to, dist }
        } else {
            best
        }
    }
}

/// The links that follow `x` on the shortest way to `dst` over at most `k`
/// connections; none where there is no way.
pub open spec fn route_from(links: Seq<Option<Link>>, x: usize, dst: usize, k: nat) -> Seq<usize>
    decreases k,
{
    if x == dst || k == 0 || way(links, x, dst, k).dist == INFINITY {
        Seq::empty()
    } else {
        seq![way(links, x, dst, k).next_link] + route_from(
            links,
            way(links, x, dst, k).next_link,
            dst,
            (k - 1) as nat,
        )
    }
}

/// Whether a further connection shortens no way to `dst`: the ways over at
/// most `m` connections are those over at most `m - 1`.
pub open spec fn settled(links: Seq<Option<Link>>, dst: usize, m: nat) -> bool {
    m >= 1 && forall|x: usize| #[trigger] way(links, x, dst, m)
        == way(links, x, dst, (m - 1) as nat)
}

/// Whether `row` is what the route table remembers of the ways to `dst`:
/// for each number of connections from none upwards, the way of every link,
/// as far as a further connection still shortens a way.
pub open spec fn row_exact(
    links: Seq<Option<Link>>,
    dst: usize,
    row: Seq<Vec<RouteTableEntry>>,
) -> bool {
    &&& row.len() >= 1
    &&& forall|i: int| 0 <= i < row.len() ==> (#[trigger] row[i])@.len() == links.len()
    &&& forall|i: int, x: int|
        0 <= i < row.len() && 0 <= x < links.len() ==> (#[trigger] row[i]@[x]) == way(
            links,
            x as usize,
            dst,
            i as nat,
        )
    &&& row.len() > links.len() || settled(links, dst, (row.len() - 1) as nat)
}

/// Whether the route table is right: whatever it remembers of a destination
/// are the shortest ways on the network.
pub open spec fn table_exact(
    links: Seq<Option<Link>>,
    table: Map<usize, Vec<Vec<RouteTableEntry>>>,
) -> bool {
    forall|dst: usize| #[trigger] table.contains_key(dst) ==> row_exact(links, dst, table[dst]@)
}

/// The ways of all links to `dst` without any connection.
fn first_layer(links: &IdMap<Link>, dst: usize) -> (layer: Vec<RouteTableEntry>)
    ensures
        layer@.len() == links@.len(),
        forall|x: int| 0 <= x < links@.len() ==> (#[trigger] layer@[x])
            == way(links@, x as usize, dst, 0),
{
    let mut layer: Vec<RouteTableEntry> = Vec::new();
    let mut x: usize = 0;
    while x < links.len()
        invariant
            0 <= x <= links@.len(),
            layer@.len() == x,
            forall|y: int| 0 <= y < x ==> (#[trigger] layer@[y]) == way(links@, y as usize, dst, 0),
        decreases links@.len() - x,
    {
        if x == dst {
            layer.push(RouteTableEntry { next_link: NO_LINK, dist: 0 });
        } else {
            layer.push(RouteTableEntry { next_link: NO_LINK, dist: INFINITY });
        }
        x += 1;
    }
    layer
}

/// The ways of all links to `dst` over at most `k + 1` connections, from
/// those over at most `k`.
fn next_layer(
    links: &IdMap<Link>,
    dst: usize,
    prev: &Vec<RouteTableEntry>,
    k: usize,
) -> (layer: Vec<RouteTableEntry>)
    requires
        prev@.len() == links@.len(),
        forall|x: int| 0 <= x < links@.len() ==> (#[trigger] prev@[x])
            == way(links@, x as usize, dst, k as nat),
    ensures
        layer@.len() == links@.len(),
        forall|x: int|
            0 <= x < links@.len() ==> (#[trigger] layer@[x]) == way(
                links@,
                x as usize,
                dst,
                (k + 1) as nat,
            ),
{
    let mut layer: Vec<RouteTableEntry> = Vec::new();
    let mut x: usize = 0;
    while x < links.len()
        invariant
            0 <= x <= links@.len(),
            prev@.len() == links@.len(),
            forall|y: int|
                0 <= y < links@.len() ==> (#[trigger] prev@[y])
                    == way(links@, y as usize, dst, k as nat),
            layer@.len() == x,
            forall|y: int|
                0 <= y < x ==> (#[trigger] layer@[y]) == way(links@, y as usize, dst, (k
                    + 1) as nat),
        decreases links@.len() - x,
    {
        let mut next_link = NO_LINK;
        let mut dist = INFINITY;
        if x == dst {
            dist = 0;
        } else {
            match links.get(x) {
                Some(link) => {
                    let mut n: usize = 0;
                    while n < link.links_out.len()
                        invariant
                            0 <= n <= link.links_out@.len(),
                            x < links@.len(),
                            x != dst,
                            links.spec_has_key(x),
                            *link == links.spec_at(x),
                            prev@.len() == links@.len(),
                            forall|y: int|
                                0 <= y < links@.len() ==> (#[trigger] prev@[y]) == way(
                                    links@,
                                    y as usize,
                                    dst,
                                    k as nat,
                                ),
                            (RouteTableEntry { next_link, dist }) == best_of(
                                links@,
                                x,
                                dst,
                                (k + 1) as nat,
                                n as nat,
                            ),
                        decreases link.links_out@.len() - n,
                    {
                        let to = link.links_out[n].link_out;
                        let through = match links.get(to) {
                            Some(l) => {
                                let rest = prev[to].dist;
                                if rest == INFINITY {
                                    INFINITY
                                } else {
                                    plus(rest, l.length)
                                }
                            },
                            None => INFINITY,
                        };
                        proof {
                            assert(through == via(links@, to, way(links@, to, dst, k as nat).dist));
                        }
                        if through < dist {
                            next_link = to;
                            dist = through;
                        }
                        n += 1;
                    }
                },
                None => {},
            }
        }
        layer.push(RouteTableEntry { next_link, dist });
        x += 1;
    }
    layer
}

/// Whether two layers hold the same entries.
fn same_layer(a: &Vec<RouteTableEntry>, b: &Vec<RouteTableEntry>) -> (same: bool)
    requires
        a@.len() == b@.len(),
    ensures
        same == (a@ == b@),
{
    let mut i: usize = 0;
    while i < a.len()
        invariant
            0 <= i <= a@.len(),
            a@.len() == b@.len(),
            forall|j: int| 0 <= j < i ==> a@[j] == b@[j],
        decreases a@.len() - i,
    {
        if a[i].next_link != b[i].next_link || a[i].dist != b[i].dist {
            return false;
        }
        i += 1;
    }
    proof {
        assert(a@ =~= b@);
    }
    true
}

/// Works out the ways of all links to `dst`.
fn build_row(links: &IdMap<Link>, dst: usize) -> (row: Vec<Vec<RouteTableEntry>>)
    ensures
        row_exact(links@, dst, row@),
{
    let mut row: Vec<Vec<RouteTableEntry>> = Vec::new();
    row.push(first_layer(links, dst));
    let mut k: usize = 0;
    while k < links.len()
        invariant
            0 <= k <= links@.len(),
            row@.len() == k + 1,
            forall|i: int| 0 <= i < row@.len() ==> (#[trigger] row@[i])@.len() == links@.len(),
            forall|i: int, x: int|
                0 <= i < row@.len() && 0 <= x < links@.len() ==> (#[trigger] row@[i]@[x]) == way(
                    links@,
                    x as usize,
                    dst,
                    i as nat,
                ),
        decreases links@.len() - k,
    {
        let layer = next_layer(links, dst, &row[k], k);
        let same = same_layer(&layer, &row[k]);
        let ghost before = row@;
        row.push(layer);
        k += 1;
        proof {
            assert forall|i: int, x: int|
                0 <= i < row@.len() && 0 <= x < links@.len() implies (#[trigger] row@[i]@[x])
                == way(links@, x as usize, dst, i as nat) by {
                if i < before.len() {
                    assert(row@[i] == before[i]);
                }
            }
            assert forall|i: int| 0 <= i < row@.len() implies (#[trigger] row@[i])@.len()
                == links@.len() by {
                if i < before.len() {
                    assert(row@[i] == before[i]);
                }
            }
        }
        if same {
            proof {
                assert forall|x: usize| #[trigger]
                    way(links@, x, dst, k as nat) == way(links@, x, dst, (k - 1) as nat) by {
                    if x < links@.len() {
                        assert(row@[k as int]@[x as int] == row@[k - 1]@[x as int]);
                    } else {
                        lemma_way_unknown(links@, x, dst, k as nat);
                        lemma_way_unknown(links@, x, dst, (k - 1) as nat);
                    }
                }
            }
            return row;
        }
    }
    row
}

/// Looks up, or works out and remembers, the shortest way from `src_link`
/// to `dst_link` over at most `hops` connections.
pub fn min_dist_to_link(
    links: &IdMap<Link>,
    route_table: &mut HashMap<usize, Vec<Vec<RouteTableEntry>>>,
    src_link: usize,
    dst_link: usize,
    hops: usize,
) -> (entry: RouteTableEntry)
    requires
        table_exact(links@, old(route_table)@),
        hops <= links@.len(),
    ensures
        entry == way(links@, src_link, dst_link, hops as nat),
        table_exact(links@, final(route_table)@),
{
    broadcast use vstd::std_specs::hash::group_hash_axioms;

    if src_link == dst_link {
        return RouteTableEntry { next_link: NO_LINK, dist: 0 };
    }
    if src_link >= links.len() {
        return RouteTableEntry { next_link: NO_LINK, dist: INFINITY };
    }
    if !route_table.contains_key(&dst_link) {
        let row = build_row(links, dst_link);
        route_table.insert(dst_link, row);
    }
    match route_table.get(&dst_link) {
        Some(row) => {
            proof {
                assert(route_table@.contains_key(dst_link));
                assert(row_exact(links@, dst_link, row@));
            }
            if hops < row.len() {
                row[hops][src_link]
            } else {
                proof {
                    lemma_settled_stays(links@, dst_link, (row@.len() - 1) as nat, hops as nat);
                }
                row[row.len() - 1][src_link]
            }
        },
        None => RouteTableEntry { next_link: NO_LINK, dist: INFINITY },
    }
}

/// The route from `src_link` towards `dst_link`: the links to travel, the
/// first of them `src_link`.
#[verifier::loop_isolation(false)]
pub fn find_route_in(
    links: &IdMap<Link>,
    route_table: &mut HashMap<usize, Vec<Vec<RouteTableEntry>>>,
    src_link: usize,
    dst_link: usize,
) -> (route: Vec<usize>)
    requires
        table_exact(links@, old(route_table)@),
    ensures
        table_exact(links@, final(route_table)@),
        route@ == seq![src_link] + route_from(links@, src_link, dst_link, links@.len()),
{
    let mut route: Vec<usize> = Vec::new();
    route.push(src_link);
    let mut link = src_link;
    let mut budget: usize = links.len();
    let ghost mut done: Seq<usize> = Seq::empty();
    proof {
        assert(route@ =~= seq![src_link] + done);
        assert(done + route_from(links@, link, dst_link, budget as nat) =~= route_from(
            links@,
            src_link,
            dst_link,
            links@.len(),
        ));
    }
    while link != dst_link && budget > 0
        invariant
            budget <= links@.len(),
            table_exact(links@, route_table@),
            route@ == seq![src_link] + done,
            done + route_from(links@, link, dst_link, budget as nat) == route_from(
                links@,
                src_link,
                dst_link,
                links@.len(),
            ),
        decreases budget,
    {
        let next = min_dist_to_link(links, route_table, link, dst_link, budget);
        if next.dist == INFINITY {
            proof {
                assert(done + Seq::<usize>::empty() =~= done);
            }
            return route;
        }
        proof {
            let rest = route_from(links@, next.next_link, dst_link, (budget - 1) as nat);
            assert(done + (seq![next.next_link] + rest) =~= done.push(next.next_link) + rest);
            done = done.push(next.next_link);
        }
        link = next.next_link;
        route.push(link);
        budget -= 1;
        proof {
            assert(route@ =~= seq![src_link] + done);
        }
    }
    proof {
        assert(done + Seq::<usize>::empty() =~= done);
    }
    route
}

/// A link that the network lacks is the destination or has no way to it.
pub proof fn lemma_way_unknown(links: Seq<Option<Link>>, x: usize, dst: usize, k: nat)
    requires
        !known(links, x),
    ensures
        way(links, x, dst, k) == if x == dst {
            arrived()
        } else {
            no_way()
        },
{
}

/// The best way over the first connections of a link depends on the ways
/// of other links by their distances only.
proof fn lemma_best_same(links: Seq<Option<Link>>, x: usize, dst: usize, k1: nat, k2: nat, n: nat)
    requires
        k1 >= 1,
        k2 >= 1,
        forall|to: usize| #[trigger]
            way(links, to, dst, (k1 - 1) as nat) == way(links, to, dst, (k2 - 1) as nat),
    ensures
        best_of(links, x, dst, k1, n) == best_of(links, x, dst, k2, n),
    decreases n,
{
    if n > 0 && known(links, x) {
        lemma_best_same(links, x, dst, k1, k2, (n - 1) as nat);
        let to = links[x as int]->0.links_out@[n - 1].link_out;
        assert(way(links, to, dst, (k1 - 1) as nat) == way(links, to, dst, (k2 - 1) as nat));
    }
}

/// Once a further connection shortens no way, none ever does.
pub proof fn lemma_settled_stays(links: Seq<Option<Link>>, dst: usize, m: nat, k: nat)
    requires
        settled(links, dst, m),
        k >= m,
    ensures
        forall|x: usize| #[trigger] way(links, x, dst, k) == way(links, x, dst, m),
    decreases k,
{
    if k > m {
        lemma_settled_stays(links, dst, m, (k - 1) as nat);
        assert forall|x: usize| #[trigger] way(links, x, dst, k) == way(links, x, dst, m) by {
            if x != dst && known(links, x) {
                let n = links[x as int]->0.links_out@.len();
                assert forall|to: usize| #[trigger]
                    way(links, to, dst, (k - 1) as nat) == way(links, to, dst, (m - 1) as nat) by {
                    assert(way(links, to, dst, (k - 1) as nat) == way(links, to, dst, m));
                    assert(way(links, to, dst, m) == way(links, to, dst, (m - 1) as nat));
                }
                lemma_best_same(links, x, dst, k, m, n);
            }
        }
    }
}

/// A connection to a link is found where there is one.
pub proof fn lemma_first_to_finds(conns: Seq<LinkConnection>, link: usize, from: int, k: int)
    requires
        0 <= from <= k < conns.len(),
        conns[k].link_out == link,
    ensures
        first_to(conns, link, from) is Some,
    decreases k - from,
{
    if conns[from].link_out != link {
        lemma_first_to_finds(conns, link, from + 1, k);
    }
}

/// The connection that is found leads to the link asked for.
pub proof fn lemma_first_to_leads(conns: Seq<LinkConnection>, link: usize, from: int)
    requires
        0 <= from,
        first_to(conns, link, from) is Some,
    ensures
        from <= first_to(conns, link, from)->0 < conns.len(),
        conns[first_to(conns, link, from)->0].link_out == link,
    decreases conns.len() - from,
{
    if from < conns.len() && conns[from].link_out != link {
        lemma_first_to_leads(conns, link, from + 1);
    }
}

/// The best way over the first `n` connections of a link is no longer than
/// the way through any of them, and where it is a way, it goes through one
/// of them.
pub proof fn lemma_best_of(links: Seq<Option<Link>>, x: usize, dst: usize, k: nat, n: nat)
    requires
        known(links, x),
        k >= 1,
        n <= links[x as int]->0.links_out@.len(),
    ensures
        forall|j: int|
            0 <= j < n ==> best_of(links, x, dst, k, n).dist <= via(
                links,
                (#[trigger] links[x as int]->0.links_out@[j]).link_out,
                way(links, links[x as int]->0.links_out@[j].link_out, dst, (k - 1) as nat).dist,
            ),
        best_of(links, x, dst, k, n).dist < INFINITY ==> {
            let e = best_of(links, x, dst, k, n);
            &&& leads_to(links, x, e.next_link)
            &&& known(links, e.next_link)
            &&& way(links, e.next_link, dst, (k - 1) as nat).dist < INFINITY
            &&& e.dist == via(links, e.next_link, way(links, e.next_link, dst, (k - 1) as nat).dist)
        },
    decreases n,
{
    if n > 0 {
        lemma_best_of(links, x, dst, k, (n - 1) as nat);
        let conns = links[x as int]->0.links_out@;
        let to = conns[n - 1].link_out;
        let e = best_of(links, x, dst, k, n);
        if e.dist < INFINITY && e != best_of(links, x, dst, k, (n - 1) as nat) {
            lemma_first_to_finds(conns, to, 0, n - 1);
        }
    }
}

/// Where there is a way from `x` to `dst` over at most `k` connections, the
/// route that follows it is a path through the network that ends at `dst`,
/// and as long as the way.
pub proof fn lemma_route_arrives(links: Seq<Option<Link>>, x: usize, dst: usize, k: nat)
    requires
        way(links, x, dst, k).dist < INFINITY,
    ensures
        is_path(links, seq![x] + route_from(links, x, dst, k)),
        (seq![x] + route_from(links, x, dst, k)).last() == dst,
        path_cost(links, seq![x] + route_from(links, x, dst, k)) == way(links, x, dst, k).dist,
        route_from(links, x, dst, k).len() <= k,
    decreases k,
{
    let route = seq![x] + route_from(links, x, dst, k);
    if x == dst || k == 0 {
        assert(route =~= seq![x]);
    } else {
        let e = way(links, x, dst, k);
        lemma_best_of(links, x, dst, k, links[x as int]->0.links_out@.len());
        lemma_route_arrives(links, e.next_link, dst, (k - 1) as nat);
        let rest = seq![e.next_link] + route_from(links, e.next_link, dst, (k - 1) as nat);
        assert(route =~= seq![x] + rest);
        assert(route.skip(1) =~= rest);
        assert(route[1] == e.next_link);
        assert forall|i: int| 0 <= i < route.len() - 1 implies leads_to(
            links,
            #[trigger] route[i],
            route[i + 1],
        ) && known(links, route[i + 1]) by {
            if i > 0 {
                assert(route[i] == rest[i - 1]);
                assert(route[i + 1] == rest[i]);
            }
        }
    }
}

/// On a network whose links have lengths above zero, no way is shorter than
/// nothing.
pub proof fn lemma_path_cost_nonneg(links: Seq<Option<Link>>, path: Seq<usize>)
    requires
        lengths_positive(links),
    ensures
        path_cost(links, path) >= 0,
    decreases path.len(),
{
    if path.len() > 1 {
        lemma_path_cost_nonneg(links, path.skip(1));
    }
}

/// On a network whose links have lengths above zero, the shortest way from
/// `x` to `dst` over at most `k` connections is no longer than any path from
/// `x` to `dst` with at most `k` connections.
pub proof fn lemma_way_is_shortest(
    links: Seq<Option<Link>>,
    x: usize,
    dst: usize,
    k: nat,
    path: Seq<usize>,
)
    requires
        lengths_positive(links),
        is_path(links, path),
        path.len() >= 1,
        path[0] == x,
        path.last() == dst,
        path.len() - 1 <= k,
    ensures
        way(links, x, dst, k).dist <= path_cost(links, path),
    decreases k,
{
    lemma_path_cost_nonneg(links, path);
    if x != dst {
        let next = path[1];
        let rest = path.skip(1);
        assert(leads_to(links, path[0], path[1]) && known(links, path[1]));
        assert forall|i: int| 0 <= i < rest.len() - 1 implies leads_to(
            links,
            #[trigger] rest[i],
            rest[i + 1],
        ) && known(links, rest[i + 1]) by {
            assert(rest[i] == path[i + 1]);
            assert(leads_to(links, path[i + 1], path[i + 2]));
        }
        lemma_way_is_shortest(links, next, dst, (k - 1) as nat, rest);
        let conns = links[x as int]->0.links_out@;
        lemma_first_to_leads(conns, next, 0);
        let j = first_to(conns, next, 0)->0;
        lemma_best_of(links, x, dst, k, conns.len());
        assert(conns[j].link_out == next);
        lemma_path_cost_nonneg(links, rest);
    }
}

/// On a network whose links have lengths above zero, what is left of a path
/// from its link at index `j` on is a path that is no longer, and shorter
/// where something is left out and the path has a length.
pub proof fn lemma_path_tail(links: Seq<Option<Link>>, path: Seq<usize>, j: int)
    requires
        lengths_positive(links),
        is_path(links, path),
        0 <= j < path.len(),
    ensures
        is_path(links, path.skip(j)),
        path_cost(links, path.skip(j)) <= path_cost(links, path),
        j > 0 && path_cost(links, path) < INFINITY ==> path_cost(links, path.skip(j)) < path_cost(
            links,
            path,
        ),
    decreases j,
{
    if j == 0 {
        assert(path.skip(0) =~= path);
    } else {
        let rest = path.skip(1);
        assert forall|i: int| 0 <= i < rest.len() - 1 implies leads_to(
            links,
            #[trigger] rest[i],
            rest[i + 1],
        ) && known(links, rest[i + 1]) by {
            assert(leads_to(links, path[i + 1], path[i + 2]));
        }
        lemma_path_tail(links, rest, j - 1);
        assert(rest.skip(j - 1) =~= path.skip(j));
        assert(leads_to(links, path[0], path[1]) && known(links, path[1]));
        lemma_path_cost_nonneg(links, rest);
    }
}

/// A path with a link put in front of it, from which a connection leads to
/// the path's first link, is a path, and longer by the length of the link
/// that was the first.
pub proof fn lemma_path_with_first(links: Seq<Option<Link>>, x: usize, rest: Seq<usize>)
    requires
        is_path(links, rest),
        rest.len() >= 1,
        leads_to(links, x, rest[0]),
        known(links, rest[0]),
    ensures
        is_path(links, seq![x] + rest),
        path_cost(links, seq![x] + rest) == via(links, rest[0], path_cost(links, rest)),
{
    let path = seq![x] + rest;
    assert(path.skip(1) =~= rest);
    assert(path[1] == rest[0]);
    assert forall|h: int| 0 <= h < path.len() - 1 implies leads_to(
        links,
        #[trigger] path[h],
        path[h + 1],
    ) && known(links, path[h + 1]) by {
        if h > 0 {
            assert(leads_to(links, rest[h - 1], rest[h]) && known(links, rest[h]));
            assert(path[h] == rest[h - 1] && path[h + 1] == rest[h]);
        }
    }
}

/// On a network whose links have lengths above zero, a path that comes by
/// one link twice is longer than another with the same ends and fewer
/// links: the path without the round between the two visits.
pub proof fn lemma_round_cut(
    links: Seq<Option<Link>>,
    path: Seq<usize>,
    i: int,
    j: int,
) -> (cut: Seq<usize>)
    requires
        lengths_positive(links),
        is_path(links, path),
        0 <= i < j < path.len(),
        path[i] == path[j],
        path_cost(links, path) < INFINITY,
    ensures
        is_path(links, cut),
        1 <= cut.len() < path.len(),
        cut[0] == path[0],
        cut.last() == path.last(),
        path_cost(links, cut) < path_cost(links, path),
    decreases i,
{
    if i == 0 {
        lemma_path_tail(links, path, j);
        path.skip(j)
    } else {
        let rest = path.skip(1);
        lemma_path_tail(links, path, 1);
        assert(leads_to(links, path[0], path[1]) && known(links, path[1]));
        assert(path_cost(links, path) == via(links, path[1], path_cost(links, rest)));
        assert(rest[i - 1] == path[i] && rest[j - 1] == path[j]);
        let cut_rest = lemma_round_cut(links, rest, i - 1, j - 1);
        assert(rest[0] == path[1] && rest.last() == path.last());
        lemma_path_with_first(links, path[0], cut_rest);
        lemma_path_cost_nonneg(links, cut_rest);
        seq![path[0]] + cut_rest
    }
}

/// On a network whose links have lengths above zero, the route along a
/// shortest way passes no link twice.
pub proof fn lemma_route_simple(links: Seq<Option<Link>>, x: usize, dst: usize, k: nat)
    requires
        lengths_positive(links),
    ensures
        (seq![x] + route_from(links, x, dst, k)).no_duplicates(),
{
    let route = seq![x] + route_from(links, x, dst, k);
    if way(links, x, dst, k).dist < INFINITY {
        lemma_route_arrives(links, x, dst, k);
        if !route.no_duplicates() {
            let (a, b) = choose|a: int, b: int|
                0 <= a < route.len() && 0 <= b < route.len() && a != b && route[a] == route[b];
            let cut = if a < b {
                lemma_round_cut(links, route, a, b)
            } else {
                lemma_round_cut(links, route, b, a)
            };
            lemma_way_is_shortest(links, x, dst, k, cut);
        }
    } else {
        assert(route =~= seq![x]);
    }
}

/// A path that passes no link twice has no more links than the network.
pub proof fn lemma_simple_path_short(links: Seq<Option<Link>>, path: Seq<usize>)
    requires
        is_path(links, path),
        path.no_duplicates(),
        path.len() >= 1,
        known(links, path[0]),
    ensures
        path.len() <= links.len(),
{
    let ints = path.map_values(|x: usize| x as int);
    assert forall|i: int, j: int| 0 <= i < ints.len() && 0 <= j < ints.len() && i != j
        implies ints[i]
        != ints[j] by {
        assert(path[i] != path[j]);
    }
    ints.unique_seq_to_set();
    vstd::set_lib::lemma_int_range(0, links.len() as int);
    assert forall|v: int| ints.to_set().contains(v) implies vstd::set_lib::set_int_range(
        0,
        links.len() as int,
    ).contains(v) by {
        assert(ints.contains(v));
        let i = choose|i: int| 0 <= i < ints.len() && ints[i] == v;
        assert(0 <= i < path.len() && path[i] as int == v);
        if i > 0 {
            let h = i - 1;
            assert(is_path(links, path));
            assert(0 <= h < path.len() - 1);
            let _ = path[h];
            assert(leads_to(links, path[h], path[h + 1]));
            assert(known(links, path[h + 1]));
        }
    }
    vstd::set_lib::lemma_len_subset(
        ints.to_set(),
        vstd::set_lib::set_int_range(0, links.len() as int),
    );
}

/// Whether two networks have the same links with the same lengths and the
/// same outbound connections.
pub open spec fn same_network(before: Seq<Option<Link>>, after: Seq<Option<Link>>) -> bool {
    &&& after.len() == before.len()
    &&& forall|i: int|
        0 <= i < before.len() ==> ((#[trigger] after[i]) is Some <==> before[i] is Some)
    &&& forall|i: int|
        0 <= i < before.len() && before[i] is Some ==> (#[trigger] after[i])->0.length
            == before[i]->0.length && after[i]->0.links_out == before[i]->0.links_out
}

/// The shortest way depends on the lengths and connections of the links
/// only.
pub proof fn lemma_way_same_network(
    before: Seq<Option<Link>>,
    after: Seq<Option<Link>>,
    x: usize,
    dst: usize,
    k: nat,
)
    requires
        same_network(before, after),
    ensures
        way(before, x, dst, k) == way(after, x, dst, k),
    decreases k, 1nat, 0nat,
{
    if x != dst && k > 0 && known(before, x) {
        assert(after[x as int]->0.links_out == before[x as int]->0.links_out);
        lemma_best_same_network(before, after, x, dst, k, before[x as int]->0.links_out@.len());
    }
}

/// The best way over the first connections of a link depends on the lengths
/// and connections of the links only.
proof fn lemma_best_same_network(
    before: Seq<Option<Link>>,
    after: Seq<Option<Link>>,
    x: usize,
    dst: usize,
    k: nat,
    n: nat,
)
    requires
        same_network(before, after),
        k > 0,
        known(before, x),
        n <= before[x as int]->0.links_out@.len(),
    ensures
        best_of(before, x, dst, k, n) == best_of(after, x, dst, k, n),
    decreases k, 0nat, n,
{
    assert(after[x as int]->0.links_out == before[x as int]->0.links_out);
    if n > 0 {
        lemma_best_same_network(before, after, x, dst, k, (n - 1) as nat);
        let to = before[x as int]->0.links_out@[n - 1].link_out;
        lemma_way_same_network(before, after, to, dst, (k - 1) as nat);
        if known(before, to) {
            assert(after[to as int]->0.length == before[to as int]->0.length);
        }
    }
}

/// A route table that is right stays right while the links keep their
/// lengths and connections.
pub proof fn lemma_table_kept(
    before: Seq<Option<Link>>,
    after: Seq<Option<Link>>,
    table: Map<usize, Vec<Vec<RouteTableEntry>>>,
)
    requires
        table_exact(before, table),
        same_network(before, after),
    ensures
        table_exact(after, table),
{
    assert forall|dst: usize| #[trigger] table.contains_key(dst) implies row_exact(
        after,
        dst,
        table[dst]@,
    ) by {
        let row = table[dst]@;
        assert(row_exact(before, dst, row));
        assert forall|i: int, x: int|
            0 <= i < row.len() && 0 <= x < after.len() implies (#[trigger] row[i]@[x]) == way(
            after,
            x as usize,
            dst,
            i as nat,
        ) by {
            lemma_way_same_network(before, after, x as usize, dst, i as nat);
        }
        let m = (row.len() - 1) as nat;
        if !(row.len() > after.len()) {
            assert forall|x: usize| #[trigger]
                way(after, x, dst, m) == way(after, x, dst, (m - 1) as nat) by {
                lemma_way_same_network(before, after, x, dst, m);
                lemma_way_same_network(before, after, x, dst, (m - 1) as nat);
                assert(way(before, x, dst, m) == way(before, x, dst, (m - 1) as nat));
            }
        }
    }
}

} // verus!
