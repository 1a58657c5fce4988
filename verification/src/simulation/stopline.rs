//! Stop lines: the points at which one stream of traffic gives way to
//! another.
use super::link::{Link, Obstacle};
use super::vehicle::Vehicle;
use crate::fixed::{lesser, minus, plus, times, HALF, INFINITY};
use crate::util::IdMap;
use vstd::prelude::*;
use vstd::string::StringSliceAdditionalSpecFns;

verus! {

/// How close to a stop line a vehicle has to be before it may commit itself
/// to passing it.
pub const COMMIT_DIST: i64 = 6_000_000;

/// How far upstream of a stop line vehicles see it when nothing else is said.
pub const DEFAULT_SIGHT_DIST: i64 = 50_000_000;

/// How many links upstream of its own link a stop line reaches.
pub const UPSTREAM_HOPS: usize = 3;

/// What a traffic light shows.
#[derive(Clone, Copy, Debug, PartialEq, Eq, Structural)]
pub enum TrafficLightState {
    Green,
    Amber,
    Red,
}

/// The kinds of stop line.
#[derive(Clone, Copy, Debug, PartialEq, Eq, Structural)]
pub enum StopLineType {
    /// A line without sign or light.
    Unmarked,
    Giveway,
    Stop,
    TrafficLight { state: TrafficLightState },
}

/// Whether the bytes `s` are the bytes `word`.
pub(crate) fn bytes_are(s: &[u8], word: &[u8]) -> (b: bool)
    ensures
        b == (s@ == word@),
{
    if s.len() != word.len() {
        return false;
    }
    let mut i: usize = 0;
    while i < s.len()
        invariant
            0 <= i <= s@.len(),
            s@.len() == word@.len(),
            forall|k: int| 0 <= k < i ==> s@[k] == word@[k],
        decreases s@.len() - i,
    {
        if s[i] != word[i] {
            return false;
        }
        i += 1;
    }
    proof {
        assert(s@ =~= word@);
    }
    true
}

impl StopLineType {
    /// The kind of stop line that the bytes `text` name: `none`, `giveway`,
    /// `stop` or `light`, a light being red to begin with.
    pub open spec fn named(text: Seq<u8>) -> Option<StopLineType> {
        if text == seq![110u8, 111u8, 110u8, 101u8] {
            Some(StopLineType::Unmarked)
        } else if text == seq![103u8, 105u8, 118u8, 101u8, 119u8, 97u8, 121u8] {
            Some(StopLineType::Giveway)
        } else if text == seq![115u8, 116u8, 111u8, 112u8] {
            Some(StopLineType::Stop)
        } else if text == seq![108u8, 105u8, 103u8, 104u8, 116u8] {
            Some(StopLineType::TrafficLight { state: TrafficLightState::Red })
        } else {
            None
        }
    }

    /// The kind of stop line that `text` names.
    pub fn parse(text: &str) -> (r: Option<StopLineType>)
        ensures
            r == Self::named(text.spec_bytes()),
    {
        Self::from_bytes(text.as_bytes())
    }

    /// The kind of stop line that the bytes `s` name.
    pub fn from_bytes(s: &[u8]) -> (r: Option<StopLineType>)
        ensures
            r == Self::named(s@),
    {
        let none: [u8; 4] = [110, 111, 110, 101];
        let giveway: [u8; 7] = [103, 105, 118, 101, 119, 97, 121];
        let stop: [u8; 4] = [115, 116, 111, 112];
        let light: [u8; 5] = [108, 105, 103, 104, 116];
        proof {
            assert(none@ =~= seq![110u8, 111u8, 110u8, 101u8]);
            assert(giveway@ =~= seq![103u8, 105u8, 118u8, 101u8, 119u8, 97u8, 121u8]);
            assert(stop@ =~= seq![115u8, 116u8, 111u8, 112u8]);
            assert(light@ =~= seq![108u8, 105u8, 103u8, 104u8, 116u8]);
        }
        if bytes_are(s, none.as_slice()) {
            Some(StopLineType::Unmarked)
        } else if bytes_are(s, giveway.as_slice()) {
            Some(StopLineType::Giveway)
        } else if bytes_are(s, stop.as_slice()) {
            Some(StopLineType::Stop)
        } else if bytes_are(s, light.as_slice()) {
            Some(StopLineType::TrafficLight { state: TrafficLightState::Red })
        } else {
            None
        }
    }
}

impl core::str::FromStr for StopLineType {
    type Err = ();

    fn from_str(s: &str) -> (r: Result<StopLineType, ()>)
        ensures
            match r {
                Ok(kind) => StopLineType::named(s.spec_bytes()) == Some(kind),
                Err(_) => StopLineType::named(s.spec_bytes()) is None,
            },
    {
        match StopLineType::parse(s) {
            Some(kind) => Ok(kind),
            None => Err(()),
        }
    }
}

/// Which of two conflicting streams goes first.
#[derive(Clone, Copy, Debug, PartialEq, Eq, Structural)]
pub enum Priority {
    Lower,
    Equal,
    Higher,
}

/// The stream of another stop line crosses this one's. While a vehicle that
/// is committed to passing the other stop line has not come as far as
/// `max_pos`, this stream is blocked.
#[derive(Clone, Copy, Debug, PartialEq, Eq, Structural)]
pub struct Conflict {
    pub stopline: usize,
    pub priority: Priority,
    pub max_pos: i64,
}

/// A point on a lane of a link at which vehicles may have to wait for a
/// light or for conflicting streams of traffic.
pub struct StopLine {
    pub id: usize,
    pub link: usize,
    pub lane: u8,
    pub pos: i64,
    pub len: i64,
    pub kind: StopLineType,
    pub sight_pos: i64,
    pub conflicts: Vec<Conflict>,
    /// The vehicles that have been let through and have not left yet.
    pub committed_vehs: Vec<usize>,
    pub time_until_enter: i64,
    pub min_arrival: usize,
    /// How far the last of the committed vehicles has come.
    pub clear_before: i64,
}

/// What a stop line does with a vehicle that comes up to it.
#[derive(Clone, Copy, Debug, PartialEq, Eq, Structural)]
pub enum Verdict {
    /// The vehicle is committed already: it goes on.
    Pass,
    /// The vehicle has to stop at the line.
    Halt,
    /// The vehicle is let through.
    Commit,
}

/// Whether the light lets traffic through: anything but a red or amber
/// traffic light does.
pub open spec fn light_open(kind: StopLineType) -> bool {
    match kind {
        StopLineType::TrafficLight { state } => state == TrafficLightState::Green,
        _ => true,
    }
}

/// Whether the conflict `c` of stop line `own` leaves the way free: the other
/// stop line's last committed vehicle has come as far as `max_pos`. A
/// conflict with a stop line that does not exist blocks nothing, and a stop
/// line in conflict with itself counts as cleared up to zero.
pub open spec fn conflict_clear(c: Conflict, own: usize, stoplines: Seq<Option<StopLine>>) -> bool {
    if c.stopline == own {
        0 >= c.max_pos
    } else {
        c.stopline < stoplines.len() && stoplines[c.stopline as int] is Some
            ==> stoplines[c.stopline as int]->0.clear_before >= c.max_pos
    }
}

/// What the stop line and the vehicles look like in the middle of a tick.
pub struct Gate {
    pub committed: Seq<usize>,
    pub clear_before: i64,
    pub vehs: Seq<Option<Vehicle>>,
}

/// The vehicle with id `vid`, if there is one.
pub open spec fn veh_at(vehs: Seq<Option<Vehicle>>, vid: usize) -> Option<Vehicle> {
    if vid < vehs.len() {
        vehs[vid as int]
    } else {
        None
    }
}

/// Whether a committed vehicle is still on its way through: it exists, and
/// is on link `link` or has that link on its route.
pub open spec fn still_passing(v: Option<Vehicle>, link: usize) -> bool {
    v is Some && (v->0.link == link || v->0.link_route@.contains(link))
}

/// Those of the first `n` committed vehicles that are still on their way
/// through, in their order.
pub open spec fn kept(
    committed: Seq<usize>,
    vehs: Seq<Option<Vehicle>>,
    link: usize,
    n: int,
) -> Seq<usize>
    decreases n,
{
    if n <= 0 {
        Seq::empty()
    } else if still_passing(veh_at(vehs, committed[n - 1]), link) {
        kept(committed, vehs, link, n - 1).push(committed[n - 1])
    } else {
        kept(committed, vehs, link, n - 1)
    }
}

/// How far the first `n` committed vehicles have cleared the link `link`:
/// unlimited to begin with; no further than the rear end of a committed
/// vehicle that is on the link; and, for a committed vehicle that is
/// elsewhere with the link still on its route, zero, whatever came before.
pub open spec fn cleared_to(
    committed: Seq<usize>,
    vehs: Seq<Option<Vehicle>>,
    link: usize,
    n: int,
) -> i64
    decreases n,
{
    if n <= 0 {
        INFINITY
    } else {
        let prev = cleared_to(committed, vehs, link, n - 1);
        match veh_at(vehs, committed[n - 1]) {
            Some(v) => if v.link == link {
                lesser(prev, minus(v.pos, times(HALF, v.len)))
            } else if v.link_route@.contains(link) {
                0
            } else {
                prev
            },
            None => prev,
        }
    }
}

/// The route `[id] + route`.
pub open spec fn route_through(id: usize, route: Seq<usize>) -> Seq<usize> {
    seq![id] + route
}

impl StopLine {
    /// The stop line's part of the state in the middle of a tick.
    pub open spec fn gate(&self, vehs: Seq<Option<Vehicle>>) -> Gate {
        Gate { committed: self.committed_vehs@, clear_before: self.clear_before, vehs }
    }

    /// Whether the stop line concerns the vehicle `veh`, which is on a link
    /// from which `route` leads to the stop line's link. On the stop line's
    /// own link (`route` is empty) that is a vehicle in the stop line's lane
    /// that has not passed the line. Further upstream it is a vehicle whose
    /// route goes on along `route` and takes the stop line's lane on the stop
    /// line's link.
    pub open spec fn concerns(&self, veh: Vehicle, route: Seq<usize>) -> bool {
        if route.len() == 0 {
            veh.lane == self.lane && veh.pos <= self.pos
        } else {
            &&& route.len() < veh.lane_route@.len()
            &&& veh.lane_route@[route.len() as int] == self.lane
            &&& veh.link_route@.len() >= route.len() + 1
            &&& veh.link_route@.subrange(1, route.len() as int + 1) == route
        }
    }

    /// Deals with vehicle `vid`, for which the line lies at `pos`: the state
    /// afterwards, and whether the vehicle has to stop.
    pub open spec fn visit(
        &self,
        g: Gate,
        vid: usize,
        route: Seq<usize>,
        pos: i64,
        clear: bool,
    ) -> (Gate, bool) {
        if vid < g.vehs.len() && g.vehs[vid as int] is Some && self.concerns(
            g.vehs[vid as int]->0,
            route,
        ) {
            let veh = g.vehs[vid as int]->0;
            match Self::verdict(g.committed, veh, pos, clear) {
                Verdict::Pass => (g, false),
                Verdict::Halt => (
                    Gate {
                        vehs: g.vehs.update(
                            vid as int,
                            Some(veh.with_acc(lesser(veh.acc, veh.follow_acc(pos, 0)))),
                        ),
                        ..g
                    },
                    true,
                ),
                Verdict::Commit => (
                    Gate { committed: g.committed.push(veh.id), clear_before: 0, ..g },
                    false,
                ),
            }
        } else {
            (g, false)
        }
    }

    /// Deals with the vehicles of the first `k` obstacles of a link, the one
    /// furthest along first, until one of them has to stop.
    pub open spec fn scan(
        &self,
        obstacles: Seq<Obstacle>,
        k: int,
        g: Gate,
        route: Seq<usize>,
        pos: i64,
        clear: bool,
    ) -> (Gate, bool)
        decreases k,
    {
        if k <= 0 {
            (g, false)
        } else {
            let (g1, halted) = self.visit(g, obstacles[k - 1].veh, route, pos, clear);
            if halted {
                (g1, true)
            } else {
                self.scan(obstacles, k - 1, g1, route, pos, clear)
            }
        }
    }

    /// Deals with the vehicles on link `id`, from which `route` leads to the
    /// stop line's link, and then with those on the links that lead into it,
    /// up to `depth` links further upstream. A vehicle that has to stop holds
    /// up all that would come after it on its link and upstream of it.
    pub open spec fn reach(
        &self,
        links: Seq<Option<Link>>,
        id: usize,
        route: Seq<usize>,
        pos: i64,
        depth: nat,
        clear: bool,
        g: Gate,
    ) -> Gate
        decreases depth, 1nat, 0nat,
    {
        if id < links.len() && links[id as int] is Some {
            let link = links[id as int]->0;
            let (g1, halted) = self.scan(
                link.obstacles@,
                link.obstacles@.len() as int,
                g,
                route,
                pos,
                clear,
            );
            if halted || depth == 0 {
                g1
            } else {
                self.reach_upstream(links, id, link.links_in@.len(), route, pos, depth, clear, g1)
            }
        } else {
            g
        }
    }

    /// Deals with the vehicles upstream of link `id` through the first `n` of
    /// its inbound connections.
    pub open spec fn reach_upstream(
        &self,
        links: Seq<Option<Link>>,
        id: usize,
        n: nat,
        route: Seq<usize>,
        pos: i64,
        depth: nat,
        clear: bool,
        g: Gate,
    ) -> Gate
        decreases depth, 0nat, n,
    {
        if n == 0 || depth == 0 || !(id < links.len() && links[id as int] is Some) {
            g
        } else {
            let g1 = self.reach_upstream(links, id, (n - 1) as nat, route, pos, depth, clear, g);
            let from = links[id as int]->0.links_in@[n - 1].link_in;
            if from < links.len() && links[from as int] is Some {
                self.reach(
                    links,
                    from,
                    route_through(id, route),
                    plus(pos, links[from as int]->0.length),
                    (depth - 1) as nat,
                    clear,
                    g1,
                )
            } else {
                g1
            }
        }
    }

    /// No vehicle is committed twice.
    pub open spec fn wf(&self) -> bool {
        self.committed_vehs@.no_duplicates()
    }

    /// Everything but the committed vehicles and the statistics of the tick
    /// is the same in both stop lines.
    pub open spec fn same_line(&self, other: &StopLine) -> bool {
        &&& self.id == other.id
        &&& self.link == other.link
        &&& self.lane == other.lane
        &&& self.pos == other.pos
        &&& self.len == other.len
        &&& self.kind == other.kind
        &&& self.sight_pos == other.sight_pos
        &&& self.conflicts == other.conflicts
    }

    /// Whether the way past the stop line is clear: the light lets traffic
    /// through and every conflict leaves the way free.
    pub open spec fn spec_is_clear(&self, stoplines: Seq<Option<StopLine>>) -> bool {
        &&& light_open(self.kind)
        &&& forall|i: int|
            0 <= i < self.conflicts@.len() ==> conflict_clear(
                #[trigger] self.conflicts@[i],
                self.id,
                stoplines,
            )
    }

    /// What the stop line does with the vehicle `veh`, for which the line
    /// lies at `pos`: a committed vehicle passes; one that is further than
    /// `COMMIT_DIST` from the line, or finds the way not clear, has to stop
    /// at the line; any other is let through.
    pub open spec fn verdict(
        committed: Seq<usize>,
        veh: Vehicle,
        pos: i64,
        clear: bool,
    ) -> Verdict {
        if committed.contains(veh.id) {
            Verdict::Pass
        } else if veh.pos < minus(pos, COMMIT_DIST) || !clear {
            Verdict::Halt
        } else {
            Verdict::Commit
        }
    }

    /// A stop line of no kind at the start of link 0, with no conflicts and no
    /// committed vehicles.
    pub fn default() -> (s: Self)
        ensures
            s.id == 0,
            s.link == 0,
            s.lane == 0,
            s.pos == 0,
            s.len == 0,
            s.kind == StopLineType::Unmarked,
            s.sight_pos == 0,
            s.conflicts@.len() == 0,
            s.committed_vehs@.len() == 0,
            s.time_until_enter == 0,
            s.min_arrival == 0,
            s.clear_before == 0,
            s.wf(),
    {
        Self {
            id: 0,
            link: 0,
            lane: 0,
            pos: 0,
            len: 0,
            kind: StopLineType::Unmarked,
            sight_pos: 0,
            conflicts: Vec::new(),
            committed_vehs: Vec::new(),
            time_until_enter: 0,
            min_arrival: 0,
            clear_before: 0,
        }
    }

    /// Whether the way past the stop line is clear.
    pub fn is_clear(&self, stoplines: &IdMap<StopLine>) -> (clear: bool)
        ensures
            clear == self.spec_is_clear(stoplines@),
    {
        match self.kind {
            StopLineType::TrafficLight { state } => {
                match state {
                    TrafficLightState::Green => {},
                    _ => {
                        return false;
                    },
                }
            },
            _ => {},
        }
        let mut i: usize = 0;
        while i < self.conflicts.len()
            invariant
                0 <= i <= self.conflicts@.len(),
                light_open(self.kind),
                forall|k: int|
                    0 <= k < i
                        ==> conflict_clear(#[trigger] self.conflicts@[k], self.id, stoplines@),
            decreases self.conflicts@.len() - i,
        {
            let c = self.conflicts[i];
            if c.stopline == self.id {
                if 0 < c.max_pos {
                    return false;
                }
            } else {
                match stoplines.get(c.stopline) {
                    Some(other) => {
                        if other.clear_before < c.max_pos {
                            return false;
                        }
                    },
                    None => {},
                }
            }
            i += 1;
        }
        true
    }

    /// Whether vehicle `id` is among the committed vehicles.
    fn is_committed(&self, id: usize) -> (b: bool)
        ensures
            b == self.committed_vehs@.contains(id),
    {
        let mut i: usize = 0;
        while i < self.committed_vehs.len()
            invariant
                0 <= i <= self.committed_vehs@.len(),
                forall|k: int| 0 <= k < i ==> self.committed_vehs@[k] != id,
            decreases self.committed_vehs@.len() - i,
        {
            if self.committed_vehs[i] == id {
                return true;
            }
            i += 1;
        }
        false
    }

    /// Deals with one vehicle that comes up to the stop line, which for that
    /// vehicle lies at `pos`, and says whether the vehicle has to stop: the
    /// vehicles behind it are then held up by it and need no look.
    pub fn apply_to_veh(&mut self, veh: &mut Vehicle, pos: i64, clear: bool) -> (halted: bool)
        ensures
            final(self).same_line(old(self)),
            old(self).wf() ==> final(self).wf(),
            final(self).time_until_enter == old(self).time_until_enter,
            final(self).min_arrival == old(self).min_arrival,
            match Self::verdict(old(self).committed_vehs@, *old(veh), pos, clear) {
                Verdict::Pass => !halted && *final(veh) == *old(veh) && final(self).committed_vehs@
                    == old(self).committed_vehs@ && final(self).clear_before
                        == old(self).clear_before,
                Verdict::Halt => halted && *final(veh) == old(veh).with_acc(
                    lesser(old(veh).acc, old(veh).follow_acc(pos, 0)),
                ) && final(self).committed_vehs@ == old(self).committed_vehs@
                    && final(self).clear_before == old(self).clear_before,
                Verdict::Commit => !halted && *final(veh) == *old(veh)
                    && final(self).committed_vehs@ == old(self).committed_vehs@.push(old(veh).id)
                        && final(self).clear_before == 0,
            },
    {
        // a committed vehicle goes on
        if self.is_committed(veh.id) {
            return false;
        }
        // a vehicle that is still far from the line makes for a stop at it

        if veh.pos < minus(pos, COMMIT_DIST) {
            veh.stop(pos);
            return true;
        }
        // so does one that finds the way not clear

        if !clear {
            veh.stop(pos);
            return true;
        }
        // any other is let through

        self.committed_vehs.push(veh.id);
        self.clear_before = 0;
        proof {
            if old(self).wf() {
                let before = old(self).committed_vehs@;
                let after = self.committed_vehs@;
                assert forall|a: int, b: int|
                    0 <= a < after.len() && 0 <= b < after.len() && a != b implies after[a]
                    != after[b] by {
                    if a < before.len() {
                        assert(before.contains(before[a]));
                    }
                    if b < before.len() {
                        assert(before.contains(before[b]));
                    }
                }
            }
        }
        false
    }

    /// Looks through the committed vehicles at the start of a tick: drops
    /// those that are gone or no longer have the stop line's link on their
    /// route, and works out how far the others have cleared the link.
    pub fn review_commitments(&mut self, vehs: &IdMap<Vehicle>)
        ensures
            final(self).same_line(old(self)),
            old(self).wf() ==> final(self).wf(),
            final(self).time_until_enter == INFINITY,
            final(self).min_arrival == usize::MAX,
            final(self).committed_vehs@ == kept(
                old(self).committed_vehs@,
                vehs@,
                old(self).link,
                old(self).committed_vehs@.len() as int,
            ),
            final(self).clear_before == cleared_to(
                old(self).committed_vehs@,
                vehs@,
                old(self).link,
                old(self).committed_vehs@.len() as int,
            ),
    {
        // the statistics start afresh, and vehicles that have cleared are dropped
        self.time_until_enter = INFINITY;
        self.min_arrival = usize::MAX;
        self.clear_before = INFINITY;
        let mut staying: Vec<usize> = Vec::new();
        let mut n: usize = 0;
        while n < self.committed_vehs.len()
            invariant
                0 <= n <= self.committed_vehs@.len(),
                self.same_line(old(self)),
                old(self).wf() ==> self.wf(),
                self.committed_vehs == old(self).committed_vehs,
                self.time_until_enter == INFINITY,
                self.min_arrival == usize::MAX,
                staying@ == kept(self.committed_vehs@, vehs@, self.link, n as int),
                self.clear_before == cleared_to(self.committed_vehs@, vehs@, self.link, n as int),
            decreases self.committed_vehs@.len() - n,
        {
            let vid = self.committed_vehs[n];
            match vehs.get(vid) {
                Some(veh) => {
                    if veh.link == self.link {
                        let pos = minus(veh.pos, times(HALF, veh.len));
                        if pos < self.clear_before {
                            self.clear_before = pos;
                        }
                        staying.push(vid);
                    } else if has_link(&veh.link_route, self.link) {
                        self.clear_before = 0;
                        staying.push(vid);
                    }
                },
                None => {},
            }
            n += 1;
        }
        proof {
            if old(self).wf() {
                lemma_kept_no_duplicates(
                    old(self).committed_vehs@,
                    vehs@,
                    self.link,
                    old(self).committed_vehs@.len() as int,
                );
            }
        }
        self.committed_vehs = staying;
    }

    /// Deals with the vehicles on `link`, the one furthest along first, and
    /// says whether one of them had to stop.
    fn scan_link(
        &mut self,
        link: &Link,
        route: &Vec<usize>,
        pos: i64,
        vehs: &mut IdMap<Vehicle>,
        clear: bool,
    ) -> (halted: bool)
        ensures
            final(self).same_line(old(self)),
            old(self).wf() ==> final(self).wf(),
            final(self).time_until_enter == old(self).time_until_enter,
            final(self).min_arrival == old(self).min_arrival,
            final(vehs).free() == old(vehs).free(),
            old(vehs).wf() ==> final(vehs).wf(),
            (final(self).gate(final(vehs)@), halted) == old(self).scan(
                link.obstacles@,
                link.obstacles@.len() as int,
                old(self).gate(old(vehs)@),
                route@,
                pos,
                clear,
            ),
    {
        let mut k: usize = link.obstacles.len();
        while k > 0
            invariant
                0 <= k <= link.obstacles@.len(),
                self.same_line(old(self)),
                old(self).wf() ==> self.wf(),
                self.time_until_enter == old(self).time_until_enter,
                self.min_arrival == old(self).min_arrival,
                vehs.free() == old(vehs).free(),
                old(vehs).wf() ==> vehs.wf(),
                old(self).scan(link.obstacles@, k as int, self.gate(vehs@), route@, pos, clear)
                    == old(self).scan(
                    link.obstacles@,
                    link.obstacles@.len() as int,
                    old(self).gate(old(vehs)@),
                    route@,
                    pos,
                    clear,
                ),
            decreases k,
        {
            let vid = link.obstacles[k - 1].veh;
            let ghost g = self.gate(vehs@);
            proof {
                assert(forall|v: Vehicle| self.concerns(v, route@)
                    == old(self).concerns(v, route@));
            }
            match vehs.get_mut(vid) {
                Some(veh) => {
                    let concerned = if route.len() == 0 {
                        veh.lane == self.lane && veh.pos <= self.pos
                    } else {
                        route.len() < veh.lane_route.len() && veh.lane_route[route.len()]
                            == self.lane && follows_route(&veh.link_route, route)
                    };
                    if concerned {
                        if self.apply_to_veh(veh, pos, clear) {
                            proof {
                                let want = old(self).visit(g, vid, route@, pos, clear);
                                assert(vehs@ =~= want.0.vehs);
                                assert(want == (self.gate(vehs@), true));
                            }
                            return true;
                        }
                    }
                },
                None => {},
            }
            proof {
                let want = old(self).visit(g, vid, route@, pos, clear);
                assert(vehs@ =~= want.0.vehs);
                assert(want == (self.gate(vehs@), false));
            }
            k -= 1;
        }
        false
    }

    /// Deals with the vehicles on link `id` and upstream of it.
    pub fn apply_to_link(
        &mut self,
        id: usize,
        route: &Vec<usize>,
        pos: i64,
        vehs: &mut IdMap<Vehicle>,
        links: &IdMap<Link>,
        clear: bool,
        depth: usize,
    )
        ensures
            final(self).same_line(old(self)),
            old(self).wf() ==> final(self).wf(),
            final(self).time_until_enter == old(self).time_until_enter,
            final(self).min_arrival == old(self).min_arrival,
            final(vehs).free() == old(vehs).free(),
            old(vehs).wf() ==> final(vehs).wf(),
            final(self).gate(final(vehs)@) == old(self).reach(
                links@,
                id,
                route@,
                pos,
                depth as nat,
                clear,
                old(self).gate(old(vehs)@),
            ),
        decreases depth,
    {
        let link = match links.get(id) {
            Some(link) => link,
            None => {
                return ;
            },
        };
        if self.scan_link(link, route, pos, vehs, clear) {
            return ;
        }
        if depth == 0 {
            return ;
        }
        let mut new_route: Vec<usize> = Vec::new();
        new_route.push(id);
        let mut r: usize = 0;
        while r < route.len()
            invariant
                0 <= r <= route@.len(),
                new_route@ == seq![id] + route@.take(r as int),
            decreases route@.len() - r,
        {
            new_route.push(route[r]);
            r += 1;
            proof {
                assert(new_route@ =~= seq![id] + route@.take(r as int));
            }
        }
        proof {
            assert(route@.take(r as int) =~= route@);
        }
        let ghost g1 = self.gate(vehs@);
        let mut n: usize = 0;
        while n < link.links_in.len()
            invariant
                0 <= n <= link.links_in@.len(),
                depth > 0,
                links.spec_has_key(id),
                *link == links.spec_at(id),
                new_route@ == route_through(id, route@),
                self.same_line(old(self)),
                old(self).wf() ==> self.wf(),
                self.time_until_enter == old(self).time_until_enter,
                self.min_arrival == old(self).min_arrival,
                vehs.free() == old(vehs).free(),
                old(vehs).wf() ==> vehs.wf(),
                self.gate(vehs@) == old(self).reach_upstream(
                    links@,
                    id,
                    n as nat,
                    route@,
                    pos,
                    depth as nat,
                    clear,
                    g1,
                ),
            decreases link.links_in@.len() - n,
        {
            let from = link.links_in[n].link_in;
            match links.get(from) {
                Some(prev) => {
                    proof {
                        lemma_reach_same_line(
                            *self,
                            *old(self),
                            links@,
                            from,
                            new_route@,
                            plus(pos, prev.length),
                            (depth - 1) as usize,
                            clear,
                            self.gate(vehs@),
                        );
                    }
                    self.apply_to_link(
                        from,
                        &new_route,
                        plus(pos, prev.length),
                        vehs,
                        links,
                        clear,
                        depth - 1,
                    );
                },
                None => {},
            }
            n += 1;
        }
    }

    /// The state after one tick of the stop line, from the state `g` before
    /// it, `clear` saying whether the way past the line is clear: the
    /// committed vehicles are looked through, and then the vehicles that come
    /// up to the line are dealt with, on its own link and up to
    /// `UPSTREAM_HOPS` links upstream.
    pub open spec fn stepped(
        &self,
        links: Seq<Option<Link>>,
        clear: bool,
        vehs: Seq<Option<Vehicle>>,
    ) -> Gate {
        self.reach(
            links,
            self.link,
            Seq::empty(),
            self.pos,
            UPSTREAM_HOPS as nat,
            clear,
            Gate {
                committed: kept(
                    self.committed_vehs@,
                    vehs,
                    self.link,
                    self.committed_vehs@.len() as int,
                ),
                clear_before: cleared_to(
                    self.committed_vehs@,
                    vehs,
                    self.link,
                    self.committed_vehs@.len() as int,
                ),
                vehs,
            },
        )
    }

    /// One tick of the stop line: looks through the committed vehicles, then
    /// deals with the vehicles that come up to the line, on its own link and
    /// up to `UPSTREAM_HOPS` links upstream. `clear` says whether the way
    /// past the line is clear.
    pub fn step(&mut self, vehs: &mut IdMap<Vehicle>, links: &IdMap<Link>, clear: bool)
        ensures
            final(self).same_line(old(self)),
            old(self).wf() ==> final(self).wf(),
            final(self).time_until_enter == INFINITY,
            final(self).min_arrival == usize::MAX,
            final(vehs).free() == old(vehs).free(),
            old(vehs).wf() ==> final(vehs).wf(),
            final(self).gate(final(vehs)@) == old(self).stepped(links@, clear, old(vehs)@),
    {
        self.review_commitments(vehs);
        let ghost mid = *self;
        let route: Vec<usize> = Vec::new();
        proof {
            assert(route@ =~= Seq::<usize>::empty());
            lemma_reach_same_line(
                mid,
                *old(self),
                links@,
                self.link,
                route@,
                self.pos,
                UPSTREAM_HOPS,
                clear,
                mid.gate(vehs@),
            );
        }
        self.apply_to_link(self.link, &route, self.pos, vehs, links, clear, UPSTREAM_HOPS);
    }
}

/// Whether `id` is among `links`.
fn has_link(links: &Vec<usize>, id: usize) -> (b: bool)
    ensures
        b == links@.contains(id),
{
    let mut i: usize = 0;
    while i < links.len()
        invariant
            0 <= i <= links@.len(),
            forall|k: int| 0 <= k < i ==> links@[k] != id,
        decreases links@.len() - i,
    {
        if links[i] == id {
            return true;
        }
        i += 1;
    }
    false
}

/// Whether the route `links` goes on, after its first link, along `route`.
fn follows_route(links: &Vec<usize>, route: &Vec<usize>) -> (b: bool)
    ensures
        b == (links@.len() >= route@.len() + 1 && links@.subrange(1, route@.len() as int + 1)
            == route@),
{
    if links.len() <= route.len() {
        return false;
    }
    let mut i: usize = 0;
    while i < route.len()
        invariant
            0 <= i <= route@.len(),
            links@.len() > route@.len(),
            forall|k: int| 0 <= k < i ==> links@[k + 1] == route@[k],
        decreases route@.len() - i,
    {
        if links[i + 1] != route[i] {
            proof {
                assert(links@.subrange(1, route@.len() as int + 1)[i as int] == links@[i + 1]);
            }
            return false;
        }
        i += 1;
    }
    proof {
        assert(links@.subrange(1, route@.len() as int + 1) =~= route@);
    }
    true
}

/// What a stop line reaches depends on its place, its lane and its kind,
/// not on its committed vehicles or statistics, which the state carries.
pub proof fn lemma_reach_same_line(
    a: StopLine,
    b: StopLine,
    links: Seq<Option<Link>>,
    id: usize,
    route: Seq<usize>,
    pos: i64,
    depth: usize,
    clear: bool,
    g: Gate,
)
    requires
        a.same_line(&b),
    ensures
        a.reach(links, id, route, pos, depth as nat, clear, g) == b.reach(
            links,
            id,
            route,
            pos,
            depth as nat,
            clear,
            g,
        ),
{
    lemma_reach_alike(a, b, links, id, route, pos, depth as nat, clear, g);
}

proof fn lemma_scan_alike(
    a: StopLine,
    b: StopLine,
    obstacles: Seq<Obstacle>,
    k: int,
    g: Gate,
    route: Seq<usize>,
    pos: i64,
    clear: bool,
)
    requires
        a.same_line(&b),
    ensures
        a.scan(obstacles, k, g, route, pos, clear) == b.scan(obstacles, k, g, route, pos, clear),
    decreases k,
{
    if k > 0 {
        let (g1, halted) = a.visit(g, obstacles[k - 1].veh, route, pos, clear);
        assert(b.visit(g, obstacles[k - 1].veh, route, pos, clear) == (g1, halted));
        if !halted {
            lemma_scan_alike(a, b, obstacles, k - 1, g1, route, pos, clear);
        }
    }
}

proof fn lemma_reach_alike(
    a: StopLine,
    b: StopLine,
    links: Seq<Option<Link>>,
    id: usize,
    route: Seq<usize>,
    pos: i64,
    depth: nat,
    clear: bool,
    g: Gate,
)
    requires
        a.same_line(&b),
    ensures
        a.reach(links, id, route, pos, depth, clear, g) == b.reach(
            links,
            id,
            route,
            pos,
            depth,
            clear,
            g,
        ),
    decreases depth, 1nat, 0nat,
{
    if id < links.len() && links[id as int] is Some {
        let link = links[id as int]->0;
        lemma_scan_alike(a, b, link.obstacles@, link.obstacles@.len() as int, g, route, pos, clear);
        let (g1, halted) = a.scan(
            link.obstacles@,
            link.obstacles@.len() as int,
            g,
            route,
            pos,
            clear,
        );
        if !(halted || depth == 0) {
            lemma_upstream_alike(a, b, links, id, link.links_in@.len(), route, pos, depth, clear,
                g1);
        }
    }
}

proof fn lemma_upstream_alike(
    a: StopLine,
    b: StopLine,
    links: Seq<Option<Link>>,
    id: usize,
    n: nat,
    route: Seq<usize>,
    pos: i64,
    depth: nat,
    clear: bool,
    g: Gate,
)
    requires
        a.same_line(&b),
    ensures
        a.reach_upstream(links, id, n, route, pos, depth, clear, g) == b.reach_upstream(
            links,
            id,
            n,
            route,
            pos,
            depth,
            clear,
            g,
        ),
    decreases depth, 0nat, n,
{
    if !(n == 0 || depth == 0 || !(id < links.len() && links[id as int] is Some)) {
        lemma_upstream_alike(a, b, links, id, (n - 1) as nat, route, pos, depth, clear, g);
        let g1 = a.reach_upstream(links, id, (n - 1) as nat, route, pos, depth, clear, g);
        let from = links[id as int]->0.links_in@[n - 1].link_in;
        if from < links.len() && links[from as int] is Some {
            lemma_reach_alike(
                a,
                b,
                links,
                from,
                route_through(id, route),
                plus(pos, links[from as int]->0.length),
                (depth - 1) as nat,
                clear,
                g1,
            );
        }
    }
}

/// When a stop line has looked through its committed vehicles, every vehicle
/// that is still committed was committed before, exists, and is on the stop
/// line's link or has that link on its route: a vehicle whose route no longer
/// holds the link is committed no more.
pub proof fn lemma_kept_still_passing(
    committed: Seq<usize>,
    vehs: Seq<Option<Vehicle>>,
    link: usize,
    n: int,
    vid: usize,
)
    requires
        0 <= n <= committed.len(),
    ensures
        kept(committed, vehs, link, n).contains(vid) <==> (exists|k: int|
            0 <= k < n && committed[k] == vid && still_passing(veh_at(vehs, vid), link)),
    decreases n,
{
    if n > 0 {
        lemma_kept_still_passing(committed, vehs, link, n - 1, vid);
        let prev = kept(committed, vehs, link, n - 1);
        let now = kept(committed, vehs, link, n);
        if still_passing(veh_at(vehs, committed[n - 1]), link) {
            assert(now == prev.push(committed[n - 1]));
            if now.contains(vid) {
                let w = now.index_of(vid);
                if w < prev.len() {
                    assert(prev[w] == vid);
                    assert(prev.contains(vid));
                } else {
                    assert(committed[n - 1] == vid);
                }
            }
            if exists|k: int|
                0 <= k < n && committed[k] == vid && still_passing(veh_at(vehs, vid), link) {
                let k = choose|k: int|
                    0 <= k < n && committed[k] == vid && still_passing(veh_at(vehs, vid), link);
                if k < n - 1 {
                    assert(prev.contains(vid));
                    let w = prev.index_of(vid);
                    assert(now[w] == vid);
                } else {
                    assert(now[prev.len() as int] == vid);
                }
            }
        } else {
            assert(now == prev);
            if exists|k: int|
                0 <= k < n && committed[k] == vid && still_passing(veh_at(vehs, vid), link) {
                let k = choose|k: int|
                    0 <= k < n && committed[k] == vid && still_passing(veh_at(vehs, vid), link);
                assert(k < n - 1);
            }
        }
    }
}

/// Of committed vehicles of which none is committed twice, those that are
/// kept are not kept twice.
pub proof fn lemma_kept_no_duplicates(
    committed: Seq<usize>,
    vehs: Seq<Option<Vehicle>>,
    link: usize,
    n: int,
)
    requires
        0 <= n <= committed.len(),
        committed.no_duplicates(),
    ensures
        kept(committed, vehs, link, n).no_duplicates(),
    decreases n,
{
    if n > 0 {
        lemma_kept_no_duplicates(committed, vehs, link, n - 1);
        let prev = kept(committed, vehs, link, n - 1);
        let now = kept(committed, vehs, link, n);
        let vid = committed[n - 1];
        if still_passing(veh_at(vehs, vid), link) {
            lemma_kept_still_passing(committed, vehs, link, n - 1, vid);
            assert(!prev.contains(vid)) by {
                if prev.contains(vid) {
                    let k = choose|k: int|
                        0 <= k < n - 1 && committed[k] == vid && still_passing(
                            veh_at(vehs, vid),
                            link,
                        );
                    assert(committed[k] == committed[n - 1]);
                }
            }
            assert forall|a: int, b: int|
                0 <= a < now.len() && 0 <= b < now.len() && a != b implies now[a] != now[b] by {
                if a < prev.len() {
                    assert(prev.contains(prev[a]));
                }
                if b < prev.len() {
                    assert(prev.contains(prev[b]));
                }
            }
        }
    }
}

/// A conflict with another stop line whose last committed vehicle has not
/// come as far as the conflict's `max_pos` leaves the way not clear, and a
/// vehicle that is not committed yet then has to stop at the line.
pub proof fn lemma_conflict_blocks(
    line: StopLine,
    stoplines: Seq<Option<StopLine>>,
    i: int,
    veh: Vehicle,
    pos: i64,
)
    requires
        0 <= i < line.conflicts@.len(),
        line.conflicts@[i].stopline != line.id,
        line.conflicts@[i].stopline < stoplines.len(),
        stoplines[line.conflicts@[i].stopline as int] is Some,
        stoplines[line.conflicts@[i].stopline as int]->0.clear_before < line.conflicts@[i].max_pos,
        !line.committed_vehs@.contains(veh.id),
    ensures
        !line.spec_is_clear(stoplines),
        StopLine::verdict(line.committed_vehs@, veh, pos, line.spec_is_clear(stoplines))
            == Verdict::Halt,
{
    assert(!conflict_clear(line.conflicts@[i], line.id, stoplines));
}

/// Where the light lets traffic through and every conflicting stop line's
/// last committed vehicle has come as far as its conflict's `max_pos`, the
/// way is clear, and a vehicle within `COMMIT_DIST` of the line is let
/// through.
pub proof fn lemma_clear_commits(
    line: StopLine,
    stoplines: Seq<Option<StopLine>>,
    veh: Vehicle,
    pos: i64,
)
    requires
        light_open(line.kind),
        forall|i: int|
            0 <= i < line.conflicts@.len() ==> conflict_clear(
                #[trigger] line.conflicts@[i],
                line.id,
                stoplines,
            ),
        !line.committed_vehs@.contains(veh.id),
        veh.pos >= minus(pos, COMMIT_DIST),
    ensures
        line.spec_is_clear(stoplines),
        StopLine::verdict(line.committed_vehs@, veh, pos, line.spec_is_clear(stoplines))
            == Verdict::Commit,
{
}

} // verus!
