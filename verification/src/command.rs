//! The commands by which the outside world builds and runs a simulation.
//!
//! A command is a line of text: a word that names it, and its arguments,
//! with single spaces between them. Quantities are written as decimal
//! numbers.
use crate::simulation::link::Lane;
use crate::simulation::stopline::{bytes_are, Priority, StopLineType};
use crate::simulation::{SimError, Simulation, StopLineBuilder, VehicleState, MAX_LANES};
use crate::util::piecewise::{segments, smooth_steps};
use crate::util::{CubicFunc, LinearFunc};
use crate::wire::{
    decimal, find_byte, first_index, lane_pair_list, lemma_first_index_bounds, parse_lane_pairs,
    part,
    read_decimal, read_small, read_whole, small_number, whole_number,
};
use vstd::prelude::*;
use vstd::string::StringSliceAdditionalSpecFns;

verus! {

/// What the outside world can ask of a simulation.
pub enum Command {
    /// Begin anew, with ticks of `delta` seconds; a tick must take time.
    Start { delta: i64 },
    /// Add a link with its lanes, each from its lateral position at the
    /// link's start to that at its end.
    Link { id: usize, length: i64, lanes: Vec<(i64, i64)>, speed_limit: i64 },
    /// Let traffic pass from one link to another.
    Conn { src: usize, dst: usize, pairs: Vec<(u8, u8)>, offset: i64 },
    /// Add a vehicle, known to the outside world as `id`, and send it on its
    /// way.
    Veh { id: usize, src_link: usize, dst_link: usize, lane: u8, pos: i64 },
    /// Add a stop line.
    Stop { id: usize, link: usize, lane: u8, pos: i64, length: i64, kind: StopLineType },
    /// Tell one stop line that the stream of another crosses its own.
    Conflict { stop1: usize, stop2: usize, priority: Priority, min_pos: i64, max_pos: i64 },
    /// Make `num_steps` ticks.
    Step { num_steps: usize },
}

/// What a tick leaves to be told: its number, and the state of each vehicle.
pub struct Frame {
    pub step: usize,
    pub vehicles: Vec<VehicleState>,
}

/// The largest id that a command can name.
pub const MAX_ID: u64 = 0xffff_ffff;

/// The fields of `s` from index `from` on: what stands between single
/// spaces.
pub open spec fn fields(s: Seq<u8>, from: int) -> Seq<Seq<u8>>
    decreases s.len() - from,
{
    if from < 0 || from > s.len() {
        Seq::empty()
    } else {
        let i = first_index(s, 32, from);
        if i >= s.len() || i < from {
            seq![s.subrange(from, s.len() as int)]
        } else {
            seq![s.subrange(from, i)] + fields(s, i + 1)
        }
    }
}

/// The id that `s` writes.
pub open spec fn id_field(s: Seq<u8>) -> Option<usize> {
    match whole_number(s, MAX_ID as int) {
        Some(v) => Some(v as usize),
        None => None,
    }
}

/// The priority that `s` writes as a whole number from -128 to 127: lower
/// for a negative number, higher for a positive one.
pub open spec fn priority_field(s: Seq<u8>) -> Option<Priority> {
    if s.len() > 0 && s[0] == 45 {
        match whole_number(s.subrange(1, s.len() as int), 128) {
            Some(v) => Some(
                if v == 0 {
                    Priority::Equal
                } else {
                    Priority::Lower
                },
            ),
            None => None,
        }
    } else {
        match whole_number(s, 127) {
            Some(v) => Some(
                if v == 0 {
                    Priority::Equal
                } else {
                    Priority::Higher
                },
            ),
            None => None,
        }
    }
}

/// The lateral positions of a lane that `s` writes: two decimal numbers with
/// a comma between them. What follows a second comma is not read.
pub open spec fn lat_pair(s: Seq<u8>) -> Option<(i64, i64)> {
    let i = first_index(s, 44, 0);
    if i >= s.len() {
        None
    } else {
        let j = first_index(s, 44, i + 1);
        match (decimal(s.subrange(0, i)), decimal(s.subrange(i + 1, j))) {
            (Some(a), Some(b)) => Some((a, b)),
            _ => None,
        }
    }
}

/// The lanes that `s` writes from index `from` on: one or more pairs of
/// lateral positions with semicolons between them.
pub open spec fn lat_pair_list(s: Seq<u8>, from: int) -> Option<Seq<(i64, i64)>>
    decreases s.len() - from,
{
    if from < 0 || from > s.len() {
        None
    } else {
        let i = first_index(s, 59, from);
        match lat_pair(s.subrange(from, i)) {
            None => None,
            Some(p) => if i >= s.len() {
                Some(seq![p])
            } else if i < from {
                None
            } else {
                match lat_pair_list(s, i + 1) {
                    Some(rest) => Some(seq![p] + rest),
                    None => None,
                }
            },
        }
    }
}

pub open spec fn word_start() -> Seq<u8> {
    seq![115u8, 116u8, 97u8, 114u8, 116u8]
}

pub open spec fn word_link() -> Seq<u8> {
    seq![108u8, 105u8, 110u8, 107u8]
}

pub open spec fn word_conn() -> Seq<u8> {
    seq![99u8, 111u8, 110u8, 110u8]
}

pub open spec fn word_veh() -> Seq<u8> {
    seq![118u8, 101u8, 104u8]
}

pub open spec fn word_stop() -> Seq<u8> {
    seq![115u8, 116u8, 111u8, 112u8]
}

pub open spec fn word_conflict() -> Seq<u8> {
    seq![99u8, 111u8, 110u8, 102u8, 108u8, 105u8, 99u8, 116u8]
}

pub open spec fn word_step() -> Seq<u8> {
    seq![115u8, 116u8, 101u8, 112u8]
}

/// Whether the fields `f` write the command `c`: the first field is the
/// command's word, and the others write its arguments, in their order and
/// with none left over.
pub open spec fn decodes(f: Seq<Seq<u8>>, c: Command) -> bool {
    match c {
        Command::Start { delta } => f.len() == 2 && f[0] == word_start() && decimal(f[1]) == Some(
            delta,
        ),
        Command::Link { id, length, lanes, speed_limit } => f.len() == 5 && f[0] == word_link()
            && id_field(f[1]) == Some(id) && decimal(f[2]) == Some(length) && lat_pair_list(f[3], 0)
            == Some(lanes@) && decimal(f[4]) == Some(speed_limit),
        Command::Conn { src, dst, pairs, offset } => f.len() == 5 && f[0] == word_conn()
            && id_field(f[1]) == Some(src) && id_field(f[2]) == Some(dst) && lane_pair_list(f[3], 0)
            == Some(pairs@) && decimal(f[4]) == Some(offset),
        Command::Veh { id, src_link, dst_link, lane, pos } => f.len() == 6 && f[0] == word_veh()
            && id_field(f[1]) == Some(id) && id_field(f[2]) == Some(src_link) && id_field(f[3])
            == Some(dst_link) && small_number(f[4]) == Some(lane) && decimal(f[5]) == Some(pos),
        Command::Stop { id, link, lane, pos, length, kind } => f.len() == 7 && f[0] == word_stop()
            && id_field(f[1]) == Some(id) && id_field(f[2]) == Some(link) && small_number(f[3])
            == Some(lane) && decimal(f[4]) == Some(pos) && decimal(f[5]) == Some(length)
            && StopLineType::named(f[6]) == Some(kind),
        Command::Conflict { stop1, stop2, priority, min_pos, max_pos } => f.len() == 6 && f[0]
            == word_conflict() && id_field(f[1]) == Some(stop1) && id_field(f[2]) == Some(stop2)
            && priority_field(f[3]) == Some(priority) && decimal(f[4]) == Some(min_pos) && decimal(
            f[5],
        ) == Some(max_pos),
        Command::Step { num_steps } => f.len() == 2 && f[0] == word_step() && id_field(f[1])
            == Some(num_steps),
    }
}

/// Where each field of `s` begins and ends.
fn split_fields(s: &[u8]) -> (r: Vec<(usize, usize)>)
    ensures
        r@.len() == fields(s@, 0).len(),
        r@.len() >= 1,
        forall|k: int|
            0 <= k < r@.len() ==> (#[trigger] r@[k]).0 <= r@[k].1 <= s@.len() && fields(s@, 0)[k]
                == s@.subrange(r@[k].0 as int, r@[k].1 as int),
{
    let mut r: Vec<(usize, usize)> = Vec::new();
    let mut from: usize = 0;
    let ghost mut done: Seq<Seq<u8>> = Seq::empty();
    loop
        invariant
            0 <= from <= s@.len(),
            fields(s@, 0) == done + fields(s@, from as int),
            r@.len() == done.len(),
            forall|k: int|
                0 <= k < r@.len() ==> (#[trigger] r@[k]).0 <= r@[k].1 <= s@.len() && done[k]
                    == s@.subrange(r@[k].0 as int, r@[k].1 as int),
        decreases s@.len() - from,
    {
        let i = find_byte(s, 32, from);
        r.push((from, i));
        proof {
            let field = s@.subrange(from as int, i as int);
            done = done.push(field);
            if i < s@.len() {
                assert(done.drop_last() + (seq![field] + fields(s@, i + 1)) =~= done + fields(
                    s@,
                    i + 1,
                ));
            } else {
                assert(done.drop_last() + seq![field] =~= done);
                assert(fields(s@, 0) =~= done);
            }
        }
        if i >= s.len() {
            return r;
        }
        from = i + 1;
    }
}

/// Reads the id that the bytes `s` write.
fn read_id(s: &[u8]) -> (r: Option<usize>)
    ensures
        r == id_field(s@),
{
    proof {
        assert(s@.subrange(0, s@.len() as int) =~= s@);
    }
    match read_whole(s, 0, s.len(), MAX_ID) {
        Some(v) => Some(v as usize),
        None => None,
    }
}

/// Reads the quantity that the bytes `s` write.
fn read_quantity(s: &[u8]) -> (r: Option<i64>)
    ensures
        r == decimal(s@),
{
    proof {
        assert(s@.subrange(0, s@.len() as int) =~= s@);
    }
    read_decimal(s, 0, s.len())
}

/// Reads the lane that the bytes `s` write.
fn read_lane(s: &[u8]) -> (r: Option<u8>)
    ensures
        r == small_number(s@),
{
    proof {
        assert(s@.subrange(0, s@.len() as int) =~= s@);
    }
    read_small(s, 0, s.len())
}

/// Reads the priority that the bytes `s` write.
fn read_priority(s: &[u8]) -> (r: Option<Priority>)
    ensures
        r == priority_field(s@),
{
    if s.len() > 0 && s[0] == 45 {
        match read_whole(s, 1, s.len(), 128) {
            Some(v) => Some(
                if v == 0 {
                    Priority::Equal
                } else {
                    Priority::Lower
                },
            ),
            None => None,
        }
    } else {
        proof {
            assert(s@.subrange(0, s@.len() as int) =~= s@);
        }
        match read_whole(s, 0, s.len(), 127) {
            Some(v) => Some(
                if v == 0 {
                    Priority::Equal
                } else {
                    Priority::Higher
                },
            ),
            None => None,
        }
    }
}

/// Reads the lateral positions of a lane that the bytes `s` write.
fn read_lat_pair(s: &[u8]) -> (r: Option<(i64, i64)>)
    ensures
        r == lat_pair(s@),
{
    let i = find_byte(s, 44, 0);
    if i >= s.len() {
        return None;
    }
    let j = find_byte(s, 44, i + 1);
    match (read_decimal(s, 0, i), read_decimal(s, i + 1, j)) {
        (Some(a), Some(b)) => Some((a, b)),
        _ => None,
    }
}

/// Reads the lanes that the bytes `s` write.
fn read_lat_pairs(s: &[u8]) -> (r: Option<Vec<(i64, i64)>>)
    ensures
        match r {
            Some(lanes) => lat_pair_list(s@, 0) == Some(lanes@),
            None => lat_pair_list(s@, 0) is None,
        },
{
    let mut lanes: Vec<(i64, i64)> = Vec::new();
    let mut from: usize = 0;
    loop
        invariant
            0 <= from <= s@.len(),
            match lat_pair_list(s@, from as int) {
                Some(rest) => lat_pair_list(s@, 0) == Some(lanes@ + rest),
                None => lat_pair_list(s@, 0) is None,
            },
        decreases s@.len() - from,
    {
        let i = find_byte(s, 59, from);
        match read_lat_pair(part(s, from, i)) {
            None => {
                return None;
            },
            Some(p) => {
                let ghost before = lanes@;
                lanes.push(p);
                if i >= s.len() {
                    proof {
                        assert(before + seq![p] =~= lanes@);
                    }
                    return Some(lanes);
                }
                proof {
                    match lat_pair_list(s@, i + 1) {
                        Some(rest) => {
                            assert(before + (seq![p] + rest) =~= lanes@ + rest);
                        },
                        None => {},
                    }
                }
                from = i + 1;
            },
        }
    }
}

/// Reads the lane pairings that the bytes `s` write.
fn read_lane_pairs(s: &[u8]) -> (r: Option<Vec<(u8, u8)>>)
    ensures
        match r {
            Some(pairs) => lane_pair_list(s@, 0) == Some(pairs@),
            None => lane_pair_list(s@, 0) is None,
        },
{
    crate::wire::parse_lane_pair_bytes(s)
}

/// No two commands have the same word.
proof fn lemma_words_differ()
    ensures
        word_start() != word_link(),
        word_start() != word_conn(),
        word_start() != word_veh(),
        word_start() != word_stop(),
        word_start() != word_conflict(),
        word_start() != word_step(),
        word_link() != word_conn(),
        word_link() != word_veh(),
        word_link() != word_stop(),
        word_link() != word_conflict(),
        word_link() != word_step(),
        word_conn() != word_veh(),
        word_conn() != word_stop(),
        word_conn() != word_conflict(),
        word_conn() != word_step(),
        word_veh() != word_stop(),
        word_veh() != word_conflict(),
        word_veh() != word_step(),
        word_stop() != word_conflict(),
        word_stop() != word_step(),
        word_conflict() != word_step(),
{
    assert(word_start().len() == 5);
    assert(word_link().len() == 4);
    assert(word_conn().len() == 4);
    assert(word_veh().len() == 3);
    assert(word_stop().len() == 4);
    assert(word_conflict().len() == 8);
    assert(word_step().len() == 4);
    assert(word_link()[0] == 108);
    assert(word_conn()[0] == 99);
    assert(word_stop()[0] == 115);
    assert(word_step()[0] == 115);
    assert(word_stop()[2] == 111);
    assert(word_step()[2] == 101);
}

/// Reads the command that `text` writes.
pub fn parse(text: &str) -> (r: Result<Command, SimError>)
    ensures
        match r {
            Ok(c) => decodes(fields(text.spec_bytes(), 0), c),
            Err(e) => e == SimError::Protocol && forall|c: Command|
                !decodes(fields(text.spec_bytes(), 0), c),
        },
{
    let s = text.as_bytes();
    let f = split_fields(s);
    let n = f.len();
    let ghost fs = fields(s@, 0);
    let word = part(s, f[0].0, f[0].1);
    let start: [u8; 5] = [115, 116, 97, 114, 116];
    let link: [u8; 4] = [108, 105, 110, 107];
    let conn: [u8; 4] = [99, 111, 110, 110];
    let veh: [u8; 3] = [118, 101, 104];
    let stop: [u8; 4] = [115, 116, 111, 112];
    let conflict: [u8; 8] = [99, 111, 110, 102, 108, 105, 99, 116];
    let step: [u8; 4] = [115, 116, 101, 112];
    proof {
        lemma_words_differ();
        assert(start@ =~= word_start());
        assert(link@ =~= word_link());
        assert(conn@ =~= word_conn());
        assert(veh@ =~= word_veh());
        assert(stop@ =~= word_stop());
        assert(conflict@ =~= word_conflict());
        assert(step@ =~= word_step());
    }
    if bytes_are(word, start.as_slice()) {
        if n != 2 {
            return Err(SimError::Protocol);
        }
        match read_quantity(part(s, f[1].0, f[1].1)) {
            Some(delta) => Ok(Command::Start { delta }),
            None => Err(SimError::Protocol),
        }
    } else if bytes_are(word, link.as_slice()) {
        if n != 5 {
            return Err(SimError::Protocol);
        }
        match (
            read_id(part(s, f[1].0, f[1].1)),
            read_quantity(part(s, f[2].0, f[2].1)),
            read_lat_pairs(part(s, f[3].0, f[3].1)),
            read_quantity(part(s, f[4].0, f[4].1)),
        ) {
            (Some(id), Some(length), Some(lanes), Some(speed_limit)) => Ok(
                Command::Link { id, length, lanes, speed_limit },
            ),
            _ => Err(SimError::Protocol),
        }
    } else if bytes_are(word, conn.as_slice()) {
        if n != 5 {
            return Err(SimError::Protocol);
        }
        match (
            read_id(part(s, f[1].0, f[1].1)),
            read_id(part(s, f[2].0, f[2].1)),
            read_lane_pairs(part(s, f[3].0, f[3].1)),
            read_quantity(part(s, f[4].0, f[4].1)),
        ) {
            (Some(src), Some(dst), Some(pairs), Some(offset)) => Ok(
                Command::Conn { src, dst, pairs, offset },
            ),
            _ => Err(SimError::Protocol),
        }
    } else if bytes_are(word, veh.as_slice()) {
        if n != 6 {
            return Err(SimError::Protocol);
        }
        match (
            read_id(part(s, f[1].0, f[1].1)),
            read_id(part(s, f[2].0, f[2].1)),
            read_id(part(s, f[3].0, f[3].1)),
            read_lane(part(s, f[4].0, f[4].1)),
            read_quantity(part(s, f[5].0, f[5].1)),
        ) {
            (Some(id), Some(src_link), Some(dst_link), Some(lane), Some(pos)) => Ok(
                Command::Veh { id, src_link, dst_link, lane, pos },
            ),
            _ => Err(SimError::Protocol),
        }
    } else if bytes_are(word, stop.as_slice()) {
        if n != 7 {
            return Err(SimError::Protocol);
        }
        match (
            read_id(part(s, f[1].0, f[1].1)),
            read_id(part(s, f[2].0, f[2].1)),
            read_lane(part(s, f[3].0, f[3].1)),
            read_quantity(part(s, f[4].0, f[4].1)),
            read_quantity(part(s, f[5].0, f[5].1)),
            StopLineType::from_bytes(part(s, f[6].0, f[6].1)),
        ) {
            (Some(id), Some(link), Some(lane), Some(pos), Some(length), Some(kind)) => Ok(
                Command::Stop { id, link, lane, pos, length, kind },
            ),
            _ => Err(SimError::Protocol),
        }
    } else if bytes_are(word, conflict.as_slice()) {
        if n != 6 {
            return Err(SimError::Protocol);
        }
        match (
            read_id(part(s, f[1].0, f[1].1)),
            read_id(part(s, f[2].0, f[2].1)),
            read_priority(part(s, f[3].0, f[3].1)),
            read_quantity(part(s, f[4].0, f[4].1)),
            read_quantity(part(s, f[5].0, f[5].1)),
        ) {
            (Some(stop1), Some(stop2), Some(priority), Some(min_pos), Some(max_pos)) => Ok(
                Command::Conflict { stop1, stop2, priority, min_pos, max_pos },
            ),
            _ => Err(SimError::Protocol),
        }
    } else if bytes_are(word, step.as_slice()) {
        if n != 2 {
            return Err(SimError::Protocol);
        }
        match read_id(part(s, f[1].0, f[1].1)) {
            Some(num_steps) => Ok(Command::Step { num_steps }),
            None => Err(SimError::Protocol),
        }
    } else {
        Err(SimError::Protocol)
    }
}

/// Whether `lane` is the lane of a link of length `length` whose centre line
/// runs from `y0` at the link's start to `y1` at its end, and along which
/// distance is measured as on the link.
pub open spec fn lane_built(lane: Lane, length: i64, y0: i64, y1: i64) -> bool {
    lane.dist@ == segments(seq![(0i64, 0i64), (length, length)]) && lane.lat@ == smooth_steps(
        seq![(0i64, y0), (length, y1)],
    )
}

/// The builder of the stop line that a `stop` command describes.
pub open spec fn stop_builder(
    b: StopLineBuilder,
    id: usize,
    link: usize,
    lane: u8,
    pos: i64,
    length: i64,
    kind: StopLineType,
) -> bool {
    &&& b.id == id
    &&& b.link == link
    &&& b.lane == lane
    &&& b.pos == pos
    &&& b.len == Some(length)
    &&& b.kind == Some(kind)
    &&& b.sight_dist is None
    &&& b.conflicts@.len() == 0
}

impl Simulation {
    /// Whether this simulation is as `new` makes it.
    pub open spec fn is_new(&self, delta: i64) -> bool {
        &&& self.links().len() == 0
        &&& self.vehicles().len() == 0
        &&& self.free_vehicle_ids().len() == 0
        &&& self.stop_lines().len() == 0
        &&& self.spec_get_step() == 0
        &&& self.delta() == delta
        &&& self.period() == 5
    }

    /// Whether `out` and `r` are what `build_link` leaves of this simulation:
    /// a link with the lanes `lanes`, each given by the lateral position of
    /// its centre line at the link's start and at its end. The link must have
    /// a lane and no more than `MAX_LANES`, its length and speed limit must
    /// be positive, and its id free.
    pub open spec fn link_built(
        &self,
        out: &Simulation,
        id: usize,
        length: i64,
        lanes: Seq<(i64, i64)>,
        speed_limit: i64,
        r: Result<(), SimError>,
    ) -> bool {
        &&& out.same_but(self, true, false, false)
        &&& r is Err <==> (lanes.len() == 0 || lanes.len() > MAX_LANES || length <= 0 || speed_limit
            <= 0 || self.has_link(id) || id == usize::MAX)
        &&& r is Err ==> r == Err::<(), SimError>(SimError::InvalidConfig) && out.links()
            == self.links()
        &&& r is Ok ==> {
            let link = out.link(id);
            &&& out.has_link(id)
            &&& out.links().len() == if id < self.links().len() {
                self.links().len() as int
            } else {
                id + 1
            }
            &&& forall|i: int|
                0 <= i < out.links().len() && i != id ==> out.links()[i] == if i
                    < self.links().len() {
                    self.links()[i]
                } else {
                    None
                }
            &&& link.id == id
            &&& link.length == length
            &&& link.speed_limit == speed_limit
            &&& link.links_in@.len() == 0
            &&& link.links_out@.len() == 0
            &&& link.obstacles@.len() == 0
            &&& link.lanes@.len() == lanes.len()
            &&& forall|k: int|
                0 <= k < lanes.len() ==> lane_built(
                    #[trigger] link.lanes@[k],
                    length,
                    lanes[k].0,
                    lanes[k].1,
                )
        }
    }

    /// Whether `out` and `r` are what `enter_vehicle` leaves of this
    /// simulation: a vehicle is added, put on lane `lane` of link `src_link`
    /// at `pos`, and given the route towards link `dst_link`. Lane and links
    /// must exist, and the position must be one that the link has.
    pub open spec fn vehicle_entered(
        &self,
        out: &Simulation,
        user_id: usize,
        src_link: usize,
        dst_link: usize,
        lane: u8,
        pos: i64,
        r: Result<usize, SimError>,
    ) -> bool {
        &&& r is Ok <==> self.has_lane(src_link, lane) && self.has_link(dst_link) && self.has_pos(
            src_link,
            pos,
        )
        &&& r is Err ==> r == Err::<usize, SimError>(
            if self.has_lane(src_link, lane) && self.has_link(dst_link) {
                SimError::InvalidConfig
            } else {
                SimError::NotFound
            },
        ) && out.same_but(self, false, false, false)
        &&& r is Ok ==> self.entered_as(out, user_id, src_link, dst_link, lane, pos, r->Ok_0)
    }

    /// Whether `out` is this simulation after a vehicle has been added under
    /// `id`, put on the network and given its route.
    pub open spec fn entered_as(
        &self,
        out: &Simulation,
        user_id: usize,
        src_link: usize,
        dst_link: usize,
        lane: u8,
        pos: i64,
        id: usize,
    ) -> bool {
        exists|a: Simulation, b: Simulation|
            #![trigger
                self.vehicle_added(&a, user_id, id),
                b.vehicle_routed(out, id, dst_link, Ok(()))]
            self.vehicle_added(&a, user_id, id) && a.vehicle_placed(
                &b,
                id,
                src_link,
                lane,
                pos,
                Ok(()),
            ) && b.vehicle_routed(out, id, dst_link, Ok(()))
    }

    /// Whether `out` and `frames` are this simulation and its frames after
    /// `n` ticks.
    pub open spec fn ran(&self, out: &Simulation, n: nat, frames: Seq<Frame>) -> bool
        decreases n,
    {
        if n == 0 {
            *out == *self && frames.len() == 0
        } else {
            &&& frames.len() == n
            &&& frames.last().step == out.spec_get_step()
            &&& frames.last().vehicles@ == out.vehicle_states()
            &&& exists|mid: Simulation| #[trigger]
                mid.ticked(out) && self.ran(&mid, (n - 1) as nat, frames.drop_last())
        }
    }

    /// Whether `out` and `r` are what carrying out the command `c` leaves of
    /// this simulation. Only `step` makes frames.
    pub open spec fn executed(
        &self,
        c: Command,
        out: &Simulation,
        r: Result<Vec<Frame>, SimError>,
    ) -> bool {
        match c {
            Command::Start { delta } => if delta > 0 {
                r is Ok && r->Ok_0@.len() == 0 && out.is_new(delta)
            } else {
                r == Err::<Vec<Frame>, SimError>(SimError::InvalidConfig) && *out == *self
            },
            Command::Step { num_steps } => r is Ok && self.ran(out, num_steps as nat, r->Ok_0@),
            _ => match r {
                Ok(frames) => frames@.len() == 0 && self.carried_out(c, out, None),
                Err(e) => self.carried_out(c, out, Some(e)),
            },
        }
    }

    /// Whether `out` is what the command `c`, which is one that builds,
    /// leaves of this simulation, and `e` the reason for which it was turned
    /// down, if it was.
    pub open spec fn carried_out(&self, c: Command, out: &Simulation, e: Option<SimError>) -> bool {
        let r = match e {
            Some(e) => Err::<(), SimError>(e),
            None => Ok::<(), SimError>(()),
        };
        match c {
            Command::Link { id, length, lanes, speed_limit } => self.link_built(
                out,
                id,
                length,
                lanes@,
                speed_limit,
                r,
            ),
            Command::Conn { src, dst, pairs, offset } => self.connected(
                out,
                src,
                dst,
                pairs@,
                offset,
                r,
            ),
            Command::Veh { id, src_link, dst_link, lane, pos } => match e {
                Some(e) => self.vehicle_entered(out, id, src_link, dst_link, lane, pos, Err(e)),
                None => exists|veh: usize| #[trigger]
                    self.vehicle_entered(out, id, src_link, dst_link, lane, pos, Ok(veh)),
            },
            Command::Stop { id, link, lane, pos, length, kind } => exists|b: StopLineBuilder|
                #![trigger stop_builder(b, id, link, lane, pos, length, kind)]
                stop_builder(b, id, link, lane, pos, length, kind) && b.added(self, out, r),
            Command::Conflict { stop1, stop2, priority, min_pos, max_pos } => self.conflict_added(
                out,
                stop1,
                stop2,
                priority,
                max_pos,
                r,
            ),
            _ => true,
        }
    }

    /// Adds a link with its lanes.
    #[verifier::loop_isolation(false)]
    pub fn build_link(
        &mut self,
        id: usize,
        length: i64,
        lanes: &Vec<(i64, i64)>,
        speed_limit: i64,
    ) -> (r: Result<(), SimError>)
        requires
            old(self).wf(),
        ensures
            final(self).wf(),
            old(self).link_built(final(self), id, length, lanes@, speed_limit, r),
    {
        if lanes.len() == 0 || lanes.len() > MAX_LANES || length <= 0 || speed_limit <= 0 || id
            == usize::MAX || self.get_link(id).is_some() {
            return Err(SimError::InvalidConfig);
        }
        let added = self.add_link(id, length, speed_limit);
        let ghost bare = *self;
        let mut k: usize = 0;
        while k < lanes.len()
            invariant
                0 <= k <= lanes@.len() <= MAX_LANES,
                length > 0,
                self.wf(),
                self.same_but(old(self), true, false, false),
                self.has_link(id),
                self.links().len() == bare.links().len(),
                forall|i: int|
                    0 <= i < self.links().len() && i != id ==> self.links()[i] == bare.links()[i],
                self.link(id).id == id,
                self.link(id).length == length,
                self.link(id).speed_limit == speed_limit,
                self.link(id).links_in@.len() == 0,
                self.link(id).links_out@.len() == 0,
                self.link(id).obstacles@.len() == 0,
                self.link(id).lanes@.len() == k,
                forall|j: int|
                    0 <= j < k ==> lane_built(
                        #[trigger] self.link(id).lanes@[j],
                        length,
                        lanes@[j].0,
                        lanes@[j].1,
                    ),
            decreases lanes@.len() - k,
        {
            let (y0, y1) = lanes[k];
            let along: [(i64, i64); 2] = [(0, 0), (length, length)];
            let across: [(i64, i64); 2] = [(0, y0), (length, y1)];
            proof {
                assert(along@ =~= seq![(0i64, 0i64), (length, length)]);
                assert(across@ =~= seq![(0i64, y0), (length, y1)]);
            }
            let dist = LinearFunc::from_points(along.as_slice());
            let lat = CubicFunc::from_points(across.as_slice());
            let ghost before = *self;
            let done = self.add_lane(id, dist, lat);
            proof {
                assert(done is Ok);
                assert forall|j: int| 0 <= j < k + 1 implies lane_built(
                    #[trigger] self.link(id).lanes@[j],
                    length,
                    lanes@[j].0,
                    lanes@[j].1,
                ) by {
                    if j < k {
                        assert(self.link(id).lanes@[j] == before.link(id).lanes@[j]);
                    }
                }
            }
            k += 1;
        }
        proof {
            assert(added is Ok);
            assert(self.same_but(old(self), true, false, false));
            assert(self.has_link(id));
            assert(self.links().len() == if id < old(self).links().len() {
                old(self).links().len() as int
            } else {
                id + 1
            });
            assert forall|i: int| 0 <= i < self.links().len() && i != id implies self.links()[i]
                == if i < old(self).links().len() {
                old(self).links()[i]
            } else {
                None
            } by {
                assert(self.links()[i] == bare.links()[i]);
            }
            assert(self.link(id).lanes@.len() == lanes@.len());
        }
        Ok(())
    }

    /// Adds a vehicle, puts it on the network and sends it on its way;
    /// returns the vehicle's id. A lane or link that the simulation lacks is
    /// not found; a position before the link's start or beyond its end is
    /// turned down.
    pub fn enter_vehicle(
        &mut self,
        user_id: usize,
        src_link: usize,
        dst_link: usize,
        lane: u8,
        pos: i64,
    ) -> (r: Result<usize, SimError>)
        requires
            old(self).wf(),
        ensures
            final(self).wf(),
            old(self).vehicle_entered(final(self), user_id, src_link, dst_link, lane, pos, r),
    {
        let length = match self.get_link(src_link) {
            Some(l) => {
                if lane as usize >= l.lanes.len() {
                    return Err(SimError::NotFound);
                }
                l.length
            },
            None => {
                return Err(SimError::NotFound);
            },
        };
        if self.get_link(dst_link).is_none() {
            return Err(SimError::NotFound);
        }
        if pos < 0 || pos > length {
            return Err(SimError::InvalidConfig);
        }
        let id = self.add_vehicle(user_id);
        let ghost a = *self;
        let placed = self.set_vehicle_pos(id, src_link, lane, pos);
        let ghost b = *self;
        let routed = self.set_vehicle_dest(id, dst_link);
        proof {
            assert(placed is Ok);
            assert(b.vehicle(id).link_route@.len() > 0);
            assert(routed is Ok);
            assert(old(self).vehicle_added(&a, user_id, id) && a.vehicle_placed(
                &b,
                id,
                src_link,
                lane,
                pos,
                Ok(()),
            ) && b.vehicle_routed(&*self, id, dst_link, Ok(())));
            assert(old(self).entered_as(&*self, user_id, src_link, dst_link, lane, pos, id));
        }
        Ok(id)
    }

    /// Makes `num_steps` ticks and returns the frame of each.
    pub fn run(&mut self, num_steps: usize) -> (frames: Vec<Frame>)
        requires
            old(self).wf(),
        ensures
            final(self).wf(),
            old(self).ran(final(self), num_steps as nat, frames@),
    {
        let mut frames: Vec<Frame> = Vec::new();
        let mut n: usize = 0;
        while n < num_steps
            invariant
                0 <= n <= num_steps,
                self.wf(),
                old(self).ran(&*self, n as nat, frames@),
            decreases num_steps - n,
        {
            let ghost mid = *self;
            let ghost before = frames@;
            self.step();
            frames.push(Frame { step: self.get_step(), vehicles: self.get_vehicle_states() });
            n += 1;
            proof {
                assert(frames@.drop_last() =~= before);
                assert(mid.ticked(&*self)
                    && old(self).ran(&mid, (n - 1) as nat, frames@.drop_last()));
            }
        }
        frames
    }

    /// Carries out the command `c`, and returns the frames of the ticks that
    /// it has made. A `start` with a tick that takes no time is turned down.
    pub fn execute(&mut self, c: Command) -> (r: Result<Vec<Frame>, SimError>)
        requires
            old(self).wf(),
        ensures
            final(self).wf(),
            old(self).executed(c, final(self), r),
    {
        match c {
            Command::Start { delta } => {
                if delta <= 0 {
                    return Err(SimError::InvalidConfig);
                }
                *self = Simulation::new(delta);
                Ok(Vec::new())
            },
            Command::Link { id, length, lanes, speed_limit } => {
                match self.build_link(id, length, &lanes, speed_limit) {
                    Ok(()) => Ok(Vec::new()),
                    Err(e) => Err(e),
                }
            },
            Command::Conn { src, dst, pairs, offset } => {
                match self.connect(src, dst, &pairs, offset) {
                    Ok(()) => Ok(Vec::new()),
                    Err(e) => Err(e),
                }
            },
            Command::Veh { id, src_link, dst_link, lane, pos } => {
                match self.enter_vehicle(id, src_link, dst_link, lane, pos) {
                    Ok(veh) => Ok(Vec::new()),
                    Err(e) => Err(e),
                }
            },
            Command::Stop { id, link, lane, pos, length, kind } => {
                let b = StopLineBuilder::new(id, link, lane, pos).with_length(length).of_type(kind);
                proof {
                    assert(stop_builder(b, id, link, lane, pos, length, kind));
                }
                match b.add_to_simulation(self) {
                    Ok(()) => Ok(Vec::new()),
                    Err(e) => Err(e),
                }
            },
            Command::Conflict { stop1, stop2, priority, min_pos: _, max_pos } => {
                match self.put_conflict(stop1, stop2, priority, max_pos) {
                    Ok(()) => Ok(Vec::new()),
                    Err(e) => Err(e),
                }
            },
            Command::Step { num_steps } => Ok(self.run(num_steps)),
        }
    }
}

} // verus!
