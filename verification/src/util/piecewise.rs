//! Piecewise functions of one variable, in fixed-point arithmetic.
//!
//! A `LinearFunc` joins its points by straight segments. A `CubicFunc` joins
//! them by smooth steps that are level at both ends, so that a lane's
//! centre line has no kink where two pieces meet.
use crate::fixed::{minus, over, plus, times, ONE, SIX, THREE, TWO};
use vstd::prelude::*;

verus! {

/// One segment `y = m * (x - min_x) + b` on `min_x <= x < max_x`.
#[derive(Clone, Copy, Debug)]
pub struct LinearFuncPiece {
    pub min_x: i64,
    pub max_x: i64,
    pub m: i64,
    pub b: i64,
}

/// A piecewise linear function.
#[derive(Clone, Debug)]
pub struct LinearFunc {
    pieces: Vec<LinearFuncPiece>,
    /// The value at the right end of the last segment.
    last_y: i64,
}

/// One smooth step from `y1` at `min_x` to `y1 + yd` at `max_x`.
#[derive(Clone, Copy, Debug)]
pub struct CubicFuncPiece {
    pub min_x: i64,
    pub max_x: i64,
    pub y1: i64,
    pub yd: i64,
}

/// A piecewise cubic function whose pieces are level at both ends.
#[derive(Debug)]
pub struct CubicFunc {
    pieces: Vec<CubicFuncPiece>,
}

/// The `x` of each point is smaller than that of the next.
pub open spec fn ascending(points: Seq<(i64, i64)>) -> bool {
    forall|i: int, j: int| 0 <= i < j < points.len() ==> points[i].0 < points[j].0
}

impl LinearFuncPiece {
    pub open spec fn holds(&self, x: i64) -> bool {
        self.min_x <= x < self.max_x
    }

    /// The segment's value at `x`.
    pub open spec fn at(&self, x: i64) -> i64 {
        plus(times(self.m, minus(x, self.min_x)), self.b)
    }
}

/// The segment between the points `p` and `q`.
pub open spec fn segment(p: (i64, i64), q: (i64, i64)) -> LinearFuncPiece {
    LinearFuncPiece { min_x: p.0, max_x: q.0, m: over(minus(q.1, p.1), minus(q.0, p.0)), b: p.1 }
}

/// The segments that join each point to the next.
pub open spec fn segments(points: Seq<(i64, i64)>) -> Seq<LinearFuncPiece> {
    Seq::new((points.len() - 1) as nat, |i: int| segment(points[i], points[i + 1]))
}

/// No segment is reversed, and each ends before the next begins.
pub open spec fn linear_ordered(pieces: Seq<LinearFuncPiece>) -> bool {
    &&& forall|i: int| 0 <= i < pieces.len() ==> (#[trigger] pieces[i]).min_x <= pieces[i].max_x
    &&& forall|i: int, j: int|
        0 <= i < j < pieces.len() ==> (#[trigger] pieces[i]).max_x <= (#[trigger] pieces[j]).min_x
}

impl View for LinearFunc {
    type V = Seq<LinearFuncPiece>;

    /// The function's segments, from left to right.
    closed spec fn view(&self) -> Seq<LinearFuncPiece> {
        self.pieces@
    }
}

impl LinearFunc {
    /// The function's value at the right end of its last segment.
    pub closed spec fn end_value(&self) -> i64 {
        self.last_y
    }

    /// Whether some segment holds `x`.
    pub open spec fn held(&self, x: i64) -> bool {
        exists|i: int| 0 <= i < self@.len() && (#[trigger] self@[i]).holds(x)
    }

    /// Whether `x` is the right end of the last segment.
    pub open spec fn at_end(&self, x: i64) -> bool {
        self@.len() > 0 && x == self@.last().max_x
    }

    /// Whether `x` lies in the function's domain: in one of the segments, or
    /// at the right end of the last one.
    pub open spec fn covers(&self, x: i64) -> bool {
        self.held(x) || self.at_end(x)
    }

    /// The function's value at `x`: that of the segment that holds `x`, and
    /// the end value at the right end of the last segment.
    pub open spec fn value(&self, x: i64) -> i64 {
        if self.held(x) {
            let i = choose|i: int| 0 <= i < self@.len() && (#[trigger] self@[i]).holds(x);
            self@[i].at(x)
        } else {
            self.end_value()
        }
    }

    /// The function through `points`, which are given from left to right.
    pub fn from_points(points: &[(i64, i64)]) -> (f: Self)
        requires
            points@.len() >= 1,
        ensures
            f@ == segments(points@),
            f.end_value() == points@.last().1,
    {
        let mut pieces: Vec<LinearFuncPiece> = Vec::new();
        let mut i: usize = 1;
        while i < points.len()
            invariant
                1 <= i <= points@.len(),
                pieces@ == segments(points@.take(i as int)),
            decreases points@.len() - i,
        {
            let (x1, y1) = points[i - 1];
            let (x2, y2) = points[i];
            pieces.push(
                LinearFuncPiece { min_x: x1, max_x: x2, m: over(minus(y2, y1), minus(x2, x1)),
                    b: y1 },
            );
            i += 1;
            proof {
                assert(pieces@ =~= segments(points@.take(i as int)));
            }
        }
        proof {
            assert(points@.take(i as int) =~= points@);
        }
        Self { pieces, last_y: points[points.len() - 1].1 }
    }

    /// The function that is `y` on `min_x <= x <= max_x`.
    pub fn from_const(min_x: i64, max_x: i64, y: i64) -> (f: Self)
        ensures
            f@ == seq![LinearFuncPiece { min_x, max_x, m: 0, b: y }],
            f.end_value() == y,
    {
        let mut pieces: Vec<LinearFuncPiece> = Vec::new();
        pieces.push(LinearFuncPiece { min_x, max_x, m: 0, b: y });
        proof {
            assert(pieces@ =~= seq![LinearFuncPiece { min_x, max_x, m: 0, b: y }]);
        }
        Self { pieces, last_y: y }
    }

    /// The function's value at `x`, found by bisection. `x` must lie in the
    /// function's domain.
    pub fn get_y(&self, x: i64) -> (y: i64)
        requires
            linear_ordered(self@),
            self.covers(x),
        ensures
            y == self.value(x),
            forall|i: int| 0 <= i < self@.len() && (#[trigger] self@[i]).holds(x) ==> y
                == self@[i].at(x),
            !self.held(x) ==> y == self.end_value(),
    {
        let len = self.pieces.len();
        if len > 0 && x == self.pieces[len - 1].max_x {
            proof {
                assert forall|i: int| 0 <= i < self@.len() implies !(#[trigger] self@[i]).holds(
                    x,
                ) by {
                    if i < len - 1 {
                        assert(self@[i].max_x <= self@[len - 1].min_x);
                        assert(self@[len - 1].min_x <= self@[len - 1].max_x);
                    }
                }
            }
            return self.last_y;
        }
        let mut lo: usize = 0;
        let mut hi: usize = self.pieces.len();
        loop
            invariant
                linear_ordered(self@),
                self.held(x),
                0 <= lo <= hi <= self@.len(),
                forall|i: int| 0 <= i < lo ==> (#[trigger] self@[i]).max_x <= x,
                forall|i: int| hi <= i < self@.len() ==> x < (#[trigger] self@[i]).min_x,
            decreases hi - lo,
        {
            proof {
                let w = choose|i: int| 0 <= i < self@.len() && (#[trigger] self@[i]).holds(x);
                assert(lo <= w < hi);
            }
            let mid = lo + (hi - lo) / 2;
            let p = self.pieces[mid];
            if x < p.min_x {
                proof {
                    assert forall|i: int| mid <= i < self@.len()
                        implies x < (#[trigger] self@[i]).min_x by {
                        if i > mid {
                            assert(self@[mid as int].max_x <= self@[i].min_x);
                        }
                    }
                }
                hi = mid;
            } else if x >= p.max_x {
                proof {
                    assert forall|i: int| 0 <= i < mid + 1
                        implies (#[trigger] self@[i]).max_x <= x by {
                        if i < mid {
                            assert(self@[i].max_x <= self@[mid as int].min_x);
                        }
                    }
                }
                lo = mid + 1;
            } else {
                proof {
                    assert(self@[mid as int].holds(x));
                    assert forall|i: int| 0 <= i < self@.len() && (#[trigger] self@[i]).holds(x)
                        implies i
                        == mid by {
                        if i < mid {
                            assert(self@[i].max_x <= self@[mid as int].min_x);
                        }
                        if i > mid {
                            assert(self@[mid as int].max_x <= self@[i].min_x);
                        }
                    }
                }
                return plus(times(p.m, minus(x, p.min_x)), p.b);
            }
        }
    }
}

impl CubicFuncPiece {
    pub open spec fn holds(&self, x: i64) -> bool {
        self.min_x <= x < self.max_x
    }

    /// How far along the piece `x` lies, from 0 at `min_x` to 1 at `max_x`.
    pub open spec fn progress(&self, x: i64) -> i64 {
        over(minus(x, self.min_x), minus(self.max_x, self.min_x))
    }

    /// The smooth step `t * t * (3 - 2 * t)`.
    pub open spec fn step(t: i64) -> i64 {
        times(times(t, t), minus(THREE, times(TWO, t)))
    }

    /// The piece's value at `x`. Outside the piece it is the value at the
    /// nearer end.
    pub open spec fn spec_get_y(&self, x: i64) -> i64 {
        if self.yd == 0 || x <= self.min_x {
            self.y1
        } else if x >= self.max_x {
            plus(self.y1, self.yd)
        } else {
            plus(self.y1, times(Self::step(self.progress(x)), self.yd))
        }
    }

    /// The piece's slope at `x`: `(yd / (max_x - min_x)) * 6 * t * (1 - t)`
    /// inside the piece, and zero at its ends and outside.
    pub open spec fn spec_get_dy(&self, x: i64) -> i64 {
        if self.yd == 0 || x <= self.min_x || x >= self.max_x {
            0
        } else {
            let t = self.progress(x);
            times(times(times(over(self.yd, minus(self.max_x, self.min_x)), SIX), t), minus(ONE, t))
        }
    }

    pub open spec fn spec_get_y2(&self) -> i64 {
        plus(self.y1, self.yd)
    }

    pub open spec fn spec_translate(&self, dx: i64, dy: i64) -> Self {
        CubicFuncPiece {
            min_x: plus(self.min_x, dx),
            max_x: plus(self.max_x, dx),
            y1: plus(self.y1, dy),
            yd: self.yd,
        }
    }

    /// The piece's value and slope at `x`.
    pub fn get_y_and_dy(&self, x: i64) -> (r: (i64, i64))
        ensures
            r.0 == self.spec_get_y(x),
            r.1 == self.spec_get_dy(x),
    {
        if self.yd == 0 || x <= self.min_x {
            return (self.y1, 0);
        }
        if x >= self.max_x {
            return (plus(self.y1, self.yd), 0);
        }
        let xd = minus(self.max_x, self.min_x);
        let yd = self.yd;
        let t = over(minus(x, self.min_x), xd);
        let u = times(times(t, t), minus(THREE, times(TWO, t)));
        let y = plus(self.y1, times(u, yd));
        let dy = times(times(times(over(yd, xd), SIX), t), minus(ONE, t));
        (y, dy)
    }

    /// The value at the piece's right end.
    #[verifier::when_used_as_spec(spec_get_y2)]
    pub fn get_y2(&self) -> (y: i64)
        ensures
            y == self.spec_get_y2(),
    {
        plus(self.y1, self.yd)
    }

    #[verifier::when_used_as_spec(spec_get_y)]
    pub fn get_y(&self, x: i64) -> (y: i64)
        ensures
            y == self.spec_get_y(x),
    {
        self.get_y_and_dy(x).0
    }

    #[verifier::when_used_as_spec(spec_get_dy)]
    pub fn get_dy(&self, x: i64) -> (dy: i64)
        ensures
            dy == self.spec_get_dy(x),
    {
        self.get_y_and_dy(x).1
    }

    /// The same step, moved by `dx` along and by `dy` across.
    #[verifier::when_used_as_spec(spec_translate)]
    pub fn translate(&self, dx: i64, dy: i64) -> (p: Self)
        ensures
            p == self.spec_translate(dx, dy),
    {
        Self {
            min_x: plus(self.min_x, dx),
            max_x: plus(self.max_x, dx),
            y1: plus(self.y1, dy),
            yd: self.yd,
        }
    }
}

/// The smooth step between the points `p` and `q`.
pub open spec fn smooth_step(p: (i64, i64), q: (i64, i64)) -> CubicFuncPiece {
    CubicFuncPiece { min_x: p.0, max_x: q.0, y1: p.1, yd: minus(q.1, p.1) }
}

/// The smooth steps that join each point to the next.
pub open spec fn smooth_steps(points: Seq<(i64, i64)>) -> Seq<CubicFuncPiece> {
    Seq::new((points.len() - 1) as nat, |i: int| smooth_step(points[i], points[i + 1]))
}

/// No piece is reversed, and each ends before the next begins.
pub open spec fn cubic_ordered(pieces: Seq<CubicFuncPiece>) -> bool {
    &&& forall|i: int| 0 <= i < pieces.len() ==> (#[trigger] pieces[i]).min_x <= pieces[i].max_x
    &&& forall|i: int, j: int|
        0 <= i < j < pieces.len() ==> (#[trigger] pieces[i]).max_x <= (#[trigger] pieces[j]).min_x
}

impl Clone for CubicFunc {
    fn clone(&self) -> (f: Self)
        ensures
            f@ == self@,
    {
        proof {
            use_type_invariant(self);
        }
        let mut pieces: Vec<CubicFuncPiece> = Vec::new();
        let mut i: usize = 0;
        while i < self.pieces.len()
            invariant
                0 <= i <= self.pieces@.len(),
                pieces@ == self.pieces@.take(i as int),
            decreases self.pieces@.len() - i,
        {
            pieces.push(self.pieces[i]);
            i += 1;
            proof {
                assert(pieces@ =~= self.pieces@.take(i as int));
            }
        }
        proof {
            assert(self.pieces@.take(i as int) =~= self.pieces@);
        }
        Self { pieces }
    }
}

impl View for CubicFunc {
    type V = Seq<CubicFuncPiece>;

    /// The function's pieces, from left to right.
    closed spec fn view(&self) -> Seq<CubicFuncPiece> {
        self.pieces@
    }
}

impl CubicFunc {
    /// The function has a piece, and its pieces are in order. This holds of
    /// every `CubicFunc`.
    #[verifier::type_invariant]
    pub closed spec fn wf(&self) -> bool {
        self.pieces@.len() > 0 && cubic_ordered(self.pieces@)
    }

    /// The piece that answers for `x`: the one that holds `x`; the first piece
    /// for an `x` to the left of all pieces; the last piece otherwise.
    pub open spec fn spec_get_piece(&self, x: i64) -> CubicFuncPiece {
        if exists|i: int| 0 <= i < self@.len() && (#[trigger] self@[i]).holds(x) {
            let i = choose|i: int| 0 <= i < self@.len() && (#[trigger] self@[i]).holds(x);
            self@[i]
        } else if x < self@[0].min_x {
            self@[0]
        } else {
            self@.last()
        }
    }

    pub open spec fn spec_get_y(&self, x: i64) -> i64 {
        self.spec_get_piece(x).spec_get_y(x)
    }

    pub open spec fn spec_get_dy(&self, x: i64) -> i64 {
        self.spec_get_piece(x).spec_get_dy(x)
    }

    /// The function through `points`, of which there are at least two, given
    /// from left to right.
    pub fn from_points(points: &[(i64, i64)]) -> (f: Self)
        requires
            points@.len() >= 2,
            ascending(points@),
        ensures
            f@ == smooth_steps(points@),
    {
        let mut pieces: Vec<CubicFuncPiece> = Vec::new();
        let mut i: usize = 1;
        while i < points.len()
            invariant
                1 <= i <= points@.len(),
                pieces@ == smooth_steps(points@.take(i as int)),
            decreases points@.len() - i,
        {
            let (x1, y1) = points[i - 1];
            let (x2, y2) = points[i];
            pieces.push(CubicFuncPiece { min_x: x1, max_x: x2, y1, yd: minus(y2, y1) });
            i += 1;
            proof {
                assert(pieces@ =~= smooth_steps(points@.take(i as int)));
            }
        }
        proof {
            assert(points@.take(i as int) =~= points@);
            lemma_smooth_steps_ordered(points@);
        }
        Self { pieces }
    }

    /// The function through `points`, or nothing where there are fewer than
    /// two points or they are not given from left to right.
    pub fn try_from_points(points: &[(i64, i64)]) -> (r: Option<Self>)
        ensures
            match r {
                Some(f) => points@.len() >= 2 && ascending(points@) && f@ == smooth_steps(points@),
                None => !(points@.len() >= 2 && ascending(points@)),
            },
    {
        if points.len() < 2 {
            return None;
        }
        let mut i: usize = 1;
        while i < points.len()
            invariant
                1 <= i <= points@.len(),
                forall|k: int| 0 <= k < i - 1 ==> (#[trigger] points@[k]).0 < points@[k + 1].0,
            decreases points@.len() - i,
        {
            if points[i - 1].0 >= points[i].0 {
                return None;
            }
            i += 1;
        }
        proof {
            lemma_ascending_by_steps(points@, 0, 0);
            assert forall|a: int, b: int| 0 <= a < b < points@.len() implies points@[a].0
                < points@[b].0 by {
                lemma_ascending_by_steps(points@, a, b);
            }
        }
        Some(Self::from_points(points))
    }

    pub fn get_y_and_dy(&self, x: i64) -> (r: (i64, i64))
        ensures
            r.0 == self.spec_get_y(x),
            r.1 == self.spec_get_dy(x),
    {
        self.get_piece(x).get_y_and_dy(x)
    }

    #[verifier::when_used_as_spec(spec_get_y)]
    pub fn get_y(&self, x: i64) -> (y: i64)
        ensures
            y == self.spec_get_y(x),
    {
        self.get_piece(x).get_y_and_dy(x).0
    }

    #[verifier::when_used_as_spec(spec_get_dy)]
    pub fn get_dy(&self, x: i64) -> (dy: i64)
        ensures
            dy == self.spec_get_dy(x),
    {
        self.get_piece(x).get_y_and_dy(x).1
    }

    /// The piece that answers for `x`, found by bisection.
    #[verifier::when_used_as_spec(spec_get_piece)]
    pub fn get_piece(&self, x: i64) -> (p: CubicFuncPiece)
        ensures
            p == self.spec_get_piece(x),
            self.wf(),
    {
        proof {
            use_type_invariant(self);
        }
        let mut lo: usize = 0;
        let mut hi: usize = self.pieces.len();
        while lo < hi
            invariant
                self.wf(),
                0 <= lo <= hi <= self@.len(),
                forall|i: int| 0 <= i < lo ==> (#[trigger] self@[i]).max_x <= x,
                forall|i: int| hi <= i < self@.len() ==> x < (#[trigger] self@[i]).min_x,
            decreases hi - lo,
        {
            let mid = lo + (hi - lo) / 2;
            let p = self.pieces[mid];
            if x < p.min_x {
                proof {
                    assert forall|i: int| mid <= i < self@.len()
                        implies x < (#[trigger] self@[i]).min_x by {
                        if i > mid {
                            assert(self@[mid as int].max_x <= self@[i].min_x);
                        }
                    }
                }
                hi = mid;
            } else if x >= p.max_x {
                proof {
                    assert forall|i: int| 0 <= i < mid + 1
                        implies (#[trigger] self@[i]).max_x <= x by {
                        if i < mid {
                            assert(self@[i].max_x <= self@[mid as int].min_x);
                        }
                    }
                }
                lo = mid + 1;
            } else {
                proof {
                    assert(self@[mid as int].holds(x));
                    assert forall|i: int| 0 <= i < self@.len() && (#[trigger] self@[i]).holds(x)
                        implies i
                        == mid by {
                        if i < mid {
                            assert(self@[i].max_x <= self@[mid as int].min_x);
                        }
                        if i > mid {
                            assert(self@[mid as int].max_x <= self@[i].min_x);
                        }
                    }
                }
                return p;
            }
        }
        proof {
            assert forall|i: int| 0 <= i < self@.len() implies !(#[trigger] self@[i]).holds(x) by {
                if i < lo {
                } else {
                }
            }
            if lo > 0 {
                assert(self@[0].max_x <= x);
            }
        }
        if lo == 0 {
            self.pieces[0]
        } else {
            self.pieces[self.pieces.len() - 1]
        }
    }
}

/// Points whose `x` grows from each to the next are ascending.
proof fn lemma_ascending_by_steps(points: Seq<(i64, i64)>, a: int, b: int)
    requires
        forall|k: int| 0 <= k < points.len() - 1 ==> (#[trigger] points[k]).0 < points[k + 1].0,
        0 <= a <= b < points.len(),
    ensures
        a < b ==> points[a].0 < points[b].0,
    decreases b - a,
{
    if a < b {
        lemma_ascending_by_steps(points, a, b - 1);
        assert(points[b - 1].0 < points[b - 1 + 1].0);
    }
}

/// The smooth steps through ascending points are in order.
pub proof fn lemma_smooth_steps_ordered(points: Seq<(i64, i64)>)
    requires
        points.len() >= 1,
        ascending(points),
    ensures
        cubic_ordered(smooth_steps(points)),
{
    let pieces = smooth_steps(points);
    assert forall|a: int| 0 <= a < pieces.len() implies (#[trigger] pieces[a]).min_x
        <= pieces[a].max_x by {
        assert(points[a].0 < points[a + 1].0);
    }
    assert forall|a: int, b: int| 0 <= a < b < pieces.len() implies (#[trigger] pieces[a]).max_x
        <= (#[trigger] pieces[b]).min_x by {
        if a + 1 < b {
            assert(points[a + 1].0 < points[b].0);
        }
    }
}

/// A smooth step with a proper extent starts at `y1` and ends at `y1 + yd`,
/// level at both ends.
pub proof fn lemma_piece_endpoints(p: CubicFuncPiece)
    requires
        p.min_x < p.max_x,
    ensures
        p.spec_get_y(p.min_x) == p.y1,
        p.spec_get_y(p.max_x) == plus(p.y1, p.yd),
        p.spec_get_y(p.max_x) == p.spec_get_y2(),
        p.spec_get_dy(p.min_x) == 0,
        p.spec_get_dy(p.max_x) == 0,
{
}

/// A translated step starts, at its moved left end, at the moved level.
pub proof fn lemma_translate_start(p: CubicFuncPiece, dx: i64, dy: i64)
    ensures
        p.spec_translate(dx, dy).spec_get_y(plus(p.min_x, dx)) == plus(p.y1, dy),
        p.spec_translate(dx, dy).yd == p.yd,
{
}

/// The segments through two or more ascending points are in order, and the
/// function through them takes at each point that point's value.
pub proof fn lemma_linear_interpolates(f: LinearFunc, points: Seq<(i64, i64)>, i: int)
    requires
        ascending(points),
        points.len() >= 2,
        f@ == segments(points),
        f.end_value() == points.last().1,
        0 <= i < points.len(),
    ensures
        linear_ordered(f@),
        f.covers(points[i].0),
        f.value(points[i].0) == points[i].1,
{
    let pieces = f@;
    assert(linear_ordered(pieces)) by {
        assert forall|a: int| 0 <= a < pieces.len() implies (#[trigger] pieces[a]).min_x
            <= pieces[a].max_x by {
            assert(points[a].0 < points[a + 1].0);
        }
        assert forall|a: int, b: int| 0 <= a < b < pieces.len() implies (#[trigger] pieces[a]).max_x
            <= (#[trigger] pieces[b]).min_x by {
            if a + 1 < b {
                assert(points[a + 1].0 < points[b].0);
            }
        }
    }
    if i == points.len() - 1 {
        let x = points[i].0;
        assert(pieces.last().max_x == x);
        assert forall|a: int| 0 <= a < pieces.len() implies !(#[trigger] pieces[a]).holds(x) by {
            if a + 1 < i {
                assert(points[a + 1].0 < points[i].0);
            }
        }
        return ;
    }
    let x = points[i].0;
    assert(points[i].0 < points[i + 1].0);
    assert(pieces[i].holds(x));
    let w = choose|w: int| 0 <= w < f@.len() && (#[trigger] f@[w]).holds(x);
    assert(w == i) by {
        if w < i {
            assert(pieces[w].max_x <= pieces[i].min_x);
        }
        if w > i {
            assert(pieces[i].max_x <= pieces[w].min_x);
        }
    }
    crate::fixed::lemma_times_zero(pieces[i].m);
    assert(pieces[i].at(x) == points[i].1);
}

} // verus!
