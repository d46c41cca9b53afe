//! Points, infinite lines and segments in the projected plane, in exact
//! integer arithmetic. Intersections are rational points.

use vstd::prelude::*;

verus! {

/// Largest magnitude that a coordinate of a `Point` may have.
pub const BOUND: i64 = 1073741824;

/// The reciprocal of the machine epsilon of `f64`, `2^52`: slopes closer
/// than one part in this count as parallel.
pub const EPS_INV: i128 = 4503599627370496;

pub open spec fn abs(v: int) -> int {
    if v < 0 { -v } else { v }
}

pub open spec fn max(a: int, b: int) -> int {
    if a >= b { a } else { b }
}

/// A point of the plane with integer coordinates.
#[derive(Clone, Copy, Debug, PartialEq, Eq, Structural)]
pub struct Point {
    pub x: i64,
    pub y: i64,
}

impl Point {
    pub open spec fn valid(self) -> bool {
        -BOUND <= self.x <= BOUND && -BOUND <= self.y <= BOUND
    }

    /// The pointwise sum.
    pub fn add(self, o: Point) -> (r: Point)
        requires
            i64::MIN <= self.x + o.x <= i64::MAX,
            i64::MIN <= self.y + o.y <= i64::MAX,
        ensures
            r.x == self.x + o.x,
            r.y == self.y + o.y,
    {
        Point { x: self.x + o.x, y: self.y + o.y }
    }

    /// The pointwise difference.
    pub fn sub(self, o: Point) -> (r: Point)
        requires
            i64::MIN <= self.x - o.x <= i64::MAX,
            i64::MIN <= self.y - o.y <= i64::MAX,
        ensures
            r.x == self.x - o.x,
            r.y == self.y - o.y,
    {
        Point { x: self.x - o.x, y: self.y - o.y }
    }

    /// The pointwise sum of all of `ps`; the origin when there are none.
    pub fn sum(ps: &Vec<Point>) -> (r: Point)
        requires
            ps@.len() <= 4294967296,
            forall|i: int| 0 <= i < ps@.len() ==> (#[trigger] ps@[i]).valid(),
        ensures
            r.x == sum_x(ps@),
            r.y == sum_y(ps@),
    {
        let mut x: i64 = 0;
        let mut y: i64 = 0;
        let mut i: usize = 0;
        while i < ps.len()
            invariant
                i <= ps@.len() <= 4294967296,
                forall|j: int| 0 <= j < ps@.len() ==> (#[trigger] ps@[j]).valid(),
                x == sum_x(ps@.take(i as int)),
                y == sum_y(ps@.take(i as int)),
                -i * BOUND <= x <= i * BOUND,
                -i * BOUND <= y <= i * BOUND,
            decreases ps@.len() - i,
        {
            proof {
                assert(ps@.take(i + 1).drop_last() =~= ps@.take(i as int));
                assert(ps@.take(i + 1).last() == ps@[i as int]);
                assert(ps@[i as int].valid());
                assert(i * BOUND <= 4294967296 * BOUND) by (nonlinear_arith)
                    requires
                        i <= 4294967296,
                ;
                assert((i + 1) * BOUND == i * BOUND + BOUND) by (nonlinear_arith);
            }
            x = x + ps[i].x;
            y = y + ps[i].y;
            i = i + 1;
        }
        proof {
            assert(ps@.take(ps@.len() as int) =~= ps@);
        }
        Point { x, y }
    }

    /// Both coordinates multiplied by `k`.
    pub fn scale(self, k: i64) -> (r: Point)
        requires
            i64::MIN <= self.x * k <= i64::MAX,
            i64::MIN <= self.y * k <= i64::MAX,
        ensures
            r.x == self.x * k,
            r.y == self.y * k,
    {
        Point { x: self.x * k, y: self.y * k }
    }
}

/// The sum of the x coordinates of `ps`.
pub open spec fn sum_x(ps: Seq<Point>) -> int
    decreases ps.len(),
{
    if ps.len() == 0 {
        0
    } else {
        sum_x(ps.drop_last()) + ps.last().x
    }
}

/// The sum of the y coordinates of `ps`.
pub open spec fn sum_y(ps: Seq<Point>) -> int
    decreases ps.len(),
{
    if ps.len() == 0 {
        0
    } else {
        sum_y(ps.drop_last()) + ps.last().y
    }
}

/// A point with rational coordinates `x / den`, `y / den`.
#[derive(Clone, Copy, Debug, PartialEq, Eq, Structural)]
pub struct RatPoint {
    pub x: i128,
    pub y: i128,
    pub den: i128,
}

impl RatPoint {
    pub open spec fn valid(self) -> bool {
        self.den > 0
    }

    /// This rational point is the integer point `p`.
    pub open spec fn is_point(self, p: Point) -> bool {
        self.x == p.x * self.den && self.y == p.y * self.den
    }

    /// Both describe the same point of the plane.
    pub open spec fn same(self, o: RatPoint) -> bool {
        self.x * o.den == o.x * self.den && self.y * o.den == o.y * self.den
    }

    /// The x coordinate of `self` is at most that of `o`.
    pub open spec fn x_le(self, o: RatPoint) -> bool {
        self.x * o.den <= o.x * self.den
    }
}

/// The infinite line through `origin` and `toward`.
#[derive(Clone, Copy, Debug, PartialEq, Eq, Structural)]
pub struct Line {
    pub origin: Point,
    pub toward: Point,
}

impl Line {
    pub open spec fn valid(self) -> bool {
        self.origin.valid() && self.toward.valid() && self.origin != self.toward
    }

    pub open spec fn dx(self) -> int {
        self.toward.x - self.origin.x
    }

    pub open spec fn dy(self) -> int {
        self.toward.y - self.origin.y
    }

    /// The rational point `p` lies on the line.
    pub open spec fn contains(self, p: RatPoint) -> bool {
        (p.x - self.origin.x * p.den) * self.dy() == (p.y - self.origin.y * p.den) * self.dx()
    }

    /// The two lines have the same direction.
    pub open spec fn parallel(self, o: Line) -> bool {
        self.dx() * o.dy() == self.dy() * o.dx()
    }

    /// The lines are parallel, or neither is vertical and their slopes
    /// `dy / dx` differ by less than `1 / EPS_INV` of the larger slope
    /// magnitude (both sides multiplied by `|dx1 * dx2|`).
    pub open spec fn near_parallel(self, o: Line) -> bool {
        ||| self.parallel(o)
        ||| (self.dx() != 0 && o.dx() != 0 && abs(self.det(o)) * EPS_INV < max(
            abs(self.dy() * o.dx()),
            abs(self.dx() * o.dy()),
        ))
    }

    /// Cross product of the two directions.
    pub open spec fn det(self, o: Line) -> int {
        self.dx() * o.dy() - self.dy() * o.dx()
    }

    /// Position of the crossing along `self`, times `det(o)`.
    pub open spec fn param(self, o: Line) -> int {
        (o.origin.x - self.origin.x) * o.dy() - (o.origin.y - self.origin.y) * o.dx()
    }

    /// The crossing point of two lines that are not parallel, with a
    /// positive denominator.
    pub open spec fn meet(self, o: Line) -> RatPoint {
        let d = self.det(o);
        let t = self.param(o);
        let px = self.origin.x * d + t * self.dx();
        let py = self.origin.y * d + t * self.dy();
        if d < 0 {
            RatPoint { x: (-px) as i128, y: (-py) as i128, den: (-d) as i128 }
        } else {
            RatPoint { x: px as i128, y: py as i128, den: d as i128 }
        }
    }

    /// The point `origin + (tn / td) * (toward - origin)`.
    pub open spec fn point_at(self, tn: int, td: int) -> RatPoint {
        RatPoint {
            x: (self.origin.x * td + tn * self.dx()) as i128,
            y: (self.origin.y * td + tn * self.dy()) as i128,
            den: td as i128,
        }
    }

    /// The line through two distinct points.
    pub fn new(start: Point, end: Point) -> (r: Line)
        requires
            start.valid(),
            end.valid(),
            start != end,
        ensures
            r == (Line { origin: start, toward: end }),
            r.valid(),
    {
        Line { origin: start, toward: end }
    }

    /// The line through `point` whose slope is `rise / run`.
    pub fn from_slope(rise: i64, run: i64, point: Point) -> (r: Line)
        requires
            point.valid(),
            rise != 0 || run != 0,
            -BOUND <= point.x + run <= BOUND,
            -BOUND <= point.y + rise <= BOUND,
        ensures
            r.valid(),
            r.origin == point,
            r.dx() == run,
            r.dy() == rise,
    {
        Line::new(point, Point { x: point.x + run, y: point.y + rise })
    }

    /// Where the two infinite lines cross; `None` when they are parallel
    /// or so nearly parallel that the crossing is not to be trusted (see
    /// `near_parallel`).
    pub fn intersection(self, other: Line) -> (r: Option<RatPoint>)
        requires
            self.valid(),
            other.valid(),
        ensures
            self.near_parallel(other) <==> r is None,
            !self.near_parallel(other) ==> r == Some(self.meet(other)),
            r matches Some(p) ==> p.valid() && self.contains(p) && other.contains(p),
            r matches Some(p) ==> p.den <= 8 * BOUND * BOUND,
    {
        let dx1 = self.toward.x as i128 - self.origin.x as i128;
        let dy1 = self.toward.y as i128 - self.origin.y as i128;
        let dx2 = other.toward.x as i128 - other.origin.x as i128;
        let dy2 = other.toward.y as i128 - other.origin.y as i128;
        let ox = other.origin.x as i128 - self.origin.x as i128;
        let oy = other.origin.y as i128 - self.origin.y as i128;
        proof {
            lemma_product_bound(dx1, dy2);
            lemma_product_bound(dy1, dx2);
            lemma_product_bound(ox, dy2);
            lemma_product_bound(oy, dx2);
        }
        let p1 = dy1 * dx2;
        let p2 = dx1 * dy2;
        let d = p2 - p1;
        let t = ox * dy2 - oy * dx2;
        if d == 0 {
            return None;
        }
        if dx1 != 0 && dx2 != 0 {
            let ad = if d < 0 { -d } else { d };
            let a1 = if p1 < 0 { -p1 } else { p1 };
            let a2 = if p2 < 0 { -p2 } else { p2 };
            let m = if a1 >= a2 { a1 } else { a2 };
            proof {
                assert(ad * EPS_INV <= 8 * BOUND * BOUND * EPS_INV) by (nonlinear_arith)
                    requires
                        0 <= ad <= 8 * BOUND * BOUND,
                ;
            }
            if ad * EPS_INV < m {
                return None;
            }
        }
        proof {
            lemma_meet_bound(self.origin.x as int, d as int, t as int, dx1 as int);
            lemma_meet_bound(self.origin.y as int, d as int, t as int, dy1 as int);
            lemma_meet_on_lines(self, other);
        }
        let px = self.origin.x as i128 * d + t * dx1;
        let py = self.origin.y as i128 * d + t * dy1;
        assert(px == self.origin.x * self.det(other) + self.param(other) * self.dx());
        assert(py == self.origin.y * self.det(other) + self.param(other) * self.dy());
        if d < 0 {
            Some(RatPoint { x: -px, y: -py, den: -d })
        } else {
            Some(RatPoint { x: px, y: py, den: d })
        }
    }
}

/// The bounded piece of line between `a` and `b`, in either order of x.
#[derive(Clone, Copy, Debug, PartialEq, Eq, Structural)]
pub struct Segment {
    pub a: Point,
    pub b: Point,
}

impl Segment {
    pub open spec fn valid(self) -> bool {
        self.a.valid() && self.b.valid()
    }

    /// The endpoint with the smaller x (`a` on a tie).
    pub open spec fn low_end(self) -> Point {
        if self.a.x <= self.b.x { self.a } else { self.b }
    }

    /// The endpoint with the larger x (`b` on a tie).
    pub open spec fn high_end(self) -> Point {
        if self.a.x <= self.b.x { self.b } else { self.a }
    }

    pub open spec fn y_low(self) -> i64 {
        if self.a.y <= self.b.y { self.a.y } else { self.b.y }
    }

    pub open spec fn y_high(self) -> i64 {
        if self.a.y <= self.b.y { self.b.y } else { self.a.y }
    }

    /// The x coordinate of `p` lies between those of the endpoints, and so
    /// does its y coordinate (which matters only on a vertical segment).
    pub open spec fn spans(self, p: RatPoint) -> bool {
        &&& self.low_end().x * p.den <= p.x <= self.high_end().x * p.den
        &&& self.y_low() * p.den <= p.y <= self.y_high() * p.den
    }

    pub open spec fn line(self) -> Line {
        Line { origin: self.a, toward: self.b }
    }

    /// Where `l` crosses the segment: the crossing of the two lines, kept
    /// only when it lies within the segment's span.
    pub open spec fn cut(self, l: Line) -> Option<RatPoint> {
        if self.a == self.b || l.near_parallel(self.line()) {
            None
        } else if self.spans(l.meet(self.line())) {
            Some(l.meet(self.line()))
        } else {
            None
        }
    }

    /// The point of the segment's line at integer abscissa `x`, for a
    /// segment that is not vertical.
    pub open spec fn sample(self, x: int) -> RatPoint {
        let dx = self.b.x - self.a.x;
        let y = self.a.y * dx + (x - self.a.x) * (self.b.y - self.a.y);
        if dx < 0 {
            RatPoint { x: (x * -dx) as i128, y: (-y) as i128, den: (-dx) as i128 }
        } else {
            RatPoint { x: (x * dx) as i128, y: y as i128, den: dx as i128 }
        }
    }

    /// The infinite line through both endpoints.
    pub fn as_line(self) -> (r: Line)
        requires
            self.valid(),
            self.a != self.b,
        ensures
            r == self.line(),
            r.valid(),
    {
        Line::new(self.a, self.b)
    }

    /// Where `line` crosses the segment, if it does within its span.
    pub fn intersection(self, line: Line) -> (r: Option<RatPoint>)
        requires
            self.valid(),
            line.valid(),
        ensures
            r == self.cut(line),
            r matches Some(p) ==> p.valid() && p.den <= 8 * BOUND * BOUND,
            r matches Some(p) ==> self.line().contains(p) && line.contains(p),
    {
        if self.a == self.b {
            return None;
        }
        match line.intersection(self.as_line()) {
            None => None,
            Some(p) => {
                let lo = if self.a.x <= self.b.x { self.a.x } else { self.b.x };
                let hi = if self.a.x <= self.b.x { self.b.x } else { self.a.x };
                let ylo = if self.a.y <= self.b.y { self.a.y } else { self.b.y };
                let yhi = if self.a.y <= self.b.y { self.b.y } else { self.a.y };
                proof {
                    lemma_scaled_bound(lo as int, p.den as int);
                    lemma_scaled_bound(hi as int, p.den as int);
                    lemma_scaled_bound(ylo as int, p.den as int);
                    lemma_scaled_bound(yhi as int, p.den as int);
                }
                if lo as i128 * p.den <= p.x && p.x <= hi as i128 * p.den && ylo as i128 * p.den
                    <= p.y && p.y <= yhi as i128 * p.den {
                    Some(p)
                } else {
                    None
                }
            },
        }
    }

    fn sample_at(self, x: i64) -> (r: RatPoint)
        requires
            self.valid(),
            self.a.x != self.b.x,
            -BOUND <= x <= BOUND,
        ensures
            r == self.sample(x as int),
    {
        let dx = self.b.x as i128 - self.a.x as i128;
        let dy = self.b.y as i128 - self.a.y as i128;
        let rx = x as i128 - self.a.x as i128;
        proof {
            lemma_product_bound(self.a.y as i128, dx);
            lemma_product_bound(rx, dy);
            lemma_product_bound(x as i128, dx);
            lemma_product_bound(x as i128, (-dx) as i128);
        }
        let y = self.a.y as i128 * dx + rx * dy;
        if dx < 0 {
            let ndx = -dx;
            RatPoint { x: x as i128 * ndx, y: -y, den: ndx }
        } else {
            RatPoint { x: x as i128 * dx, y, den: dx }
        }
    }

    /// Points along the segment's line from the low-x endpoint to the
    /// high-x endpoint: one at each multiple of `step` past the low x that
    /// falls short of the high x, then the high-x endpoint itself. A vertical
    /// segment has no slope to walk: it gives its high-x endpoint (`b`) alone.
    pub fn tessellate(self, step: i64) -> (r: Vec<RatPoint>)
        requires
            self.valid(),
            0 < step <= BOUND,
        ensures
            self.a.x == self.b.x ==> r@ == seq![
                RatPoint { x: self.high_end().x as i128, y: self.high_end().y as i128, den: 1 },
            ],
            self.a.x != self.b.x ==> {
                &&& r@.len() >= 2
                &&& forall|k: int|
                    0 <= k < r@.len() - 1 ==> #[trigger] r@[k] == self.sample(
                        self.low_end().x + k * step,
                    )
                &&& self.low_end().x + (r@.len() - 2) * step < self.high_end().x
                &&& self.low_end().x + (r@.len() - 1) * step >= self.high_end().x
                &&& r@.last() == self.sample(self.high_end().x as int)
                &&& r@[0].is_point(self.low_end())
                &&& r@.last().is_point(self.high_end())
                &&& forall|k: int|
                    0 <= k < r@.len() ==> r@[k].valid() && #[trigger] self.line().contains(r@[k])
            },
    {
        if self.a.x == self.b.x {
            let mut out: Vec<RatPoint> = Vec::new();
            out.push(RatPoint { x: self.b.x as i128, y: self.b.y as i128, den: 1 });
            proof {
                assert(out@ =~= seq![
                    RatPoint { x: self.high_end().x as i128, y: self.high_end().y as i128, den: 1 },
                ]);
            }
            out
        } else {
            self.tessellate_sloped(step)
        }
    }

    /// The x step that moves `base` units along a non-vertical segment's
    /// line, rounded down, and at least 1: `base * |dx| / s`, with `s` the
    /// length of the direction `(dx, dy)` rounded up to an integer.
    pub open spec fn uniform_step(self, base: int, s: int) -> int {
        let dx = abs(self.b.x - self.a.x);
        if base * dx / s >= 1 { base * dx / s } else { 1 }
    }

    /// `tessellate` with the step that moves about `base` units along the
    /// line each time, so that steep segments are not sampled more sparsely
    /// than flat ones.
    pub fn tessellate_uniform(self, base: i64) -> (r: Vec<RatPoint>)
        requires
            self.valid(),
            0 < base <= BOUND,
        ensures
            self.a.x == self.b.x ==> r@ == seq![
                RatPoint { x: self.high_end().x as i128, y: self.high_end().y as i128, den: 1 },
            ],
            self.a.x != self.b.x ==> exists|s: int|
                #![trigger self.uniform_step(base as int, s)]
                {
                    &&& (s - 1) * (s - 1) < len_sq(self) <= s * s
                    &&& 0 < self.uniform_step(base as int, s) <= BOUND
                    &&& r@.len() >= 2
                    &&& forall|k: int|
                        0 <= k < r@.len() - 1 ==> #[trigger] r@[k] == self.sample(
                            self.low_end().x + k * self.uniform_step(base as int, s),
                        )
                    &&& self.low_end().x + (r@.len() - 2) * self.uniform_step(base as int, s) < self.high_end().x
                    &&& self.low_end().x + (r@.len() - 1) * self.uniform_step(base as int, s) >= self.high_end().x
                    &&& r@[0].is_point(self.low_end())
                    &&& r@.last().is_point(self.high_end())
                    &&& forall|k: int|
                        0 <= k < r@.len() ==> r@[k].valid() && #[trigger] self.line().contains(
                            r@[k],
                        )
                },
    {
        if self.a.x == self.b.x {
            return self.tessellate(1);
        }
        let dx = (self.b.x as i128 - self.a.x as i128) as i128;
        let dy = (self.b.y as i128 - self.a.y as i128) as i128;
        let adx: u128 = if dx < 0 { (-dx) as u128 } else { dx as u128 };
        let ady: u128 = if dy < 0 { (-dy) as u128 } else { dy as u128 };
        proof {
            assert(adx * adx <= 4 * BOUND * BOUND) by (nonlinear_arith)
                requires
                    adx <= 2 * BOUND,
            ;
            assert(ady * ady <= 4 * BOUND * BOUND) by (nonlinear_arith)
                requires
                    ady <= 2 * BOUND,
            ;
            assert(adx * adx >= 1) by (nonlinear_arith)
                requires
                    adx >= 1,
            ;
            assert(adx * adx == dx * dx && ady * ady == dy * dy) by (nonlinear_arith)
                requires
                    adx == abs(dx as int),
                    ady == abs(dy as int),
            ;
        }
        let n = adx * adx + ady * ady;
        let s = ceil_sqrt(n);
        proof {
            assert(adx <= s) by (nonlinear_arith)
                requires
                    adx * adx <= n,
                    n <= s * s,
                    s >= 0,
            ;
            assert(base * adx <= base * s) by (nonlinear_arith)
                requires
                    adx <= s,
                    base > 0,
            ;
            assert(base * adx <= BOUND * (2 * BOUND)) by (nonlinear_arith)
                requires
                    adx <= 2 * BOUND,
                    0 < base <= BOUND,
            ;
            assert((base * adx) / (s as int) <= base) by (nonlinear_arith)
                requires
                    base * adx <= base * s,
                    s > 0,
            ;
        }
        let q = (base as u128 * adx) / s;
        let step: i64 = if q >= 1 { q as i64 } else { 1 };
        let r = self.tessellate(step);
        proof {
            assert(len_sq(self) == n);
            assert(step == self.uniform_step(base as int, s as int));
            let (si, st) = (s as int, step as int);
            assert((si - 1) * (si - 1) < len_sq(self) <= si * si);
        }
        r
    }

    fn tessellate_sloped(self, step: i64) -> (r: Vec<RatPoint>)
        requires
            self.valid(),
            self.a.x != self.b.x,
            0 < step <= BOUND,
        ensures
            r@.len() >= 2,
            forall|k: int|
                0 <= k < r@.len() - 1 ==> #[trigger] r@[k] == self.sample(
                    self.low_end().x + k * step,
                ),
            self.low_end().x + (r@.len() - 2) * step < self.high_end().x,
            self.low_end().x + (r@.len() - 1) * step >= self.high_end().x,
            r@.last() == self.sample(self.high_end().x as int),
            r@[0].is_point(self.low_end()),
            r@.last().is_point(self.high_end()),
            forall|k: int| 0 <= k < r@.len() ==> r@[k].valid() && #[trigger] self.line().contains(r@[k]),
    {
        let lo = if self.a.x <= self.b.x { self.a.x } else { self.b.x };
        let hi = if self.a.x <= self.b.x { self.b.x } else { self.a.x };
        let mut out: Vec<RatPoint> = Vec::new();
        let mut x: i64 = lo;
        while x < hi
            invariant
                lo == self.low_end().x,
                hi == self.high_end().x,
                lo < hi,
                self.valid(),
                self.a.x != self.b.x,
                0 < step <= BOUND,
                x == lo + out@.len() * step,
                lo <= x < hi + step,
                forall|k: int|
                    0 <= k < out@.len() ==> #[trigger] out@[k] == self.sample(lo + k * step),
            decreases hi + step - x,
        {
            let ghost before = out@;
            let ghost prev = x;
            out.push(self.sample_at(x));
            x = x + step;
            proof {
                assert(x == lo + out@.len() * step) by (nonlinear_arith)
                    requires
                        x == prev + step,
                        prev == lo + before.len() * step,
                        out@.len() == before.len() + 1,
                ;
                assert forall|k: int| 0 <= k < out@.len() implies #[trigger] out@[k] == self.sample(
                    lo + k * step,
                ) by {
                    if k < before.len() {
                        assert(out@[k] == before[k]);
                    } else {
                        assert(k == before.len());
                        assert(out@[k] == self.sample(prev as int));
                    }
                }
            }
        }
        let ghost body = out@;
        out.push(self.sample_at(hi));
        proof {
            assert forall|k: int| 0 <= k < out@.len() - 1 implies #[trigger] out@[k] == self.sample(
                lo + k * step,
            ) by {
                assert(out@[k] == body[k]);
            }
            assert(lo + (out@.len() - 2) * step == x - step) by (nonlinear_arith)
                requires
                    x == lo + body.len() * step,
                    out@.len() == body.len() + 1,
            ;
            lemma_sample_ends(self);
            assert(out@[0] == self.sample(lo + 0 * step));
            assert forall|k: int| 0 <= k < out@.len() implies out@[k].valid() && #[trigger] self.line().contains(out@[k]) by {
                if k < out@.len() - 1 {
                    assert(out@[k] == body[k]);
                    assert(lo <= lo + k * step <= x - step) by (nonlinear_arith)
                        requires
                            0 <= k < body.len(),
                            x == lo + body.len() * step,
                            step > 0,
                    ;
                    lemma_sample_on_line(self, lo + k * step);
                } else {
                    lemma_sample_on_line(self, hi as int);
                }
            }
        }
        out
    }
}

/// A line that meets the segment's line outside the segment's span of x
/// does not cross the segment, although the two infinite lines do cross.
pub proof fn lemma_bound_restriction(seg: Segment, l: Line)
    requires
        seg.valid(),
        l.valid(),
        seg.a != seg.b,
        !l.near_parallel(seg.line()),
        !seg.spans(l.meet(seg.line())),
    ensures
        seg.cut(l) is None,
        l.meet(seg.line()).valid(),
        l.contains(l.meet(seg.line())),
        seg.line().contains(l.meet(seg.line())),
{
    lemma_meet_on_lines(l, seg.line());
}

/// The squared length of a segment's direction.
pub open spec fn len_sq(seg: Segment) -> int {
    (seg.b.x - seg.a.x) * (seg.b.x - seg.a.x) + (seg.b.y - seg.a.y) * (seg.b.y - seg.a.y)
}

/// The least `s` with `n <= s * s`.
fn ceil_sqrt(n: u128) -> (s: u128)
    requires
        1 <= n <= 0x8000_0000_0000_0000,
    ensures
        (s - 1) * (s - 1) < n <= s * s,
        1 <= s <= 0x1_0000_0000,
{
    let mut lo: u128 = 0;
    let mut hi: u128 = 0x1_0000_0000;
    assert(hi * hi == 0x1_0000_0000_0000_0000) by (nonlinear_arith)
        requires
            hi == 0x1_0000_0000,
    ;
    while hi - lo > 1
        invariant
            lo < hi <= 0x1_0000_0000,
            lo * lo < n <= hi * hi,
        decreases hi - lo,
    {
        let mid = lo + (hi - lo) / 2;
        assert(mid * mid <= 0x1_0000_0000_0000_0000) by (nonlinear_arith)
            requires
                mid <= 0x1_0000_0000,
        ;
        if mid * mid < n {
            lo = mid;
        } else {
            hi = mid;
        }
    }
    assert(hi >= 1) by (nonlinear_arith)
        requires
            n <= hi * hi,
            n >= 1,
    ;
    hi
}

proof fn lemma_scaled_bound(v: int, den: int)
    requires
        -BOUND <= v <= BOUND,
        0 < den <= 8 * BOUND * BOUND,
    ensures
        -8 * BOUND * BOUND * BOUND <= v * den <= 8 * BOUND * BOUND * BOUND,
{
    assert(-8 * BOUND * BOUND * BOUND <= v * den <= 8 * BOUND * BOUND * BOUND) by (nonlinear_arith)
        requires
            -BOUND <= v <= BOUND,
            0 < den <= 8 * BOUND * BOUND,
    ;
}

/// A sample of a non-vertical segment lies on its line.
#[verifier::rlimit(30)]
proof fn lemma_sample_on_line(s: Segment, x: int)
    requires
        s.valid(),
        s.a.x != s.b.x,
        s.low_end().x <= x <= s.high_end().x,
    ensures
        s.sample(x).valid(),
        s.line().contains(s.sample(x)),
{
    let (ax, ay) = (s.a.x as int, s.a.y as int);
    let dx = s.b.x - s.a.x;
    let dy = s.b.y - s.a.y;
    let y = ay * dx + (x - ax) * dy;
    lemma_product_bound(ay as i128, dx as i128);
    lemma_product_bound((x - ax) as i128, dy as i128);
    lemma_product_bound(x as i128, dx as i128);
    lemma_product_bound(x as i128, -dx as i128);
    let p = s.sample(x);
    if dx < 0 {
        assert(p.x == x * -dx && p.y == -y && p.den == -dx);
    } else {
        assert(p.x == x * dx && p.y == y && p.den == dx);
    }
    assert((x * dx - ax * dx) * dy == (y - ay * dx) * dx) by (nonlinear_arith)
        requires
            y == ay * dx + (x - ax) * dy,
    ;
    if dx < 0 {
        assert((x * -dx - ax * -dx) * dy == (-y - ay * -dx) * dx) by (nonlinear_arith)
            requires
                (x * dx - ax * dx) * dy == (y - ay * dx) * dx,
        ;
    }
}

/// The samples at the two ends of the span are the endpoints.
#[verifier::rlimit(30)]
proof fn lemma_sample_ends(s: Segment)
    requires
        s.valid(),
        s.a.x != s.b.x,
    ensures
        s.sample(s.low_end().x as int).is_point(s.low_end()),
        s.sample(s.high_end().x as int).is_point(s.high_end()),
{
    let (ax, ay, bx, by) = (s.a.x as int, s.a.y as int, s.b.x as int, s.b.y as int);
    let dx = bx - ax;
    let dy = by - ay;
    lemma_product_bound(ay as i128, dx as i128);
    lemma_product_bound(dx as i128, dy as i128);
    lemma_product_bound(ax as i128, dx as i128);
    lemma_product_bound(bx as i128, dx as i128);
    assert((bx - ax) * dy == dx * dy);
    assert(ay * dx + dx * dy == by * dx) by (nonlinear_arith)
        requires
            dy == by - ay,
    ;
    assert(-(ay * dx + dx * dy) == by * -dx) by (nonlinear_arith)
        requires
            ay * dx + dx * dy == by * dx,
    ;
    assert(-(ay * dx) == ay * -dx) by (nonlinear_arith);
    lemma_product_bound(ax as i128, -dx as i128);
    lemma_product_bound(bx as i128, -dx as i128);
    let pa = s.sample(ax);
    let pb = s.sample(bx);
    assert(ay * dx + (ax - ax) * dy == ay * dx);
    assert(ay * dx + (bx - ax) * dy == by * dx);
    if dx < 0 {
        assert(pa.x == ax * -dx && pa.y == -(ay * dx) && pa.den == -dx);
        assert(pb.x == bx * -dx && pb.y == -(by * dx) && pb.den == -dx);
        assert(-(by * dx) == by * -dx) by (nonlinear_arith);
    } else {
        assert(pa.x == ax * dx && pa.y == ay * dx && pa.den == dx);
        assert(pb.x == bx * dx && pb.y == by * dx && pb.den == dx);
    }
}

proof fn lemma_product_bound(a: i128, b: i128)
    requires
        -2 * BOUND <= a <= 2 * BOUND,
        -2 * BOUND <= b <= 2 * BOUND,
    ensures
        -4 * BOUND * BOUND <= a * b <= 4 * BOUND * BOUND,
{
    assert(-4 * BOUND * BOUND <= a * b <= 4 * BOUND * BOUND) by (nonlinear_arith)
        requires
            -2 * BOUND <= a <= 2 * BOUND,
            -2 * BOUND <= b <= 2 * BOUND,
    ;
}

proof fn lemma_meet_bound(o: int, d: int, t: int, dd: int)
    requires
        -BOUND <= o <= BOUND,
        -8 * BOUND * BOUND <= d <= 8 * BOUND * BOUND,
        -8 * BOUND * BOUND <= t <= 8 * BOUND * BOUND,
        -2 * BOUND <= dd <= 2 * BOUND,
    ensures
        -8 * BOUND * BOUND * BOUND <= o * d <= 8 * BOUND * BOUND * BOUND,
        -16 * BOUND * BOUND * BOUND <= t * dd <= 16 * BOUND * BOUND * BOUND,
{
    assert(-8 * BOUND * BOUND * BOUND <= o * d <= 8 * BOUND * BOUND * BOUND) by (nonlinear_arith)
        requires
            -BOUND <= o <= BOUND,
            -8 * BOUND * BOUND <= d <= 8 * BOUND * BOUND,
    ;
    assert(-16 * BOUND * BOUND * BOUND <= t * dd <= 16 * BOUND * BOUND * BOUND)
        by (nonlinear_arith)
        requires
            -8 * BOUND * BOUND <= t <= 8 * BOUND * BOUND,
            -2 * BOUND <= dd <= 2 * BOUND,
    ;
}

/// The crossing point of two non-parallel lines lies on both.
#[verifier::rlimit(30)]
pub proof fn lemma_meet_on_lines(l: Line, o: Line)
    requires
        l.valid(),
        o.valid(),
        !l.parallel(o),
    ensures
        l.meet(o).valid(),
        l.contains(l.meet(o)),
        o.contains(l.meet(o)),
{
    let d = l.det(o);
    let t = l.param(o);
    let (ax, ay, dx1, dy1) = (l.origin.x as int, l.origin.y as int, l.dx(), l.dy());
    let (bx, by, dx2, dy2) = (o.origin.x as int, o.origin.y as int, o.dx(), o.dy());
    lemma_product_bound(dx1 as i128, dy2 as i128);
    lemma_product_bound(dy1 as i128, dx2 as i128);
    lemma_product_bound((bx - ax) as i128, dy2 as i128);
    lemma_product_bound((by - ay) as i128, dx2 as i128);
    lemma_meet_bound(ax, d, t, dx1);
    lemma_meet_bound(ay, d, t, dy1);
    let px = ax * d + t * dx1;
    let py = ay * d + t * dy1;
    lemma_cross_zero(ax, ay, bx, by, dx1, dy1, dx2, dy2, d, t, px, py);
    let m = l.meet(o);
    if d < 0 {
        assert(m.x == -px && m.y == -py && m.den == -d);
        assert((-px - ax * (-d)) == -(px - ax * d)) by (nonlinear_arith);
        assert((-py - ay * (-d)) == -(py - ay * d)) by (nonlinear_arith);
        assert((-px - bx * (-d)) == -(px - bx * d)) by (nonlinear_arith);
        assert((-py - by * (-d)) == -(py - by * d)) by (nonlinear_arith);
        assert(-(px - ax * d) * dy1 == -((px - ax * d) * dy1)) by (nonlinear_arith);
        assert(-(py - ay * d) * dx1 == -((py - ay * d) * dx1)) by (nonlinear_arith);
        assert(-(px - bx * d) * dy2 == -((px - bx * d) * dy2)) by (nonlinear_arith);
        assert(-(py - by * d) * dx2 == -((py - by * d) * dx2)) by (nonlinear_arith);
    } else {
        assert(m.x == px && m.y == py && m.den == d);
    }
}

/// Two lines that are not parallel cross in exactly one point: any
/// rational point on both is the point that `Line::intersection` returns.
#[verifier::rlimit(30)]
pub proof fn lemma_meet_unique(l: Line, o: Line, p: RatPoint)
    requires
        l.valid(),
        o.valid(),
        !l.parallel(o),
        p.valid(),
        l.contains(p),
        o.contains(p),
    ensures
        p.same(l.meet(o)),
{
    let (ax, ay, dx1, dy1) = (l.origin.x as int, l.origin.y as int, l.dx(), l.dy());
    let (bx, by, dx2, dy2) = (o.origin.x as int, o.origin.y as int, o.dx(), o.dy());
    let (x, y, dd) = (p.x as int, p.y as int, p.den as int);
    let d = l.det(o);
    let t = l.param(o);
    lemma_meet_on_lines(l, o);
    lemma_product_bound(dx1 as i128, dy2 as i128);
    lemma_product_bound(dy1 as i128, dx2 as i128);
    lemma_product_bound((bx - ax) as i128, dy2 as i128);
    lemma_product_bound((by - ay) as i128, dx2 as i128);
    lemma_meet_bound(ax, d, t, dx1);
    lemma_meet_bound(ay, d, t, dy1);
    let ux = x - ax * dd;
    let uy = y - ay * dd;
    assert(ux * dy1 - uy * dx1 == 0);
    let (ex, ey) = (bx - ax, by - ay);
    assert(x - bx * dd == ux - ex * dd) by (nonlinear_arith)
        requires
            ux == x - ax * dd,
            ex == bx - ax,
    ;
    assert(y - by * dd == uy - ey * dd) by (nonlinear_arith)
        requires
            uy == y - ay * dd,
            ey == by - ay,
    ;
    assert((ux - ex * dd) * dy2 == ux * dy2 - dd * (ex * dy2)) by (nonlinear_arith);
    assert((uy - ey * dd) * dx2 == uy * dx2 - dd * (ey * dx2)) by (nonlinear_arith);
    assert(dd * (ex * dy2) - dd * (ey * dx2) == dd * t) by (nonlinear_arith)
        requires
            t == ex * dy2 - ey * dx2,
    ;
    assert(ux * dy2 - uy * dx2 == dd * t);
    assert(ux * d == (ux * dy2 - uy * dx2) * dx1 - (ux * dy1 - uy * dx1) * dx2) by (nonlinear_arith)
        requires
            d == dx1 * dy2 - dy1 * dx2,
    ;
    assert(uy * d == (ux * dy2 - uy * dx2) * dy1 - (ux * dy1 - uy * dx1) * dy2) by (nonlinear_arith)
        requires
            d == dx1 * dy2 - dy1 * dx2,
    ;
    assert(x * d == dd * (ax * d + t * dx1)) by (nonlinear_arith)
        requires
            ux * d == (dd * t) * dx1,
            ux == x - ax * dd,
    ;
    assert(y * d == dd * (ay * d + t * dy1)) by (nonlinear_arith)
        requires
            uy * d == (dd * t) * dy1,
            uy == y - ay * dd,
    ;
    let m = l.meet(o);
    let mx = ax * d + t * dx1;
    let my = ay * d + t * dy1;
    if d < 0 {
        assert(m.x == -mx && m.y == -my && m.den == -d);
        assert(x * (-d) == (-mx) * dd) by (nonlinear_arith)
            requires
                x * d == dd * mx,
        ;
        assert(y * (-d) == (-my) * dd) by (nonlinear_arith)
            requires
                y * d == dd * my,
        ;
    } else {
        assert(m.x == mx && m.y == my && m.den == d);
        assert(x * d == mx * dd) by (nonlinear_arith)
            requires
                x * d == dd * mx,
        ;
        assert(y * d == my * dd) by (nonlinear_arith)
            requires
                y * d == dd * my,
        ;
    }
}

/// Algebra behind `lemma_meet_on_lines`, for the crossing scaled by `d`.
#[verifier::rlimit(30)]
proof fn lemma_cross_zero(
    ax: int,
    ay: int,
    bx: int,
    by: int,
    dx1: int,
    dy1: int,
    dx2: int,
    dy2: int,
    d: int,
    t: int,
    px: int,
    py: int,
)
    requires
        d == dx1 * dy2 - dy1 * dx2,
        t == (bx - ax) * dy2 - (by - ay) * dx2,
        px == ax * d + t * dx1,
        py == ay * d + t * dy1,
    ensures
        (px - ax * d) * dy1 == (py - ay * d) * dx1,
        (px - bx * d) * dy2 == (py - by * d) * dx2,
{
    assert((t * dx1) * dy1 == (t * dy1) * dx1) by (nonlinear_arith);
    assert(px - bx * d == (ax - bx) * d + t * dx1) by (nonlinear_arith)
        requires
            px == ax * d + t * dx1,
    ;
    assert(py - by * d == (ay - by) * d + t * dy1) by (nonlinear_arith)
        requires
            py == ay * d + t * dy1,
    ;
    assert(((ax - bx) * d + t * dx1) * dy2 == (ax - bx) * dy2 * d + t * (dx1 * dy2))
        by (nonlinear_arith);
    assert(((ay - by) * d + t * dy1) * dx2 == (ay - by) * dx2 * d + t * (dy1 * dx2))
        by (nonlinear_arith);
    assert((ax - bx) * dy2 * d - (ay - by) * dx2 * d == ((ax - bx) * dy2 - (ay - by) * dx2) * d)
        by (nonlinear_arith);
    assert(t * (dx1 * dy2) - t * (dy1 * dx2) == t * d) by (nonlinear_arith)
        requires
            d == dx1 * dy2 - dy1 * dx2,
    ;
    assert(((ax - bx) * dy2 - (ay - by) * dx2) == -t) by (nonlinear_arith)
        requires
            t == (bx - ax) * dy2 - (by - ay) * dx2,
    ;
    assert((-t) * d == -(t * d)) by (nonlinear_arith);
}

} // verus!
