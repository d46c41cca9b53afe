//! Clipping a reference line against a boundary ring: of all the points
//! where the line crosses the ring's edges, pick the nearest one on each side
//! of a known interior point.

use crate::plane::{Line, Point, RatPoint, Segment, BOUND};
use crate::text::{fields, fixed_value, parse_fixed, split_fields};
use vstd::prelude::*;
use vstd::string::*;

verus! {

/// The edge of the ring from vertex `k` to vertex `k + 1`.
pub open spec fn edge(ring: Seq<Point>, k: int) -> Segment {
    Segment { a: ring[k], b: ring[k + 1] }
}

/// Where `l` crosses the first `m` edges of the ring, in edge order; edges
/// that it misses contribute nothing.
pub open spec fn crossings_upto(ring: Seq<Point>, l: Line, m: int) -> Seq<RatPoint>
    decreases m,
{
    if m <= 0 {
        Seq::empty()
    } else {
        let prev = crossings_upto(ring, l, m - 1);
        match edge(ring, m - 1).cut(l) {
            Some(p) => prev.push(p),
            None => prev,
        }
    }
}

/// Where `l` crosses the edges between consecutive vertices of the ring. No
/// edge joins the last vertex back to the first.
pub open spec fn crossings(ring: Seq<Point>, l: Line) -> Seq<RatPoint> {
    crossings_upto(ring, l, ring.len() - 1)
}

/// `p` lies strictly west of `f`.
pub open spec fn is_west(p: RatPoint, f: Point) -> bool {
    p.x < f.x * p.den
}

/// `cs[j]` is the first of the westward crossings with the greatest x.
pub open spec fn west_pick(cs: Seq<RatPoint>, f: Point, j: int) -> bool {
    &&& 0 <= j < cs.len()
    &&& is_west(cs[j], f)
    &&& forall|i: int| 0 <= i < cs.len() && is_west(#[trigger] cs[i], f) ==> cs[i].x_le(cs[j])
    &&& forall|i: int| 0 <= i < j && is_west(#[trigger] cs[i], f) ==> !cs[j].x_le(cs[i])
}

/// `cs[k]` is the first of the eastward crossings with the least x.
pub open spec fn east_pick(cs: Seq<RatPoint>, f: Point, k: int) -> bool {
    &&& 0 <= k < cs.len()
    &&& !is_west(cs[k], f)
    &&& forall|i: int| 0 <= i < cs.len() && !is_west(#[trigger] cs[i], f) ==> cs[k].x_le(cs[i])
    &&& forall|i: int| 0 <= i < k && !is_west(#[trigger] cs[i], f) ==> !cs[i].x_le(cs[k])
}

/// A bounded line from `start` to `end`.
#[derive(Clone, Copy, Debug, PartialEq, Eq, Structural)]
pub struct Span {
    pub start: RatPoint,
    pub end: RatPoint,
}

/// The closed polygon of the playing area, as an ordered list of vertices.
#[derive(Clone, Debug)]
pub struct Boundary {
    pub ring: Vec<Point>,
}

/// `c` has the Unicode `White_Space` property.
pub open spec fn is_white(c: char) -> bool {
    ||| '\u{9}' <= c <= '\u{d}'
    ||| c == ' '
    ||| c == '\u{85}'
    ||| c == '\u{a0}'
    ||| c == '\u{1680}'
    ||| '\u{2000}' <= c <= '\u{200a}'
    ||| c == '\u{2028}'
    ||| c == '\u{2029}'
    ||| c == '\u{202f}'
    ||| c == '\u{205f}'
    ||| c == '\u{3000}'
}

/// `s` without its leading white space.
pub open spec fn trim_start(s: Seq<char>) -> Seq<char>
    decreases s.len(),
{
    if s.len() > 0 && is_white(s[0]) {
        trim_start(s.drop_first())
    } else {
        s
    }
}

/// `s` without its trailing white space.
pub open spec fn trim_end(s: Seq<char>) -> Seq<char>
    decreases s.len(),
{
    if s.len() > 0 && is_white(s.last()) {
        trim_end(s.drop_last())
    } else {
        s
    }
}

/// Relies on `str::trim`: the text without the leading and trailing
/// characters that have the Unicode `White_Space` property.
#[verifier::external_body]
fn trim_text<'a>(s: &'a str) -> (r: &'a str)
    ensures
        r@ == trim_end(trim_start(s@)),
{
    s.trim()
}

/// The vertex that the comma-separated fields of a trimmed row give: the
/// first two fields are longitude and latitude, in millionths of a degree.
/// A row without two such numbers gives none.
pub open spec fn fields_point(t: Seq<char>) -> Option<Point> {
    let fs = fields(t, ',');
    if fs.len() >= 2 && fixed_value(fs[0]) is Some && fixed_value(fs[1]) is Some {
        Some(Point { x: fixed_value(fs[0])->0, y: fixed_value(fs[1])->0 })
    } else {
        None
    }
}

/// The vertex that a boundary row gives: rows that start with `'#'` are
/// comments; otherwise the row is trimmed and read by `fields_point`.
pub open spec fn row_point(l: Seq<char>) -> Option<Point> {
    if l.len() > 0 && l[0] == '#' {
        None
    } else {
        fields_point(trim_end(trim_start(l)))
    }
}

/// The vertices that the rows give, in row order.
pub open spec fn ring_points(rows: Seq<Seq<char>>) -> Seq<Point>
    decreases rows.len(),
{
    if rows.len() == 0 {
        Seq::empty()
    } else {
        let prev = ring_points(rows.drop_last());
        match row_point(rows.last()) {
            Some(p) => prev.push(p),
            None => prev,
        }
    }
}

pub open spec fn param_ok(tn: int, td: int) -> bool {
    -8 * BOUND * BOUND <= tn <= 8 * BOUND * BOUND && 0 < td <= 8 * BOUND * BOUND
}

spec fn side_state(
    cs: Seq<RatPoint>,
    f: Point,
    l: Line,
    st: Option<(RatPoint, i128, i128)>,
    j: int,
    west: bool,
) -> bool {
    match st {
        None => forall|i: int| 0 <= i < cs.len() ==> is_west(#[trigger] cs[i], f) != west,
        Some((p, tn, td)) => {
            &&& if west { west_pick(cs, f, j) } else { east_pick(cs, f, j) }
            &&& cs[j] == p
            &&& p == l.point_at(tn as int, td as int)
            &&& param_ok(tn as int, td as int)
        },
    }
}

impl Boundary {
    pub open spec fn valid(self) -> bool {
        forall|i: int| 0 <= i < self.ring@.len() ==> (#[trigger] self.ring@[i]).valid()
    }

    /// The vertex that the comma-separated fields of a trimmed row give.
    pub fn row_vertex(t: &str) -> (r: Option<Point>)
        ensures
            r == fields_point(t@),
            r matches Some(p) ==> p.valid(),
    {
        let parts = split_fields(t, ',');
        let ghost fs = parts@.map_values(|f: String| f@);
        assert(parts@.len() == fs.len());
        if parts.len() < 2 {
            return None;
        }
        assert(fs[0] == parts@[0]@ && fs[1] == parts@[1]@);
        let lon = parse_fixed(parts[0].as_str());
        let lat = parse_fixed(parts[1].as_str());
        match (lon, lat) {
            (Some(x), Some(y)) => Some(Point { x, y }),
            _ => None,
        }
    }

    /// The vertex that a boundary row gives, if any (see `row_point`).
    pub fn parse_row(row: &str) -> (r: Option<Point>)
        ensures
            r == row_point(row@),
            r matches Some(p) ==> p.valid(),
    {
        if row.unicode_len() > 0 && row.get_char(0) == '#' {
            return None;
        }
        Boundary::row_vertex(trim_text(row))
    }

    /// Reads the boundary from its text rows, keeping the rows that give a
    /// vertex.
    pub fn load(rows: &Vec<String>) -> (r: Boundary)
        ensures
            r.ring@ == ring_points(rows@.map_values(|l: String| l@)),
            r.valid(),
    {
        let ghost ls = rows@.map_values(|l: String| l@);
        let mut ring: Vec<Point> = Vec::new();
        let mut i: usize = 0;
        while i < rows.len()
            invariant
                i <= rows@.len(),
                ls == rows@.map_values(|l: String| l@),
                ring@ == ring_points(ls.take(i as int)),
                forall|j: int| 0 <= j < ring@.len() ==> (#[trigger] ring@[j]).valid(),
            decreases rows@.len() - i,
        {
            let line = rows[i].as_str();
            proof {
                assert(ls.take(i + 1).drop_last() =~= ls.take(i as int));
                assert(ls.take(i + 1).last() == line@);
            }
            if let Some(p) = Boundary::parse_row(line) {
                ring.push(p);
            }
            i = i + 1;
        }
        proof {
            assert(ls.take(rows@.len() as int) =~= ls);
        }
        Boundary { ring }
    }

    /// The part of `line` between the boundary crossings nearest to `field`
    /// on either side: `start` is the westward crossing with the greatest x,
    /// `end` the eastward one (x at least that of `field`) with the least x,
    /// the first in edge order on a tie. `None` when either side has no
    /// crossing.
    ///
    /// Nearness is judged by x along the line, which stands in for the
    /// great-circle (haversine) distance to `field`: the two pick the same
    /// crossings when `field` lies on `line`, but may differ when it does
    /// not.
    pub fn limit(&self, line: Line, field: Point) -> (r: Option<Span>)
        requires
            self.valid(),
            line.valid(),
            field.valid(),
        ensures
            ({
                let cs = crossings(self.ring@, line);
                &&& r is Some <==> (exists|i: int| 0 <= i < cs.len() && is_west(cs[i], field)) && (
                exists|i: int| 0 <= i < cs.len() && !is_west(cs[i], field))
                &&& r matches Some(s) ==> (exists|j: int| west_pick(cs, field, j) && s.start == cs[j])
                    && (exists|k: int| east_pick(cs, field, k) && s.end == cs[k])
            }),
    {
        let n = self.ring.len();
        if n < 2 {
            return None;
        }
        let mut west: Option<(RatPoint, i128, i128)> = None;
        let mut east: Option<(RatPoint, i128, i128)> = None;
        let ghost mut wj: int = 0;
        let ghost mut ek: int = 0;
        let mut k: usize = 0;
        while k + 1 < n
            invariant
                n == self.ring@.len(),
                n >= 2,
                0 <= k <= n - 1,
                self.valid(),
                line.valid(),
                field.valid(),
                forall|i: int|
                    0 <= i < crossings_upto(self.ring@, line, k as int).len() ==> (
                    #[trigger] crossings_upto(self.ring@, line, k as int)[i]).valid(),
                side_state(crossings_upto(self.ring@, line, k as int), field, line, west, wj, true),
                side_state(crossings_upto(self.ring@, line, k as int), field, line, east, ek, false),
            decreases n - k,
        {
            let ghost cs = crossings_upto(self.ring@, line, k as int);
            let seg = Segment { a: self.ring[k], b: self.ring[k + 1] };
            assert(seg == edge(self.ring@, k as int));
            match seg.intersection(line) {
                None => {},
                Some(p) => {
                    let (tn, td) = crossing_param(line, seg);
                    let m = Ghost(cs.len() as int);
                    assert(crossings_upto(self.ring@, line, k + 1) == cs.push(p));
                    if westward(line, field, tn, td) {
                        proof {
                            lemma_east_skip(cs, field, ek, p, east is Some);
                        }
                        match west {
                            None => {
                                proof {
                                    lemma_west_first(cs, field, p);
                                }
                                west = Some((p, tn, td));
                                proof {
                                    wj = m@;
                                }
                            },
                            Some((b, bn, bd)) => {
                                if !x_le_at(line, tn, td, bn, bd) {
                                    proof {
                                        lemma_west_take(cs, field, wj, p);
                                    }
                                    west = Some((p, tn, td));
                                    proof {
                                        wj = m@;
                                    }
                                } else {
                                    proof {
                                        lemma_west_keep(cs, field, wj, p);
                                    }
                                }
                            },
                        }
                    } else {
                        proof {
                            lemma_west_skip(cs, field, wj, p, west is Some);
                        }
                        match east {
                            None => {
                                proof {
                                    lemma_east_first(cs, field, p);
                                }
                                east = Some((p, tn, td));
                                proof {
                                    ek = m@;
                                }
                            },
                            Some((b, bn, bd)) => {
                                if !x_le_at(line, bn, bd, tn, td) {
                                    proof {
                                        lemma_east_take(cs, field, ek, p);
                                    }
                                    east = Some((p, tn, td));
                                    proof {
                                        ek = m@;
                                    }
                                } else {
                                    proof {
                                        lemma_east_keep(cs, field, ek, p);
                                    }
                                }
                            },
                        }
                    }
                    assert forall|i: int| 0 <= i < cs.push(p).len() implies (#[trigger] cs.push(
                        p,
                    )[i]).valid() by {
                        if i < cs.len() {
                            assert(cs.push(p)[i] == cs[i]);
                        }
                    }
                },
            }
            k = k + 1;
        }
        proof {
            let cs = crossings(self.ring@, line);
            assert(cs == crossings_upto(self.ring@, line, k as int));
            if west is Some {
                assert(is_west(cs[wj], field));
            }
            if east is Some {
                assert(!is_west(cs[ek], field));
            }
        }
        match (west, east) {
            (Some((w, _, _)), Some((e, _, _))) => Some(Span { start: w, end: e }),
            _ => None,
        }
    }
}

/// The crossing of `line` with the segment's line, as a position along
/// `line` (see `Line::point_at`).
fn crossing_param(line: Line, seg: Segment) -> (r: (i128, i128))
    requires
        line.valid(),
        seg.valid(),
        seg.a != seg.b,
        !line.parallel(seg.line()),
    ensures
        param_ok(r.0 as int, r.1 as int),
        line.meet(seg.line()) == line.point_at(r.0 as int, r.1 as int),
{
    let ghost other = seg.line();
    let dx1 = line.toward.x as i128 - line.origin.x as i128;
    let dy1 = line.toward.y as i128 - line.origin.y as i128;
    let dx2 = seg.b.x as i128 - seg.a.x as i128;
    let dy2 = seg.b.y as i128 - seg.a.y as i128;
    let ox = seg.a.x as i128 - line.origin.x as i128;
    let oy = seg.a.y as i128 - line.origin.y as i128;
    proof {
        lemma_mul_bound(dx1 as int, dy2 as int, 2 * BOUND, 2 * BOUND);
        lemma_mul_bound(dy1 as int, dx2 as int, 2 * BOUND, 2 * BOUND);
        lemma_mul_bound(ox as int, dy2 as int, 2 * BOUND, 2 * BOUND);
        lemma_mul_bound(oy as int, dx2 as int, 2 * BOUND, 2 * BOUND);
    }
    let d = dx1 * dy2 - dy1 * dx2;
    let t = ox * dy2 - oy * dx2;
    proof {
        let (o_x, o_y) = (line.origin.x as int, line.origin.y as int);
        assert(d == line.det(other) && t == line.param(other));
        if d < 0 {
            assert(o_x * (-d) + (-t) * dx1 == -(o_x * d + t * dx1)) by (nonlinear_arith);
            assert(o_y * (-d) + (-t) * dy1 == -(o_y * d + t * dy1)) by (nonlinear_arith);
        }
    }
    if d < 0 {
        (-t, -d)
    } else {
        (t, d)
    }
}

/// Whether the point at `tn / td` along `line` lies west of `f`.
fn westward(line: Line, f: Point, tn: i128, td: i128) -> (r: bool)
    requires
        line.valid(),
        f.valid(),
        param_ok(tn as int, td as int),
    ensures
        r == is_west(line.point_at(tn as int, td as int), f),
{
    let dx = line.toward.x as i128 - line.origin.x as i128;
    let gap = f.x as i128 - line.origin.x as i128;
    proof {
        lemma_point_at_fits(line, tn as int, td as int);
        lemma_mul_bound(tn as int, dx as int, 8 * BOUND * BOUND, 2 * BOUND);
        lemma_mul_bound(gap as int, td as int, 2 * BOUND, 8 * BOUND * BOUND);
        let o = line.origin.x as int;
        assert(gap * td == f.x * td - o * td) by (nonlinear_arith)
            requires
                gap == f.x - o,
        ;
    }
    tn * dx < gap * td
}

/// Whether the point at `tn1 / td1` along `line` has x at most that of the
/// point at `tn2 / td2`.
#[verifier::rlimit(30)]
fn x_le_at(line: Line, tn1: i128, td1: i128, tn2: i128, td2: i128) -> (r: bool)
    requires
        line.valid(),
        param_ok(tn1 as int, td1 as int),
        param_ok(tn2 as int, td2 as int),
    ensures
        r == line.point_at(tn1 as int, td1 as int).x_le(line.point_at(tn2 as int, td2 as int)),
{
    let dx = line.toward.x as i128 - line.origin.x as i128;
    proof {
        lemma_mul_bound(tn1 as int, td2 as int, 8 * BOUND * BOUND, 8 * BOUND * BOUND);
        lemma_mul_bound(tn2 as int, td1 as int, 8 * BOUND * BOUND, 8 * BOUND * BOUND);
        lemma_point_at_fits(line, tn1 as int, td1 as int);
        lemma_point_at_fits(line, tn2 as int, td2 as int);
        let o = line.origin.x as int;
        let (x1, x2) = (o * td1 + tn1 * dx, o * td2 + tn2 * dx);
        assert(x1 * td2 - x2 * td1 == dx * (tn1 * td2 - tn2 * td1)) by (nonlinear_arith)
            requires
                x1 == o * td1 + tn1 * dx,
                x2 == o * td2 + tn2 * dx,
        ;
        let (a, b) = (tn1 * td2, tn2 * td1);
        let (p1, p2) = (line.point_at(tn1 as int, td1 as int), line.point_at(tn2 as int, td2 as int));
        assert(p1.x_le(p2) <==> x1 * td2 <= x2 * td1);
        assert(p1.x_le(p2) <==> dx * (a - b) <= 0);
        if dx > 0 {
            assert(dx * (a - b) <= 0 <==> a <= b) by (nonlinear_arith)
                requires
                    dx > 0,
            ;
        } else if dx < 0 {
            assert(dx * (a - b) <= 0 <==> a >= b) by (nonlinear_arith)
                requires
                    dx < 0,
            ;
        } else {
            assert(dx * (a - b) == 0) by (nonlinear_arith)
                requires
                    dx == 0,
            ;
        }
    }
    let a = tn1 * td2;
    let b = tn2 * td1;
    if dx > 0 {
        a <= b
    } else if dx < 0 {
        a >= b
    } else {
        true
    }
}

proof fn lemma_mul_bound(a: int, b: int, ma: int, mb: int)
    requires
        -ma <= a <= ma,
        -mb <= b <= mb,
    ensures
        -(ma * mb) <= a * b <= ma * mb,
{
    assert(-(ma * mb) <= a * b <= ma * mb) by (nonlinear_arith)
        requires
            -ma <= a <= ma,
            -mb <= b <= mb,
    ;
}

/// The coordinates of a point at a bounded position fit in `i128`.
proof fn lemma_point_at_fits(l: Line, tn: int, td: int)
    requires
        l.valid(),
        param_ok(tn, td),
    ensures
        l.point_at(tn, td).x == l.origin.x * td + tn * l.dx(),
        l.point_at(tn, td).y == l.origin.y * td + tn * l.dy(),
        l.point_at(tn, td).den == td,
{
    lemma_mul_bound(l.origin.x as int, td, BOUND as int, 8 * BOUND * BOUND);
    lemma_mul_bound(l.origin.y as int, td, BOUND as int, 8 * BOUND * BOUND);
    lemma_mul_bound(tn, l.dx(), 8 * BOUND * BOUND, 2 * BOUND);
    lemma_mul_bound(tn, l.dy(), 8 * BOUND * BOUND, 2 * BOUND);
}

/// Order by x is transitive.
#[verifier::rlimit(30)]
pub proof fn lemma_x_le_trans(p: RatPoint, q: RatPoint, r: RatPoint)
    requires
        p.valid(),
        q.valid(),
        r.valid(),
        p.x_le(q),
        q.x_le(r),
    ensures
        p.x_le(r),
{
    let (a, b, c, d, e, f) = (p.x as int, p.den as int, q.x as int, q.den as int, r.x as int, r.den as int);
    assert(a * d * f <= c * b * f) by (nonlinear_arith)
        requires
            a * d <= c * b,
            f > 0,
    ;
    assert(c * f * b <= e * d * b) by (nonlinear_arith)
        requires
            c * f <= e * d,
            b > 0,
    ;
    assert(a * f <= e * b) by (nonlinear_arith)
        requires
            a * d * f <= c * b * f,
            c * f * b <= e * d * b,
            d > 0,
    ;
}

proof fn lemma_west_first(cs: Seq<RatPoint>, f: Point, p: RatPoint)
    requires
        forall|i: int| 0 <= i < cs.len() ==> !is_west(#[trigger] cs[i], f),
        is_west(p, f),
    ensures
        west_pick(cs.push(p), f, cs.len() as int),
{
    let ns = cs.push(p);
    assert forall|i: int| 0 <= i < ns.len() && is_west(#[trigger] ns[i], f) implies ns[i].x_le(
        ns[cs.len() as int],
    ) by {
        if i < cs.len() {
            assert(ns[i] == cs[i]);
        }
    }
    assert forall|i: int| 0 <= i < cs.len() && is_west(#[trigger] ns[i], f) implies !ns[cs.len() as int].x_le(ns[i]) by {
        assert(ns[i] == cs[i]);
    }
}

proof fn lemma_west_take(cs: Seq<RatPoint>, f: Point, j: int, p: RatPoint)
    requires
        west_pick(cs, f, j),
        forall|i: int| 0 <= i < cs.len() ==> (#[trigger] cs[i]).valid(),
        p.valid(),
        is_west(p, f),
        !p.x_le(cs[j]),
    ensures
        west_pick(cs.push(p), f, cs.len() as int),
{
    let ns = cs.push(p);
    let m = cs.len() as int;
    assert(cs[j].x_le(p));
    assert forall|i: int| 0 <= i < ns.len() && is_west(#[trigger] ns[i], f) implies ns[i].x_le(ns[m]) by {
        if i < m {
            assert(ns[i] == cs[i]);
            lemma_x_le_trans(cs[i], cs[j], p);
        }
    }
    assert forall|i: int| 0 <= i < m && is_west(#[trigger] ns[i], f) implies !ns[m].x_le(ns[i]) by {
        assert(ns[i] == cs[i]);
        if p.x_le(cs[i]) {
            lemma_x_le_trans(p, cs[i], cs[j]);
        }
    }
}

proof fn lemma_west_keep(cs: Seq<RatPoint>, f: Point, j: int, p: RatPoint)
    requires
        west_pick(cs, f, j),
        p.x_le(cs[j]),
    ensures
        west_pick(cs.push(p), f, j),
{
    let ns = cs.push(p);
    assert(ns[j] == cs[j]);
    assert forall|i: int| 0 <= i < ns.len() && is_west(#[trigger] ns[i], f) implies ns[i].x_le(ns[j]) by {
        if i < cs.len() {
            assert(ns[i] == cs[i]);
        }
    }
    assert forall|i: int| 0 <= i < j && is_west(#[trigger] ns[i], f) implies !ns[j].x_le(ns[i]) by {
        assert(ns[i] == cs[i]);
    }
}

/// A crossing on the other side leaves the westward choice as it was.
proof fn lemma_west_skip(cs: Seq<RatPoint>, f: Point, j: int, p: RatPoint, chosen: bool)
    requires
        chosen ==> west_pick(cs, f, j),
        !chosen ==> forall|i: int| 0 <= i < cs.len() ==> !is_west(#[trigger] cs[i], f),
        !is_west(p, f),
    ensures
        chosen ==> west_pick(cs.push(p), f, j) && cs.push(p)[j] == cs[j],
        !chosen ==> forall|i: int| 0 <= i < cs.push(p).len() ==> !is_west(#[trigger] cs.push(p)[i], f),
{
    let ns = cs.push(p);
    assert forall|i: int| 0 <= i < cs.len() implies #[trigger] ns[i] == cs[i] by {}
}

proof fn lemma_east_first(cs: Seq<RatPoint>, f: Point, p: RatPoint)
    requires
        forall|i: int| 0 <= i < cs.len() ==> is_west(#[trigger] cs[i], f),
        !is_west(p, f),
    ensures
        east_pick(cs.push(p), f, cs.len() as int),
{
    let ns = cs.push(p);
    assert forall|i: int| 0 <= i < ns.len() && !is_west(#[trigger] ns[i], f) implies ns[cs.len() as int].x_le(ns[i]) by {
        if i < cs.len() {
            assert(ns[i] == cs[i]);
        }
    }
    assert forall|i: int| 0 <= i < cs.len() && !is_west(#[trigger] ns[i], f) implies !ns[i].x_le(ns[cs.len() as int]) by {
        assert(ns[i] == cs[i]);
    }
}

proof fn lemma_east_take(cs: Seq<RatPoint>, f: Point, k: int, p: RatPoint)
    requires
        east_pick(cs, f, k),
        forall|i: int| 0 <= i < cs.len() ==> (#[trigger] cs[i]).valid(),
        p.valid(),
        !is_west(p, f),
        !cs[k].x_le(p),
    ensures
        east_pick(cs.push(p), f, cs.len() as int),
{
    let ns = cs.push(p);
    let m = cs.len() as int;
    assert(p.x_le(cs[k]));
    assert forall|i: int| 0 <= i < ns.len() && !is_west(#[trigger] ns[i], f) implies ns[m].x_le(ns[i]) by {
        if i < m {
            assert(ns[i] == cs[i]);
            lemma_x_le_trans(p, cs[k], cs[i]);
        }
    }
    assert forall|i: int| 0 <= i < m && !is_west(#[trigger] ns[i], f) implies !ns[i].x_le(ns[m]) by {
        assert(ns[i] == cs[i]);
        if cs[i].x_le(p) {
            lemma_x_le_trans(cs[k], cs[i], p);
        }
    }
}

proof fn lemma_east_keep(cs: Seq<RatPoint>, f: Point, k: int, p: RatPoint)
    requires
        east_pick(cs, f, k),
        cs[k].x_le(p),
    ensures
        east_pick(cs.push(p), f, k),
{
    let ns = cs.push(p);
    assert(ns[k] == cs[k]);
    assert forall|i: int| 0 <= i < ns.len() && !is_west(#[trigger] ns[i], f) implies ns[k].x_le(ns[i]) by {
        if i < cs.len() {
            assert(ns[i] == cs[i]);
        }
    }
    assert forall|i: int| 0 <= i < k && !is_west(#[trigger] ns[i], f) implies !ns[i].x_le(ns[k]) by {
        assert(ns[i] == cs[i]);
    }
}

/// A crossing on the west side leaves the eastward choice as it was.
proof fn lemma_east_skip(cs: Seq<RatPoint>, f: Point, k: int, p: RatPoint, chosen: bool)
    requires
        chosen ==> east_pick(cs, f, k),
        !chosen ==> forall|i: int| 0 <= i < cs.len() ==> is_west(#[trigger] cs[i], f),
        is_west(p, f),
    ensures
        chosen ==> east_pick(cs.push(p), f, k) && cs.push(p)[k] == cs[k],
        !chosen ==> forall|i: int| 0 <= i < cs.push(p).len() ==> is_west(#[trigger] cs.push(p)[i], f),
{
    let ns = cs.push(p);
    assert forall|i: int| 0 <= i < cs.len() implies #[trigger] ns[i] == cs[i] by {}
}

} // verus!
