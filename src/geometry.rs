use vstd::prelude::*;

verus! {

/// Largest magnitude accepted for a coordinate (2^19). Inside this range every
/// squared distance and every cross-multiplied comparison fits in 128 bits.
pub const COORD_LIMIT: i64 = 524288;

/// A point of the plane with integer coordinates.
#[derive(Clone, Copy, Debug, PartialEq, Eq)]
pub struct Point {
    pub x: i64,
    pub y: i64,
}

/// A closed line segment from `a` to `b`, tagged with an identifier that is
/// handed back verbatim and never interpreted.
#[derive(Clone, Copy, Debug, PartialEq, Eq)]
pub struct Segment {
    pub a: Point,
    pub b: Point,
    pub id: i64,
}

pub open spec fn coord_ok(c: i64) -> bool {
    -COORD_LIMIT <= c <= COORD_LIMIT
}

pub open spec fn point_ok(p: Point) -> bool {
    coord_ok(p.x) && coord_ok(p.y)
}

pub open spec fn segment_ok(s: Segment) -> bool {
    point_ok(s.a) && point_ok(s.b)
}

/// Dot product of (w - a) with (b - a): where the foot of the perpendicular from
/// w falls along the segment a-b, scaled by its squared length.
pub open spec fn proj(px: int, py: int, ax: int, ay: int, bx: int, by: int) -> int {
    (px - ax) * (bx - ax) + (py - ay) * (by - ay)
}

pub open spec fn len2(ax: int, ay: int, bx: int, by: int) -> int {
    (bx - ax) * (bx - ax) + (by - ay) * (by - ay)
}

pub open spec fn cross(px: int, py: int, ax: int, ay: int, bx: int, by: int) -> int {
    (px - ax) * (by - ay) - (py - ay) * (bx - ax)
}

/// Numerator of the squared distance from p to the closest point of segment a-b:
/// the squared distance to a when the foot lies before a (or the segment is a
/// point), to b when it lies past b, and else the squared perpendicular distance
/// `cross^2 / len2`.
pub open spec fn seg_num(px: int, py: int, ax: int, ay: int, bx: int, by: int) -> int {
    let t = proj(px, py, ax, ay, bx, by);
    let l = len2(ax, ay, bx, by);
    if t <= 0 {
        (px - ax) * (px - ax) + (py - ay) * (py - ay)
    } else if t >= l {
        (px - bx) * (px - bx) + (py - by) * (py - by)
    } else {
        cross(px, py, ax, ay, bx, by) * cross(px, py, ax, ay, bx, by)
    }
}

/// Denominator matching `seg_num`.
pub open spec fn seg_den(px: int, py: int, ax: int, ay: int, bx: int, by: int) -> int {
    let t = proj(px, py, ax, ay, bx, by);
    let l = len2(ax, ay, bx, by);
    if t <= 0 || t >= l {
        1
    } else {
        l
    }
}

/// The squared Euclidean distance from `p` to segment `s` is
/// `dist_num(p, s) / dist_den(p, s)`.
pub open spec fn dist_num(p: Point, s: Segment) -> int {
    seg_num(p.x as int, p.y as int, s.a.x as int, s.a.y as int, s.b.x as int, s.b.y as int)
}

pub open spec fn dist_den(p: Point, s: Segment) -> int {
    seg_den(p.x as int, p.y as int, s.a.x as int, s.a.y as int, s.b.x as int, s.b.y as int)
}

/// `p` lies on the closed segment `s`: it is on the line through a and b, and
/// between them (for a degenerate segment: equal to a).
pub open spec fn on_segment(p: Point, s: Segment) -> bool {
    let (px, py, ax, ay, bx, by) = (
        p.x as int,
        p.y as int,
        s.a.x as int,
        s.a.y as int,
        s.b.x as int,
        s.b.y as int,
    );
    if len2(ax, ay, bx, by) == 0 {
        px == ax && py == ay
    } else {
        cross(px, py, ax, ay, bx, by) == 0 && 0 <= proj(px, py, ax, ay, bx, by) <= len2(
            ax,
            ay,
            bx,
            by,
        )
    }
}

/// `n1 / d1 <= n2 / d2` for positive denominators.
pub open spec fn frac_le(n1: int, d1: int, n2: int, d2: int) -> bool {
    n1 * d2 <= n2 * d1
}

pub open spec fn num_bound() -> int {
    4835703278458516698824704
}

pub open spec fn den_bound() -> int {
    2199023255552
}

proof fn lemma_mul_abs_bound(a: int, b: int, ma: int, mb: int)
    requires
        -ma <= a <= ma,
        -mb <= b <= mb,
    ensures
        -(ma * mb) <= a * b <= ma * mb,
        0 <= a * a <= ma * ma,
{
    assert(-(ma * mb) <= a * b <= ma * mb) by (nonlinear_arith)
        requires
            -ma <= a <= ma,
            -mb <= b <= mb,
    ;
    assert(0 <= a * a <= ma * ma) by (nonlinear_arith)
        requires
            -ma <= a <= ma,
    ;
}

proof fn lemma_sq_sum(a: int, b: int)
    ensures
        (a + b) * (a + b) == a * a + 2 * (a * b) + b * b,
{
    assert((a + b) * (a + b) == a * a + 2 * (a * b) + b * b) by (nonlinear_arith);
}

proof fn lemma_sq_diff(a: int, b: int)
    ensures
        (a - b) * (a - b) == a * a - 2 * (a * b) + b * b,
{
    assert((a - b) * (a - b) == a * a - 2 * (a * b) + b * b) by (nonlinear_arith);
}

proof fn lemma_prod4(a: int, b: int, c: int, d: int)
    ensures
        (a * b) * (c * d) == (a * c) * (b * d),
{
    assert((a * b) * (c * d) == (a * c) * (b * d)) by (nonlinear_arith);
}

proof fn lemma_distrib(a: int, b: int, c: int)
    ensures
        a * (b + c) == a * b + a * c,
        (b + c) * a == b * a + c * a,
{
    assert(a * (b + c) == a * b + a * c) by (nonlinear_arith);
    assert((b + c) * a == b * a + c * a) by (nonlinear_arith);
}

/// (|d|^2)(|w|^2) - (w.d)^2 == (w x d)^2.
proof fn lemma_lagrange(wx: int, wy: int, dx: int, dy: int)
    ensures
        (dx * dx + dy * dy) * (wx * wx + wy * wy) - (wx * dx + wy * dy) * (wx * dx + wy * dy) == (
        wx * dy - wy * dx) * (wx * dy - wy * dx),
{
    let (a, b, c, d) = (dx * dx, dy * dy, wx * wx, wy * wy);
    let (x, y, u, v) = (wx * dx, wy * dy, wx * dy, wy * dx);
    lemma_distrib(a + b, c, d);
    lemma_distrib(c, a, b);
    lemma_distrib(d, a, b);
    lemma_sq_sum(x, y);
    lemma_sq_diff(u, v);
    lemma_prod4(wx, dx, wx, dx);
    lemma_prod4(wy, dy, wy, dy);
    lemma_prod4(wx, dy, wx, dy);
    lemma_prod4(wy, dx, wy, dx);
    lemma_prod4(wx, dx, wy, dy);
    lemma_prod4(wx, dy, wy, dx);
    assert(dx * dy == dy * dx) by (nonlinear_arith);
    assert(c * a == a * c && d * a == a * d && c * b == b * c && d * b == b * d) by (nonlinear_arith);
}

/// (|d|^2)(|w|^2) == (w.d)^2 + (w x d)^2.
pub proof fn lemma_lagrange_pub(wx: int, wy: int, dx: int, dy: int)
    ensures
        (dx * dx + dy * dy) * (wx * wx + wy * wy) == (wx * dx + wy * dy) * (wx * dx + wy * dy) + (
        wx * dy - wy * dx) * (wx * dy - wy * dx),
{
    lemma_lagrange(wx, wy, dx, dy);
}

pub proof fn lemma_dist_positive_den(p: Point, s: Segment)
    ensures
        dist_den(p, s) > 0,
        dist_num(p, s) >= 0,
{
    let (px, py, ax, ay, bx, by) = (
        p.x as int,
        p.y as int,
        s.a.x as int,
        s.a.y as int,
        s.b.x as int,
        s.b.y as int,
    );
    assert((px - ax) * (px - ax) >= 0 && (py - ay) * (py - ay) >= 0) by (nonlinear_arith);
    assert((px - bx) * (px - bx) >= 0 && (py - by) * (py - by) >= 0) by (nonlinear_arith);
    let c = cross(px, py, ax, ay, bx, by);
    assert(c * c >= 0) by (nonlinear_arith);
}

/// Bounds that keep the exact arithmetic inside 128 bits.
pub proof fn lemma_dist_bounds(p: Point, s: Segment)
    requires
        point_ok(p),
        segment_ok(s),
    ensures
        0 <= dist_num(p, s) <= num_bound(),
        0 < dist_den(p, s) <= den_bound(),
{
    let (px, py, ax, ay, bx, by) = (
        p.x as int,
        p.y as int,
        s.a.x as int,
        s.a.y as int,
        s.b.x as int,
        s.b.y as int,
    );
    let m: int = 1048576;
    lemma_mul_abs_bound(px - ax, py - ay, m, m);
    lemma_mul_abs_bound(py - ay, px - ax, m, m);
    lemma_mul_abs_bound(px - bx, py - by, m, m);
    lemma_mul_abs_bound(py - by, px - bx, m, m);
    lemma_mul_abs_bound(bx - ax, by - ay, m, m);
    lemma_mul_abs_bound(by - ay, bx - ax, m, m);
    lemma_mul_abs_bound(px - ax, by - ay, m, m);
    lemma_mul_abs_bound(py - ay, bx - ax, m, m);
    let c = cross(px, py, ax, ay, bx, by);
    let mm: int = 1099511627776;
    assert(m * m == mm);
    assert(-2 * mm <= c <= 2 * mm);
    lemma_mul_abs_bound(c, c, 2 * mm, 2 * mm);
    assert((2 * mm) * (2 * mm) == num_bound());
    lemma_dist_positive_den(p, s);
}

/// The distance to a segment is at most the distance to its first endpoint.
pub proof fn lemma_dist_at_most_first_end(px: int, py: int, ax: int, ay: int, bx: int, by: int)
    ensures
        seg_num(px, py, ax, ay, bx, by) <= ((px - ax) * (px - ax) + (py - ay) * (py - ay)) * seg_den(
            px,
            py,
            ax,
            ay,
            bx,
            by,
        ),
{
    let (wx, wy, dx, dy) = (px - ax, py - ay, bx - ax, by - ay);
    let t = proj(px, py, ax, ay, bx, by);
    let l = len2(ax, ay, bx, by);
    let w2 = wx * wx + wy * wy;
    if t <= 0 {
    } else if t >= l {
        assert((px - bx) * (px - bx) + (py - by) * (py - by) == w2 - 2 * t + l) by (nonlinear_arith)
            requires
                wx == px - ax,
                wy == py - ay,
                dx == bx - ax,
                dy == by - ay,
                t == wx * dx + wy * dy,
                l == dx * dx + dy * dy,
                w2 == wx * wx + wy * wy,
        ;
    } else {
        lemma_lagrange(wx, wy, dx, dy);
        assert(t * t >= 0) by (nonlinear_arith);
        assert(l * w2 == w2 * l) by (nonlinear_arith);
    }
}

/// Mirroring both coordinates' roles keeps the distance.
proof fn lemma_swap_ends(px: int, py: int, ax: int, ay: int, bx: int, by: int)
    ensures
        seg_num(px, py, ax, ay, bx, by) * seg_den(px, py, bx, by, ax, ay) == seg_num(
            px,
            py,
            bx,
            by,
            ax,
            ay,
        ) * seg_den(px, py, ax, ay, bx, by),
{
    let t = proj(px, py, ax, ay, bx, by);
    let u = proj(px, py, bx, by, ax, ay);
    let l = len2(ax, ay, bx, by);
    assert((ax - bx) * (ax - bx) == (bx - ax) * (bx - ax) && (ay - by) * (ay - by) == (by - ay) * (
    by - ay)) by (nonlinear_arith);
    assert(len2(bx, by, ax, ay) == l);
    assert(t + u == l) by (nonlinear_arith)
        requires
            t == (px - ax) * (bx - ax) + (py - ay) * (by - ay),
            u == (px - bx) * (ax - bx) + (py - by) * (ay - by),
            l == (bx - ax) * (bx - ax) + (by - ay) * (by - ay),
    ;
    let c = cross(px, py, ax, ay, bx, by);
    let c2 = cross(px, py, bx, by, ax, ay);
    assert(c2 == -c) by (nonlinear_arith)
        requires
            c == (px - ax) * (by - ay) - (py - ay) * (bx - ax),
            c2 == (px - bx) * (ay - by) - (py - by) * (ax - bx),
    ;
    assert(c2 * c2 == c * c) by (nonlinear_arith)
        requires
            c2 == -c,
    ;
    if l == 0 {
        assert(bx - ax == 0 && by - ay == 0) by (nonlinear_arith)
            requires
                l == (bx - ax) * (bx - ax) + (by - ay) * (by - ay),
                l == 0,
        ;
    }
}

/// The distance to a segment is at most the distance to its second endpoint.
pub proof fn lemma_dist_at_most_second_end(px: int, py: int, ax: int, ay: int, bx: int, by: int)
    ensures
        seg_num(px, py, ax, ay, bx, by) <= ((px - bx) * (px - bx) + (py - by) * (py - by)) * seg_den(
            px,
            py,
            ax,
            ay,
            bx,
            by,
        ),
{
    lemma_dist_at_most_first_end(px, py, bx, by, ax, ay);
    lemma_swap_ends(px, py, ax, ay, bx, by);
    let n1 = seg_num(px, py, ax, ay, bx, by);
    let d1 = seg_den(px, py, ax, ay, bx, by);
    let n2 = seg_num(px, py, bx, by, ax, ay);
    let d2 = seg_den(px, py, bx, by, ax, ay);
    let e = (px - bx) * (px - bx) + (py - by) * (py - by);
    lemma_dist_positive_den(Point { x: 0, y: 0 }, Segment { a: Point { x: 0, y: 0 }, b: Point { x: 0, y: 0 }, id: 0 });
    assert(d1 > 0 && d2 > 0) by {
        if !(proj(px, py, ax, ay, bx, by) <= 0 || proj(px, py, ax, ay, bx, by) >= len2(ax, ay, bx, by)) {
            assert(len2(ax, ay, bx, by) > 0);
        }
        if !(proj(px, py, bx, by, ax, ay) <= 0 || proj(px, py, bx, by, ax, ay) >= len2(bx, by, ax, ay)) {
            assert(len2(bx, by, ax, ay) > 0);
        }
    }
    assert(n1 <= e * d1) by (nonlinear_arith)
        requires
            n1 * d2 == n2 * d1,
            n2 <= e * d2,
            d1 > 0,
            d2 > 0,
    ;
}

/// A segment lying entirely at x <= m, seen from a point g to the right of m,
/// is at squared distance at least g^2.
proof fn lemma_gap_right(px: int, py: int, ax: int, ay: int, bx: int, by: int, m: int)
    requires
        ax <= m,
        bx <= m,
        m <= px,
    ensures
        seg_num(px, py, ax, ay, bx, by) >= (px - m) * (px - m) * seg_den(px, py, ax, ay, bx, by),
{
    let g = px - m;
    let (wx, wy, dx, dy) = (px - ax, py - ay, bx - ax, by - ay);
    let t = proj(px, py, ax, ay, bx, by);
    let l = len2(ax, ay, bx, by);
    if t <= 0 {
        assert(wx * wx + wy * wy >= g * g) by (nonlinear_arith)
            requires
                wx >= g,
                g >= 0,
        ;
    } else if t >= l {
        assert((px - bx) * (px - bx) + (py - by) * (py - by) >= g * g) by (nonlinear_arith)
            requires
                px - bx >= g,
                g >= 0,
        ;
    } else {
        let c = wx * dy - wy * dx;
        let vx = l * wx - t * dx;
        let vy = l * wy - t * dy;
        lemma_lagrange(wx, wy, dx, dy);
        let w2 = wx * wx + wy * wy;
        lemma_sq_diff(l * wx, t * dx);
        lemma_sq_diff(l * wy, t * dy);
        lemma_prod4(l, wx, l, wx);
        lemma_prod4(l, wy, l, wy);
        lemma_prod4(t, dx, t, dx);
        lemma_prod4(t, dy, t, dy);
        lemma_prod4(l, wx, t, dx);
        lemma_prod4(l, wy, t, dy);
        lemma_distrib(l * l, wx * wx, wy * wy);
        lemma_distrib(t * t, dx * dx, dy * dy);
        lemma_distrib(l * t, wx * dx, wy * dy);
        assert(vx * vx + vy * vy == (l * l) * w2 - 2 * ((l * t) * t) + (t * t) * l);
        assert((l * l) * w2 - 2 * ((l * t) * t) + (t * t) * l == l * (l * w2 - t * t)) by (
        nonlinear_arith);
        assert(vx * vx + vy * vy == l * (c * c));
        assert(vx == l * px - (l - t) * ax - t * bx) by (nonlinear_arith)
            requires
                vx == l * wx - t * dx,
                wx == px - ax,
                dx == bx - ax,
        ;
        assert((l - t) * ax <= (l - t) * m && t * bx <= t * m) by (nonlinear_arith)
            requires
                l - t > 0,
                t > 0,
                ax <= m,
                bx <= m,
        ;
        assert(vx >= l * g) by (nonlinear_arith)
            requires
                vx == l * px - (l - t) * ax - t * bx,
                (l - t) * ax <= (l - t) * m,
                t * bx <= t * m,
                g == px - m,
        ;
        assert(vx * vx >= (l * g) * (l * g)) by (nonlinear_arith)
            requires
                vx >= l * g,
                l > 0,
                g >= 0,
        ;
        assert(vy * vy >= 0) by (nonlinear_arith);
        assert(c * c >= g * g * l) by (nonlinear_arith)
            requires
                l * (c * c) >= (l * g) * (l * g),
                l > 0,
        ;
    }
}

/// Negating the x axis keeps the distance.
proof fn lemma_mirror_x(px: int, py: int, ax: int, ay: int, bx: int, by: int)
    ensures
        seg_num(-px, py, -ax, ay, -bx, by) == seg_num(px, py, ax, ay, bx, by),
        seg_den(-px, py, -ax, ay, -bx, by) == seg_den(px, py, ax, ay, bx, by),
{
    assert(proj(-px, py, -ax, ay, -bx, by) == proj(px, py, ax, ay, bx, by)) by (nonlinear_arith);
    assert(len2(-ax, ay, -bx, by) == len2(ax, ay, bx, by)) by (nonlinear_arith);
    assert((-px - -ax) * (-px - -ax) == (px - ax) * (px - ax)) by (nonlinear_arith);
    assert((-px - -bx) * (-px - -bx) == (px - bx) * (px - bx)) by (nonlinear_arith);
    let c = cross(px, py, ax, ay, bx, by);
    let c2 = cross(-px, py, -ax, ay, -bx, by);
    assert(c2 == -c) by (nonlinear_arith)
        requires
            c == (px - ax) * (by - ay) - (py - ay) * (bx - ax),
            c2 == (-px - -ax) * (by - ay) - (py - ay) * (-bx - -ax),
    ;
    assert(c2 * c2 == c * c) by (nonlinear_arith)
        requires
            c2 == -c,
    ;
}

/// Exchanging the two axes keeps the distance.
proof fn lemma_swap_axes(px: int, py: int, ax: int, ay: int, bx: int, by: int)
    ensures
        seg_num(py, px, ay, ax, by, bx) == seg_num(px, py, ax, ay, bx, by),
        seg_den(py, px, ay, ax, by, bx) == seg_den(px, py, ax, ay, bx, by),
{
    let c = cross(px, py, ax, ay, bx, by);
    let c2 = cross(py, px, ay, ax, by, bx);
    assert(c2 == -c) by (nonlinear_arith)
        requires
            c == (px - ax) * (by - ay) - (py - ay) * (bx - ax),
            c2 == (py - ay) * (bx - ax) - (px - ax) * (by - ay),
    ;
    assert(c2 * c2 == c * c) by (nonlinear_arith)
        requires
            c2 == -c,
    ;
}

/// The bounding box of a segment.
pub open spec fn min_x(s: Segment) -> i64 {
    if s.a.x <= s.b.x { s.a.x } else { s.b.x }
}

pub open spec fn min_y(s: Segment) -> i64 {
    if s.a.y <= s.b.y { s.a.y } else { s.b.y }
}

pub open spec fn max_x(s: Segment) -> i64 {
    if s.a.x <= s.b.x { s.b.x } else { s.a.x }
}

pub open spec fn max_y(s: Segment) -> i64 {
    if s.a.y <= s.b.y { s.b.y } else { s.a.y }
}

/// The square of half-side `r` around `p` meets the bounding box of `s`.
pub open spec fn box_meets(s: Segment, p: Point, r: int) -> bool {
    min_x(s) <= p.x + r && max_x(s) >= p.x - r && min_y(s) <= p.y + r && max_y(s) >= p.y - r
}

/// A segment whose bounding box misses the square of half-side `r` around `p`
/// is at squared distance at least `(r + 1)^2` from `p`.
pub proof fn lemma_far_box(p: Point, s: Segment, r: int)
    requires
        r >= 0,
        !box_meets(s, p, r),
    ensures
        dist_num(p, s) >= (r + 1) * (r + 1) * dist_den(p, s),
{
    let (px, py, ax, ay, bx, by) = (
        p.x as int,
        p.y as int,
        s.a.x as int,
        s.a.y as int,
        s.b.x as int,
        s.b.y as int,
    );
    lemma_dist_positive_den(p, s);
    let g: int;
    if max_x(s) < p.x - r {
        lemma_gap_right(px, py, ax, ay, bx, by, max_x(s) as int);
        g = px - max_x(s);
    } else if min_x(s) > p.x + r {
        lemma_gap_right(-px, py, -ax, ay, -bx, by, -min_x(s));
        lemma_mirror_x(px, py, ax, ay, bx, by);
        g = min_x(s) - px;
    } else if max_y(s) < p.y - r {
        lemma_gap_right(py, px, ay, ax, by, bx, max_y(s) as int);
        lemma_swap_axes(px, py, ax, ay, bx, by);
        g = py - max_y(s);
    } else {
        lemma_gap_right(-py, px, -ay, ax, -by, bx, -min_y(s));
        lemma_mirror_x(py, px, ay, ax, by, bx);
        lemma_swap_axes(px, py, ax, ay, bx, by);
        g = min_y(s) - py;
    }
    let n = dist_num(p, s);
    let d = dist_den(p, s);
    assert(n >= (r + 1) * (r + 1) * d) by (nonlinear_arith)
        requires
            n >= g * g * d,
            g >= r + 1,
            r >= 0,
            d > 0,
    ;
}

/// Exact squared distance from `p` to `s`, as a fraction `(num, den)`.
pub fn squared_distance(p: &Point, s: &Segment) -> (r: (u128, u128))
    requires
        point_ok(*p),
        segment_ok(*s),
    ensures
        r.0 == dist_num(*p, *s),
        r.1 == dist_den(*p, *s),
        r.0 <= num_bound(),
        0 < r.1 <= den_bound(),
{
    proof {
        lemma_dist_bounds(*p, *s);
    }
    let m: i128 = 1048576;
    let wx: i128 = p.x as i128 - s.a.x as i128;
    let wy: i128 = p.y as i128 - s.a.y as i128;
    let dx: i128 = s.b.x as i128 - s.a.x as i128;
    let dy: i128 = s.b.y as i128 - s.a.y as i128;
    proof {
        lemma_mul_abs_bound(wx as int, dx as int, m as int, m as int);
        lemma_mul_abs_bound(wy as int, dy as int, m as int, m as int);
        lemma_mul_abs_bound(wx as int, dy as int, m as int, m as int);
        lemma_mul_abs_bound(wy as int, dx as int, m as int, m as int);
        lemma_mul_abs_bound(dx as int, dx as int, m as int, m as int);
        lemma_mul_abs_bound(dy as int, dy as int, m as int, m as int);
        lemma_mul_abs_bound(wy as int, wy as int, m as int, m as int);
    }
    let t: i128 = wx * dx + wy * dy;
    let l: i128 = dx * dx + dy * dy;
    if t <= 0 {
        ((wx * wx + wy * wy) as u128, 1)
    } else if t >= l {
        let ex: i128 = p.x as i128 - s.b.x as i128;
        let ey: i128 = p.y as i128 - s.b.y as i128;
        proof {
            lemma_mul_abs_bound(ex as int, ex as int, m as int, m as int);
            lemma_mul_abs_bound(ey as int, ey as int, m as int, m as int);
        }
        ((ex * ex + ey * ey) as u128, 1)
    } else {
        let c: i128 = wx * dy - wy * dx;
        proof {
            lemma_mul_abs_bound(c as int, c as int, 2 * m * m, 2 * m * m);
        }
        ((c * c) as u128, l as u128)
    }
}

/// `n1 / d1 < n2 / d2`, computed exactly.
pub fn frac_less(n1: u128, d1: u128, n2: u128, d2: u128) -> (r: bool)
    requires
        n1 <= num_bound(),
        n2 <= num_bound(),
        d1 <= den_bound(),
        d2 <= den_bound(),
    ensures
        r == !frac_le(n2 as int, d2 as int, n1 as int, d1 as int),
{
    proof {
        lemma_mul_abs_bound(n1 as int, d2 as int, num_bound(), den_bound());
        lemma_mul_abs_bound(n2 as int, d1 as int, num_bound(), den_bound());
    }
    n1 * d2 < n2 * d1
}

} // verus!
