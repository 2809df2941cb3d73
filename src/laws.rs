use vstd::prelude::*;
use crate::geometry::{
    cross, dist_den, dist_num, frac_le, lemma_dist_bounds, lemma_dist_positive_den, len2,
    on_segment, point_ok, proj, Point, Segment,
};
use crate::index::{all_segments_ok, beats, is_nearest, nearest_result, nearest_slot, QueryResult};

verus! {

proof fn lemma_frac_le_trans(n1: int, d1: int, n2: int, d2: int, n3: int, d3: int)
    requires
        d1 > 0,
        d2 > 0,
        d3 > 0,
        frac_le(n1, d1, n2, d2),
        frac_le(n2, d2, n3, d3),
    ensures
        frac_le(n1, d1, n3, d3),
{
    assert(n1 * d3 <= n3 * d1) by (nonlinear_arith)
        requires
            d1 > 0,
            d2 > 0,
            d3 > 0,
            n1 * d2 <= n2 * d1,
            n2 * d3 <= n3 * d2,
    ;
}

/// Every non-empty set of segments has a first nearest one.
proof fn lemma_first_nearest(segs: Seq<Segment>, p: Point) -> (j: int)
    requires
        segs.len() > 0,
    ensures
        is_nearest(segs, p, j),
    decreases segs.len(),
{
    let last = segs.len() - 1;
    lemma_dist_positive_den(p, segs[last]);
    if segs.len() == 1 {
        assert(beats(segs, p, 0, 0));
        0
    } else {
        let pre = segs.drop_last();
        let jp = lemma_first_nearest(pre, p);
        assert forall|k: int| 0 <= k < last implies #[trigger] beats(segs, p, jp, k) by {
            assert(pre[k] == segs[k] && pre[jp] == segs[jp]);
            assert(beats(pre, p, jp, k));
        }
        lemma_dist_positive_den(p, segs[jp]);
        let (nj, dj) = (dist_num(p, segs[jp]), dist_den(p, segs[jp]));
        let (nl, dl) = (dist_num(p, segs[last]), dist_den(p, segs[last]));
        if frac_le(nj, dj, nl, dl) {
            assert(beats(segs, p, jp, last));
            jp
        } else {
            assert forall|k: int| 0 <= k < segs.len() implies #[trigger] beats(segs, p, last, k) by {
                if k < last {
                    lemma_dist_positive_den(p, segs[k]);
                    assert(beats(segs, p, jp, k));
                    lemma_frac_le_trans(
                        nl,
                        dl,
                        nj,
                        dj,
                        dist_num(p, segs[k]),
                        dist_den(p, segs[k]),
                    );
                    if frac_le(dist_num(p, segs[k]), dist_den(p, segs[k]), nl, dl) {
                        lemma_frac_le_trans(
                            nj,
                            dj,
                            dist_num(p, segs[k]),
                            dist_den(p, segs[k]),
                            nl,
                            dl,
                        );
                    }
                }
            }
            last
        }
    }
}

/// A query against a non-empty set of segments reports the identifier of one
/// of them and the distance to it, and no segment of the set is nearer: the
/// answer agrees with an exhaustive scan.
pub proof fn lemma_nearest_matches_brute_force(segs: Seq<Segment>, p: Point)
    requires
        segs.len() > 0,
        all_segments_ok(segs),
        point_ok(p),
    ensures
        exists|j: int|
            0 <= j < segs.len() && nearest_result(segs, p).id == segs[j].id && nearest_result(
                segs,
                p,
            ).dist_num == dist_num(p, segs[j]) && nearest_result(segs, p).dist_den == dist_den(
                p,
                segs[j],
            ),
        forall|k: int|
            0 <= k < segs.len() ==> frac_le(
                nearest_result(segs, p).dist_num as int,
                nearest_result(segs, p).dist_den as int,
                dist_num(p, #[trigger] segs[k]),
                dist_den(p, segs[k]),
            ),
{
    let first = lemma_first_nearest(segs, p);
    assert(is_nearest(segs, p, first));
    let j = nearest_slot(segs, p);
    assert(is_nearest(segs, p, j));
    lemma_dist_bounds(p, segs[j]);
    assert forall|k: int| 0 <= k < segs.len() implies frac_le(
        nearest_result(segs, p).dist_num as int,
        nearest_result(segs, p).dist_den as int,
        dist_num(p, #[trigger] segs[k]),
        dist_den(p, segs[k]),
    ) by {
        assert(beats(segs, p, j, k));
    }
}

/// The reported squared distance is zero exactly when the point lies on the
/// segment.
pub proof fn lemma_zero_distance_iff_on_segment(p: Point, s: Segment)
    ensures
        dist_num(p, s) == 0 <==> on_segment(p, s),
        dist_num(p, s) >= 0,
{
    lemma_dist_positive_den(p, s);
    let (px, py, ax, ay, bx, by) = (
        p.x as int,
        p.y as int,
        s.a.x as int,
        s.a.y as int,
        s.b.x as int,
        s.b.y as int,
    );
    let (wx, wy, dx, dy) = (px - ax, py - ay, bx - ax, by - ay);
    let t = proj(px, py, ax, ay, bx, by);
    let l = len2(ax, ay, bx, by);
    let c = cross(px, py, ax, ay, bx, by);
    let w2 = wx * wx + wy * wy;
    crate::geometry::lemma_lagrange_pub(wx, wy, dx, dy);
    assert(l * w2 == t * t + c * c);
    assert(w2 == 0 <==> (wx == 0 && wy == 0)) by (nonlinear_arith)
        requires
            w2 == wx * wx + wy * wy,
    ;
    assert(l >= 0 && w2 >= 0) by (nonlinear_arith)
        requires
            l == dx * dx + dy * dy,
            w2 == wx * wx + wy * wy,
    ;
    assert(l == 0 <==> (dx == 0 && dy == 0)) by (nonlinear_arith)
        requires
            l == dx * dx + dy * dy,
    ;
    assert(c * c == 0 <==> c == 0) by (nonlinear_arith);
    assert(l == 0 ==> t == 0 && c == 0) by (nonlinear_arith)
        requires
            l == dx * dx + dy * dy,
            t == wx * dx + wy * dy,
            c == wx * dy - wy * dx,
    ;
    assert(t * t >= 0 && c * c >= 0) by (nonlinear_arith);
    let ex = px - bx;
    let ey = py - by;
    assert(ex * ex + ey * ey == w2 - 2 * t + l) by (nonlinear_arith)
        requires
            ex == wx - dx,
            ey == wy - dy,
            t == wx * dx + wy * dy,
            l == dx * dx + dy * dy,
            w2 == wx * wx + wy * wy,
    ;
    assert(ex * ex + ey * ey == 0 <==> (ex == 0 && ey == 0)) by (nonlinear_arith);
    assert(on_segment(p, s) == (if l == 0 {
        wx == 0 && wy == 0
    } else {
        c == 0 && 0 <= t <= l
    }));
    if t <= 0 {
        if l > 0 && c == 0 && t == 0 {
            assert(w2 == 0) by (nonlinear_arith)
                requires
                    l * w2 == t * t + c * c,
                    l > 0,
                    t == 0,
                    c == 0,
            ;
        }
        assert(dist_num(p, s) == w2);
        if t < 0 {
            assert(!(wx == 0 && wy == 0)) by (nonlinear_arith)
                requires
                    t < 0,
                    t == wx * dx + wy * dy,
            ;
        }
        if wx == 0 && wy == 0 {
            assert(t == 0 && c == 0) by (nonlinear_arith)
                requires
                    wx == 0,
                    wy == 0,
                    t == wx * dx + wy * dy,
                    c == wx * dy - wy * dx,
            ;
        }
    } else if t >= l {
        if c == 0 && t == l {
            assert(w2 == l) by (nonlinear_arith)
                requires
                    l * w2 == t * t + c * c,
                    l > 0,
                    t == l,
                    c == 0,
            ;
        }
        assert(dist_num(p, s) == ex * ex + ey * ey);
        if ex == 0 && ey == 0 {
            assert(wx == dx && wy == dy);
            assert(t == l && c == 0) by (nonlinear_arith)
                requires
                    wx == dx,
                    wy == dy,
                    t == wx * dx + wy * dy,
                    l == dx * dx + dy * dy,
                    c == wx * dy - wy * dx,
            ;
        }
    } else {
        assert(dist_num(p, s) == c * c);
    }
}

/// A segment whose two endpoints coincide is measured as a single point.
pub proof fn lemma_degenerate_segment(p: Point, s: Segment)
    requires
        s.a == s.b,
    ensures
        dist_den(p, s) == 1,
        dist_num(p, s) == (p.x - s.a.x) * (p.x - s.a.x) + (p.y - s.a.y) * (p.y - s.a.y),
{
}

/// Answers to a batch are fully determined by the segments and the points:
/// two batch results that both meet the query contract are identical.
pub proof fn lemma_batch_deterministic(
    segs: Seq<Segment>,
    pts: Seq<Point>,
    v1: Seq<QueryResult>,
    v2: Seq<QueryResult>,
)
    requires
        v1.len() == pts.len(),
        v2.len() == pts.len(),
        forall|k: int| 0 <= k < pts.len() ==> #[trigger] v1[k] == nearest_result(segs, pts[k]),
        forall|k: int| 0 <= k < pts.len() ==> #[trigger] v2[k] == nearest_result(segs, pts[k]),
    ensures
        v1 == v2,
{
    assert(v1 =~= v2);
}

} // verus!
