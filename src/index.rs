use vstd::prelude::*;
use crate::geometry::{
    box_meets, dist_den, dist_num, frac_le, frac_less, lemma_dist_at_most_first_end,
    lemma_dist_at_most_second_end, lemma_dist_bounds, lemma_far_box, max_x, max_y, min_x, min_y,
    point_ok, segment_ok, squared_distance, Point, Segment,
};
use crate::spatial::{
    entry_meets, load_boxes, slot_nearest_box, slots_meeting, tree_entries, BoxEntry, BoxTree,
};

verus! {

broadcast use vstd::seq_lib::group_to_multiset_ensures;

/// The answer to one query: the nearest segment's identifier and the squared
/// distance to it, as the exact fraction `dist_num / dist_den`.
#[derive(Clone, Copy, Debug, PartialEq, Eq)]
pub struct QueryResult {
    pub id: i64,
    pub dist_num: u128,
    pub dist_den: u128,
}

#[derive(Clone, Copy, Debug, PartialEq, Eq)]
pub enum NearestError {
    /// The flat segment array's length is not a multiple of 5.
    MalformedSegments,
    /// The flat point array's length is not a multiple of 2.
    MalformedPoints,
    /// A coordinate lies outside `[-COORD_LIMIT, COORD_LIMIT]`.
    CoordinateOutOfRange,
    /// The index holds no segment, so no point has a nearest one.
    EmptyIndex,
}

/// What a query at `p` reports when `s` is the winner.
pub open spec fn reported(p: Point, s: Segment) -> QueryResult {
    QueryResult { id: s.id, dist_num: dist_num(p, s) as u128, dist_den: dist_den(p, s) as u128 }
}

/// Segment `j` is at most as far from `p` as segment `k`, and when both are
/// equally far, `j` comes first.
pub open spec fn beats(segs: Seq<Segment>, p: Point, j: int, k: int) -> bool {
    let (nj, dj) = (dist_num(p, segs[j]), dist_den(p, segs[j]));
    let (nk, dk) = (dist_num(p, segs[k]), dist_den(p, segs[k]));
    frac_le(nj, dj, nk, dk) && (frac_le(nk, dk, nj, dj) ==> j <= k)
}

/// `j` is the first of the segments at the least distance from `p`.
pub open spec fn is_nearest(segs: Seq<Segment>, p: Point, j: int) -> bool {
    0 <= j < segs.len() && forall|k: int| 0 <= k < segs.len() ==> #[trigger] beats(segs, p, j, k)
}

pub open spec fn nearest_slot(segs: Seq<Segment>, p: Point) -> int {
    choose|j: int| is_nearest(segs, p, j)
}

/// The answer owed for a query at `p` against a non-empty `segs`.
pub open spec fn nearest_result(segs: Seq<Segment>, p: Point) -> QueryResult {
    reported(p, segs[nearest_slot(segs, p)])
}

pub open spec fn entry_of(s: Segment, k: int) -> BoxEntry {
    (min_x(s), min_y(s), max_x(s), max_y(s), k as usize)
}

pub open spec fn entries_of(segs: Seq<Segment>) -> Seq<BoxEntry> {
    Seq::new(segs.len(), |k: int| entry_of(segs[k], k))
}

pub open spec fn all_segments_ok(segs: Seq<Segment>) -> bool {
    forall|k: int| 0 <= k < segs.len() ==> segment_ok(#[trigger] segs[k])
}

pub open spec fn all_points_ok(pts: Seq<Point>) -> bool {
    forall|k: int| 0 <= k < pts.len() ==> point_ok(#[trigger] pts[k])
}

proof fn lemma_frac_trans(n1: int, d1: int, n2: int, d2: int, n3: int, d3: int)
    requires
        d1 > 0,
        d2 > 0,
        d3 > 0,
        frac_le(n1, d1, n2, d2),
        frac_le(n2, d2, n3, d3),
    ensures
        frac_le(n1, d1, n3, d3),
{
    assert(n1 * d3 <= n3 * d1) by (nonlinear_arith)
        requires
            d1 > 0,
            d2 > 0,
            d3 > 0,
            n1 * d2 <= n2 * d1,
            n2 * d3 <= n3 * d2,
    ;
}

proof fn lemma_beats_trans(segs: Seq<Segment>, p: Point, a: int, b: int, c: int)
    requires
        0 <= a < segs.len(),
        0 <= b < segs.len(),
        0 <= c < segs.len(),
        beats(segs, p, a, b),
        beats(segs, p, b, c),
    ensures
        beats(segs, p, a, c),
{
    crate::geometry::lemma_dist_positive_den(p, segs[a]);
    crate::geometry::lemma_dist_positive_den(p, segs[b]);
    crate::geometry::lemma_dist_positive_den(p, segs[c]);
    let (na, da) = (dist_num(p, segs[a]), dist_den(p, segs[a]));
    let (nb, db) = (dist_num(p, segs[b]), dist_den(p, segs[b]));
    let (nc, dc) = (dist_num(p, segs[c]), dist_den(p, segs[c]));
    lemma_frac_trans(na, da, nb, db, nc, dc);
    if frac_le(nc, dc, na, da) {
        lemma_frac_trans(nb, db, nc, dc, na, da);
        lemma_frac_trans(nc, dc, na, da, nb, db);
    }
}

/// Two segments can both be the first nearest one only if they are the same.
proof fn lemma_nearest_unique(segs: Seq<Segment>, p: Point, j1: int, j2: int)
    requires
        is_nearest(segs, p, j1),
        is_nearest(segs, p, j2),
    ensures
        j1 == j2,
{
    assert(beats(segs, p, j1, j2));
    assert(beats(segs, p, j2, j1));
}

proof fn lemma_nearest_slot_is(segs: Seq<Segment>, p: Point, j: int)
    requires
        is_nearest(segs, p, j),
    ensures
        nearest_slot(segs, p) == j,
        is_nearest(segs, p, nearest_slot(segs, p)),
{
    lemma_nearest_unique(segs, p, nearest_slot(segs, p), j);
}

/// Bound used to rule out the segments whose boxes miss the search square.
proof fn lemma_strictly_closer(bn: int, bd: int, n0: int, d0: int, nk: int, dk: int, r: int)
    requires
        bd > 0,
        d0 > 0,
        dk > 0,
        r >= 0,
        frac_le(bn, bd, n0, d0),
        n0 <= r * r * d0,
        nk >= (r + 1) * (r + 1) * dk,
    ensures
        frac_le(bn, bd, nk, dk),
        !frac_le(nk, dk, bn, bd),
{
    assert(bn <= r * r * bd) by (nonlinear_arith)
        requires
            bn * d0 <= n0 * bd,
            n0 <= r * r * d0,
            d0 > 0,
            bd > 0,
    ;
    assert(bn * dk < nk * bd) by (nonlinear_arith)
        requires
            bn <= r * r * bd,
            nk >= (r + 1) * (r + 1) * dk,
            bd > 0,
            dk > 0,
            r >= 0,
    ;
}

proof fn lemma_l1_bounds_l2(a: int, b: int, r: int)
    requires
        r == (if a >= 0 { a } else { -a }) + (if b >= 0 { b } else { -b }),
    ensures
        a * a + b * b <= r * r,
{
    assert(a * a + b * b <= r * r) by (nonlinear_arith)
        requires
            r == (if a >= 0 { a } else { -a }) + (if b >= 0 { b } else { -b }),
    ;
}

fn abs_diff(u: i64, v: i64) -> (r: i64)
    requires
        -524288 <= u <= 524288,
        -524288 <= v <= 524288,
    ensures
        r == (if u - v >= 0 { u - v } else { v - u }),
{
    if u >= v {
        u - v
    } else {
        v - u
    }
}

/// An immutable spatial index over a fixed collection of segments.
pub struct SegmentIndex {
    segments: Vec<Segment>,
    tree: BoxTree,
}

impl View for SegmentIndex {
    type V = Seq<Segment>;

    closed spec fn view(&self) -> Seq<Segment> {
        self.segments@
    }
}

impl SegmentIndex {
    /// The tree holds exactly the bounding box of each segment, tagged with
    /// the segment's position.
    pub closed spec fn wf(&self) -> bool {
        all_segments_ok(self.segments@) && self.segments@.len() <= usize::MAX && tree_entries(
            self.tree,
        ) =~= entries_of(
            self.segments@,
        ).to_multiset()
    }

    /// Bulk-loads the index from all segments at once.
    pub fn build(segments: Vec<Segment>) -> (r: SegmentIndex)
        requires
            all_segments_ok(segments@),
        ensures
            r.wf(),
            r@ == segments@,
    {
        let mut boxes: Vec<BoxEntry> = Vec::new();
        let mut i: usize = 0;
        while i < segments.len()
            invariant
                i <= segments@.len(),
                boxes@.len() == i,
                forall|k: int| 0 <= k < i ==> #[trigger] boxes@[k] == entry_of(segments@[k], k),
            decreases segments@.len() - i,
        {
            let s = &segments[i];
            let lx = if s.a.x <= s.b.x { s.a.x } else { s.b.x };
            let ly = if s.a.y <= s.b.y { s.a.y } else { s.b.y };
            let hx = if s.a.x <= s.b.x { s.b.x } else { s.a.x };
            let hy = if s.a.y <= s.b.y { s.b.y } else { s.a.y };
            boxes.push((lx, ly, hx, hy, i));
            i = i + 1;
        }
        assert(boxes@ =~= entries_of(segments@));
        let tree = load_boxes(boxes);
        SegmentIndex { segments, tree }
    }

    /// Number of segments held.
    pub fn len(&self) -> (r: usize)
        ensures
            r == self@.len(),
    {
        self.segments.len()
    }

    proof fn lemma_entry_slot(&self, e: BoxEntry)
        requires
            self.wf(),
            tree_entries(self.tree).contains(e),
        ensures
            0 <= e.4 < self@.len(),
            e == entry_of(self@[e.4 as int], e.4 as int),
            crate::spatial::entry_in_range(e),
    {
        assert(entries_of(self.segments@).contains(e));
        let k = choose|k: int| 0 <= k < self.segments@.len() && entries_of(self.segments@)[k] == e;
        assert(e.4 as int == k);
        assert(segment_ok(self.segments@[k]));
    }

    /// The identifier of the segment nearest to `p` and the exact squared
    /// distance to it; among equally near segments, the first one.
    pub fn nearest(&self, p: &Point) -> (r: Result<QueryResult, NearestError>)
        requires
            self.wf(),
            point_ok(*p),
        ensures
            r is Ok <==> self@.len() > 0,
            r matches Ok(q) ==> q == nearest_result(self@, *p),
            r matches Err(e) ==> e == NearestError::EmptyIndex,
    {
        let n = self.segments.len();
        if n == 0 {
            return Err(NearestError::EmptyIndex);
        }
        let ghost segs = self.segments@;
        proof {
            assert forall|e: BoxEntry| #[trigger]
                tree_entries(self.tree).count(e) > 0 implies crate::spatial::entry_in_range(e) by {
                self.lemma_entry_slot(e);
            }
        }
        let hint = slot_nearest_box(&self.tree, p.x, p.y);
        let j0: usize = match hint {
            Some(k) => {
                proof {
                    let e = choose|e: BoxEntry|
                        #![trigger tree_entries(self.tree).count(e)]
                        tree_entries(self.tree).contains(e) && e.4 == k && forall|f: BoxEntry|
                            #[trigger] tree_entries(self.tree).count(f) > 0 ==> crate::spatial::box_dist2(
                                p.x,
                                p.y,
                                e,
                            ) <= crate::spatial::box_dist2(p.x, p.y, f);
                    self.lemma_entry_slot(e);
                }
                k
            },
            None => 0,
        };
        let s0 = &self.segments[j0];
        let (n0, d0) = squared_distance(p, s0);
        let ra = abs_diff(p.x, s0.a.x) + abs_diff(p.y, s0.a.y);
        let rb = abs_diff(p.x, s0.b.x) + abs_diff(p.y, s0.b.y);
        let rad: i64 = if ra <= rb { ra } else { rb };
        proof {
            let (px, py) = (p.x as int, p.y as int);
            let (ax, ay, bx, by) = (s0.a.x as int, s0.a.y as int, s0.b.x as int, s0.b.y as int);
            lemma_dist_at_most_first_end(px, py, ax, ay, bx, by);
            lemma_dist_at_most_second_end(px, py, ax, ay, bx, by);
            crate::geometry::lemma_dist_positive_den(*p, *s0);
            let e2 = if ra <= rb {
                lemma_l1_bounds_l2(px - ax, py - ay, rad as int);
                (px - ax) * (px - ax) + (py - ay) * (py - ay)
            } else {
                lemma_l1_bounds_l2(px - bx, py - by, rad as int);
                (px - bx) * (px - bx) + (py - by) * (py - by)
            };
            assert(n0 <= rad * rad * d0) by (nonlinear_arith)
                requires
                    n0 <= e2 * d0,
                    e2 <= rad * rad,
                    d0 > 0,
            ;
        }
        let (lx, ly, hx, hy) = (p.x - rad, p.y - rad, p.x + rad, p.y + rad);
        let cands = slots_meeting(&self.tree, lx, ly, hx, hy);
        proof {
            assert forall|q: int| 0 <= q < cands@.len() implies #[trigger] cands@[q] < n by {
                let e = choose|e: BoxEntry|
                    #![trigger tree_entries(self.tree).count(e)]
                    tree_entries(self.tree).contains(e) && e.4 == cands@[q] && entry_meets(e, lx, ly, hx, hy);
                self.lemma_entry_slot(e);
            }
            crate::geometry::lemma_dist_positive_den(*p, *s0);
        }
        let mut best: usize = j0;
        let mut bn: u128 = n0;
        let mut bd: u128 = d0;
        let mut i: usize = 0;
        while i < cands.len()
            invariant
                self.wf(),
                segs == self.segments@,
                n == segs.len(),
                point_ok(*p),
                j0 < n,
                best < n,
                bn == dist_num(*p, segs[best as int]),
                bd == dist_den(*p, segs[best as int]),
                beats(segs, *p, best as int, j0 as int),
                i <= cands@.len(),
                forall|q: int| 0 <= q < cands@.len() ==> #[trigger] cands@[q] < n,
                forall|q: int|
                    0 <= q < i ==> #[trigger] beats(segs, *p, best as int, cands@[q] as int),
            decreases cands@.len() - i,
        {
            let c = cands[i];
            let (cn, cd) = squared_distance(p, &self.segments[c]);
            proof {
                lemma_dist_bounds(*p, segs[best as int]);
            }
            let closer = frac_less(cn, cd, bn, bd);
            let tied = !closer && !frac_less(bn, bd, cn, cd);
            if closer || (tied && c < best) {
                proof {
                    assert(beats(segs, *p, c as int, best as int));
                    lemma_beats_trans(segs, *p, c as int, best as int, j0 as int);
                    assert forall|q: int| 0 <= q < i implies #[trigger] beats(
                        segs,
                        *p,
                        c as int,
                        cands@[q] as int,
                    ) by {
                        lemma_beats_trans(segs, *p, c as int, best as int, cands@[q] as int);
                    }
                }
                best = c;
                bn = cn;
                bd = cd;
            }
            proof {
                assert(beats(segs, *p, best as int, c as int));
            }
            i = i + 1;
        }
        proof {
            assert forall|k: int| 0 <= k < segs.len() implies #[trigger] beats(
                segs,
                *p,
                best as int,
                k,
            ) by {
                crate::geometry::lemma_dist_positive_den(*p, segs[k]);
                crate::geometry::lemma_dist_positive_den(*p, segs[best as int]);
                if box_meets(segs[k], *p, rad as int) {
                    let e = entry_of(segs[k], k);
                    assert(entries_of(segs)[k] == e);
                    assert(tree_entries(self.tree).count(e) > 0);
                    assert(cands@.contains(e.4));
                    let q = choose|q: int| 0 <= q < cands@.len() && cands@[q] == e.4;
                    assert(beats(segs, *p, best as int, cands@[q] as int));
                } else {
                    lemma_far_box(*p, segs[k], rad as int);
                    lemma_strictly_closer(
                        bn as int,
                        bd as int,
                        n0 as int,
                        d0 as int,
                        dist_num(*p, segs[k]),
                        dist_den(*p, segs[k]),
                        rad as int,
                    );
                }
            }
            lemma_nearest_slot_is(segs, *p, best as int);
        }
        Ok(QueryResult { id: self.segments[best].id, dist_num: bn, dist_den: bd })
    }

    /// Answers every point of `points`, in order; fails as a whole when the
    /// index is empty and there is at least one point.
    pub fn nearest_all(&self, points: &Vec<Point>) -> (r: Result<Vec<QueryResult>, NearestError>)
        requires
            self.wf(),
            all_points_ok(points@),
        ensures
            r is Ok <==> (self@.len() > 0 || points@.len() == 0),
            r matches Ok(v) ==> v@.len() == points@.len() && forall|k: int|
                0 <= k < points@.len() ==> #[trigger] v@[k] == nearest_result(self@, points@[k]),
            r matches Err(e) ==> e == NearestError::EmptyIndex,
    {
        let mut out: Vec<QueryResult> = Vec::new();
        let mut i: usize = 0;
        while i < points.len()
            invariant
                self.wf(),
                all_points_ok(points@),
                i <= points@.len(),
                out@.len() == i,
                i > 0 ==> self@.len() > 0,
                forall|k: int| 0 <= k < i ==> #[trigger] out@[k] == nearest_result(self@, points@[k]),
            decreases points@.len() - i,
        {
            match self.nearest(&points[i]) {
                Ok(q) => out.push(q),
                Err(e) => return Err(e),
            }
            i = i + 1;
        }
        Ok(out)
    }
}

} // verus!
