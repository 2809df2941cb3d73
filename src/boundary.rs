use vstd::prelude::*;
use crate::geometry::{point_ok, segment_ok, Point, Segment, COORD_LIMIT};
use crate::index::{
    all_points_ok, all_segments_ok, nearest_result, NearestError, QueryResult, SegmentIndex,
};

verus! {

/// The segments packed in a flat array as `[x1, y1, x2, y2, id]` groups.
pub open spec fn segments_of(flat: Seq<i64>) -> Seq<Segment> {
    Seq::new(
        flat.len() / 5,
        |k: int|
            Segment {
                a: Point { x: flat[5 * k], y: flat[5 * k + 1] },
                b: Point { x: flat[5 * k + 2], y: flat[5 * k + 3] },
                id: flat[5 * k + 4],
            },
    )
}

/// The points packed in a flat array as `[x, y]` groups.
pub open spec fn points_of(flat: Seq<i64>) -> Seq<Point> {
    Seq::new(flat.len() / 2, |k: int| Point { x: flat[2 * k], y: flat[2 * k + 1] })
}

fn coord_in_range(c: i64) -> (r: bool)
    ensures
        r == (-COORD_LIMIT <= c <= COORD_LIMIT),
{
    -COORD_LIMIT <= c && c <= COORD_LIMIT
}

/// Unpacks `[x1, y1, x2, y2, id]` groups; `None` when a coordinate is out of range.
pub fn unpack_segments(flat: &Vec<i64>) -> (r: Option<Vec<Segment>>)
    requires
        flat@.len() % 5 == 0,
    ensures
        r is Some <==> all_segments_ok(segments_of(flat@)),
        r matches Some(v) ==> v@ == segments_of(flat@),
{
    let mut out: Vec<Segment> = Vec::new();
    let mut i: usize = 0;
    while i < flat.len()
        invariant
            flat@.len() % 5 == 0,
            i == 5 * out@.len(),
            i <= flat@.len(),
            forall|k: int| 0 <= k < out@.len() ==> #[trigger] out@[k] == segments_of(flat@)[k],
            forall|k: int| 0 <= k < out@.len() ==> segment_ok(#[trigger] out@[k]),
        decreases flat@.len() - i,
    {
        let s = Segment {
            a: Point { x: flat[i], y: flat[i + 1] },
            b: Point { x: flat[i + 2], y: flat[i + 3] },
            id: flat[i + 4],
        };
        if !(coord_in_range(s.a.x) && coord_in_range(s.a.y) && coord_in_range(s.b.x)
            && coord_in_range(s.b.y)) {
            proof {
                assert(segments_of(flat@)[out@.len() as int] == s);
            }
            return None;
        }
        proof {
            assert(segments_of(flat@)[out@.len() as int] == s);
        }
        out.push(s);
        i = i + 5;
    }
    assert(out@ =~= segments_of(flat@));
    Some(out)
}

/// Unpacks `[x, y]` groups; `None` when a coordinate is out of range.
pub fn unpack_points(flat: &Vec<i64>) -> (r: Option<Vec<Point>>)
    requires
        flat@.len() % 2 == 0,
    ensures
        r is Some <==> all_points_ok(points_of(flat@)),
        r matches Some(v) ==> v@ == points_of(flat@),
{
    let mut out: Vec<Point> = Vec::new();
    let mut i: usize = 0;
    while i < flat.len()
        invariant
            flat@.len() % 2 == 0,
            i == 2 * out@.len(),
            i <= flat@.len(),
            forall|k: int| 0 <= k < out@.len() ==> #[trigger] out@[k] == points_of(flat@)[k],
            forall|k: int| 0 <= k < out@.len() ==> point_ok(#[trigger] out@[k]),
        decreases flat@.len() - i,
    {
        let p = Point { x: flat[i], y: flat[i + 1] };
        if !(coord_in_range(p.x) && coord_in_range(p.y)) {
            proof {
                assert(points_of(flat@)[out@.len() as int] == p);
            }
            return None;
        }
        proof {
            assert(points_of(flat@)[out@.len() as int] == p);
        }
        out.push(p);
        i = i + 2;
    }
    assert(out@ =~= points_of(flat@));
    Some(out)
}

/// Builds an index from flat segment data and answers every flat query point,
/// in order. The whole call fails, with no partial result, on a malformed
/// shape, an out-of-range coordinate, or queries against no segments.
pub fn compute_nearest(lines: Vec<i64>, points: Vec<i64>) -> (r: Result<
    Vec<QueryResult>,
    NearestError,
>)
    ensures
        lines@.len() % 5 != 0 ==> r == Err::<Vec<QueryResult>, _>(NearestError::MalformedSegments),
        lines@.len() % 5 == 0 && points@.len() % 2 != 0 ==> r == Err::<Vec<QueryResult>, _>(
            NearestError::MalformedPoints,
        ),
        lines@.len() % 5 == 0 && points@.len() % 2 == 0 && !(all_segments_ok(segments_of(lines@))
            && all_points_ok(points_of(points@))) ==> r == Err::<Vec<QueryResult>, _>(
            NearestError::CoordinateOutOfRange,
        ),
        lines@.len() % 5 == 0 && points@.len() % 2 == 0 && all_segments_ok(segments_of(lines@))
            && all_points_ok(points_of(points@)) ==> {
            let segs = segments_of(lines@);
            let pts = points_of(points@);
            if segs.len() == 0 && pts.len() > 0 {
                r == Err::<Vec<QueryResult>, _>(NearestError::EmptyIndex)
            } else {
                r matches Ok(v) && v@.len() == pts.len() && forall|k: int|
                    0 <= k < pts.len() ==> #[trigger] v@[k] == nearest_result(segs, pts[k])
            }
        },
{
    if lines.len() % 5 != 0 {
        return Err(NearestError::MalformedSegments);
    }
    if points.len() % 2 != 0 {
        return Err(NearestError::MalformedPoints);
    }
    let segs = match unpack_segments(&lines) {
        Some(v) => v,
        None => return Err(NearestError::CoordinateOutOfRange),
    };
    let pts = match unpack_points(&points) {
        Some(v) => v,
        None => return Err(NearestError::CoordinateOutOfRange),
    };
    let index = SegmentIndex::build(segs);
    index.nearest_all(&pts)
}

} // verus!
