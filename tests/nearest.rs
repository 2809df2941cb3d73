use segment_nearest::boundary::compute_nearest;
use segment_nearest::geometry::{squared_distance, Point, Segment, COORD_LIMIT};
use segment_nearest::index::{NearestError, QueryResult, SegmentIndex};

fn distance(q: &QueryResult) -> f64 {
    (q.dist_num as f64 / q.dist_den as f64).sqrt()
}

fn seg(x1: i64, y1: i64, x2: i64, y2: i64, id: i64) -> Segment {
    Segment { a: Point { x: x1, y: y1 }, b: Point { x: x2, y: y2 }, id }
}

#[test]
fn horizontal_segment_point_above() {
    let r = compute_nearest(vec![0, 0, 10, 0, 1], vec![5, 5]).unwrap();
    assert_eq!(r.len(), 1);
    assert_eq!(r[0].id, 1);
    assert_eq!(r[0].dist_num, 25 * r[0].dist_den);
    assert_eq!(distance(&r[0]), 5.0);
}

#[test]
fn degenerate_segment_acts_as_point() {
    let r = compute_nearest(vec![0, 0, 0, 0, 2], vec![3, 4]).unwrap();
    assert_eq!(r, vec![QueryResult { id: 2, dist_num: 25, dist_den: 1 }]);
    assert_eq!(distance(&r[0]), 5.0);
}

#[test]
fn equidistant_segments_are_deterministic() {
    let lines = vec![-5, 0, -5, 10, 1, 5, 0, 5, 10, 2];
    let first = compute_nearest(lines.clone(), vec![0, 5]).unwrap();
    assert!(first[0].id == 1 || first[0].id == 2);
    assert_eq!(distance(&first[0]), 5.0);
    for _ in 0..5 {
        assert_eq!(compute_nearest(lines.clone(), vec![0, 5]).unwrap(), first);
    }
    let index = SegmentIndex::build(vec![seg(-5, 0, -5, 10, 1), seg(5, 0, 5, 10, 2)]);
    let a = index.nearest(&Point { x: 0, y: 5 }).unwrap();
    let b = index.nearest(&Point { x: 0, y: 5 }).unwrap();
    assert_eq!(a, b);
    assert_eq!(a.id, 1);
}

#[test]
fn empty_segment_set_fails() {
    assert_eq!(compute_nearest(vec![], vec![0, 0]), Err(NearestError::EmptyIndex));
    let index = SegmentIndex::build(vec![]);
    assert_eq!(index.len(), 0);
    assert_eq!(index.nearest(&Point { x: 0, y: 0 }), Err(NearestError::EmptyIndex));
    assert_eq!(
        index.nearest_all(&vec![Point { x: 1, y: 1 }, Point { x: 2, y: 2 }]),
        Err(NearestError::EmptyIndex)
    );
    assert_eq!(index.nearest_all(&vec![]), Ok(vec![]));
}

#[test]
fn malformed_segment_array_rejected() {
    assert_eq!(
        compute_nearest(vec![0, 0, 1, 1, 1, 2, 2], vec![0, 0]),
        Err(NearestError::MalformedSegments)
    );
}

#[test]
fn malformed_point_array_rejected() {
    assert_eq!(
        compute_nearest(vec![0, 0, 1, 1, 1], vec![0, 0, 3]),
        Err(NearestError::MalformedPoints)
    );
}

#[test]
fn out_of_range_coordinate_rejected() {
    assert_eq!(
        compute_nearest(vec![0, 0, COORD_LIMIT + 1, 0, 1], vec![0, 0]),
        Err(NearestError::CoordinateOutOfRange)
    );
    assert_eq!(
        compute_nearest(vec![0, 0, 1, 0, 1], vec![0, -COORD_LIMIT - 1]),
        Err(NearestError::CoordinateOutOfRange)
    );
    assert!(compute_nearest(vec![COORD_LIMIT, -COORD_LIMIT, -COORD_LIMIT, COORD_LIMIT, 9], vec![COORD_LIMIT, COORD_LIMIT]).is_ok());
}

#[test]
fn point_on_segment_has_zero_distance() {
    let r = compute_nearest(vec![0, 0, 10, 0, 7, 0, 3, 10, 3, 8], vec![3, 0, 10, 0, 0, 0, 5, 3]).unwrap();
    assert_eq!(r[0], QueryResult { id: 7, dist_num: 0, dist_den: 100 });
    assert_eq!(r[1], QueryResult { id: 7, dist_num: 0, dist_den: 1 });
    assert_eq!(r[2].dist_num, 0);
    assert_eq!((r[3].id, r[3].dist_num), (8, 0));
}

#[test]
fn results_follow_point_order() {
    let lines = vec![0, 0, 0, 10, 1, 100, 0, 100, 10, 2, 50, 50, 60, 50, 3];
    let r = compute_nearest(lines, vec![101, 5, 55, 52, -1, 3, 99, 20]).unwrap();
    let ids: Vec<i64> = r.iter().map(|q| q.id).collect();
    assert_eq!(ids, vec![2, 3, 1, 2]);
    assert_eq!(distance(&r[0]), 1.0);
    assert_eq!(distance(&r[1]), 2.0);
    assert_eq!(distance(&r[2]), 1.0);
    assert_eq!(r[3].dist_num, 101 * r[3].dist_den);
}

#[test]
fn interior_projection_distance_is_exact() {
    let (n, d) = squared_distance(&Point { x: 1, y: 3 }, &seg(0, 0, 4, 2, 0));
    // foot at (2, 1): squared distance 5
    assert_eq!(n, 5 * d);
    let (n, d) = squared_distance(&Point { x: 6, y: 3 }, &seg(0, 0, 4, 2, 0));
    assert_eq!((n, d), (5, 1));
}

fn brute_force(segs: &[Segment], p: Point) -> (u128, u128) {
    let mut best = squared_distance(&p, &segs[0]);
    for s in segs {
        let (n, d) = squared_distance(&p, s);
        if n * best.1 < best.0 * d {
            best = (n, d);
        }
    }
    best
}

#[test]
fn agrees_with_exhaustive_scan() {
    let mut segs = Vec::new();
    let mut seed: i64 = 12345;
    let mut next = || {
        seed = (seed * 1103515245 + 12345) % 2147483648;
        (seed % 201) - 100
    };
    for k in 0..60 {
        let (x1, y1) = (next(), next());
        let (x2, y2) = if k % 7 == 0 { (x1, y1) } else { (x1 + next() / 4, y1 + next() / 4) };
        segs.push(seg(x1, y1, x2, y2, k));
    }
    let index = SegmentIndex::build(segs.clone());
    for _ in 0..200 {
        let p = Point { x: next() * 2, y: next() * 2 };
        let q = index.nearest(&p).unwrap();
        let (bn, bd) = brute_force(&segs, p);
        assert_eq!(q.dist_num * bd, bn * q.dist_den);
        let winner = segs.iter().position(|s| s.id == q.id).unwrap();
        assert_eq!(squared_distance(&p, &segs[winner]), (q.dist_num, q.dist_den));
        let first = segs.iter().position(|s| {
            let (n, d) = squared_distance(&p, s);
            n * bd == bn * d
        });
        assert_eq!(first, Some(winner));
    }
}
