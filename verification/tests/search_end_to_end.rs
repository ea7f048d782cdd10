//! End-to-end tests of the two-phase maximin search.

use pole_finder::Point;
use pole_finder::Points;
use pole_finder::OptimizedPoint;
use pole_finder::SearchError;
use pole_finder::find_most_distant_point;
use pole_finder::find_best_points;
use pole_finder::WeightedPoint;
use pole_finder::geo::distance;
use pole_finder::geo::MAX_DISTANCE_MM;

#[test]
fn empty_input_is_rejected() {
    let points: Points = Points::new();
    let r: Result<Point, SearchError> = find_most_distant_point(&points);
    assert!(matches!(r, Err(SearchError::EmptyInput)));
}

#[test]
fn single_point_finds_antipode() {
    // The point most distant from (0, 0) is its antipode on the equator,
    // and the isolation score there is the maximum possible distance.
    let mut points: Points = Points::new();
    points.push(Point::create_degrees(0, 0));
    let r: Point = find_most_distant_point(&points).unwrap();
    assert_eq!(r.get_lat_degrees(), 0);
    assert_eq!(r.get_long_degrees(), 180_000_000);
    let d: u64 = distance(
        &OptimizedPoint::from(r),
        &OptimizedPoint::from(Point::create_degrees(0, 0)),
    );
    assert_eq!(d, MAX_DISTANCE_MM);
}

#[test]
fn triangle_input_finds_far_circle_center() {
    // Three points forming a rough triangle near the equator. The most
    // distant location is the far centre of the circle through them --- the
    // antipode of the triangle's circumcentre --- so it is nearly
    // equidistant from all three vertices, to within the fine grid's
    // hundredth-of-a-degree resolution.
    let mut points: Points = Points::new();
    points.push(Point::create_degrees(0, 0));
    points.push(Point::create_degrees(0, 10_000_000));
    points.push(Point::create_degrees(10_000_000, 5_000_000));
    let r: Point = find_most_distant_point(&points).unwrap();
    assert_eq!(r.get_lat_degrees(), -3_750_000);
    assert_eq!(r.get_long_degrees(), -175_000_000);
    let ro: OptimizedPoint = OptimizedPoint::from(r);
    let d1: u64 = distance(&ro, &OptimizedPoint::from(Point::create_degrees(0, 0)));
    let d2: u64 = distance(&ro, &OptimizedPoint::from(Point::create_degrees(0, 10_000_000)));
    let d3: u64 = distance(
        &ro,
        &OptimizedPoint::from(Point::create_degrees(10_000_000, 5_000_000)),
    );
    let lo: u64 = d1.min(d2).min(d3);
    let hi: u64 = d1.max(d2).max(d3);
    // near-equidistant: the spread is well under one grid cell (~1.1 km)
    assert!(hi - lo < 1_000_000);
    // and far out: over 19000 km from every vertex
    assert!(lo > 19_000_000_000);
}

#[test]
fn search_is_idempotent() {
    // The search is a pure function of its input: running it twice, or on a
    // freshly rebuilt copy of the same collection, gives identical results.
    let mut points: Points = Points::new();
    points.push(Point::create_degrees(0, 0));
    points.push(Point::create_degrees(30_000_000, 40_000_000));
    let r1: Point = find_most_distant_point(&points).unwrap();
    let r2: Point = find_most_distant_point(&points).unwrap();
    assert_eq!(r1, r2);
    let mut rebuilt: Points = Points::new();
    rebuilt.push(Point::create_degrees(0, 0));
    rebuilt.push(Point::create_degrees(30_000_000, 40_000_000));
    let r3: Point = find_most_distant_point(&rebuilt).unwrap();
    assert_eq!(r1, r3);
}

#[test]
fn grid_pass_returns_single_best_with_zero_allowance() {
    let lats: Vec<i64> = vec![0];
    let longs: Vec<i64> = vec![0, 90_000_000, 180_000_000];
    let opts: Vec<OptimizedPoint> = vec![OptimizedPoint::from(Point::create_degrees(0, 0))];
    let r: Vec<WeightedPoint> = find_best_points(&lats, &longs, &opts, 0);
    assert_eq!(r.len(), 1);
    assert_eq!(r[0].point.get_long_degrees(), 180_000_000);
    assert_eq!(r[0].weight, 20_015_086_727);
}

#[test]
fn grid_pass_retains_band_within_allowance() {
    // The quarter-turn candidate scores 10_007_543_363; an allowance just
    // over the gap to the maximum keeps it in the band, in descending order.
    let lats: Vec<i64> = vec![0];
    let longs: Vec<i64> = vec![0, 90_000_000, 180_000_000];
    let opts: Vec<OptimizedPoint> = vec![OptimizedPoint::from(Point::create_degrees(0, 0))];
    let gap: u64 = 20_015_086_727 - 10_007_543_363;
    let r: Vec<WeightedPoint> = find_best_points(&lats, &longs, &opts, gap);
    assert_eq!(r.len(), 2);
    assert_eq!(r[0].weight, 20_015_086_727);
    assert_eq!(r[1].weight, 10_007_543_363);
}
