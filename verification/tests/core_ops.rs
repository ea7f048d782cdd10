//! Tests of the coordinate model, the distance function, the grid sampler
//! and the candidate retention structure.

use pole_finder::Point;
use pole_finder::OptimizedPoint;
use pole_finder::WeightedPoint;
use pole_finder::CandidateSet;
use pole_finder::sample_values;
use pole_finder::geo::distance;
use pole_finder::geo::MAX_DISTANCE_MM;

#[test]
fn distance_identical_points_is_zero() {
    let p: Point = Point::create_degrees(12_345_678, -98_765_432);
    let op: OptimizedPoint = OptimizedPoint::from(p);
    assert_eq!(distance(&op, &op), 0);
    let q: Point = Point::create_degrees(-89_000_000, 179_000_000);
    let oq: OptimizedPoint = OptimizedPoint::from(q);
    assert_eq!(distance(&oq, &oq), 0);
}

#[test]
fn distance_antipodal_equator_is_maximum() {
    let a: OptimizedPoint = OptimizedPoint::from(Point::create_degrees(0, 10_000_000));
    let b: OptimizedPoint = OptimizedPoint::from(Point::create_degrees(0, -170_000_000));
    assert_eq!(distance(&a, &b), MAX_DISTANCE_MM);
}

#[test]
fn distance_antipodal_off_equator_near_maximum() {
    // At 45 degrees the squared sine and cosine no longer sum to exactly one
    // in Q30, so the antipodal distance is the maximum only to within a few
    // kilometres.
    let a: OptimizedPoint = OptimizedPoint::from(Point::create_degrees(45_000_000, 0));
    let b: OptimizedPoint = OptimizedPoint::from(Point::create_degrees(-45_000_000, 180_000_000));
    let d: u64 = distance(&a, &b);
    assert!(d <= MAX_DISTANCE_MM);
    assert!(MAX_DISTANCE_MM - d < 5_000_000);
}

#[test]
fn distance_is_symmetric() {
    let a: OptimizedPoint = OptimizedPoint::from(Point::create_degrees(0, 0));
    let b: OptimizedPoint = OptimizedPoint::from(Point::create_degrees(10_000_000, 5_000_000));
    assert_eq!(distance(&a, &b), distance(&b, &a));
    assert_eq!(distance(&a, &b), 1_241_930_794);
    let c: OptimizedPoint = OptimizedPoint::from(Point::create_degrees(-33_000_000, 151_000_000));
    let d: OptimizedPoint = OptimizedPoint::from(Point::create_degrees(51_500_000, -100_000));
    assert_eq!(distance(&c, &d), distance(&d, &c));
}

#[test]
fn distance_one_degree_of_equator() {
    // Ten degrees along the equator: ten times the one-degree arc length.
    let a: OptimizedPoint = OptimizedPoint::from(Point::create_degrees(0, 0));
    let b: OptimizedPoint = OptimizedPoint::from(Point::create_degrees(0, 10_000_000));
    assert_eq!(distance(&a, &b), 1_111_949_262);
}

#[test]
fn optimized_round_trip_recovers_point() {
    let p: Point = Point::create_degrees(33_500_000, -120_250_000);
    let back: Point = Point::from(OptimizedPoint::from(p));
    assert_eq!(back, p);
    let q: Point = Point::create_degrees(-67_891_234, 12_000_001);
    let back_q: Point = Point::from(OptimizedPoint::from(q));
    assert_eq!(back_q, q);
}

#[test]
fn optimized_round_trip_at_pole_keeps_latitude() {
    let p: Point = Point::create_degrees(90_000_000, 77_000_000);
    let back: Point = Point::from(OptimizedPoint::from(p));
    assert_eq!(back.get_lat_degrees(), 90_000_000);
    assert_eq!(back.get_long_degrees(), 77_000_000);
}

#[test]
fn optimized_round_trip_wraps_negative_half_turn() {
    // -180 and +180 degrees are the same meridian; the recovery reports it
    // as +180.
    let p: Point = Point::create_degrees(5_000_000, -180_000_000);
    let back: Point = Point::from(OptimizedPoint::from(p));
    assert_eq!(back.get_lat_degrees(), 5_000_000);
    assert_eq!(back.get_long_degrees(), 180_000_000);
}

#[test]
fn create_radians_converts_to_degrees() {
    // pi/2 radians is a quarter turn: 1_570_796_327 nanoradians.
    let p: Point = Point::create_radians(1_570_796_327, -1_570_796_327);
    assert_eq!(p.get_lat_degrees(), 90_000_000);
    assert_eq!(p.get_long_degrees(), -90_000_000);
    let z: Point = Point::create_radians(0, 0);
    assert_eq!(z.get_lat_degrees(), 0);
    assert_eq!(z.get_long_degrees(), 0);
}

#[test]
fn sampler_unit_interval_four_steps() {
    // The unit interval held in microunits, four steps: five evenly spaced
    // values 0, 0.25, 0.5, 0.75, 1.
    let v: Vec<i64> = sample_values(0, 1_000_000, 4);
    assert_eq!(v, vec![0, 250_000, 500_000, 750_000, 1_000_000]);
}

#[test]
fn sampler_zero_steps_yields_single_value() {
    let v: Vec<i64> = sample_values(42, 99, 0);
    assert_eq!(v, vec![42]);
}

#[test]
fn sampler_whole_sphere_axis() {
    let v: Vec<i64> = sample_values(-90_000_000, 90_000_000, 180);
    assert_eq!(v.len(), 181);
    assert_eq!(v[0], -90_000_000);
    assert_eq!(v[1], -89_000_000);
    assert_eq!(v[180], 90_000_000);
}

fn wp(lat: i64, weight: u64) -> WeightedPoint {
    WeightedPoint { point: Point::create_degrees(lat, 0), weight }
}

#[test]
fn retention_drains_band_within_allowance() {
    // Weights 3, 5, 5, 4 with an allowance of 1: the threshold is 5 - 1 = 4,
    // so draining yields 5, 5, 4 in descending order and excludes 3.
    let mut cs: CandidateSet = CandidateSet::new(1);
    cs.insert(wp(1, 3));
    cs.insert(wp(2, 5));
    cs.insert(wp(3, 5));
    cs.insert(wp(4, 4));
    let drained: Vec<WeightedPoint> = cs.drain();
    assert_eq!(drained.len(), 3);
    assert_eq!(drained[0].weight, 5);
    assert_eq!(drained[1].weight, 5);
    assert_eq!(drained[2].weight, 4);
    // equal weights drain by descending latitude
    assert_eq!(drained[0].point.get_lat_degrees(), 3);
    assert_eq!(drained[1].point.get_lat_degrees(), 2);
}

#[test]
fn retention_zero_allowance_keeps_single_best() {
    // With a zero allowance only strict improvements are admitted, so a
    // later tie cannot displace the first candidate that reached the
    // maximum.
    let mut cs: CandidateSet = CandidateSet::new(0);
    cs.insert(wp(1, 1));
    cs.insert(wp(2, 2));
    cs.insert(wp(3, 5));
    cs.insert(wp(4, 5));
    cs.insert(wp(5, 3));
    let drained: Vec<WeightedPoint> = cs.drain();
    assert_eq!(drained.len(), 1);
    assert_eq!(drained[0].weight, 5);
    assert_eq!(drained[0].point.get_lat_degrees(), 3);
}

#[test]
fn retention_below_band_candidate_is_skipped() {
    let mut cs: CandidateSet = CandidateSet::new(10);
    cs.insert(wp(1, 100));
    cs.insert(wp(2, 80));
    assert_eq!(cs.len(), 1);
    cs.insert(wp(3, 90));
    assert_eq!(cs.len(), 2);
}
