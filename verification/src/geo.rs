//! Points on the sphere and the great-circle distance between them.
//!
//! A `Point` holds latitude and longitude in millionths of a degree
//! (microdegrees); canonical coordinates have latitude in [-90e6, 90e6] and
//! longitude in [-180e6, 180e6], but as in most geographic libraries the
//! range is a documented caller obligation, not a checked one. Distances are
//! in millimetres on a sphere of radius 6371 km.

use vstd::prelude::*;
use vstd::arithmetic::div_mod::lemma_div_pos_is_pos;
use vstd::arithmetic::div_mod::lemma_div_is_ordered;
use vstd::arithmetic::div_mod::lemma_small_mod;
use crate::trig::ONE_Q30;
use crate::trig::SCALE_Q20;
use crate::trig::MM_PER_UDEG_Q20;
use crate::trig::UDEG_PER_NRAD_Q30;
use crate::trig::HALF_TURN_UDEG;
use crate::trig::QUARTER_TURN_UDEG;
use crate::trig::iabs;
use crate::trig::sin_q30;
use crate::trig::sin_pos;
use crate::trig::sin_half;
use crate::trig::sin_core;
use crate::trig::sin_taylor;
use crate::trig::cos_taylor;
use crate::trig::q30_of_udeg;
use crate::trig::cos_q30;
use crate::trig::sqrt_spec;
use crate::trig::asin_udeg;
use crate::trig::atan2_udeg;
use crate::trig::lemma_sin_range;
use crate::trig::lemma_asin_range;
use crate::trig::lemma_sqrt_property;
use crate::trig::sin_udeg;
use crate::trig::cos_udeg;
use crate::trig::sin_pos_x;
use crate::trig::isqrt;
use crate::trig::asin_udeg_x;
use crate::trig::atan2_udeg_x;

verus! {

/// Greatest possible great-circle distance in millimetres: half the
/// circumference of the 6371 km sphere, as this library rounds it.
pub const MAX_DISTANCE_MM: u64 = 20015086727;

/// A location on the sphere: latitude and longitude in microdegrees.
#[derive(Debug, Clone, Copy, PartialEq, Eq, Structural)]
pub struct Point {
    pub lat: i64,
    pub long: i64,
}

/// A point together with the Q30 sine and cosine of each coordinate,
/// precomputed so that repeated distance evaluations avoid refolding the
/// latitude's trigonometry.
#[derive(Debug, Clone, Copy, PartialEq, Eq, Structural)]
pub struct OptimizedPoint {
    pub lat: i64,
    pub long: i64,
    pub sin_lat: i64,
    pub cos_lat: i64,
    pub sin_long: i64,
    pub cos_long: i64,
}

/// The optimized form of a point: its coordinates plus their Q30 sine and
/// cosine values.
pub open spec fn optimized_spec(p: Point) -> OptimizedPoint {
    OptimizedPoint {
        lat: p.lat,
        long: p.long,
        sin_lat: sin_q30(p.lat as int) as i64,
        cos_lat: cos_q30(p.lat as int) as i64,
        sin_long: sin_q30(p.long as int) as i64,
        cos_long: cos_q30(p.long as int) as i64,
    }
}

/// The point recovered from an optimized form: each coordinate is rebuilt
/// from its (sine, cosine) pair.
pub open spec fn recovered_spec(op: OptimizedPoint) -> Point {
    Point {
        lat: atan2_udeg(op.sin_lat as int, op.cos_lat as int) as i64,
        long: atan2_udeg(op.sin_long as int, op.cos_long as int) as i64,
    }
}

impl Point {
    /// Builds a point from degree-valued coordinates, given in microdegrees
    /// (millionths of a degree), the unit points are stored in.
    pub fn create_degrees(lat: i64, long: i64) -> (p: Point)
        ensures
            p == (Point { lat, long }),
    {
        Point { lat, long }
    }

    /// Builds a point from radian-valued coordinates, given in nanoradians
    /// (billionths of a radian), converting them to microdegrees.
    pub fn create_radians(lat: i64, long: i64) -> (p: Point)
        ensures
            p == (Point {
                lat: udeg_of_nrad(lat as int) as i64,
                long: udeg_of_nrad(long as int) as i64,
            }),
    {
        Point { lat: nrad_to_udeg(lat), long: nrad_to_udeg(long) }
    }

    /// Latitude in microdegrees.
    pub fn get_lat_degrees(&self) -> (r: i64)
        ensures
            r == self.lat,
    {
        self.lat
    }

    /// Longitude in microdegrees.
    pub fn get_long_degrees(&self) -> (r: i64)
        ensures
            r == self.long,
    {
        self.long
    }
}

/// Nanoradians to microdegrees: scale by UDEG_PER_NRAD_Q30 / 2^30, rounding
/// toward zero.
pub open spec fn udeg_of_nrad(nrad: int) -> int {
    if nrad < 0 {
        -((-nrad) * (UDEG_PER_NRAD_Q30 as int) / (ONE_Q30 as int))
    } else {
        nrad * (UDEG_PER_NRAD_Q30 as int) / (ONE_Q30 as int)
    }
}

fn nrad_to_udeg(nrad: i64) -> (r: i64)
    ensures
        r as int == udeg_of_nrad(nrad as int),
{
    proof {
        lemma_udeg_of_nrad_bound(nrad as int);
    }
    if nrad < 0 {
        let m: u128 = (-(nrad as i128)) as u128;
        let v: u128 = m * 61520875 / 1073741824;
        -(v as i64)
    } else {
        let v: u128 = (nrad as u128) * 61520875 / 1073741824;
        v as i64
    }
}

proof fn lemma_udeg_of_nrad_bound(nrad: int)
    requires
        -0x8000000000000000 <= nrad < 0x8000000000000000,
    ensures
        iabs(udeg_of_nrad(nrad)) < 0x8000000000000000,
{
    let c: int = UDEG_PER_NRAD_Q30 as int;
    let one: int = ONE_Q30 as int;
    let m: int = iabs(nrad);
    assert(m * c <= 0x8000000000000000 * c) by (nonlinear_arith)
        requires m <= 0x8000000000000000 && c > 0;
    assert(m * c >= 0) by (nonlinear_arith)
        requires m >= 0 && c >= 0;
    lemma_div_pos_is_pos(m * c, one);
    lemma_div_is_ordered(m * c, 0x8000000000000000 * c, one);
}

impl View for Points {
    type V = Seq<Point>;

    closed spec fn view(&self) -> Seq<Point> {
        self.items@
    }
}

/// The input collection: an append-only sequence of points.
pub struct Points {
    items: Vec<Point>,
}

impl Points {
    /// An empty collection.
    pub fn new() -> (r: Points)
        ensures
            r@ == Seq::<Point>::empty(),
    {
        Points { items: Vec::new() }
    }

    /// Appends one point.
    pub fn push(&mut self, point: Point)
        ensures
            final(self)@ == old(self)@.push(point),
    {
        self.items.push(point);
    }

    /// How many points the collection holds.
    pub fn len(&self) -> (n: usize)
        ensures
            n == self@.len(),
    {
        self.items.len()
    }

    /// The point at a given index.
    pub fn get(&self, i: usize) -> (p: Point)
        requires
            i < self@.len(),
        ensures
            p == self@[i as int],
    {
        self.items[i]
    }
}

/// An optimized point is well formed when its trigonometric components are
/// genuine Q30 values, at most one in magnitude.
pub open spec fn op_wf(op: OptimizedPoint) -> bool {
    &&& iabs(op.sin_lat as int) <= ONE_Q30 as int
    &&& iabs(op.cos_lat as int) <= ONE_Q30 as int
    &&& iabs(op.sin_long as int) <= ONE_Q30 as int
    &&& iabs(op.cos_long as int) <= ONE_Q30 as int
}

/// The optimized form of any point is well formed.
pub proof fn lemma_optimized_wf(p: Point)
    ensures
        op_wf(optimized_spec(p)),
{
    lemma_sin_range(p.lat as int);
    lemma_sin_range(p.lat as int + QUARTER_TURN_UDEG as int);
    lemma_sin_range(p.long as int);
    lemma_sin_range(p.long as int + QUARTER_TURN_UDEG as int);
}

impl From<Point> for OptimizedPoint {
    /// Precomputes the four trigonometric components of a point.
    fn from(p: Point) -> (r: OptimizedPoint) {
        OptimizedPoint {
            lat: p.lat,
            long: p.long,
            sin_lat: sin_udeg(p.lat),
            cos_lat: cos_udeg(p.lat),
            sin_long: sin_udeg(p.long),
            cos_long: cos_udeg(p.long),
        }
    }
}

impl vstd::std_specs::convert::FromSpecImpl<Point> for OptimizedPoint {
    open spec fn obeys_from_spec() -> bool {
        true
    }

    open spec fn from_spec(p: Point) -> OptimizedPoint {
        optimized_spec(p)
    }
}

impl From<OptimizedPoint> for Point {
    /// Recovers a point from its optimized form, rebuilding each coordinate
    /// from its (sine, cosine) pair.
    fn from(op: OptimizedPoint) -> (r: Point) {
        Point {
            lat: atan2_udeg_x(op.sin_lat, op.cos_lat),
            long: atan2_udeg_x(op.sin_long, op.cos_long),
        }
    }
}

impl vstd::std_specs::convert::FromSpecImpl<OptimizedPoint> for Point {
    open spec fn obeys_from_spec() -> bool {
        true
    }

    open spec fn from_spec(op: OptimizedPoint) -> Point {
        recovered_spec(op)
    }
}

/// The haversine-style argument: squared sine of the half-difference in
/// latitude, plus the product of the cosines of the latitudes times the
/// squared sine of the half-difference in longitude, all in Q60. Negative
/// cosine products (coordinates beyond the canonical ranges) clamp at zero.
pub open spec fn hav_q60(s1: int, s2: int, c1: int, c2: int) -> int {
    let one: int = ONE_Q30 as int;
    let m1: int = iabs(c1) * iabs(c2) / one;
    let prod: int = m1 * (s2 * s2) / one;
    let sq1: int = s1 * s1;
    if (c1 < 0) != (c2 < 0) {
        if prod > sq1 {
            0
        } else {
            sq1 - prod
        }
    } else {
        sq1 + prod
    }
}

/// Great-circle distance in millimetres from the half-differences of the
/// coordinates (in microdegrees) and the cosines of the latitudes (Q30).
pub open spec fn distance_parts(dphi: int, dlam: int, c1: int, c2: int) -> int {
    let s1: int = sin_q30(dphi);
    let s2: int = sin_q30(dlam);
    let h: int = hav_q60(s1, s2, c1, c2);
    let s: int = sqrt_spec(h);
    let a: int = asin_udeg(s);
    2 * a * (MM_PER_UDEG_Q20 as int) / (SCALE_Q20 as int)
}

/// Great-circle distance in millimetres between two optimized points.
pub open spec fn distance_spec(p1: OptimizedPoint, p2: OptimizedPoint) -> int {
    distance_parts(
        iabs(p1.lat - p2.lat) / 2,
        iabs(p1.long - p2.long) / 2,
        p1.cos_lat as int,
        p2.cos_lat as int,
    )
}

/// Great-circle distance in millimetres between two optimized points, by the
/// haversine formulation: exact half-angle differences keep the result well
/// conditioned near zero, and the result is exactly zero for equal
/// coordinates.
pub fn distance(p1: &OptimizedPoint, p2: &OptimizedPoint) -> (d: u64)
    requires
        op_wf(*p1),
        op_wf(*p2),
    ensures
        d as int == distance_spec(*p1, *p2),
        d <= MAX_DISTANCE_MM,
{
    let one: u128 = 1073741824;
    let dphi_i: i128 = p1.lat as i128 - p2.lat as i128;
    let dphi: u128 = (if dphi_i < 0 {
        -dphi_i
    } else {
        dphi_i
    }) as u128 / 2;
    let dlam_i: i128 = p1.long as i128 - p2.long as i128;
    let dlam: u128 = (if dlam_i < 0 {
        -dlam_i
    } else {
        dlam_i
    }) as u128 / 2;
    let s1: i64 = sin_pos_x(dphi);
    let s2: i64 = sin_pos_x(dlam);
    proof {
        assert(s2 as int * s2 as int >= 0) by (nonlinear_arith);
        assert(s2 as int * s2 as int <= (ONE_Q30 as int) * (ONE_Q30 as int)) by (nonlinear_arith)
            requires -(ONE_Q30 as int) <= s2 as int <= ONE_Q30 as int;
        assert(s1 as int * s1 as int >= 0) by (nonlinear_arith);
        assert(s1 as int * s1 as int <= (ONE_Q30 as int) * (ONE_Q30 as int)) by (nonlinear_arith)
            requires -(ONE_Q30 as int) <= s1 as int <= ONE_Q30 as int;
    }
    proof {
        assert(sin_q30(dphi as int) == sin_pos(dphi as int));
        assert(sin_q30(dlam as int) == sin_pos(dlam as int));
    }
    let c1: i64 = p1.cos_lat;
    let c2: i64 = p2.cos_lat;
    let a1: u128 = (if c1 < 0 {
        -(c1 as i128)
    } else {
        c1 as i128
    }) as u128;
    let a2: u128 = (if c2 < 0 {
        -(c2 as i128)
    } else {
        c2 as i128
    }) as u128;
    proof {
        assert(a1 as int * a2 as int <= (ONE_Q30 as int) * (ONE_Q30 as int)) by (nonlinear_arith)
            requires
                0 <= a1 as int <= ONE_Q30 as int,
                0 <= a2 as int <= ONE_Q30 as int,
        ;
        lemma_div_pos_is_pos(a1 as int * a2 as int, ONE_Q30 as int);
        lemma_div_is_ordered(
            a1 as int * a2 as int,
            (ONE_Q30 as int) * (ONE_Q30 as int),
            ONE_Q30 as int,
        );
        assert((ONE_Q30 as int) * (ONE_Q30 as int) / (ONE_Q30 as int) == ONE_Q30 as int)
            by (nonlinear_arith);
    }
    let m1: u128 = a1 * a2 / one;
    let sq2: u128 = ((s2 as i128) * (s2 as i128)) as u128;
    proof {
        assert(m1 as int * (s2 as int * s2 as int) <= (ONE_Q30 as int) * ((ONE_Q30 as int) * (
        ONE_Q30 as int))) by (nonlinear_arith)
            requires
                0 <= m1 as int <= ONE_Q30 as int,
                0 <= s2 as int * s2 as int <= (ONE_Q30 as int) * (ONE_Q30 as int),
        ;
        assert(m1 as int * (sq2 as int) >= 0) by (nonlinear_arith)
            requires m1 as int >= 0 && sq2 as int >= 0;
        lemma_div_pos_is_pos(m1 as int * sq2 as int, ONE_Q30 as int);
        lemma_div_is_ordered(
            m1 as int * sq2 as int,
            (ONE_Q30 as int) * ((ONE_Q30 as int) * (ONE_Q30 as int)),
            ONE_Q30 as int,
        );
        assert((ONE_Q30 as int) * ((ONE_Q30 as int) * (ONE_Q30 as int)) / (ONE_Q30 as int) == (
        ONE_Q30 as int) * (ONE_Q30 as int)) by (nonlinear_arith);
    }
    let prod: u128 = m1 * sq2 / one;
    let sq1: u128 = ((s1 as i128) * (s1 as i128)) as u128;
    let neg: bool = (c1 < 0) != (c2 < 0);
    let h: u128 = if neg {
        if prod > sq1 {
            0
        } else {
            sq1 - prod
        }
    } else {
        sq1 + prod
    };
    let s: u64 = isqrt(h as u64);
    proof {
        lemma_asin_range(s as int);
    }
    let a: u64 = asin_udeg_x(s as i64);
    let d: u128 = 2 * (a as u128) * 116596331 / 1048576;
    proof {
        let mm: int = MM_PER_UDEG_Q20 as int;
        assert(2 * (a as int) * mm <= 2 * (QUARTER_TURN_UDEG as int) * mm) by (nonlinear_arith)
            requires a as int <= QUARTER_TURN_UDEG as int && mm > 0;
        assert(2 * (a as int) * mm >= 0) by (nonlinear_arith)
            requires a as int >= 0 && mm > 0;
        lemma_div_pos_is_pos(2 * (a as int) * mm, SCALE_Q20 as int);
        lemma_div_is_ordered(
            2 * (a as int) * mm,
            2 * (QUARTER_TURN_UDEG as int) * mm,
            SCALE_Q20 as int,
        );
        assert(2 * (QUARTER_TURN_UDEG as int) * mm == 20987339580000000);
        assert(20987339580000000int / (SCALE_Q20 as int) == 20015086727int);
    }
    d as u64
}

/// The distance from any point to itself is zero.
pub proof fn lemma_distance_self_zero(p: Point)
    ensures
        distance_spec(optimized_spec(p), optimized_spec(p)) == 0,
{
    let op = optimized_spec(p);
    assert(iabs(op.lat - op.lat) / 2 == 0);
    lemma_small_mod(0nat, 360000000nat);
    assert(sin_q30(0) == 0);
    let c1: int = op.cos_lat as int;
    let one: int = ONE_Q30 as int;
    let m1: int = iabs(c1) * iabs(c1) / one;
    assert(m1 * (0 * 0) == 0) by (nonlinear_arith);
    vstd::arithmetic::div_mod::lemma_div_of0(one);
    assert(hav_q60(0, 0, c1, c1) == 0);
    lemma_sqrt_property(0);
    let r: int = sqrt_spec(0);
    assert(r == 0) by (nonlinear_arith)
        requires r >= 0 && r * r <= 0;
    assert(asin_udeg(0) == 0);
    assert(2 * 0 * (MM_PER_UDEG_Q20 as int) / (SCALE_Q20 as int) == 0);
}

/// Distance is symmetric in its two points.
pub proof fn lemma_distance_symmetric(p1: OptimizedPoint, p2: OptimizedPoint)
    ensures
        distance_spec(p1, p2) == distance_spec(p2, p1),
{
    assert(iabs(p1.lat - p2.lat) == iabs(p2.lat - p1.lat));
    assert(iabs(p1.long - p2.long) == iabs(p2.long - p1.long));
    let one: int = ONE_Q30 as int;
    let c1: int = p1.cos_lat as int;
    let c2: int = p2.cos_lat as int;
    assert(iabs(c1) * iabs(c2) == iabs(c2) * iabs(c1)) by (nonlinear_arith);
    assert(((c1 < 0) != (c2 < 0)) == ((c2 < 0) != (c1 < 0)));
}

/// No distance exceeds half the sphere's circumference.
pub proof fn lemma_distance_bounded(p1: OptimizedPoint, p2: OptimizedPoint)
    ensures
        0 <= distance_spec(p1, p2) <= MAX_DISTANCE_MM as int,
{
    let dphi: int = iabs(p1.lat - p2.lat) / 2;
    let dlam: int = iabs(p1.long - p2.long) / 2;
    let s1: int = sin_q30(dphi);
    let s2: int = sin_q30(dlam);
    let h: int = hav_q60(s1, s2, p1.cos_lat as int, p2.cos_lat as int);
    let s: int = sqrt_spec(h);
    let a: int = asin_udeg(s);
    lemma_asin_range(s);
    let mm: int = MM_PER_UDEG_Q20 as int;
    assert(2 * a * mm <= 2 * (QUARTER_TURN_UDEG as int) * mm) by (nonlinear_arith)
        requires a <= QUARTER_TURN_UDEG as int && mm > 0;
    assert(2 * a * mm >= 0) by (nonlinear_arith)
        requires a >= 0 && mm > 0;
    lemma_div_pos_is_pos(2 * a * mm, SCALE_Q20 as int);
    lemma_div_is_ordered(
        2 * a * mm,
        2 * (QUARTER_TURN_UDEG as int) * mm,
        SCALE_Q20 as int,
    );
    assert(2 * (QUARTER_TURN_UDEG as int) * mm == 20987339580000000);
    assert(20987339580000000int / (SCALE_Q20 as int) == 20015086727int);
}

/// The sine of zero is zero and the sine of a quarter turn is one, exactly,
/// in this fixed-point representation.
proof fn lemma_sin_exact_values()
    ensures
        sin_q30(0) == 0,
        sin_q30(QUARTER_TURN_UDEG as int) == ONE_Q30 as int,
        cos_q30(0) == ONE_Q30 as int,
{
    lemma_small_mod(0nat, 360000000nat);
    lemma_small_mod(90000000nat, 360000000nat);
    assert(0int % 360000000int == 0);
    assert(90000000int % 360000000int == 90000000int);
    assert(q30_of_udeg(0) == 0);
    assert(sin_taylor(0) == 0);
    assert(sin_core(0) == 0);
    assert(sin_pos(0) == 0);
    assert(cos_taylor(0) == ONE_Q30 as int);
    assert(sin_core(QUARTER_TURN_UDEG as int) == ONE_Q30 as int);
    assert(sin_half(QUARTER_TURN_UDEG as int) == ONE_Q30 as int);
    assert(sin_pos(QUARTER_TURN_UDEG as int) == ONE_Q30 as int);
}

/// A zero half-latitude difference and a quarter-turn half-longitude
/// difference between two equatorial points give exactly the greatest
/// distance.
#[verifier::rlimit(100)]
proof fn lemma_distance_parts_max()
    ensures
        distance_parts(0, QUARTER_TURN_UDEG as int, ONE_Q30 as int, ONE_Q30 as int)
            == MAX_DISTANCE_MM as int,
{
    lemma_sin_exact_values();
    let one: int = ONE_Q30 as int;
    assert(sin_q30(QUARTER_TURN_UDEG as int) == one);
    assert(one * one == 1152921504606846976) by (nonlinear_arith)
        requires one == 1073741824;
    assert(1152921504606846976int / 1073741824int == 1073741824int);
    assert(one * (one * one) == 1237940039285380274899124224) by (nonlinear_arith)
        requires one == 1073741824;
    assert(1237940039285380274899124224int / 1073741824int == 1152921504606846976int);
    assert(iabs(one) == one);
    assert(hav_q60(0, one, one, one) == one * one);
    lemma_sqrt_property(one * one);
    let r: int = sqrt_spec(one * one);
    assert(r == one) by (nonlinear_arith)
        requires
            r >= 0,
            r * r <= 1152921504606846976,
            1152921504606846976 < (r + 1) * (r + 1),
            one == 1073741824,
    ;
    assert(asin_udeg(one) == QUARTER_TURN_UDEG as int);
    assert(2 * (QUARTER_TURN_UDEG as int) * (MM_PER_UDEG_Q20 as int) == 20987339580000000);
    assert(20987339580000000int / (SCALE_Q20 as int) == 20015086727int);
}

/// Two points on the equator whose longitudes differ by a half turn are at
/// exactly the greatest possible distance. (Away from the equator the same
/// antipodal relation gives the maximum only to within fixed-point rounding:
/// the squared sine and cosine of a latitude of, say, 45 degrees do not sum
/// to exactly one in Q30.)
pub proof fn lemma_distance_antipodal_equator(long: i64)
    requires
        -(HALF_TURN_UDEG as int) <= long as int <= 0,
    ensures
        distance_spec(
            optimized_spec(Point { lat: 0, long }),
            optimized_spec(Point { lat: 0, long: (long + HALF_TURN_UDEG) as i64 }),
        ) == MAX_DISTANCE_MM as int,
{
    let p1 = optimized_spec(Point { lat: 0, long });
    let p2 = optimized_spec(Point { lat: 0, long: (long + HALF_TURN_UDEG) as i64 });
    lemma_sin_exact_values();
    assert(p1.cos_lat as int == ONE_Q30 as int);
    assert(p2.cos_lat as int == ONE_Q30 as int);
    assert(iabs(p1.lat - p2.lat) / 2 == 0);
    assert(p2.long as int == long as int + HALF_TURN_UDEG as int);
    assert(iabs(p1.long - p2.long) == HALF_TURN_UDEG as int);
    assert(iabs(p1.long - p2.long) / 2 == QUARTER_TURN_UDEG as int);
    lemma_distance_parts_max();
    assert(distance_spec(p1, p2) == distance_parts(
        0,
        QUARTER_TURN_UDEG as int,
        ONE_Q30 as int,
        ONE_Q30 as int,
    ));
}

} // verus!
