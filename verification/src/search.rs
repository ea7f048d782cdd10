//! The two-phase coarse-to-fine maximin search: a one-degree global grid
//! seeds local hundredth-of-a-degree searches, and the best refined result
//! wins.

use vstd::prelude::*;
use crate::geo::Point;
use crate::geo::Points;
use crate::geo::OptimizedPoint;
use crate::geo::optimized_spec;
use crate::geo::distance_spec;
use crate::geo::distance;
use crate::geo::op_wf;
use crate::geo::lemma_optimized_wf;
use crate::retain::WeightedPoint;
use crate::retain::CandidateSet;
use crate::retain::max_weight;
use crate::retain::retained_state;
use crate::retain::drain_spec;
use crate::retain::lemma_retained_nonempty;
use crate::retain::lemma_retained_subset;
use crate::retain::lemma_drain_first;
use crate::retain::lemma_drain_subset;
use crate::sampler::sample_at;
use crate::sampler::sample_values;

verus! {

/// The retention allowance of the coarse pass, in millimetres: the length
/// of one degree of arc at the sphere's surface, i.e. one coarse grid cell.
pub const COARSE_ALLOWANCE_MM: u64 = 111194926;

/// The search failed.
#[derive(Debug, Clone, Copy, PartialEq, Eq, Structural)]
pub enum SearchError {
    /// The input collection was empty: with no points to be distant from,
    /// every location would be infinitely isolated.
    EmptyInput,
}

/// All optimized points in a sequence are well formed.
pub open spec fn all_wf(opts: Seq<OptimizedPoint>) -> bool {
    forall|k: int| 0 <= k < opts.len() ==> op_wf(#[trigger] opts[k])
}

/// The isolation score of a candidate: its least distance to any of the
/// input points.
pub open spec fn score_spec(opts: Seq<OptimizedPoint>, cand: OptimizedPoint) -> int
    decreases opts.len(),
{
    if opts.len() <= 1 {
        distance_spec(opts[0], cand)
    } else {
        let m: int = score_spec(opts.drop_last(), cand);
        let d: int = distance_spec(opts.last(), cand);
        if d < m {
            d
        } else {
            m
        }
    }
}

/// The weighted candidate at a grid location.
pub open spec fn candidate_spec(lat: i64, long: i64, opts: Seq<OptimizedPoint>) -> WeightedPoint {
    WeightedPoint {
        point: Point { lat, long },
        weight: score_spec(opts, optimized_spec(Point { lat, long })) as u64,
    }
}

/// One row of grid candidates: a fixed latitude against every longitude.
pub open spec fn row_spec(lat: i64, longs: Seq<i64>, opts: Seq<OptimizedPoint>) -> Seq<
    WeightedPoint,
>
    decreases longs.len(),
{
    if longs.len() == 0 {
        Seq::empty()
    } else {
        row_spec(lat, longs.drop_last(), opts).push(candidate_spec(lat, longs.last(), opts))
    }
}

/// All grid candidates, row by row, in scan order.
pub open spec fn grid_spec(lats: Seq<i64>, longs: Seq<i64>, opts: Seq<OptimizedPoint>) -> Seq<
    WeightedPoint,
>
    decreases lats.len(),
{
    if lats.len() == 0 {
        Seq::empty()
    } else {
        grid_spec(lats.drop_last(), longs, opts) + row_spec(lats.last(), longs, opts)
    }
}

/// One grid pass: every candidate is offered to a retention structure with
/// the given allowance, and the retained band is drained in descending
/// order.
pub open spec fn best_points_spec(
    lats: Seq<i64>,
    longs: Seq<i64>,
    opts: Seq<OptimizedPoint>,
    allowance: int,
) -> Seq<WeightedPoint> {
    let items = retained_state(grid_spec(lats, longs, opts), allowance);
    drain_spec(items, max_weight(items) - allowance)
}

/// The coarse grid latitudes: one-degree steps over the whole sphere.
pub open spec fn coarse_lats() -> Seq<i64> {
    Seq::new(181, |i: int| sample_at(-90000000, 90000000, 180, i) as i64)
}

/// The coarse grid longitudes: one-degree steps around the whole sphere.
pub open spec fn coarse_longs() -> Seq<i64> {
    Seq::new(361, |i: int| sample_at(-180000000, 180000000, 360, i) as i64)
}

/// A fine grid axis: hundredth-of-a-degree steps across one degree centred
/// on a coarse seed coordinate.
pub open spec fn fine_vals(center: i64) -> Seq<i64> {
    Seq::new(101, |i: int| sample_at(center as int - 500000, center as int + 500000, 100, i) as i64)
}

/// The single best candidate of the fine pass around one seed.
pub open spec fn fine_best_spec(seed: WeightedPoint, opts: Seq<OptimizedPoint>) -> WeightedPoint {
    best_points_spec(fine_vals(seed.point.lat), fine_vals(seed.point.long), opts, 0)[0]
}

/// The best fine-pass result across all seeds; only a strictly greater
/// weight displaces an earlier seed's result.
pub open spec fn best_over_seeds(seeds: Seq<WeightedPoint>, opts: Seq<OptimizedPoint>) -> WeightedPoint
    decreases seeds.len(),
{
    if seeds.len() <= 1 {
        fine_best_spec(seeds[0], opts)
    } else {
        let prev = best_over_seeds(seeds.drop_last(), opts);
        let b = fine_best_spec(seeds.last(), opts);
        if prev.weight < b.weight {
            b
        } else {
            prev
        }
    }
}

/// The optimized forms of the input points.
pub open spec fn opts_of(pts: Seq<Point>) -> Seq<OptimizedPoint> {
    pts.map_values(|p: Point| optimized_spec(p))
}

/// The result of the whole search on a nonempty input.
pub open spec fn search_spec(pts: Seq<Point>) -> Point {
    best_over_seeds(
        best_points_spec(coarse_lats(), coarse_longs(), opts_of(pts), COARSE_ALLOWANCE_MM as int),
        opts_of(pts),
    ).point
}

/// The isolation score really is the minimum: it is no greater than the
/// distance to any input point, and some input point attains it.
pub proof fn lemma_score_is_min(opts: Seq<OptimizedPoint>, cand: OptimizedPoint)
    requires
        opts.len() > 0,
    ensures
        forall|k: int|
            0 <= k < opts.len() ==> score_spec(opts, cand) <= distance_spec(
                #[trigger] opts[k],
                cand,
            ),
        exists|k: int|
            0 <= k < opts.len() && score_spec(opts, cand) == distance_spec(
                #[trigger] opts[k],
                cand,
            ),
    decreases opts.len(),
{
    if opts.len() > 1 {
        lemma_score_is_min(opts.drop_last(), cand);
        assert(forall|k: int|
            0 <= k < opts.len() - 1 ==> opts.drop_last()[k] == #[trigger] opts[k]);
        if score_spec(opts, cand) == score_spec(opts.drop_last(), cand) {
            let k: int = choose|k: int|
                0 <= k < opts.drop_last().len() && score_spec(opts.drop_last(), cand)
                    == distance_spec(#[trigger] opts.drop_last()[k], cand);
            assert(score_spec(opts, cand) == distance_spec(opts[k], cand));
        } else {
            assert(score_spec(opts, cand) == distance_spec(opts[opts.len() - 1], cand));
        }
    }
}

/// The final answer really is the maximum across seeds: its weight is no
/// less than any seed's fine-pass best, and some seed's fine-pass best
/// attains it.
pub proof fn lemma_best_over_seeds_is_max(seeds: Seq<WeightedPoint>, opts: Seq<OptimizedPoint>)
    requires
        seeds.len() > 0,
    ensures
        forall|k: int|
            0 <= k < seeds.len() ==> fine_best_spec(#[trigger] seeds[k], opts).weight
                <= best_over_seeds(seeds, opts).weight,
        exists|k: int|
            0 <= k < seeds.len() && best_over_seeds(seeds, opts) == fine_best_spec(
                #[trigger] seeds[k],
                opts,
            ),
    decreases seeds.len(),
{
    if seeds.len() > 1 {
        lemma_best_over_seeds_is_max(seeds.drop_last(), opts);
        assert(forall|k: int|
            0 <= k < seeds.len() - 1 ==> seeds.drop_last()[k] == #[trigger] seeds[k]);
        if best_over_seeds(seeds, opts) == best_over_seeds(seeds.drop_last(), opts) {
            let k: int = choose|k: int|
                0 <= k < seeds.drop_last().len() && best_over_seeds(seeds.drop_last(), opts)
                    == fine_best_spec(#[trigger] seeds.drop_last()[k], opts);
            assert(best_over_seeds(seeds, opts) == fine_best_spec(seeds[k], opts));
        } else {
            assert(best_over_seeds(seeds, opts) == fine_best_spec(seeds[seeds.len() - 1], opts));
        }
    } else {
        assert(best_over_seeds(seeds, opts) == fine_best_spec(seeds[0], opts));
    }
}

/// The answer lies on one of the fine grids searched, so its coordinates
/// stay within half a degree of the canonical ranges.
pub proof fn lemma_search_result_bounds(pts: Seq<Point>)
    requires
        pts.len() > 0,
    ensures
        -90500000 <= search_spec(pts).lat as int <= 90500000,
        -180500000 <= search_spec(pts).long as int <= 180500000,
{
    let opts = opts_of(pts);
    let seeds = best_points_spec(coarse_lats(), coarse_longs(), opts, COARSE_ALLOWANCE_MM as int);
    assert forall|k: int| 0 <= k < coarse_lats().len() implies -90000000
        <= #[trigger] coarse_lats()[k] as int <= 90000000 by {
        crate::sampler::lemma_sample_in_bounds(-90000000, 90000000, 180, k);
    }
    assert forall|k: int| 0 <= k < coarse_longs().len() implies -180000000
        <= #[trigger] coarse_longs()[k] as int <= 180000000 by {
        crate::sampler::lemma_sample_in_bounds(-180000000, 180000000, 360, k);
    }
    lemma_seed_bounds(
        coarse_lats(),
        coarse_longs(),
        opts,
        COARSE_ALLOWANCE_MM as int,
        -90000000,
        90000000,
        -180000000,
        180000000,
    );
    let gc = grid_spec(coarse_lats(), coarse_longs(), opts);
    lemma_grid_nonempty(coarse_lats(), coarse_longs(), opts);
    lemma_retained_nonempty(gc, COARSE_ALLOWANCE_MM as int);
    let items = retained_state(gc, COARSE_ALLOWANCE_MM as int);
    lemma_drain_first(items, max_weight(items) - COARSE_ALLOWANCE_MM as int);
    lemma_best_over_seeds_is_max(seeds, opts);
    let k: int = choose|k: int|
        0 <= k < seeds.len() && best_over_seeds(seeds, opts) == fine_best_spec(
            #[trigger] seeds[k],
            opts,
        );
    let seed = seeds[k];
    let flats = fine_vals(seed.point.lat);
    let flongs = fine_vals(seed.point.long);
    assert forall|m: int| 0 <= m < flats.len() implies -90500000 <= #[trigger] flats[m] as int
        <= 90500000 by {
        crate::sampler::lemma_sample_in_bounds(
            seed.point.lat as int - 500000,
            seed.point.lat as int + 500000,
            100,
            m,
        );
    }
    assert forall|m: int| 0 <= m < flongs.len() implies -180500000 <= #[trigger] flongs[m] as int
        <= 180500000 by {
        crate::sampler::lemma_sample_in_bounds(
            seed.point.long as int - 500000,
            seed.point.long as int + 500000,
            100,
            m,
        );
    }
    lemma_seed_bounds(flats, flongs, opts, 0, -90500000, 90500000, -180500000, 180500000);
    let gf = grid_spec(flats, flongs, opts);
    lemma_grid_nonempty(flats, flongs, opts);
    lemma_retained_nonempty(gf, 0);
    let fitems = retained_state(gf, 0);
    lemma_drain_first(fitems, max_weight(fitems));
    assert(fine_best_spec(seed, opts) == best_points_spec(flats, flongs, opts, 0)[0]);
}

/// The isolation score of a candidate against a nonempty input set.
pub fn score(opts: &Vec<OptimizedPoint>, cand: &OptimizedPoint) -> (w: u64)
    requires
        opts@.len() > 0,
        all_wf(opts@),
        op_wf(*cand),
    ensures
        w as int == score_spec(opts@, *cand),
{
    let mut w: u64 = distance(&opts[0], cand);
    proof {
        assert(opts@.take(1)[0] == opts@[0]);
    }
    let mut i: usize = 1;
    while i < opts.len()
        invariant
            1 <= i <= opts@.len(),
            all_wf(opts@),
            op_wf(*cand),
            w as int == score_spec(opts@.take(i as int), *cand),
        decreases opts@.len() - i,
    {
        proof {
            assert(opts@.take(i as int + 1).drop_last() =~= opts@.take(i as int));
            assert(opts@.take(i as int + 1).last() == opts@[i as int]);
        }
        let d: u64 = distance(&opts[i], cand);
        if d < w {
            w = d;
        }
        i = i + 1;
    }
    proof {
        assert(opts@.take(opts@.len() as int) =~= opts@);
    }
    w
}

/// One grid pass over precomputed latitude and longitude axes: scores every
/// grid point against the inputs, retains candidates within the allowance
/// of the running maximum, and returns the retained band in descending
/// order.
#[verifier::rlimit(50)]
pub fn find_best_points(
    lats: &Vec<i64>,
    longs: &Vec<i64>,
    opts: &Vec<OptimizedPoint>,
    retain_allowance: u64,
) -> (r: Vec<WeightedPoint>)
    requires
        lats@.len() > 0,
        longs@.len() > 0,
        opts@.len() > 0,
        all_wf(opts@),
    ensures
        r@ == best_points_spec(lats@, longs@, opts@, retain_allowance as int),
        r@.len() > 0,
{
    let ghost allow = retain_allowance as int;
    let mut cs: CandidateSet = CandidateSet::new(retain_allowance);
    proof {
        assert(lats@.take(0) =~= Seq::<i64>::empty());
        assert(cs.items_view() =~= retained_state(grid_spec(lats@.take(0), longs@, opts@), allow));
    }
    let mut i: usize = 0;
    while i < lats.len()
        invariant
            i <= lats@.len(),
            opts@.len() > 0,
            all_wf(opts@),
            cs.wf(),
            cs.allowance_view() == retain_allowance as int,
            allow == retain_allowance as int,
            cs.items_view() == retained_state(grid_spec(lats@.take(i as int), longs@, opts@), allow),
        decreases lats@.len() - i,
    {
        let lat: i64 = lats[i];
        let ghost g = grid_spec(lats@.take(i as int), longs@, opts@);
        proof {
            assert(longs@.take(0) =~= Seq::<i64>::empty());
            assert(g + row_spec(lat, longs@.take(0), opts@) =~= g);
        }
        let mut j: usize = 0;
        while j < longs.len()
            invariant
                j <= longs@.len(),
                i < lats@.len(),
                lat == lats@[i as int],
                g == grid_spec(lats@.take(i as int), longs@, opts@),
                opts@.len() > 0,
                all_wf(opts@),
                cs.wf(),
                cs.allowance_view() == retain_allowance as int,
                allow == retain_allowance as int,
                cs.items_view() == retained_state(g + row_spec(lat, longs@.take(j as int), opts@), allow),
            decreases longs@.len() - j,
        {
            let long: i64 = longs[j];
            let p: Point = Point::create_degrees(lat, long);
            let cand: OptimizedPoint = OptimizedPoint::from(p);
            proof {
                lemma_optimized_wf(p);
            }
            let w: u64 = score(opts, &cand);
            let ghost att = g + row_spec(lat, longs@.take(j as int), opts@);
            cs.insert(WeightedPoint { point: p, weight: w });
            proof {
                assert(WeightedPoint { point: p, weight: w } == candidate_spec(lat, long, opts@));
                let att2 = att.push(candidate_spec(lat, long, opts@));
                assert(att2.drop_last() =~= att);
                assert(longs@.take(j as int + 1).drop_last() =~= longs@.take(j as int));
                assert(longs@.take(j as int + 1).last() == longs@[j as int]);
                assert(row_spec(lat, longs@.take(j as int + 1), opts@) == row_spec(
                    lat,
                    longs@.take(j as int),
                    opts@,
                ).push(candidate_spec(lat, long, opts@)));
                assert(att2 =~= g + row_spec(lat, longs@.take(j as int + 1), opts@));
                assert(retained_state(att2, allow) == cs.items_view());
            }
            j = j + 1;
        }
        proof {
            assert(longs@.take(longs@.len() as int) =~= longs@);
            assert(lats@.take(i as int + 1).drop_last() =~= lats@.take(i as int));
            assert(lats@.take(i as int + 1).last() == lats@[i as int]);
            assert(grid_spec(lats@.take(i as int + 1), longs@, opts@) == g + row_spec(
                lat,
                longs@,
                opts@,
            ));
        }
        i = i + 1;
    }
    proof {
        assert(lats@.take(lats@.len() as int) =~= lats@);
        lemma_grid_nonempty(lats@, longs@, opts@);
        lemma_retained_nonempty(grid_spec(lats@, longs@, opts@), allow);
        let items = retained_state(grid_spec(lats@, longs@, opts@), allow);
        lemma_drain_first(items, max_weight(items) - allow);
    }
    cs.drain()
}

/// A nonempty grid has at least one candidate.
proof fn lemma_grid_nonempty(lats: Seq<i64>, longs: Seq<i64>, opts: Seq<OptimizedPoint>)
    requires
        lats.len() > 0,
        longs.len() > 0,
    ensures
        grid_spec(lats, longs, opts).len() > 0,
    decreases lats.len(),
{
    lemma_row_props(lats.last(), longs, opts);
}

/// A row has one candidate per longitude, in order.
proof fn lemma_row_props(lat: i64, longs: Seq<i64>, opts: Seq<OptimizedPoint>)
    ensures
        row_spec(lat, longs, opts).len() == longs.len(),
        forall|k: int|
            0 <= k < longs.len() ==> row_spec(lat, longs, opts)[k] == candidate_spec(
                lat,
                #[trigger] longs[k],
                opts,
            ),
    decreases longs.len(),
{
    if longs.len() > 0 {
        lemma_row_props(lat, longs.drop_last(), opts);
        assert(forall|k: int| 0 <= k < longs.len() - 1 ==> longs.drop_last()[k] == #[trigger] longs[k]);
    }
}

/// Every grid candidate's coordinates come from the axis sequences.
proof fn lemma_grid_members(lats: Seq<i64>, longs: Seq<i64>, opts: Seq<OptimizedPoint>)
    ensures
        forall|k: int|
            0 <= k < grid_spec(lats, longs, opts).len() ==> lats.contains(
                (#[trigger] grid_spec(lats, longs, opts)[k]).point.lat,
            ) && longs.contains(grid_spec(lats, longs, opts)[k].point.long),
    decreases lats.len(),
{
    if lats.len() > 0 {
        lemma_grid_members(lats.drop_last(), longs, opts);
        lemma_row_props(lats.last(), longs, opts);
        let gd = grid_spec(lats.drop_last(), longs, opts);
        let row = row_spec(lats.last(), longs, opts);
        assert forall|k: int| 0 <= k < grid_spec(lats, longs, opts).len() implies lats.contains(
            (#[trigger] grid_spec(lats, longs, opts)[k]).point.lat,
        ) && longs.contains(grid_spec(lats, longs, opts)[k].point.long) by {
            let x = grid_spec(lats, longs, opts)[k];
            if k < gd.len() {
                assert(gd[k] == x);
                assert(lats.drop_last().contains(x.point.lat));
                let j: int = choose|j: int|
                    0 <= j < lats.drop_last().len() && lats.drop_last()[j] == x.point.lat;
                assert(lats[j] == x.point.lat);
            } else {
                assert(row[k - gd.len()] == x);
                assert(x == candidate_spec(lats.last(), longs[k - gd.len()], opts));
                assert(lats[lats.len() - 1] == x.point.lat);
                assert(longs[k - gd.len()] == x.point.long);
            }
        }
    }
}

/// Every candidate a grid pass returns keeps its coordinates within the
/// bounds of the axis values it was given.
proof fn lemma_seed_bounds(
    lats: Seq<i64>,
    longs: Seq<i64>,
    opts: Seq<OptimizedPoint>,
    allowance: int,
    latlo: int,
    lathi: int,
    longlo: int,
    longhi: int,
)
    requires
        forall|k: int| 0 <= k < lats.len() ==> latlo <= #[trigger] lats[k] as int <= lathi,
        forall|k: int| 0 <= k < longs.len() ==> longlo <= #[trigger] longs[k] as int <= longhi,
    ensures
        forall|k: int|
            0 <= k < best_points_spec(lats, longs, opts, allowance).len() ==> {
                let x = #[trigger] best_points_spec(lats, longs, opts, allowance)[k];
                latlo <= x.point.lat as int <= lathi && longlo <= x.point.long as int <= longhi
            },
{
    let g = grid_spec(lats, longs, opts);
    let items = retained_state(g, allowance);
    let t = max_weight(items) - allowance;
    lemma_drain_subset(items, t);
    lemma_retained_subset(g, allowance);
    lemma_grid_members(lats, longs, opts);
    assert forall|k: int| 0 <= k < best_points_spec(lats, longs, opts, allowance).len() implies {
        let x = #[trigger] best_points_spec(lats, longs, opts, allowance)[k];
        latlo <= x.point.lat as int <= lathi && longlo <= x.point.long as int <= longhi
    } by {
        let x = best_points_spec(lats, longs, opts, allowance)[k];
        assert(items.contains(x));
        let j1: int = choose|j1: int| 0 <= j1 < items.len() && items[j1] == x;
        assert(g.contains(x));
        let j2: int = choose|j2: int| 0 <= j2 < g.len() && g[j2] == x;
        assert(lats.contains(x.point.lat));
        assert(longs.contains(x.point.long));
        let j3: int = choose|j3: int| 0 <= j3 < lats.len() && lats[j3] == x.point.lat;
        let j4: int = choose|j4: int| 0 <= j4 < longs.len() && longs[j4] == x.point.long;
    }
}

/// The fine pass around one seed: its single best candidate.
fn fine_best(seed: &WeightedPoint, opts: &Vec<OptimizedPoint>) -> (r: WeightedPoint)
    requires
        opts@.len() > 0,
        all_wf(opts@),
        -90000000 <= seed.point.lat as int <= 90000000,
        -180000000 <= seed.point.long as int <= 180000000,
    ensures
        r == fine_best_spec(*seed, opts@),
{
    let flats: Vec<i64> = sample_values(seed.point.lat - 500000, seed.point.lat + 500000, 100);
    let flongs: Vec<i64> = sample_values(seed.point.long - 500000, seed.point.long + 500000, 100);
    proof {
        assert(flats@ =~= fine_vals(seed.point.lat));
        assert(flongs@ =~= fine_vals(seed.point.long));
    }
    let r: Vec<WeightedPoint> = find_best_points(&flats, &flongs, opts, 0);
    r[0]
}

/// The point on the sphere most distant from every member of `points`: the
/// location whose least great-circle distance to the input set is greatest,
/// found by a one-degree global scan whose near-best candidates each seed a
/// local hundredth-of-a-degree refinement. The result is a deterministic
/// function of the input alone: repeating the search cannot change it. An
/// empty input is rejected.
pub fn find_most_distant_point(points: &Points) -> (r: Result<Point, SearchError>)
    ensures
        points@.len() == 0 ==> r == Result::<Point, SearchError>::Err(SearchError::EmptyInput),
        points@.len() > 0 ==> r == Result::<Point, SearchError>::Ok(search_spec(points@)),
{
    let n: usize = points.len();
    if n == 0 {
        return Err(SearchError::EmptyInput);
    }
    let mut opts: Vec<OptimizedPoint> = Vec::new();
    let mut i: usize = 0;
    while i < n
        invariant
            n == points@.len(),
            i <= n,
            opts@.len() == i,
            forall|k: int| 0 <= k < i ==> #[trigger] opts@[k] == optimized_spec(points@[k]),
        decreases n - i,
    {
        let p: Point = points.get(i);
        opts.push(OptimizedPoint::from(p));
        i = i + 1;
    }
    proof {
        assert(opts@ =~= opts_of(points@));
        assert forall|k: int| 0 <= k < opts@.len() implies op_wf(#[trigger] opts@[k]) by {
            lemma_optimized_wf(points@[k]);
        }
    }
    let lats: Vec<i64> = sample_values(-90000000, 90000000, 180);
    let longs: Vec<i64> = sample_values(-180000000, 180000000, 360);
    proof {
        assert(lats@ =~= coarse_lats());
        assert(longs@ =~= coarse_longs());
        lemma_seed_bounds(
            coarse_lats(),
            coarse_longs(),
            opts_of(points@),
            COARSE_ALLOWANCE_MM as int,
            -90000000,
            90000000,
            -180000000,
            180000000,
        );
    }
    let seeds: Vec<WeightedPoint> = find_best_points(&lats, &longs, &opts, COARSE_ALLOWANCE_MM);
    let ghost sds = seeds@;
    let mut best: WeightedPoint = fine_best(&seeds[0], &opts);
    proof {
        assert(sds.take(1)[0] == sds[0]);
        assert(best == best_over_seeds(sds.take(1), opts_of(points@)));
    }
    let mut k: usize = 1;
    while k < seeds.len()
        invariant
            1 <= k <= sds.len(),
            sds == seeds@,
            opts@ == opts_of(points@),
            opts@.len() > 0,
            all_wf(opts@),
            forall|m: int|
                0 <= m < sds.len() ==> {
                    let x = #[trigger] sds[m];
                    -90000000 <= x.point.lat as int <= 90000000 && -180000000 <= x.point.long as int
                        <= 180000000
                },
            best == best_over_seeds(sds.take(k as int), opts_of(points@)),
        decreases sds.len() - k,
    {
        let b: WeightedPoint = fine_best(&seeds[k], &opts);
        proof {
            assert(sds.take(k as int + 1).drop_last() =~= sds.take(k as int));
            assert(sds.take(k as int + 1).last() == sds[k as int]);
        }
        if best.weight < b.weight {
            best = b;
        }
        k = k + 1;
    }
    proof {
        assert(sds.take(sds.len() as int) =~= sds);
    }
    Ok(best.point)
}

} // verus!
