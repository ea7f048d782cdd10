//! The candidate retention structure: a collection of weighted points that
//! admits candidates near the current maximum and drains in descending
//! order down to a threshold below the maximum.

use vstd::prelude::*;
use crate::geo::Point;

verus! {

/// A candidate location paired with its isolation score in millimetres.
#[derive(Debug, Clone, Copy, PartialEq, Eq, Structural)]
pub struct WeightedPoint {
    pub point: Point,
    pub weight: u64,
}

/// Strict total order used for draining: `a` comes before `b` when its
/// weight is greater, with latitude and then longitude as tie-breakers.
pub open spec fn wp_before(a: WeightedPoint, b: WeightedPoint) -> bool {
    ||| a.weight > b.weight
    ||| (a.weight == b.weight && a.point.lat > b.point.lat)
    ||| (a.weight == b.weight && a.point.lat == b.point.lat && a.point.long > b.point.long)
}

/// Executable form of the drain order.
pub fn wp_before_x(a: &WeightedPoint, b: &WeightedPoint) -> (r: bool)
    ensures
        r == wp_before(*a, *b),
{
    if a.weight != b.weight {
        a.weight > b.weight
    } else if a.point.lat != b.point.lat {
        a.point.lat > b.point.lat
    } else {
        a.point.long > b.point.long
    }
}

/// The greatest weight among a sequence of candidates (zero when empty).
pub open spec fn max_weight(s: Seq<WeightedPoint>) -> int
    decreases s.len(),
{
    if s.len() == 0 {
        0
    } else if s.len() == 1 {
        s[0].weight as int
    } else {
        let m: int = max_weight(s.drop_last());
        if s.last().weight as int > m {
            s.last().weight as int
        } else {
            m
        }
    }
}

/// Whether a new candidate of weight `w` is admitted. An empty structure
/// admits everything. With a zero allowance only candidates strictly above
/// the current maximum are kept; with a positive allowance a candidate is
/// kept unless the current maximum exceeds its weight by more than the
/// allowance.
pub open spec fn keeps(items: Seq<WeightedPoint>, allowance: int, w: int) -> bool {
    if items.len() == 0 {
        true
    } else if allowance == 0 {
        max_weight(items) < w
    } else {
        max_weight(items) - w <= allowance
    }
}

/// The contents of the structure after a sequence of insertion attempts, in
/// order.
pub open spec fn retained_state(attempts: Seq<WeightedPoint>, allowance: int) -> Seq<
    WeightedPoint,
>
    decreases attempts.len(),
{
    if attempts.len() == 0 {
        Seq::empty()
    } else {
        let prev = retained_state(attempts.drop_last(), allowance);
        if keeps(prev, allowance, attempts.last().weight as int) {
            prev.push(attempts.last())
        } else {
            prev
        }
    }
}

/// The index of the first element that is greatest in the drain order.
pub open spec fn first_max_index(s: Seq<WeightedPoint>) -> int
    decreases s.len(),
{
    if s.len() <= 1 {
        0
    } else {
        let p: int = first_max_index(s.drop_last());
        if wp_before(s.last(), s.drop_last()[p]) {
            s.len() - 1
        } else {
            p
        }
    }
}

/// Repeatedly extracts the first greatest element, stopping at the first
/// one whose weight falls below the threshold `t`.
pub open spec fn drain_spec(s: Seq<WeightedPoint>, t: int) -> Seq<WeightedPoint>
    decreases s.len(),
{
    if s.len() == 0 {
        Seq::empty()
    } else {
        let i: int = first_max_index(s);
        if !(0 <= i < s.len()) {
            Seq::empty()
        } else if (s[i].weight as int) < t {
            Seq::empty()
        } else {
            seq![s[i]] + drain_spec(s.remove(i), t)
        }
    }
}

/// The first-max index is a valid index.
pub proof fn lemma_first_max_index_range(s: Seq<WeightedPoint>)
    requires
        s.len() > 0,
    ensures
        0 <= first_max_index(s) < s.len(),
    decreases s.len(),
{
    if s.len() > 1 {
        lemma_first_max_index_range(s.drop_last());
    }
}

/// The element at the first-max index has the greatest weight, and no
/// element anywhere is earlier in the drain order.
pub proof fn lemma_first_max_index_max(s: Seq<WeightedPoint>)
    requires
        s.len() > 0,
    ensures
        s[first_max_index(s)].weight as int == max_weight(s),
        forall|k: int| 0 <= k < s.len() ==> !wp_before(#[trigger] s[k], s[first_max_index(s)]),
    decreases s.len(),
{
    lemma_first_max_index_range(s);
    if s.len() > 1 {
        let dl = s.drop_last();
        lemma_first_max_index_max(dl);
        lemma_first_max_index_range(dl);
        let p: int = first_max_index(dl);
        assert(forall|k: int| 0 <= k < s.len() - 1 ==> dl[k] == #[trigger] s[k]);
        let f: int = first_max_index(s);
        if wp_before(s.last(), dl[p]) {
            assert(f == s.len() - 1);
            assert(s.last().weight as int >= max_weight(dl));
            assert(s[f].weight as int == max_weight(s));
            assert forall|k: int| 0 <= k < s.len() implies !wp_before(#[trigger] s[k], s[f]) by {
                if k < s.len() - 1 {
                    lemma_wp_before_shift(s.last(), dl[p], s[k]);
                }
            }
        } else {
            assert(f == p);
            assert(s.last().weight as int <= dl[p].weight as int);
            assert(max_weight(s) == max_weight(dl));
        }
    }
}

/// If `a` is strictly before `b` in the drain order and `c` is not before
/// `b`, then `c` is not before `a` either.
proof fn lemma_wp_before_shift(a: WeightedPoint, b: WeightedPoint, c: WeightedPoint)
    requires
        wp_before(a, b),
        !wp_before(c, b),
    ensures
        !wp_before(c, a),
{
}

/// Removing an element preserves membership of the others.
pub proof fn lemma_remove_contains(s: Seq<WeightedPoint>, i: int, x: WeightedPoint)
    requires
        0 <= i < s.len(),
        s.remove(i).contains(x),
    ensures
        s.contains(x),
{
    let r = s.remove(i);
    let j: int = choose|j: int| 0 <= j < r.len() && r[j] == x;
    if j < i {
        assert(s[j] == x);
    } else {
        assert(s[j + 1] == x);
    }
}

/// Every drained element was in the structure.
pub proof fn lemma_drain_subset(s: Seq<WeightedPoint>, t: int)
    ensures
        forall|k: int|
            0 <= k < drain_spec(s, t).len() ==> s.contains(#[trigger] drain_spec(s, t)[k]),
    decreases s.len(),
{
    if s.len() > 0 {
        let i: int = first_max_index(s);
        lemma_first_max_index_range(s);
        if (s[i].weight as int) >= t {
            lemma_drain_subset(s.remove(i), t);
            assert forall|k: int| 0 <= k < drain_spec(s, t).len() implies s.contains(
                #[trigger] drain_spec(s, t)[k],
            ) by {
                if k == 0 {
                    assert(s[i] == drain_spec(s, t)[0]);
                } else {
                    assert(drain_spec(s, t)[k] == drain_spec(s.remove(i), t)[k - 1]);
                    lemma_remove_contains(s, i, drain_spec(s, t)[k]);
                }
            }
        }
    }
}

/// A contained element's weight never exceeds the maximum.
pub proof fn lemma_weight_le_max(s: Seq<WeightedPoint>, x: WeightedPoint)
    requires
        s.contains(x),
    ensures
        x.weight as int <= max_weight(s),
    decreases s.len(),
{
    let j: int = choose|j: int| 0 <= j < s.len() && s[j] == x;
    if j < s.len() - 1 {
        assert(s.drop_last()[j] == x);
        lemma_weight_le_max(s.drop_last(), x);
    }
}

/// Every drained element's weight reaches the threshold.
pub proof fn lemma_drain_threshold(s: Seq<WeightedPoint>, t: int)
    ensures
        forall|k: int|
            0 <= k < drain_spec(s, t).len() ==> (#[trigger] drain_spec(s, t)[k]).weight as int >= t,
    decreases s.len(),
{
    if s.len() > 0 {
        let i: int = first_max_index(s);
        lemma_first_max_index_range(s);
        if (s[i].weight as int) >= t {
            lemma_drain_threshold(s.remove(i), t);
            assert(forall|k: int|
                1 <= k < drain_spec(s, t).len() ==> #[trigger] drain_spec(s, t)[k] == drain_spec(
                    s.remove(i),
                    t,
                )[k - 1]);
        }
    }
}

/// Draining yields a descending sequence: no later element is earlier in
/// the drain order.
pub proof fn lemma_drain_sorted(s: Seq<WeightedPoint>, t: int)
    ensures
        forall|a: int, b: int|
            0 <= a < b < drain_spec(s, t).len() ==> !wp_before(
                #[trigger] drain_spec(s, t)[b],
                #[trigger] drain_spec(s, t)[a],
            ),
    decreases s.len(),
{
    if s.len() > 0 {
        let i: int = first_max_index(s);
        lemma_first_max_index_range(s);
        lemma_first_max_index_max(s);
        if (s[i].weight as int) >= t {
            let rest = s.remove(i);
            lemma_drain_sorted(rest, t);
            lemma_drain_subset(rest, t);
            assert(forall|k: int|
                1 <= k < drain_spec(s, t).len() ==> #[trigger] drain_spec(s, t)[k] == drain_spec(
                    rest,
                    t,
                )[k - 1]);
            assert forall|a: int, b: int|
                0 <= a < b < drain_spec(s, t).len() implies !wp_before(
                #[trigger] drain_spec(s, t)[b],
                #[trigger] drain_spec(s, t)[a],
            ) by {
                if a == 0 {
                    let x = drain_spec(s, t)[b];
                    assert(rest.contains(x));
                    lemma_remove_contains(s, i, x);
                    let j: int = choose|j: int| 0 <= j < s.len() && s[j] == x;
                    assert(!wp_before(s[j], s[i]));
                }
            }
        }
    }
}

/// Every element whose weight reaches the threshold is drained.
pub proof fn lemma_drain_complete(s: Seq<WeightedPoint>, t: int)
    ensures
        forall|k: int|
            0 <= k < s.len() && (#[trigger] s[k]).weight as int >= t ==> drain_spec(s, t).contains(
                s[k],
            ),
    decreases s.len(),
{
    if s.len() > 0 {
        let i: int = first_max_index(s);
        lemma_first_max_index_range(s);
        lemma_first_max_index_max(s);
        let rest = s.remove(i);
        lemma_drain_complete(rest, t);
        rest_indexing(s, i);
        assert forall|k: int|
            0 <= k < s.len() && (#[trigger] s[k]).weight as int >= t implies drain_spec(
            s,
            t,
        ).contains(s[k]) by {
            assert((s[i].weight as int) >= t);
            if k == i {
                assert(drain_spec(s, t)[0] == s[i]);
            } else {
                let kr: int = if k < i {
                    k
                } else {
                    k - 1
                };
                assert(rest[kr] == s[k]);
                assert(drain_spec(rest, t).contains(s[k]));
                let j: int = choose|j: int|
                    0 <= j < drain_spec(rest, t).len() && drain_spec(rest, t)[j] == s[k];
                assert(drain_spec(s, t)[j + 1] == s[k]);
            }
        }
    }
}

/// Index bookkeeping for removal: every remaining element keeps its value.
proof fn rest_indexing(s: Seq<WeightedPoint>, i: int)
    requires
        0 <= i < s.len(),
    ensures
        forall|k: int| 0 <= k < i ==> s.remove(i)[k] == #[trigger] s[k],
        forall|k: int| i < k < s.len() ==> s.remove(i)[k - 1] == #[trigger] s[k],
{
    s.remove_ensures(i);
}

/// A nonempty structure whose maximum reaches the threshold drains at least
/// its maximum: the first drained element is the first-max element.
pub proof fn lemma_drain_first(s: Seq<WeightedPoint>, t: int)
    requires
        s.len() > 0,
        max_weight(s) >= t,
    ensures
        drain_spec(s, t).len() > 0,
        drain_spec(s, t)[0] == s[first_max_index(s)],
        drain_spec(s, t)[0].weight as int == max_weight(s),
{
    lemma_first_max_index_range(s);
    lemma_first_max_index_max(s);
}

/// A nonempty attempt sequence leaves the structure nonempty: the first
/// attempt is always admitted and nothing is ever removed before draining.
pub proof fn lemma_retained_nonempty(attempts: Seq<WeightedPoint>, allowance: int)
    requires
        attempts.len() > 0,
    ensures
        retained_state(attempts, allowance).len() > 0,
    decreases attempts.len(),
{
    if attempts.len() > 1 {
        lemma_retained_nonempty(attempts.drop_last(), allowance);
    }
}

/// Every retained element was attempted.
pub proof fn lemma_retained_subset(attempts: Seq<WeightedPoint>, allowance: int)
    ensures
        forall|k: int|
            0 <= k < retained_state(attempts, allowance).len() ==> attempts.contains(
                #[trigger] retained_state(attempts, allowance)[k],
            ),
    decreases attempts.len(),
{
    if attempts.len() > 0 {
        lemma_retained_subset(attempts.drop_last(), allowance);
        let prev = retained_state(attempts.drop_last(), allowance);
        assert forall|k: int| 0 <= k < retained_state(attempts, allowance).len()
            implies attempts.contains(#[trigger] retained_state(attempts, allowance)[k]) by {
            let x = retained_state(attempts, allowance)[k];
            if k < prev.len() {
                assert(attempts.drop_last().contains(x));
                let j: int = choose|j: int|
                    0 <= j < attempts.drop_last().len() && attempts.drop_last()[j] == x;
                assert(attempts[j] == x);
            } else {
                assert(x == attempts.last());
            }
        }
    }
}

/// The maximum weight can only grow as attempts accumulate.
proof fn lemma_max_weight_step(s: Seq<WeightedPoint>)
    requires
        s.len() > 0,
    ensures
        max_weight(s) >= s.last().weight as int,
        s.len() > 1 ==> max_weight(s) >= max_weight(s.drop_last()),
{
}

/// With a positive allowance, every attempt whose weight is within the
/// allowance of the overall maximum is admitted and stays until draining.
pub proof fn lemma_retained_complete(attempts: Seq<WeightedPoint>, allowance: int)
    requires
        allowance > 0,
    ensures
        forall|k: int|
            0 <= k < attempts.len() && (#[trigger] attempts[k]).weight as int >= max_weight(
                attempts,
            ) - allowance ==> retained_state(attempts, allowance).contains(attempts[k]),
    decreases attempts.len(),
{
    if attempts.len() > 0 {
        let dl = attempts.drop_last();
        lemma_retained_complete(dl, allowance);
        lemma_max_weight_step(attempts);
        let prev = retained_state(dl, allowance);
        if prev.len() > 0 {
            lemma_first_max_index_range(prev);
            lemma_first_max_index_max(prev);
            lemma_retained_subset(dl, allowance);
            let pm = prev[first_max_index(prev)];
            assert(dl.contains(pm));
            lemma_weight_le_max(dl, pm);
            assert(max_weight(prev) <= max_weight(dl));
        }
        assert forall|k: int|
            0 <= k < attempts.len() && (#[trigger] attempts[k]).weight as int >= max_weight(
                attempts,
            ) - allowance implies retained_state(attempts, allowance).contains(attempts[k]) by {
            let x = attempts[k];
            if k == attempts.len() - 1 {
                assert(keeps(prev, allowance, x.weight as int));
                assert(retained_state(attempts, allowance) == prev.push(x));
                assert(retained_state(attempts, allowance)[prev.len() as int] == x);
            } else {
                assert(dl[k] == x);
                assert(prev.contains(x));
                let j: int = choose|j: int| 0 <= j < prev.len() && prev[j] == x;
                assert(retained_state(attempts, allowance)[j] == x);
            }
        }
    }
}

/// With a positive allowance the retained maximum equals the maximum over
/// all attempts: the best attempt is always admitted.
pub proof fn lemma_retained_max(attempts: Seq<WeightedPoint>, allowance: int)
    requires
        attempts.len() > 0,
        allowance > 0,
    ensures
        max_weight(retained_state(attempts, allowance)) == max_weight(attempts),
{
    let items = retained_state(attempts, allowance);
    lemma_retained_nonempty(attempts, allowance);
    lemma_retained_subset(attempts, allowance);
    lemma_first_max_index_range(items);
    lemma_first_max_index_max(items);
    let im = items[first_max_index(items)];
    assert(attempts.contains(im));
    lemma_weight_le_max(attempts, im);
    assert(max_weight(items) <= max_weight(attempts));
    lemma_first_max_index_range(attempts);
    lemma_first_max_index_max(attempts);
    let am = attempts[first_max_index(attempts)];
    lemma_retained_complete(attempts, allowance);
    assert(items.contains(am));
    lemma_weight_le_max(items, am);
}

/// The band law of the retention structure, for a positive allowance: after
/// any nonempty sequence of insertion attempts, draining yields exactly the
/// near-best band. Every attempt whose weight is within the allowance of
/// the overall maximum comes out; everything that comes out is such an
/// attempt; and the band is in descending drain order.
pub proof fn lemma_band_retention(attempts: Seq<WeightedPoint>, allowance: int)
    requires
        attempts.len() > 0,
        allowance > 0,
    ensures
        ({
            let items = retained_state(attempts, allowance);
            let band = drain_spec(items, max_weight(items) - allowance);
            &&& forall|k: int|
                0 <= k < attempts.len() && (#[trigger] attempts[k]).weight as int >= max_weight(
                    attempts,
                ) - allowance ==> band.contains(attempts[k])
            &&& forall|k: int|
                0 <= k < band.len() ==> (#[trigger] band[k]).weight as int >= max_weight(attempts)
                    - allowance && attempts.contains(band[k])
            &&& forall|a: int, b: int|
                0 <= a < b < band.len() ==> !wp_before(#[trigger] band[b], #[trigger] band[a])
        }),
{
    let items = retained_state(attempts, allowance);
    let t = max_weight(items) - allowance;
    let band = drain_spec(items, t);
    lemma_retained_max(attempts, allowance);
    lemma_retained_complete(attempts, allowance);
    lemma_retained_subset(attempts, allowance);
    lemma_drain_complete(items, t);
    lemma_drain_threshold(items, t);
    lemma_drain_subset(items, t);
    lemma_drain_sorted(items, t);
    assert forall|k: int|
        0 <= k < attempts.len() && (#[trigger] attempts[k]).weight as int >= max_weight(attempts)
            - allowance implies band.contains(attempts[k]) by {
        let x = attempts[k];
        assert(items.contains(x));
        let j: int = choose|j: int| 0 <= j < items.len() && items[j] == x;
        assert(band.contains(items[j]));
    }
    assert forall|k: int| 0 <= k < band.len() implies (#[trigger] band[k]).weight as int
        >= max_weight(attempts) - allowance && attempts.contains(band[k]) by {
        let x = band[k];
        assert(items.contains(x));
        let j: int = choose|j: int| 0 <= j < items.len() && items[j] == x;
        assert(attempts.contains(items[j]));
    }
}

/// With a zero allowance the retained maximum also equals the maximum over
/// all attempts: the first strict improvement is always admitted.
pub proof fn lemma_retained_max_zero(attempts: Seq<WeightedPoint>)
    requires
        attempts.len() > 0,
    ensures
        max_weight(retained_state(attempts, 0)) == max_weight(attempts),
    decreases attempts.len(),
{
    let dl = attempts.drop_last();
    let prev = retained_state(dl, 0);
    let x = attempts.last();
    if attempts.len() > 1 {
        lemma_retained_max_zero(dl);
        lemma_retained_nonempty(dl, 0);
        if keeps(prev, 0, x.weight as int) {
            assert(retained_state(attempts, 0) == prev.push(x));
            assert(prev.push(x).drop_last() =~= prev);
        }
    } else {
        assert(prev.len() == 0);
        assert(retained_state(attempts, 0) == prev.push(x));
    }
}

/// The best-only law of the retention structure, for a zero allowance:
/// draining after any nonempty sequence of attempts yields, first, an
/// attempted candidate of maximum weight.
pub proof fn lemma_best_only_retention(attempts: Seq<WeightedPoint>)
    requires
        attempts.len() > 0,
    ensures
        ({
            let items = retained_state(attempts, 0);
            let band = drain_spec(items, max_weight(items));
            &&& band.len() > 0
            &&& band[0].weight as int == max_weight(attempts)
            &&& attempts.contains(band[0])
        }),
{
    let items = retained_state(attempts, 0);
    lemma_retained_nonempty(attempts, 0);
    lemma_retained_max_zero(attempts);
    lemma_retained_subset(attempts, 0);
    lemma_drain_first(items, max_weight(items));
    lemma_first_max_index_range(items);
    let band = drain_spec(items, max_weight(items));
    assert(band[0] == items[first_max_index(items)]);
    assert(attempts.contains(items[first_max_index(items)]));
}

/// The candidate retention structure: admits candidates according to the
/// allowance rule and tracks the current maximum weight.
pub struct CandidateSet {
    items: Vec<WeightedPoint>,
    max_w: u64,
    retain_allowance: u64,
}

impl CandidateSet {
    /// The candidates currently held, in insertion order.
    pub closed spec fn items_view(&self) -> Seq<WeightedPoint> {
        self.items@
    }

    /// The configured retention allowance.
    pub closed spec fn allowance_view(&self) -> int {
        self.retain_allowance as int
    }

    /// The tracked maximum matches the held candidates.
    pub closed spec fn wf(&self) -> bool {
        self.items@.len() > 0 ==> self.max_w as int == max_weight(self.items@)
    }

    /// An empty structure with the given allowance.
    pub fn new(retain_allowance: u64) -> (r: CandidateSet)
        ensures
            r.wf(),
            r.items_view() == Seq::<WeightedPoint>::empty(),
            r.allowance_view() == retain_allowance as int,
    {
        CandidateSet { items: Vec::new(), max_w: 0, retain_allowance }
    }

    /// Offers one candidate; it is admitted exactly under the `keeps` rule.
    pub fn insert(&mut self, wp: WeightedPoint)
        requires
            old(self).wf(),
        ensures
            final(self).wf(),
            final(self).allowance_view() == old(self).allowance_view(),
            final(self).items_view() == (if keeps(
                old(self).items_view(),
                old(self).allowance_view(),
                wp.weight as int,
            ) {
                old(self).items_view().push(wp)
            } else {
                old(self).items_view()
            }),
    {
        let keep: bool = if self.items.len() == 0 {
            true
        } else if self.retain_allowance == 0 {
            self.max_w < wp.weight
        } else {
            self.max_w as u128 <= wp.weight as u128 + self.retain_allowance as u128
        };
        if keep {
            proof {
                assert(self.items@.push(wp).drop_last() =~= self.items@);
            }
            let new_max: u64 = if self.items.len() == 0 || wp.weight > self.max_w {
                wp.weight
            } else {
                self.max_w
            };
            self.items.push(wp);
            self.max_w = new_max;
        }
    }

    /// How many candidates are held.
    pub fn len(&self) -> (n: usize)
        ensures
            n == self.items_view().len(),
    {
        self.items.len()
    }

    /// Extracts the retained band: candidates are removed in descending
    /// drain order, and extraction stops at the first whose weight falls
    /// more than the allowance below the maximum.
    pub fn drain(self) -> (r: Vec<WeightedPoint>)
        requires
            self.wf(),
            self.items_view().len() > 0,
        ensures
            r@ == drain_spec(
                self.items_view(),
                max_weight(self.items_view()) - self.allowance_view(),
            ),
    {
        let ghost items0 = self.items@;
        let ghost t = max_weight(self.items@) - self.retain_allowance as int;
        let max_w: u64 = self.max_w;
        let allowance: u64 = self.retain_allowance;
        let mut rem: Vec<WeightedPoint> = self.items;
        let mut out: Vec<WeightedPoint> = Vec::new();
        let mut stop: bool = false;
        proof {
            assert(out@ + drain_spec(rem@, t) =~= drain_spec(items0, t));
        }
        while !stop
            invariant
                t == max_weight(items0) - allowance as int,
                max_w as int == max_weight(items0),
                out@ + drain_spec(rem@, t) == drain_spec(items0, t),
                stop ==> drain_spec(rem@, t) == Seq::<WeightedPoint>::empty(),
            decreases rem@.len() + (if stop { 0int } else { 1int }),
        {
            if rem.len() == 0 {
                proof {
                    assert(drain_spec(rem@, t) =~= Seq::<WeightedPoint>::empty());
                }
                stop = true;
            } else {
                proof {
                    lemma_first_max_index_range(rem@);
                }
                let mi: usize = first_max_x(&rem);
                let top_weight: u64 = rem[mi].weight;
                if (top_weight as u128) + (allowance as u128) < max_w as u128 {
                    proof {
                        assert((rem@[mi as int].weight as int) < t);
                        assert(drain_spec(rem@, t) =~= Seq::<WeightedPoint>::empty());
                    }
                    stop = true;
                } else {
                    let ghost prev = rem@;
                    let ghost out0 = out@;
                    let elem: WeightedPoint = rem.remove(mi);
                    out.push(elem);
                    proof {
                        assert(elem == prev[mi as int]);
                        assert(rem@ == prev.remove(mi as int));
                        prev.remove_ensures(mi as int);
                        assert(prev[mi as int].weight as int >= t);
                        assert(drain_spec(prev, t) =~= seq![elem] + drain_spec(rem@, t));
                        assert(out@ + drain_spec(rem@, t) =~= out0 + drain_spec(prev, t));
                    }
                }
            }
        }
        proof {
            assert(out@ + drain_spec(rem@, t) =~= out@);
            assert(out@ =~= drain_spec(items0, t));
        }
        out
    }
}

/// The index of the first element greatest in the drain order.
fn first_max_x(v: &Vec<WeightedPoint>) -> (mi: usize)
    requires
        v@.len() > 0,
    ensures
        mi as int == first_max_index(v@),
        mi < v@.len(),
{
    let mut best: usize = 0;
    let mut k: usize = 1;
    proof {
        assert(v@.take(1).len() == 1);
        assert(first_max_index(v@.take(1)) == 0);
    }
    while k < v.len()
        invariant
            1 <= k <= v@.len(),
            best < k,
            best as int == first_max_index(v@.take(k as int)),
        decreases v@.len() - k,
    {
        proof {
            lemma_first_max_index_range(v@.take(k as int));
            assert(v@.take(k as int + 1).drop_last() =~= v@.take(k as int));
            assert(v@.take(k as int + 1).last() == v@[k as int]);
        }
        if wp_before_x(&v[k], &v[best]) {
            best = k;
        }
        k = k + 1;
    }
    proof {
        assert(v@.take(v@.len() as int) =~= v@);
    }
    best
}

} // verus!
