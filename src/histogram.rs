//! Latency histograms: `hdrsample::Histogram` with one significant figure,
//! seen as counts per bucket.

#![allow(deprecated)]

use vstd::prelude::*;
use hdrsample::Histogram;
use crate::tally::{add_counts, count_in, sat};

verus! {

/// An `hdrsample::Histogram<u64>` of one significant figure. Verus cannot
/// take the declaration of that type (its parameter is bound by a trait of
/// the crate), so it is held here, out of Verus's sight.
#[verifier::external_body]
pub struct LatencyHistogram {
    inner: Histogram<u64>,
}

/// The largest value recorded: an auto-resizing histogram tracks values
/// up to `i64::MAX / 2`.
pub const HISTOGRAM_LIMIT: u64 = 4611686018427387903;

/// What a histogram holds: for each bucket with a count, the highest value
/// that falls in it, and the count.
pub uninterp spec fn histogram_counts(h: LatencyHistogram) -> Map<u64, nat>;

/// The highest value that a histogram of one significant figure counts
/// together with `v`.
pub uninterp spec fn equivalent_top(v: u64) -> u64;

/// `m` with one more at `k`.
pub open spec fn bump(m: Map<u64, nat>, k: u64) -> Map<u64, nat> {
    m.insert(k, sat((count_in(m, k) + 1) as nat))
}

/// Every bucket holds values within `HISTOGRAM_LIMIT`.
pub open spec fn trackable(m: Map<u64, nat>) -> bool {
    forall|k: u64| #[trigger] m.contains_key(k) ==> exists|v: u64| v <= HISTOGRAM_LIMIT && k == equivalent_top(v)
}

/// The map that pairs of value and count describe.
pub open spec fn pairs_map(s: Seq<(u64, u64)>) -> Map<u64, nat>
    decreases s.len(),
{
    if s.len() == 0 {
        Map::empty()
    } else {
        pairs_map(s.drop_last()).insert(s.last().0, s.last().1 as nat)
    }
}

/// The values strictly increase.
pub open spec fn increasing_keys(s: Seq<(u64, u64)>) -> bool {
    forall|i: int, j: int| 0 <= i < j < s.len() ==> s[i].0 < s[j].0
}

pub proof fn lemma_pairs_has(s: Seq<(u64, u64)>, i: int)
    requires
        increasing_keys(s),
        0 <= i < s.len(),
    ensures
        pairs_map(s).contains_key(s[i].0),
        pairs_map(s)[s[i].0] == s[i].1 as nat,
    decreases s.len(),
{
    if i < s.len() - 1 {
        let t = s.drop_last();
        assert(t[i] == s[i]);
        lemma_pairs_has(t, i);
    }
}

pub proof fn lemma_pairs_lacks(s: Seq<(u64, u64)>, v: u64)
    requires
        forall|i: int| 0 <= i < s.len() ==> (#[trigger] s[i]).0 != v,
    ensures
        !pairs_map(s).contains_key(v),
    decreases s.len(),
{
    if s.len() > 0 {
        let t = s.drop_last();
        assert forall|i: int| 0 <= i < t.len() implies (#[trigger] t[i]).0 != v by {
            assert(t[i] == s[i]);
        }
        lemma_pairs_lacks(t, v);
        assert(s.last() == s[s.len() - 1]);
    }
}

/// Relies on `hdrsample::Histogram::new`: an empty auto-resizing histogram
/// of one significant figure; with a lowest value of 1 and a highest of 2
/// the bounds are valid, so it is created.
#[verifier::external_body]
pub(crate) fn new_histogram() -> (r: LatencyHistogram)
    ensures
        histogram_counts(r) =~= Map::empty(),
{
    LatencyHistogram { inner: Histogram::new(1).unwrap() }
}

/// Relies on `hdrsample::Histogram::record`: the bucket of `v` counts one
/// more (saturating); within the auto-resizing range it succeeds.
#[verifier::external_body]
pub(crate) fn record_value(h: &mut LatencyHistogram, v: u64)
    requires
        v <= HISTOGRAM_LIMIT,
    ensures
        histogram_counts(*final(h)) == bump(histogram_counts(*old(h)), equivalent_top(v)),
{
    let _ = h.inner.record(v);
}

/// Relies on `hdrsample::Histogram::add`: counts are added bucket by bucket
/// (saturating); within the auto-resizing range it succeeds.
#[verifier::external_body]
pub(crate) fn add_histogram(h: &mut LatencyHistogram, other: &LatencyHistogram)
    requires
        trackable(histogram_counts(*old(h))),
        trackable(histogram_counts(*other)),
    ensures
        histogram_counts(*final(h)) == add_counts(histogram_counts(*old(h)), histogram_counts(*other)),
{
    let _ = h.inner.add(&other.inner);
}

/// The only bucket with a count, if any, is that of 0.
pub open spec fn only_zero_bucket(m: Map<u64, nat>) -> bool {
    forall|k: u64| #[trigger] m.contains_key(k) ==> k == equivalent_top(0)
}

/// Every bucket held has a count.
pub open spec fn positive(m: Map<u64, nat>) -> bool {
    forall|k: u64| #[trigger] m.contains_key(k) ==> m[k] > 0
}

/// Relies on `hdrsample::Histogram::iter_recorded`: each bucket with a
/// count, in increasing order, as its highest equivalent value and count.
/// The iteration stops at the bucket of the largest value recorded, which
/// it has picked; where that is 0 (nothing but 0 was recorded) it yields
/// nothing.
#[verifier::external_body]
pub(crate) fn recorded_counts(h: &LatencyHistogram) -> (r: Vec<(u64, u64)>)
    ensures
        increasing_keys(r@),
        only_zero_bucket(histogram_counts(*h)) ==> r@.len() == 0,
        !only_zero_bucket(histogram_counts(*h)) ==> pairs_map(r@) == histogram_counts(*h),
{
    h.inner.iter_recorded().map(|v| (v.value_iterated_to(), v.count_at_value())).collect()
}

/// Relies on `hdrsample::Histogram::count_at`: the count of the bucket
/// that holds 0.
#[verifier::external_body]
pub(crate) fn count_at_zero(h: &LatencyHistogram) -> (r: u64)
    ensures
        r as nat == count_in(histogram_counts(*h), equivalent_top(0)),
{
    h.inner.count_at(0)
}

/// Relies on `hdrsample::Histogram::highest_equivalent`: the highest value
/// of the bucket that holds 0.
#[verifier::external_body]
pub(crate) fn zero_top(h: &LatencyHistogram) -> (r: u64)
    ensures
        r == equivalent_top(0),
{
    h.inner.highest_equivalent(0)
}

/// Each bucket with a count, in increasing order, as its highest value and
/// its count; the bucket of 0 included where nothing else was recorded.
pub fn bucket_counts(h: &LatencyHistogram) -> (r: Vec<(u64, u64)>)
    requires
        positive(histogram_counts(*h)),
    ensures
        increasing_keys(r@),
        pairs_map(r@) == histogram_counts(*h),
{
    let pairs = recorded_counts(h);
    if pairs.len() > 0 {
        return pairs;
    }
    let ghost m = histogram_counts(*h);
    let z = count_at_zero(h);
    if z == 0 {
        proof {
            if !only_zero_bucket(m) {
                assert(pairs_map(pairs@) =~= Map::<u64, nat>::empty());
            }
            assert(m =~= Map::<u64, nat>::empty()) by {
                assert forall|k: u64| !m.contains_key(k) by {
                    if m.contains_key(k) && only_zero_bucket(m) {
                        assert(k == equivalent_top(0));
                    }
                    if !only_zero_bucket(m) {
                        assert(pairs_map(pairs@) =~= Map::<u64, nat>::empty());
                    }
                }
            }
            assert(pairs_map(pairs@) =~= Map::<u64, nat>::empty());
        }
        return pairs;
    }
    let top = zero_top(h);
    let mut v: Vec<(u64, u64)> = Vec::new();
    v.push((top, z));
    proof {
        assert(pairs_map(pairs@) =~= Map::<u64, nat>::empty());
        assert(m.contains_key(top));
        assert(m[top] == z as nat);
        assert(only_zero_bucket(m));
        assert(v@.drop_last() =~= Seq::<(u64, u64)>::empty());
        assert(v@.len() == 1);
        assert(v@.last() == (top, z));
        assert(pairs_map(v@.drop_last()) == Map::<u64, nat>::empty());
        assert(pairs_map(v@) == pairs_map(v@.drop_last()).insert(top, z as nat));
        assert(pairs_map(v@) =~= m) by {
            assert forall|k: u64| m.contains_key(k) implies k == top by {}
        }
    }
    v
}

} // verus!
