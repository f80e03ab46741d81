//! OneR-style supervised discretization of a single ordered attribute.
//!
//! Given one attribute column, the class label of each observation, and a
//! small-disjunct threshold, `find_intervals` produces an ordered list of
//! labeled intervals that partitions the attribute domain; `quantize` looks
//! a value up in such a list.
//!
//! Attribute values are `i64`; class labels are integer identifiers
//! (`u64`) chosen by the caller. Ties for the most frequent class of a
//! segment are broken deterministically, in favour of the class reaching
//! the maximal count earliest in value-sorted order.

use vstd::prelude::*;

mod counts;
mod interval;
mod sorting;
mod splits;

pub use interval::adjacent_distinct;
pub use interval::lemma_merge_adjacent_distinct;
pub use interval::lemma_partition;
pub use interval::merge_neighbours_with_same_class;
pub use interval::merge_spec;
pub use interval::quantize;
pub use interval::well_formed;
pub use interval::Interval;
pub use splits::intervals_from_splits;
pub use splits::intervals_spec;
pub use splits::lemma_zero_threshold_trims_same_class_only;
pub use splits::trim_same_class_only_from;
pub use splits::trim_spec;
pub use splits::trim_splits;

use crate::counts::lemma_seg_max_le_len;
use crate::counts::lemma_seg_max_positive;
use crate::counts::no_dominant_spec;
use crate::counts::seg_majority;
use crate::interval::lemma_merge_wf;
use crate::interval::merge_from;
use crate::sorting::lemma_sort_len;
use crate::sorting::lemma_sort_sorted;
use crate::sorting::sort_by_value;
use crate::sorting::sort_pairs_by_value;
use crate::splits::candidate_splits;
use crate::splits::candidate_splits_up_to;
use crate::splits::lemma_candidates_props;
use crate::splits::lemma_intervals_spec_wf;
use crate::splits::lemma_trim_spec_props;
use crate::splits::trim_from;
use crate::splits::valid_splits;

verus! {

/// The (value, class) pairs formed by zipping the attribute column with
/// the class column; zipping stops at the shorter of the two.
pub open spec fn paired(attribute: Seq<i64>, classes: Seq<u64>) -> Seq<(i64, u64)> {
    let n = if attribute.len() <= classes.len() {
        attribute.len()
    } else {
        classes.len()
    };
    Seq::new(n, |i: int| (attribute[i], classes[i]))
}

/// What `find_intervals` returns: the merged interval list built from the
/// trimmed candidate splits of the value-sorted pair sequence.
pub open spec fn find_intervals_spec(attribute: Seq<i64>, classes: Seq<u64>, small: int) -> Seq<
    Interval,
> {
    let data = sort_by_value(paired(attribute, classes));
    merge_spec(intervals_spec(trim_spec(candidate_splits(data), small, data), data))
}

/// Discretize `attribute` into an ordered list of labeled intervals.
///
/// The observations are sorted by attribute value; a candidate split is
/// placed at every strict value increase; a split is discarded while the
/// segment it closes has no class occurring more than `small` times, or
/// while the following segment has the same majority class; the surviving
/// segments become intervals labeled with their majority class; finally,
/// adjacent intervals of one class are merged.
///
/// The result is exactly `find_intervals_spec` of the inputs — the same
/// inputs always give the identical interval list — and it is a
/// well-formed partition of the attribute domain in which no two adjacent
/// intervals share a class.
pub fn find_intervals(attribute: &Vec<i64>, classes: &Vec<u64>, small: usize) -> (r: Vec<Interval>)
    requires
        attribute@.len() >= 1,
        classes@.len() >= 1,
    ensures
        r@ == find_intervals_spec(attribute@, classes@, small as int),
        well_formed(r@),
        adjacent_distinct(r@),
{
    let n = if attribute.len() <= classes.len() {
        attribute.len()
    } else {
        classes.len()
    };
    let mut pairs: Vec<(i64, u64)> = Vec::new();
    let mut i: usize = 0;
    while i < n
        invariant
            n == (if attribute@.len() <= classes@.len() {
                attribute@.len()
            } else {
                classes@.len()
            }),
            0 <= i <= n,
            pairs@.len() == i,
            forall|j: int| 0 <= j < i ==> pairs@[j] == (attribute@[j], classes@[j]),
        decreases n - i,
    {
        pairs.push((attribute[i], classes[i]));
        i = i + 1;
    }
    proof {
        assert(pairs@ =~= paired(attribute@, classes@));
    }
    sort_pairs_by_value(&mut pairs);
    let len = pairs.len();
    proof {
        lemma_sort_len(paired(attribute@, classes@));
        lemma_sort_sorted(paired(attribute@, classes@));
        lemma_candidates_props(pairs@);
    }
    let mut cand: Vec<usize> = Vec::new();
    let mut k: usize = 1;
    while k < len
        invariant
            1 <= k <= len || (len == 0 && k == 1),
            len == pairs@.len(),
            cand@ == candidate_splits_up_to(pairs@, k as int),
        decreases len - k,
    {
        if pairs[k].0 > pairs[k - 1].0 {
            cand.push(k);
        }
        k = k + 1;
    }
    proof {
        assert(cand@ == candidate_splits(pairs@));
        lemma_trim_spec_props(candidate_splits(pairs@), small as int, pairs@);
    }
    let trimmed = trim_splits(cand, small, &pairs);
    proof {
        lemma_intervals_spec_wf(trimmed@, pairs@);
    }
    let intervals = intervals_from_splits(trimmed, &pairs);
    let merged = merge_neighbours_with_same_class(&intervals);
    proof {
        lemma_merge_wf(intervals@);
    }
    merged
}

/// For every valid input, the interval list is well formed — its
/// boundaries strictly increase and it partitions the attribute domain,
/// so `lemma_partition` places each value in exactly one interval — and
/// no two adjacent intervals of it share a class.
pub proof fn lemma_find_intervals_wf(attribute: Seq<i64>, classes: Seq<u64>, small: int)
    requires
        attribute.len() >= 1,
        classes.len() >= 1,
        attribute.len() <= usize::MAX,
        classes.len() <= usize::MAX,
    ensures
        well_formed(find_intervals_spec(attribute, classes, small)),
        adjacent_distinct(find_intervals_spec(attribute, classes, small)),
{
    let data = sort_by_value(paired(attribute, classes));
    lemma_sort_len(paired(attribute, classes));
    lemma_sort_sorted(paired(attribute, classes));
    lemma_candidates_props(data);
    lemma_trim_spec_props(candidate_splits(data), small, data);
    let trimmed = trim_spec(candidate_splits(data), small, data);
    lemma_intervals_spec_wf(trimmed, data);
    lemma_merge_wf(intervals_spec(trimmed, data));
    lemma_merge_adjacent_distinct(intervals_spec(trimmed, data));
}

/// With a zero threshold the small-disjunct test never discards a split:
/// every nonempty segment has a class occurring more than zero times, so
/// only the adjacent-same-class rules can reduce the interval list.
pub proof fn lemma_zero_threshold_never_suppresses(data: Seq<(i64, u64)>, start: int, until: int)
    requires
        0 <= start < until <= data.len(),
    ensures
        !no_dominant_spec(data, start, until, 0),
{
    lemma_seg_max_positive(data, start, until);
}

proof fn lemma_trim_all_dropped(
    splits: Seq<usize>,
    small: int,
    data: Seq<(i64, u64)>,
    i: int,
    start: int,
)
    requires
        valid_splits(data, splits),
        small >= data.len(),
        0 <= start,
        forall|j: int| i <= j < splits.len() ==> start < #[trigger] splits[j],
    ensures
        trim_from(splits, small, data, i, start) == Seq::<usize>::empty(),
    decreases splits.len() - i,
{
    if 0 <= i < splits.len() {
        let head = splits[i] as int;
        lemma_seg_max_le_len(data, start, head);
        assert(no_dominant_spec(data, start, head, small));
        lemma_trim_all_dropped(splits, small, data, i + 1, start);
    }
}

/// A threshold at least the length of the (zipped) input collapses the
/// result to a single `Infinite` interval labeled with the overall
/// majority class of the value-sorted observations.
pub proof fn lemma_large_threshold_collapses(attribute: Seq<i64>, classes: Seq<u64>, small: int)
    requires
        attribute.len() >= 1,
        classes.len() >= 1,
        attribute.len() <= usize::MAX,
        classes.len() <= usize::MAX,
        small >= paired(attribute, classes).len(),
    ensures
        find_intervals_spec(attribute, classes, small) == seq![
            Interval::Infinite {
                class: seg_majority(
                    sort_by_value(paired(attribute, classes)),
                    0,
                    paired(attribute, classes).len() as int,
                ),
            },
        ],
{
    let data = sort_by_value(paired(attribute, classes));
    lemma_sort_len(paired(attribute, classes));
    lemma_candidates_props(data);
    lemma_trim_all_dropped(candidate_splits(data), small, data, 0, 0);
    let ivs = intervals_spec(trim_spec(candidate_splits(data), small, data), data);
    assert(ivs == seq![Interval::Infinite { class: seg_majority(data, 0, data.len() as int) }]);
    let acc = Seq::<Interval>::empty().push(ivs[0]);
    assert(merge_from(ivs, 0, Seq::empty()) == merge_from(ivs, 1, acc));
    assert(merge_from(ivs, 1, acc) == acc);
    assert(acc =~= ivs);
}

} // verus!
