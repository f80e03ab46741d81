//! Candidate split detection over the sorted pair sequence, threshold-based
//! trimming of those splits, and construction of concrete intervals.

use vstd::prelude::*;

use crate::counts::lemma_seg_max_positive;
use crate::counts::max_class_count;
use crate::counts::most_frequent_class;
use crate::counts::no_dominant_spec;
use crate::counts::seg_majority;
use crate::interval::lower_boundary;
use crate::interval::upper_boundary;
use crate::interval::well_formed;
use crate::interval::Interval;
use crate::sorting::sorted_by_value;

verus! {

/// The candidate split indices among the first `n` positions of `data`:
/// every index whose value strictly exceeds its predecessor's.
pub open spec fn candidate_splits_up_to(data: Seq<(i64, u64)>, n: int) -> Seq<usize>
    decreases n,
{
    if n <= 1 {
        Seq::empty()
    } else {
        let rest = candidate_splits_up_to(data, n - 1);
        if data[n - 1].0 > data[n - 2].0 {
            rest.push((n - 1) as usize)
        } else {
            rest
        }
    }
}

/// All candidate split indices of `data`: one per position where the
/// attribute value strictly increases from its predecessor.
pub open spec fn candidate_splits(data: Seq<(i64, u64)>) -> Seq<usize> {
    candidate_splits_up_to(data, data.len() as int)
}

/// The split indices are strictly ascending interior positions of `data`.
pub open spec fn valid_splits(data: Seq<(i64, u64)>, splits: Seq<usize>) -> bool {
    &&& forall|k: int| 0 <= k < splits.len() ==> 0 < #[trigger] splits[k] < data.len()
    &&& forall|k1: int, k2: int|
        0 <= k1 < k2 < splits.len() ==> #[trigger] splits[k1] < #[trigger] splits[k2]
}

/// Every split index sits at a strict increase of the attribute value.
pub open spec fn splits_at_increases(data: Seq<(i64, u64)>, splits: Seq<usize>) -> bool {
    forall|k: int|
        0 <= k < splits.len() ==> data[#[trigger] splits[k] as int].0 > data[splits[k] as int
            - 1].0
}

pub proof fn lemma_candidates_up_to(data: Seq<(i64, u64)>, n: int)
    requires
        n <= data.len() <= usize::MAX,
    ensures
        forall|k: int|
            0 <= k < candidate_splits_up_to(data, n).len() ==> 0 < #[trigger] candidate_splits_up_to(
                data,
                n,
            )[k] < n,
        valid_splits(data, candidate_splits_up_to(data, n)),
        splits_at_increases(data, candidate_splits_up_to(data, n)),
    decreases n,
{
    if n > 1 {
        lemma_candidates_up_to(data, n - 1);
        let rest = candidate_splits_up_to(data, n - 1);
        let cur = candidate_splits_up_to(data, n);
        if data[n - 1].0 > data[n - 2].0 {
            assert(cur == rest.push((n - 1) as usize));
            assert(0 < ((n - 1) as usize) && ((n - 1) as usize) < n);
            assert(forall|k: int| 0 <= k < rest.len() ==> cur[k] == #[trigger] rest[k]);
            assert(cur[rest.len() as int] == (n - 1) as usize);
        } else {
            assert(cur == rest);
        }
    }
}

/// The candidate splits are valid and sit at strict value increases.
pub proof fn lemma_candidates_props(data: Seq<(i64, u64)>)
    requires
        data.len() <= usize::MAX,
    ensures
        valid_splits(data, candidate_splits(data)),
        splits_at_increases(data, candidate_splits(data)),
{
    lemma_candidates_up_to(data, data.len() as int);
}

/// Whether the segment that would follow a kept split at `until` has the
/// same majority class as the segment `start..until` it closes; `next` is
/// the candidate after `until`, if any.
pub open spec fn next_same_class_spec(
    data: Seq<(i64, u64)>,
    start: int,
    until: int,
    next: Option<usize>,
) -> bool {
    match next {
        Option::None => false,
        Option::Some(n) => seg_majority(data, until, n as int) == seg_majority(data, start, until),
    }
}

/// The surviving splits, walking the candidates from position `i` with the
/// current segment starting at `start`: a candidate is dropped when its
/// segment has no class above `small`, or when the next segment's majority
/// class equals its own.
pub open spec fn trim_from(
    splits: Seq<usize>,
    small: int,
    data: Seq<(i64, u64)>,
    i: int,
    start: int,
) -> Seq<usize>
    decreases splits.len() - i,
{
    if i < 0 || i >= splits.len() {
        Seq::empty()
    } else {
        let head = splits[i] as int;
        let next = if i + 1 < splits.len() {
            Option::Some(splits[i + 1])
        } else {
            Option::None
        };
        if no_dominant_spec(data, start, head, small) || next_same_class_spec(
            data,
            start,
            head,
            next,
        ) {
            trim_from(splits, small, data, i + 1, start)
        } else {
            seq![splits[i]] + trim_from(splits, small, data, i + 1, head)
        }
    }
}

/// The trimmed split list: the left-to-right fold over all candidates,
/// starting with the segment at position 0.
pub open spec fn trim_spec(splits: Seq<usize>, small: int, data: Seq<(i64, u64)>) -> Seq<usize> {
    trim_from(splits, small, data, 0, 0)
}

/// The splits surviving a fold in which only the same-majority-class rule
/// discards candidates, with no small-disjunct suppression at all.
pub open spec fn trim_same_class_only_from(
    splits: Seq<usize>,
    data: Seq<(i64, u64)>,
    i: int,
    start: int,
) -> Seq<usize>
    decreases splits.len() - i,
{
    if i < 0 || i >= splits.len() {
        Seq::empty()
    } else {
        let head = splits[i] as int;
        let next = if i + 1 < splits.len() {
            Option::Some(splits[i + 1])
        } else {
            Option::None
        };
        if next_same_class_spec(data, start, head, next) {
            trim_same_class_only_from(splits, data, i + 1, start)
        } else {
            seq![splits[i]] + trim_same_class_only_from(splits, data, i + 1, head)
        }
    }
}

proof fn lemma_zero_trim_from(splits: Seq<usize>, data: Seq<(i64, u64)>, i: int, start: int)
    requires
        valid_splits(data, splits),
        0 <= start,
        forall|j: int| i <= j < splits.len() ==> start < #[trigger] splits[j],
    ensures
        trim_from(splits, 0, data, i, start) == trim_same_class_only_from(splits, data, i, start),
    decreases splits.len() - i,
{
    if 0 <= i < splits.len() {
        let head = splits[i] as int;
        lemma_seg_max_positive(data, start, head);
        assert(!no_dominant_spec(data, start, head, 0));
        lemma_zero_trim_from(splits, data, i + 1, start);
        assert forall|j: int| i + 1 <= j < splits.len() implies head < #[trigger] splits[j] by {
            assert(splits[i] < splits[j]);
        }
        lemma_zero_trim_from(splits, data, i + 1, head);
    }
}

/// A zero threshold suppresses nothing: the trimming then keeps every
/// candidate split except those separating segments that share one
/// majority class, yielding the largest split list — and so the most
/// intervals — consistent with the same-class rules alone.
pub proof fn lemma_zero_threshold_trims_same_class_only(splits: Seq<usize>, data: Seq<(i64, u64)>)
    requires
        valid_splits(data, splits),
    ensures
        trim_spec(splits, 0, data) == trim_same_class_only_from(splits, data, 0, 0),
{
    lemma_zero_trim_from(splits, data, 0, 0);
}

/// Trimming returns a strictly ascending selection of the given splits,
/// each above `start`.
pub proof fn lemma_trim_from_props(
    splits: Seq<usize>,
    small: int,
    data: Seq<(i64, u64)>,
    i: int,
    start: int,
)
    requires
        valid_splits(data, splits),
        forall|j: int| i <= j < splits.len() ==> start < #[trigger] splits[j],
    ensures
        forall|k: int|
            0 <= k < trim_from(splits, small, data, i, start).len() ==> splits.contains(
                #[trigger] trim_from(splits, small, data, i, start)[k],
            ),
        forall|k1: int, k2: int|
            0 <= k1 < k2 < trim_from(splits, small, data, i, start).len()
                ==> #[trigger] trim_from(splits, small, data, i, start)[k1]
                < #[trigger] trim_from(splits, small, data, i, start)[k2],
        forall|k: int|
            0 <= k < trim_from(splits, small, data, i, start).len() ==> start
                < #[trigger] trim_from(splits, small, data, i, start)[k],
    decreases splits.len() - i,
{
    if 0 <= i < splits.len() {
        let head = splits[i] as int;
        let next = if i + 1 < splits.len() {
            Option::Some(splits[i + 1])
        } else {
            Option::None
        };
        if no_dominant_spec(data, start, head, small) || next_same_class_spec(
            data,
            start,
            head,
            next,
        ) {
            lemma_trim_from_props(splits, small, data, i + 1, start);
            assert(trim_from(splits, small, data, i, start) == trim_from(
                splits,
                small,
                data,
                i + 1,
                start,
            ));
        } else {
            assert forall|j: int| i + 1 <= j < splits.len() implies head < #[trigger] splits[j] by {
                assert(splits[i] < splits[j]);
            }
            lemma_trim_from_props(splits, small, data, i + 1, head as int);
            let t = trim_from(splits, small, data, i, start);
            let rest = trim_from(splits, small, data, i + 1, head as int);
            assert(t[0] == splits[i]);
            assert(splits.contains(splits[i]));
            assert(forall|k: int| 1 <= k < t.len() ==> t[k] == rest[k - 1]);
            assert(start < splits[i]);
            assert forall|k: int| 0 <= k < t.len() implies splits.contains(#[trigger] t[k])
                && start < t[k] by {
                if k > 0 {
                    assert(t[k] == rest[k - 1]);
                    assert(splits[i] < rest[k - 1]);
                }
            }
            assert forall|k1: int, k2: int| 0 <= k1 < k2 < t.len() implies #[trigger] t[k1]
                < #[trigger] t[k2] by {
                assert(t[k2] == rest[k2 - 1]);
                assert(splits[i] < rest[k2 - 1]);
                if k1 > 0 {
                    assert(t[k1] == rest[k1 - 1]);
                    assert(rest[k1 - 1] < rest[k2 - 1]);
                }
            }
        }
    }
}

/// The trimmed splits inherit validity and the strict-increase property.
pub proof fn lemma_trim_spec_props(splits: Seq<usize>, small: int, data: Seq<(i64, u64)>)
    requires
        valid_splits(data, splits),
        splits_at_increases(data, splits),
    ensures
        valid_splits(data, trim_spec(splits, small, data)),
        splits_at_increases(data, trim_spec(splits, small, data)),
{
    assert(forall|j: int| 0 <= j < splits.len() ==> 0 < #[trigger] splits[j]);
    lemma_trim_from_props(splits, small, data, 0, 0);
    let t = trim_spec(splits, small, data);
    assert forall|k: int| 0 <= k < t.len() implies 0 < #[trigger] t[k] < data.len() && data[t[k] as int].0
        > data[t[k] as int - 1].0 by {
        assert(splits.contains(t[k]));
        let j = choose|j: int| 0 <= j < splits.len() && splits[j] == t[k];
        assert(data[splits[j] as int].0 > data[splits[j] as int - 1].0);
    }
}

/// Test whether no class in `data[start..until]` occurs more than `small`
/// times.
pub fn no_dominant_class(data: &Vec<(i64, u64)>, start: usize, until: usize, small: usize) -> (b:
    bool)
    requires
        start <= until <= data@.len(),
    ensures
        b == no_dominant_spec(data@, start as int, until as int, small as int),
{
    let m = max_class_count(data, start, until);
    m <= small
}

/// Test whether the majority class of the segment that a kept split at
/// `until` would open (running to `next`) equals the majority class of
/// `data[start..until]`; with no next candidate the answer is `false`.
pub fn next_split_same_class(
    data: &Vec<(i64, u64)>,
    start: usize,
    until: usize,
    next: Option<usize>,
) -> (b: bool)
    requires
        start < until <= data@.len(),
        next matches Option::Some(n) ==> until < n <= data@.len(),
    ensures
        b == next_same_class_spec(data@, start as int, until as int, next),
{
    match next {
        Option::None => false,
        Option::Some(n) => {
            let current = most_frequent_class(data, start, until);
            let coming = most_frequent_class(data, until, n);
            coming == current
        },
    }
}

/// Fold left-to-right over the candidate splits, dropping each split whose
/// closed segment has no dominant class or whose following segment shares
/// its majority class.
pub fn trim_splits(splits: Vec<usize>, small: usize, data: &Vec<(i64, u64)>) -> (r: Vec<usize>)
    requires
        valid_splits(data@, splits@),
    ensures
        r@ == trim_spec(splits@, small as int, data@),
{
    let mut keep: Vec<usize> = Vec::new();
    let mut start: usize = 0;
    let mut i: usize = 0;
    while i < splits.len()
        invariant
            valid_splits(data@, splits@),
            0 <= i <= splits@.len(),
            i < splits@.len() ==> start < splits@[i as int],
            start <= data@.len(),
            trim_spec(splits@, small as int, data@) == keep@ + trim_from(
                splits@,
                small as int,
                data@,
                i as int,
                start as int,
            ),
        decreases splits@.len() - i,
    {
        let head = splits[i];
        let next: Option<usize> = if i + 1 < splits.len() {
            Option::Some(splits[i + 1])
        } else {
            Option::None
        };
        let ghost rest_before = trim_from(splits@, small as int, data@, i as int, start as int);
        if no_dominant_class(data, start, head, small) || next_split_same_class(
            data,
            start,
            head,
            next,
        ) {
            i = i + 1;
        } else {
            let ghost keep0 = keep@;
            keep.push(head);
            proof {
                let after = trim_from(splits@, small as int, data@, i + 1, head as int);
                assert(rest_before == seq![head] + after);
                assert(keep0 + rest_before =~= keep@ + after);
            }
            start = head;
            i = i + 1;
        }
    }
    proof {
        assert(keep@ + trim_from(splits@, small as int, data@, i as int, start as int) =~= keep@);
    }
    keep
}

/// The interval at position `k` of the list built from a nonempty split
/// sequence: a `Lower` first, a `Range` per consecutive split pair, an
/// `Upper` last, each classed by its segment's majority.
pub open spec fn interval_at(splits: Seq<usize>, data: Seq<(i64, u64)>, k: int) -> Interval {
    let n = splits.len() as int;
    if k == 0 {
        Interval::Lower {
            below: data[splits[0] as int].0,
            class: seg_majority(data, 0, splits[0] as int),
        }
    } else if k == n {
        Interval::Upper {
            from: data[splits[n - 1] as int].0,
            class: seg_majority(data, splits[n - 1] as int, data.len() as int),
        }
    } else {
        Interval::Range {
            from: data[splits[k - 1] as int].0,
            below: data[splits[k] as int].0,
            class: seg_majority(data, splits[k - 1] as int, splits[k] as int),
        }
    }
}

/// The interval list built from trimmed splits: a single `Infinite`
/// interval when no split survives, otherwise one interval per segment.
pub open spec fn intervals_spec(splits: Seq<usize>, data: Seq<(i64, u64)>) -> Seq<Interval> {
    if splits.len() == 0 {
        seq![Interval::Infinite { class: seg_majority(data, 0, data.len() as int) }]
    } else {
        Seq::new(splits.len() + 1, |k: int| interval_at(splits, data, k))
    }
}

/// Over sorted data, valid splits at strict value increases yield a
/// well-formed interval list: boundaries strictly increase and adjacent
/// intervals share their boundary value.
pub proof fn lemma_intervals_spec_wf(splits: Seq<usize>, data: Seq<(i64, u64)>)
    requires
        data.len() >= 1,
        sorted_by_value(data),
        valid_splits(data, splits),
        splits_at_increases(data, splits),
    ensures
        well_formed(intervals_spec(splits, data)),
{
    let ivs = intervals_spec(splits, data);
    let n = splits.len() as int;
    if n > 0 {
        assert(ivs.len() == n + 1);
        assert(forall|k: int| 0 <= k <= n ==> ivs[k] == interval_at(splits, data, k));
        assert(ivs[0] matches Interval::Lower { .. });
        assert(ivs[n] matches Interval::Upper { .. });
        assert forall|k: int| 0 <= k < n implies #[trigger] upper_boundary(ivs[k])
            == lower_boundary(ivs[k + 1]) && upper_boundary(ivs[k]) is Some by {
            assert(upper_boundary(ivs[k]) == Option::Some(data[splits[k] as int].0));
            assert(lower_boundary(ivs[k + 1]) == Option::Some(data[splits[k] as int].0));
        }
        assert forall|k: int| 0 <= k <= n implies (#[trigger] ivs[k] matches Interval::Range {
            from,
            below,
            ..
        } ==> from < below) by {
            if 0 < k < n {
                let a = splits[k - 1] as int;
                let b = splits[k] as int;
                assert(splits[k - 1] < splits[k]);
                assert(data[b].0 > data[b - 1].0);
                if a < b - 1 {
                    assert(data[a].0 <= data[b - 1].0);
                }
            }
        }
    }
}

/// Turn the trimmed split indices into concrete interval records, each
/// tagged with the majority class of its segment.
pub fn intervals_from_splits(splits: Vec<usize>, data: &Vec<(i64, u64)>) -> (r: Vec<Interval>)
    requires
        data@.len() > 0,
        valid_splits(data@, splits@),
    ensures
        r@ == intervals_spec(splits@, data@),
{
    let n = splits.len();
    let mut r: Vec<Interval> = Vec::new();
    if n == 0 {
        let c = most_frequent_class(data, 0, data.len());
        r.push(Interval::Infinite { class: c });
        proof {
            assert(r@ =~= intervals_spec(splits@, data@));
        }
        r
    } else {
        let first = splits[0];
        let c0 = most_frequent_class(data, 0, first);
        r.push(Interval::Lower { below: data[first].0, class: c0 });
        let mut k: usize = 1;
        while k < n
            invariant
                1 <= k <= n == splits@.len(),
                data@.len() > 0,
                valid_splits(data@, splits@),
                r@.len() == k,
                forall|t: int| 0 <= t < k ==> r@[t] == interval_at(splits@, data@, t),
            decreases n - k,
        {
            let lo = splits[k - 1];
            let hi = splits[k];
            let c = most_frequent_class(data, lo, hi);
            r.push(Interval::Range { from: data[lo].0, below: data[hi].0, class: c });
            k = k + 1;
        }
        let last = splits[n - 1];
        let cu = most_frequent_class(data, last, data.len());
        r.push(Interval::Upper { from: data[last].0, class: cu });
        proof {
            assert(r@ =~= intervals_spec(splits@, data@));
        }
        r
    }
}

} // verus!
