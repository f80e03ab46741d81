//! Frequency counting over half-open segments of the sorted
//! (value, class) pair sequence, and the majority class of a segment.
//!
//! Ties for the most frequent class are broken deterministically: the
//! winning class is the one at the earliest position in the segment whose
//! segment-wide count reaches the maximum.

use vstd::prelude::*;

verus! {

/// How often class `c` occurs among `data[start..until]`.
pub open spec fn count_class(data: Seq<(i64, u64)>, start: int, until: int, c: u64) -> nat
    decreases until - start,
{
    if until <= start {
        0
    } else {
        count_class(data, start, until - 1, c) + (if data[until - 1].1 == c {
            1nat
        } else {
            0nat
        })
    }
}

/// The largest segment-wide class count among the classes found at
/// positions `start..k` of the segment `start..until`.
pub open spec fn prefix_max_count(data: Seq<(i64, u64)>, start: int, until: int, k: int) -> nat
    decreases k - start,
{
    if k <= start {
        0
    } else {
        let prev = prefix_max_count(data, start, until, k - 1);
        let cnt = count_class(data, start, until, data[k - 1].1);
        if cnt > prev {
            cnt
        } else {
            prev
        }
    }
}

/// The highest occurrence count any class reaches in `data[start..until]`.
pub open spec fn seg_max_count(data: Seq<(i64, u64)>, start: int, until: int) -> nat {
    prefix_max_count(data, start, until, until)
}

/// The majority class of `data[start..until]` scanning from position `k`:
/// the class at the first position whose count reaches the maximum.
pub open spec fn majority_from(data: Seq<(i64, u64)>, start: int, until: int, k: int) -> u64
    decreases until - k,
{
    if k >= until {
        0
    } else if count_class(data, start, until, data[k].1) == seg_max_count(data, start, until) {
        data[k].1
    } else {
        majority_from(data, start, until, k + 1)
    }
}

/// The majority class of `data[start..until]`: the most frequent class,
/// ties broken in favour of the earliest position in the segment.
pub open spec fn seg_majority(data: Seq<(i64, u64)>, start: int, until: int) -> u64 {
    majority_from(data, start, until, start)
}

/// No class count in `data[start..until]` rises above `small`.
pub open spec fn no_dominant_spec(data: Seq<(i64, u64)>, start: int, until: int, small: int) -> bool {
    seg_max_count(data, start, until) <= small
}

/// A class count never exceeds the segment length.
pub proof fn lemma_count_le_len(data: Seq<(i64, u64)>, start: int, until: int, c: u64)
    requires
        start <= until,
    ensures
        count_class(data, start, until, c) <= until - start,
    decreases until - start,
{
    if until > start {
        lemma_count_le_len(data, start, until - 1, c);
    }
}

/// Counting over a longer segment never yields fewer occurrences.
pub proof fn lemma_count_mono(data: Seq<(i64, u64)>, start: int, until1: int, until2: int, c: u64)
    requires
        until1 <= until2,
    ensures
        count_class(data, start, until1, c) <= count_class(data, start, until2, c),
    decreases until2 - until1,
{
    if until1 < until2 {
        lemma_count_mono(data, start, until1, until2 - 1, c);
    }
}

/// The class at any position of a nonempty segment occurs at least once.
pub proof fn lemma_count_at_least_one(data: Seq<(i64, u64)>, start: int, until: int, j: int)
    requires
        start <= j < until,
    ensures
        count_class(data, start, until, data[j].1) >= 1,
{
    assert(count_class(data, start, j + 1, data[j].1) >= 1);
    lemma_count_mono(data, start, j + 1, until, data[j].1);
}

/// The running maximum dominates the count of every class already scanned.
pub proof fn lemma_prefix_max_dominates(
    data: Seq<(i64, u64)>,
    start: int,
    until: int,
    k: int,
    j: int,
)
    requires
        start <= j < k,
    ensures
        prefix_max_count(data, start, until, k) >= count_class(data, start, until, data[j].1),
    decreases k - j,
{
    if j < k - 1 {
        lemma_prefix_max_dominates(data, start, until, k - 1, j);
    }
}

/// A positive running maximum is attained by the class at some scanned position.
pub proof fn lemma_prefix_max_achieved(data: Seq<(i64, u64)>, start: int, until: int, k: int)
    requires
        prefix_max_count(data, start, until, k) > 0,
    ensures
        exists|j: int|
            start <= j < k && count_class(data, start, until, data[j].1) == prefix_max_count(
                data,
                start,
                until,
                k,
            ),
    decreases k - start,
{
    if k > start {
        let prev = prefix_max_count(data, start, until, k - 1);
        let cnt = count_class(data, start, until, data[k - 1].1);
        if cnt > prev {
            assert(count_class(data, start, until, data[k - 1].1) == prefix_max_count(
                data,
                start,
                until,
                k,
            ));
        } else {
            lemma_prefix_max_achieved(data, start, until, k - 1);
        }
    }
}

/// A nonempty segment has a maximum count of at least one.
pub proof fn lemma_seg_max_positive(data: Seq<(i64, u64)>, start: int, until: int)
    requires
        start < until,
    ensures
        seg_max_count(data, start, until) >= 1,
{
    lemma_count_at_least_one(data, start, until, until - 1);
    lemma_prefix_max_dominates(data, start, until, until, until - 1);
}

/// The maximum count never exceeds the segment length.
pub proof fn lemma_seg_max_le_len(data: Seq<(i64, u64)>, start: int, until: int)
    requires
        start <= until,
    ensures
        seg_max_count(data, start, until) <= until - start,
{
    if seg_max_count(data, start, until) > 0 {
        lemma_prefix_max_achieved(data, start, until, until);
        let j = choose|j: int|
            start <= j < until && count_class(data, start, until, data[j].1) == seg_max_count(
                data,
                start,
                until,
            );
        lemma_count_le_len(data, start, until, data[j].1);
    }
}

/// Count the occurrences of class `c` in `data[start..until]`.
pub fn count_class_in(data: &Vec<(i64, u64)>, start: usize, until: usize, c: u64) -> (n: usize)
    requires
        start <= until <= data@.len(),
    ensures
        n == count_class(data@, start as int, until as int, c),
{
    let mut n: usize = 0;
    let mut k: usize = start;
    while k < until
        invariant
            start <= k <= until <= data@.len(),
            n == count_class(data@, start as int, k as int, c),
            n <= k - start,
        decreases until - k,
    {
        if data[k].1 == c {
            n = n + 1;
        }
        k = k + 1;
    }
    n
}

/// The highest occurrence count any class reaches in `data[start..until]`.
pub fn max_class_count(data: &Vec<(i64, u64)>, start: usize, until: usize) -> (m: usize)
    requires
        start <= until <= data@.len(),
    ensures
        m == seg_max_count(data@, start as int, until as int),
{
    let mut m: usize = 0;
    let mut k: usize = start;
    while k < until
        invariant
            start <= k <= until <= data@.len(),
            m == prefix_max_count(data@, start as int, until as int, k as int),
        decreases until - k,
    {
        let cnt = count_class_in(data, start, until, data[k].1);
        if cnt > m {
            m = cnt;
        }
        k = k + 1;
    }
    m
}

/// The most frequent class in `data[start..until]`; ties go to the class
/// whose maximal count is reached first in segment order.
pub fn most_frequent_class(data: &Vec<(i64, u64)>, start: usize, until: usize) -> (c: u64)
    requires
        start < until <= data@.len(),
    ensures
        c == seg_majority(data@, start as int, until as int),
{
    let m = max_class_count(data, start, until);
    let mut k: usize = start;
    loop
        invariant
            start <= k <= until <= data@.len(),
            start < until,
            m == seg_max_count(data@, start as int, until as int),
            seg_majority(data@, start as int, until as int) == majority_from(
                data@,
                start as int,
                until as int,
                k as int,
            ),
            forall|j: int|
                start <= j < k ==> count_class(data@, start as int, until as int, data@[j].1)
                    != seg_max_count(data@, start as int, until as int),
        decreases until - k,
    {
        if k >= until {
            proof {
                lemma_seg_max_positive(data@, start as int, until as int);
                lemma_prefix_max_achieved(data@, start as int, until as int, until as int);
            }
            assert(false);
        }
        let cnt = count_class_in(data, start, until, data[k].1);
        if cnt == m {
            return data[k].1;
        }
        k = k + 1;
    }
}

} // verus!
