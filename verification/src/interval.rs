//! The interval data type: four shapes of coverage over the attribute
//! domain, each tagged with a class label.

use vstd::pervasive::VecAdditionalExecFns;
use vstd::prelude::*;

verus! {

/// One labeled interval over the attribute domain.
///
/// Attribute values are `i64`; class labels are small integer identifiers
/// (`u64`) chosen by the caller.
#[derive(Clone, Copy, PartialEq, Eq, Structural, Debug)]
pub enum Interval {
    /// Covers every value strictly below `below`.
    Lower { below: i64, class: u64 },
    /// Covers the half-open range `from <= v < below`.
    Range { from: i64, below: i64, class: u64 },
    /// Covers every value at or above `from`.
    Upper { from: i64, class: u64 },
    /// Covers the entire domain.
    Infinite { class: u64 },
}

impl Interval {
    /// The class label carried by this interval.
    pub open spec fn spec_class(self) -> u64 {
        match self {
            Interval::Lower { class, .. } => class,
            Interval::Range { class, .. } => class,
            Interval::Upper { class, .. } => class,
            Interval::Infinite { class } => class,
        }
    }

    /// Whether the value `v` falls inside this interval's coverage.
    pub open spec fn contains(self, v: i64) -> bool {
        match self {
            Interval::Lower { below, .. } => v < below,
            Interval::Range { from, below, .. } => from <= v && v < below,
            Interval::Upper { from, .. } => from <= v,
            Interval::Infinite { .. } => true,
        }
    }

    /// The class label of this interval.
    pub fn class(&self) -> (c: u64)
        ensures
            c == self.spec_class(),
    {
        match self {
            Interval::Lower { class, .. } => *class,
            Interval::Range { class, .. } => *class,
            Interval::Upper { class, .. } => *class,
            Interval::Infinite { class } => *class,
        }
    }

    /// Whether the value falls inside this interval's coverage.
    pub fn matches(&self, value: i64) -> (b: bool)
        ensures
            b == self.contains(value),
    {
        match self {
            Interval::Lower { below, .. } => value < *below,
            Interval::Range { from, below, .. } => *from <= value && value < *below,
            Interval::Upper { from, .. } => *from <= value,
            Interval::Infinite { .. } => true,
        }
    }

    /// Build a `Lower` interval.
    pub fn lower(below: i64, class: u64) -> (r: Interval)
        ensures
            r == (Interval::Lower { below, class }),
    {
        Interval::Lower { below, class }
    }

    /// Build a `Range` interval.
    pub fn range(from: i64, below: i64, class: u64) -> (r: Interval)
        ensures
            r == (Interval::Range { from, below, class }),
    {
        Interval::Range { from, below, class }
    }

    /// Build an `Upper` interval.
    pub fn upper(from: i64, class: u64) -> (r: Interval)
        ensures
            r == (Interval::Upper { from, class }),
    {
        Interval::Upper { from, class }
    }

    /// Build an `Infinite` interval.
    pub fn infinite(class: u64) -> (r: Interval)
        ensures
            r == (Interval::Infinite { class }),
    {
        Interval::Infinite { class }
    }
}

/// The lower boundary of an interval's coverage, if it has one.
pub open spec fn lower_boundary(iv: Interval) -> Option<i64> {
    match iv {
        Interval::Lower { .. } => Option::None,
        Interval::Range { from, .. } => Option::Some(from),
        Interval::Upper { from, .. } => Option::Some(from),
        Interval::Infinite { .. } => Option::None,
    }
}

/// The upper boundary of an interval's coverage, if it has one.
pub open spec fn upper_boundary(iv: Interval) -> Option<i64> {
    match iv {
        Interval::Lower { below, .. } => Option::Some(below),
        Interval::Range { below, .. } => Option::Some(below),
        Interval::Upper { .. } => Option::None,
        Interval::Infinite { .. } => Option::None,
    }
}

/// The single interval covering the union of two adjacent intervals of one
/// class: the lower boundary of `a`, the upper boundary of `b`, `a`'s class.
pub open spec fn join(a: Interval, b: Interval) -> Interval {
    let class = a.spec_class();
    match (lower_boundary(a), upper_boundary(b)) {
        (Option::None, Option::None) => Interval::Infinite { class },
        (Option::None, Option::Some(below)) => Interval::Lower { below, class },
        (Option::Some(from), Option::None) => Interval::Upper { from, class },
        (Option::Some(from), Option::Some(below)) => Interval::Range { from, below, class },
    }
}

/// No two adjacent intervals carry the same class label.
pub open spec fn adjacent_distinct(ivs: Seq<Interval>) -> bool {
    forall|k: int|
        0 <= k < ivs.len() - 1 ==> (#[trigger] ivs[k]).spec_class() != ivs[k + 1].spec_class()
}

/// The merged interval list, walking `ivs` from position `i` with the
/// already-merged prefix `acc`: an interval sharing the class of the last
/// merged interval is absorbed into it, any other is appended.
pub open spec fn merge_from(ivs: Seq<Interval>, i: int, acc: Seq<Interval>) -> Seq<Interval>
    decreases ivs.len() - i,
{
    if i < 0 || i >= ivs.len() {
        acc
    } else if acc.len() > 0 && acc.last().spec_class() == ivs[i].spec_class() {
        merge_from(ivs, i + 1, acc.update(acc.len() - 1, join(acc.last(), ivs[i])))
    } else {
        merge_from(ivs, i + 1, acc.push(ivs[i]))
    }
}

/// The interval list with every maximal run of adjacent same-class
/// intervals collapsed into one interval covering the run's union.
pub open spec fn merge_spec(ivs: Seq<Interval>) -> Seq<Interval> {
    merge_from(ivs, 0, Seq::empty())
}

/// Build the `join` of two intervals.
fn join_intervals(a: &Interval, b: &Interval) -> (r: Interval)
    ensures
        r == join(*a, *b),
{
    let class = a.class();
    let lo: Option<i64> = match a {
        Interval::Lower { .. } => Option::None,
        Interval::Range { from, .. } => Option::Some(*from),
        Interval::Upper { from, .. } => Option::Some(*from),
        Interval::Infinite { .. } => Option::None,
    };
    let hi: Option<i64> = match b {
        Interval::Lower { below, .. } => Option::Some(*below),
        Interval::Range { below, .. } => Option::Some(*below),
        Interval::Upper { .. } => Option::None,
        Interval::Infinite { .. } => Option::None,
    };
    match (lo, hi) {
        (Option::None, Option::None) => Interval::Infinite { class },
        (Option::None, Option::Some(below)) => Interval::Lower { below, class },
        (Option::Some(from), Option::None) => Interval::Upper { from, class },
        (Option::Some(from), Option::Some(below)) => Interval::Range { from, below, class },
    }
}

/// Merge every maximal run of adjacent intervals sharing a class into a
/// single interval whose coverage is the union of the run, preserving
/// the relative order and the class of every surviving interval.
pub fn merge_neighbours_with_same_class(intervals: &Vec<Interval>) -> (r: Vec<Interval>)
    ensures
        r@ == merge_spec(intervals@),
        adjacent_distinct(r@),
{
    proof {
        lemma_merge_adjacent_distinct(intervals@);
    }
    let mut r: Vec<Interval> = Vec::new();
    let mut i: usize = 0;
    while i < intervals.len()
        invariant
            0 <= i <= intervals@.len(),
            merge_spec(intervals@) == merge_from(intervals@, i as int, r@),
        decreases intervals@.len() - i,
    {
        let iv = intervals[i];
        let should_join = if r.len() > 0 {
            let n = r.len() - 1;
            r[n].class() == iv.class()
        } else {
            false
        };
        if should_join {
            let n = r.len() - 1;
            let joined = join_intervals(&r[n], &iv);
            r.set(n, joined);
        } else {
            r.push(iv);
        }
        i = i + 1;
    }
    r
}

/// The value of an optional boundary; meaningful only where one exists.
pub open spec fn boundary_val(o: Option<i64>) -> i64 {
    match o {
        Option::Some(x) => x,
        Option::None => 0,
    }
}

/// The boundary shared by intervals `k-1` and `k` of a well-formed list.
pub open spec fn seam(ivs: Seq<Interval>, k: int) -> i64 {
    boundary_val(upper_boundary(ivs[k - 1]))
}

/// A finished interval list: at least one interval; a single interval
/// covers everything; several intervals run `Lower`, `Range`..., `Upper`
/// with matching, strictly increasing boundaries. Such a list partitions
/// the attribute domain.
pub open spec fn well_formed(ivs: Seq<Interval>) -> bool {
    &&& ivs.len() >= 1
    &&& (ivs.len() == 1 ==> ivs[0] matches Interval::Infinite { .. })
    &&& (ivs.len() >= 2 ==> {
        &&& (ivs[0] matches Interval::Lower { .. })
        &&& (ivs.last() matches Interval::Upper { .. })
        &&& forall|k: int|
            0 < k < ivs.len() - 1 ==> (#[trigger] ivs[k] matches Interval::Range { .. })
        &&& forall|k: int|
            0 <= k < ivs.len() - 1 ==> #[trigger] upper_boundary(ivs[k]) == lower_boundary(
                ivs[k + 1],
            ) && upper_boundary(ivs[k]) is Some
        &&& forall|k: int|
            0 <= k < ivs.len() ==> (#[trigger] ivs[k] matches Interval::Range {
                from,
                below,
                ..
            } ==> from < below)
    })
}

/// Consecutive seams of a well-formed list strictly increase.
pub proof fn lemma_seam_step(ivs: Seq<Interval>, k: int)
    requires
        well_formed(ivs),
        ivs.len() >= 2,
        1 <= k <= ivs.len() - 2,
    ensures
        seam(ivs, k) < seam(ivs, k + 1),
{
    assert(ivs[k] matches Interval::Range { .. });
    assert(upper_boundary(ivs[k - 1]) == lower_boundary(ivs[k]));
}

/// Seams of a well-formed list ascend.
pub proof fn lemma_seam_mono(ivs: Seq<Interval>, k1: int, k2: int)
    requires
        well_formed(ivs),
        ivs.len() >= 2,
        1 <= k1 <= k2 <= ivs.len() - 1,
    ensures
        seam(ivs, k1) <= seam(ivs, k2),
    decreases k2 - k1,
{
    if k1 < k2 {
        lemma_seam_mono(ivs, k1, k2 - 1);
        lemma_seam_step(ivs, k2 - 1);
    }
}

/// In a well-formed list of several intervals, interval `k` covers exactly
/// the values from seam `k` (inclusive) up to seam `k+1` (exclusive), the
/// first and last interval being unbounded on one side.
pub proof fn lemma_contains_chr(ivs: Seq<Interval>, k: int, v: i64)
    requires
        well_formed(ivs),
        ivs.len() >= 2,
        0 <= k < ivs.len(),
    ensures
        ivs[k].contains(v) <==> ((k == 0 || seam(ivs, k) <= v) && (k == ivs.len() - 1 || v < seam(
            ivs,
            k + 1,
        ))),
{
    if k == 0 {
        assert(ivs[0] matches Interval::Lower { .. });
        assert(upper_boundary(ivs[0]) == lower_boundary(ivs[1]));
    } else {
        assert(upper_boundary(ivs[k - 1]) == lower_boundary(ivs[k]));
        if k < ivs.len() - 1 {
            assert(ivs[k] matches Interval::Range { .. });
        } else {
            assert(ivs[k] == ivs.last());
            assert(ivs[k] matches Interval::Upper { .. });
        }
    }
}

proof fn lemma_cover_from(ivs: Seq<Interval>, v: i64, k: int)
    requires
        well_formed(ivs),
        0 <= k < ivs.len(),
        k == 0 || seam(ivs, k) <= v,
    ensures
        exists|j: int| k <= j < ivs.len() && (#[trigger] ivs[j]).contains(v),
    decreases ivs.len() - k,
{
    if ivs.len() == 1 {
        assert(ivs[0].contains(v));
    } else if k == ivs.len() - 1 {
        lemma_contains_chr(ivs, k, v);
        assert(ivs[k].contains(v));
    } else if v < seam(ivs, k + 1) {
        lemma_contains_chr(ivs, k, v);
        assert(ivs[k].contains(v));
    } else {
        lemma_cover_from(ivs, v, k + 1);
    }
}

/// A well-formed interval list partitions the attribute domain: every
/// value is covered by exactly one interval of the list.
pub proof fn lemma_partition(ivs: Seq<Interval>, v: i64)
    requires
        well_formed(ivs),
    ensures
        exists|j: int| 0 <= j < ivs.len() && (#[trigger] ivs[j]).contains(v),
        forall|j1: int, j2: int|
            0 <= j1 < ivs.len() && 0 <= j2 < ivs.len() && (#[trigger] ivs[j1]).contains(v) && (
            #[trigger] ivs[j2]).contains(v) ==> j1 == j2,
{
    lemma_cover_from(ivs, v, 0);
    assert forall|j1: int, j2: int|
        0 <= j1 < ivs.len() && 0 <= j2 < ivs.len() && (#[trigger] ivs[j1]).contains(v) && (
        #[trigger] ivs[j2]).contains(v) implies j1 == j2 by {
        if j1 < j2 {
            lemma_contains_chr(ivs, j1, v);
            lemma_contains_chr(ivs, j2, v);
            lemma_seam_mono(ivs, j1 + 1, j2);
        } else if j2 < j1 {
            lemma_contains_chr(ivs, j1, v);
            lemma_contains_chr(ivs, j2, v);
            lemma_seam_mono(ivs, j2 + 1, j1);
        }
    }
}

/// Joining keeps the first interval's lower boundary, the second's upper
/// boundary, and the first's class.
pub proof fn lemma_join_parts(a: Interval, b: Interval)
    ensures
        lower_boundary(join(a, b)) == lower_boundary(a),
        upper_boundary(join(a, b)) == upper_boundary(b),
        join(a, b).spec_class() == a.spec_class(),
{
}

proof fn lemma_merge_from_wf(ivs: Seq<Interval>, i: int, acc: Seq<Interval>)
    requires
        0 <= i <= ivs.len(),
        well_formed(acc + ivs.skip(i)),
    ensures
        well_formed(merge_from(ivs, i, acc)),
    decreases ivs.len() - i,
{
    let s = acc + ivs.skip(i);
    if i >= ivs.len() {
        assert(s =~= acc);
    } else if acc.len() > 0 && acc.last().spec_class() == ivs[i].spec_class() {
        let m = acc.len() as int;
        let acc2 = acc.update(m - 1, join(acc.last(), ivs[i]));
        let s2 = acc2 + ivs.skip(i + 1);
        assert(s.len() == acc.len() + ivs.len() - i);
        assert(forall|k: int| 0 <= k < m ==> s[k] == acc[k]);
        assert(forall|k: int| m <= k < s.len() ==> s[k] == ivs[i + k - m]);
        assert(s2.len() == s.len() - 1);
        assert(forall|k: int| 0 <= k < m - 1 ==> s2[k] == s[k]);
        assert(s2[m - 1] == join(s[m - 1], s[m]));
        assert(forall|k: int| m <= k < s2.len() ==> s2[k] == s[k + 1]);
        lemma_join_parts(s[m - 1], s[m]);
        if s2.len() == 1 {
            assert(s.len() == 2);
            assert(s[0] matches Interval::Lower { .. });
            assert(s[1] == s.last());
            assert(s[1] matches Interval::Upper { .. });
            assert(s2[0] matches Interval::Infinite { .. });
        } else {
            assert(s.len() >= 3);
            assert(s2[0] matches Interval::Lower { .. }) by {
                if m - 1 == 0 {
                    assert(s[0] matches Interval::Lower { .. });
                    assert(s[1] matches Interval::Range { .. });
                } else {
                    assert(s2[0] == s[0]);
                }
            }
            assert(s2.last() matches Interval::Upper { .. }) by {
                assert(s2.last() == s2[s2.len() - 1]);
                if m - 1 == s2.len() - 1 {
                    assert(s[m] == s.last());
                    assert(s[m - 1] matches Interval::Range { .. });
                } else {
                    assert(s2[s2.len() - 1] == s[s.len() - 1]);
                    assert(s[s.len() - 1] == s.last());
                }
            }
            assert forall|k: int| 0 < k < s2.len() - 1 implies #[trigger] s2[k] matches
                Interval::Range { .. } by {
                if k < m - 1 {
                    assert(s2[k] == s[k]);
                } else if k == m - 1 {
                    assert(s[m - 1] matches Interval::Range { .. });
                    assert(s[m] matches Interval::Range { .. });
                } else {
                    assert(s2[k] == s[k + 1]);
                }
            }
            assert forall|k: int| 0 <= k < s2.len() - 1 implies #[trigger] upper_boundary(s2[k])
                == lower_boundary(s2[k + 1]) && upper_boundary(s2[k]) is Some by {
                if k < m - 2 {
                    assert(s2[k] == s[k] && s2[k + 1] == s[k + 1]);
                } else if k == m - 2 {
                    assert(s2[k] == s[k]);
                    assert(upper_boundary(s[m - 2]) == lower_boundary(s[m - 1]));
                } else if k == m - 1 {
                    assert(s2[k + 1] == s[k + 2]);
                    assert(upper_boundary(s[m]) == lower_boundary(s[m + 1]));
                } else {
                    assert(s2[k] == s[k + 1] && s2[k + 1] == s[k + 2]);
                }
            }
            assert forall|k: int| 0 <= k < s2.len() implies (#[trigger] s2[k] matches
                Interval::Range { from, below, .. } ==> from < below) by {
                if k < m - 1 {
                    assert(s2[k] == s[k]);
                } else if k == m - 1 {
                    match s2[m - 1] {
                        Interval::Range { from, below, .. } => {
                            assert(lower_boundary(s[m - 1]) == Option::Some(from));
                            assert(upper_boundary(s[m]) == Option::Some(below));
                            assert(s[m - 1] matches Interval::Range { .. });
                            assert(s[m] matches Interval::Range { .. });
                            assert(upper_boundary(s[m - 1]) == lower_boundary(s[m]));
                        },
                        _ => {},
                    }
                } else {
                    assert(s2[k] == s[k + 1]);
                }
            }
        }
        lemma_merge_from_wf(ivs, i + 1, acc2);
    } else {
        assert(acc.push(ivs[i]) + ivs.skip(i + 1) =~= s);
        lemma_merge_from_wf(ivs, i + 1, acc.push(ivs[i]));
    }
}

/// Merging adjacent same-class intervals keeps the list well formed.
pub proof fn lemma_merge_wf(ivs: Seq<Interval>)
    requires
        well_formed(ivs),
    ensures
        well_formed(merge_spec(ivs)),
{
    assert(Seq::<Interval>::empty() + ivs.skip(0) =~= ivs);
    lemma_merge_from_wf(ivs, 0, Seq::empty());
}

proof fn lemma_merge_from_adj(ivs: Seq<Interval>, i: int, acc: Seq<Interval>)
    requires
        0 <= i <= ivs.len(),
        adjacent_distinct(acc),
    ensures
        adjacent_distinct(merge_from(ivs, i, acc)),
    decreases ivs.len() - i,
{
    if i < ivs.len() {
        if acc.len() > 0 && acc.last().spec_class() == ivs[i].spec_class() {
            let m = acc.len() as int;
            let acc2 = acc.update(m - 1, join(acc.last(), ivs[i]));
            lemma_join_parts(acc.last(), ivs[i]);
            assert(forall|k: int|
                0 <= k < acc2.len() ==> (#[trigger] acc2[k]).spec_class() == acc[k].spec_class());
            lemma_merge_from_adj(ivs, i + 1, acc2);
        } else {
            lemma_merge_from_adj(ivs, i + 1, acc.push(ivs[i]));
        }
    }
}

/// After the merge, no two adjacent intervals share a class label.
pub proof fn lemma_merge_adjacent_distinct(ivs: Seq<Interval>)
    ensures
        adjacent_distinct(merge_spec(ivs)),
{
    lemma_merge_from_adj(ivs, 0, Seq::empty());
}

/// Find the first interval in list order whose coverage contains the
/// value, or nothing when no interval matches.
pub fn quantize<'a>(intervals: &'a Vec<Interval>, attribute_value: i64) -> (r: Option<
    &'a Interval,
>)
    ensures
        match r {
            Option::Some(iv) => exists|k: int|
                0 <= k < intervals@.len() && *iv == intervals@[k] && intervals@[k].contains(
                    attribute_value,
                ) && (forall|j: int| 0 <= j < k ==> !intervals@[j].contains(attribute_value)),
            Option::None => forall|j: int|
                0 <= j < intervals@.len() ==> !intervals@[j].contains(attribute_value),
        },
        well_formed(intervals@) ==> r is Some,
{
    let mut k: usize = 0;
    while k < intervals.len()
        invariant
            0 <= k <= intervals@.len(),
            forall|j: int| 0 <= j < k ==> !intervals@[j].contains(attribute_value),
        decreases intervals@.len() - k,
    {
        if intervals[k].matches(attribute_value) {
            return Option::Some(&intervals[k]);
        }
        k = k + 1;
    }
    proof {
        if well_formed(intervals@) {
            lemma_partition(intervals@, attribute_value);
            assert(false);
        }
    }
    Option::None
}

} // verus!
