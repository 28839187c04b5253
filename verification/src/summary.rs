//! Per-task summaries: `(task, nanoseconds)` rows ordered from the longest to the
//! shortest, and their sums.
use itertools::Itertools;
use std::cmp::Ordering;
use crate::time::{valid_delta, MAX_DELTA};
use vstd::prelude::*;

verus! {

/// `p` maps each position of `out` to a distinct position of `inp` holding
/// the same row.
pub open spec fn permutes(p: Seq<int>, out: Seq<(String, i128)>, inp: Seq<(String, i128)>) -> bool {
    &&& p.len() == out.len()
    &&& out.len() == inp.len()
    &&& forall|i: int| 0 <= i < p.len() ==> 0 <= #[trigger] p[i] < inp.len() && out[i] == inp[p[i]]
    &&& forall|i: int, j: int| 0 <= i < j < p.len() ==> #[trigger] p[i] != #[trigger] p[j]
}

/// Rows ordered by duration, longest first.
pub open spec fn sorted_desc(s: Seq<(String, i128)>) -> bool {
    forall|i: int, j: int| 0 <= i < j < s.len() ==> #[trigger] s[i].1 >= #[trigger] s[j].1
}

/// `out` holds the rows of `inp`, longest first, rows of equal duration in
/// the order they came in.
pub open spec fn sorted_permutation_of(out: Seq<(String, i128)>, inp: Seq<(String, i128)>) -> bool {
    &&& sorted_desc(out)
    &&& exists|p: Seq<int>|
        #[trigger] permutes(p, out, inp) && forall|i: int, j: int|
            0 <= i < j < out.len() && out[i].1 == out[j].1 ==> p[i] < p[j]
}

/// Orders two rows so that the longer comes first.
fn order_by_duration_desc(a: &(String, i128), b: &(String, i128)) -> (r: Ordering)
    ensures
        (r is Less) == (a.1 > b.1),
        (r is Equal) == (a.1 == b.1),
        (r is Greater) == (a.1 < b.1),
{
    if a.1 > b.1 {
        Ordering::Less
    } else if a.1 == b.1 {
        Ordering::Equal
    } else {
        Ordering::Greater
    }
}

/// `Itertools::sorted_by` of itertools with the longest-first order: a new
/// vector of the same rows, sorted; itertools documents the sort as stable.
#[verifier::external_body]
pub(crate) fn sorted_by_duration(v: Vec<(String, i128)>) -> (r: Vec<(String, i128)>)
    ensures
        sorted_permutation_of(r@, v@),
{
    v.into_iter().sorted_by(|a, b| order_by_duration_desc(a, b)).collect()
}

/// `slice::sort_by` of std with the longest-first order, in place; std
/// documents the sort as stable.
#[verifier::external_body]
pub(crate) fn sort_by_duration(v: &mut Vec<(String, i128)>)
    ensures
        sorted_permutation_of(final(v)@, old(v)@),
{
    v.sort_by(|a, b| order_by_duration_desc(a, b))
}

/// Sum of the durations of the rows.
pub open spec fn rows_sum(s: Seq<(String, i128)>) -> int
    decreases s.len(),
{
    if s.len() == 0 {
        0
    } else {
        rows_sum(s.drop_last()) + s.last().1
    }
}

/// Sum of the durations above zero among the rows.
pub open spec fn rows_pos_sum(s: Seq<(String, i128)>) -> int
    decreases s.len(),
{
    if s.len() == 0 {
        0
    } else {
        rows_pos_sum(s.drop_last()) + if s.last().1 > 0 {
            s.last().1 as int
        } else {
            0
        }
    }
}

/// Every running sum of the rows, in their order, is a duration chrono
/// holds.
pub open spec fn running_sums_fit(s: Seq<(String, i128)>) -> bool {
    forall|k: int| 0 <= k <= s.len() ==> valid_delta(#[trigger] rows_sum(s.take(k)))
}

/// Total of a summary's durations (the breakdown's total), added in order;
/// `None` when a running sum leaves the range of a duration.
pub fn total_of(summary: &[(String, i128)]) -> (r: Option<i128>)
    ensures
        match r {
            Some(t) => running_sums_fit(summary@) && t == rows_sum(summary@),
            None => !running_sums_fit(summary@),
        },
{
    let mut total: i128 = 0;
    let mut i: usize = 0;
    assert(summary@.take(0) =~= Seq::<(String, i128)>::empty());
    while i < summary.len()
        invariant
            i <= summary@.len(),
            forall|k: int| 0 <= k <= i ==> valid_delta(#[trigger] rows_sum(summary@.take(k))),
            total == rows_sum(summary@.take(i as int)),
        decreases summary@.len() - i,
    {
        proof {
            assert(summary@.take(i + 1).drop_last() =~= summary@.take(i as int));
        }
        let d = summary[i].1;
        if (d > 0 && total > MAX_DELTA - d) || (d < 0 && total < -MAX_DELTA - d) {
            proof {
                let k = i + 1;
                assert(!valid_delta(rows_sum(summary@.take(k as int))));
            }
            return None;
        }
        total = total + d;
        i = i + 1;
    }
    assert(summary@.take(summary@.len() as int) =~= summary@);
    Some(total)
}

proof fn lemma_pos_sum_prefix(s: Seq<(String, i128)>, k: int)
    requires
        0 <= k <= s.len(),
    ensures
        rows_sum(s.take(k)) <= rows_pos_sum(s.take(k)) <= rows_pos_sum(s),
    decreases s.len() - k,
{
    lemma_sum_below_pos(s.take(k));
    if k < s.len() {
        lemma_pos_sum_prefix(s, k + 1);
        assert(s.take(k + 1).drop_last() =~= s.take(k));
    } else {
        assert(s.take(k) =~= s);
    }
}

proof fn lemma_sum_below_pos(s: Seq<(String, i128)>)
    ensures
        rows_sum(s) <= rows_pos_sum(s),
        rows_pos_sum(s) >= 0,
    decreases s.len(),
{
    if s.len() > 0 {
        lemma_sum_below_pos(s.drop_last());
    }
}

/// Rows that are all at least zero add up to at least zero; rows that are
/// all at most zero add up to at most zero.
proof fn lemma_signed_rows(s: Seq<(String, i128)>)
    ensures
        (forall|i: int| 0 <= i < s.len() ==> (#[trigger] s[i]).1 >= 0) ==> rows_sum(s) >= 0,
        (forall|i: int| 0 <= i < s.len() ==> (#[trigger] s[i]).1 <= 0) ==> rows_sum(s) <= 0,
    decreases s.len(),
{
    if s.len() > 0 {
        lemma_signed_rows(s.drop_last());
        assert forall|i: int| 0 <= i < s.len() - 1 implies s.drop_last()[i] == s[i] by {}
        assert(s.last() == s[s.len() - 1]);
    }
}

proof fn lemma_sum_split(s: Seq<(String, i128)>, k: int)
    requires
        0 <= k <= s.len(),
    ensures
        rows_sum(s) == rows_sum(s.take(k)) + rows_sum(s.skip(k)),
    decreases s.len(),
{
    if k == s.len() {
        assert(s.take(k) =~= s);
        assert(s.skip(k) =~= Seq::<(String, i128)>::empty());
    } else {
        lemma_sum_split(s.drop_last(), k);
        assert(s.drop_last().take(k) =~= s.take(k));
        assert(s.skip(k).drop_last() =~= s.drop_last().skip(k));
        assert(s.skip(k).last() == s.last());
    }
}

/// Rows that are all above zero add up to the sum of their positive parts.
proof fn lemma_all_positive(s: Seq<(String, i128)>)
    requires
        forall|i: int| 0 <= i < s.len() ==> (#[trigger] s[i]).1 > 0,
    ensures
        rows_sum(s) == rows_pos_sum(s),
    decreases s.len(),
{
    if s.len() > 0 {
        assert forall|i: int| 0 <= i < s.drop_last().len() implies (#[trigger] s.drop_last()[i]).1 > 0 by {
            assert(s.drop_last()[i] == s[i]);
        }
        lemma_all_positive(s.drop_last());
        assert(s.last() == s[s.len() - 1]);
    }
}

/// Rows ordered longest first have a prefix, their positive rows, whose
/// sum is the sum of the positive parts.
proof fn lemma_positive_prefix(s: Seq<(String, i128)>) -> (k: int)
    requires
        sorted_desc(s),
    ensures
        0 <= k <= s.len(),
        rows_sum(s.take(k)) == rows_pos_sum(s),
    decreases s.len(),
{
    if s.len() == 0 {
        assert(s.take(0) =~= s);
        0
    } else if s.last().1 > 0 {
        assert forall|i: int| 0 <= i < s.len() implies (#[trigger] s[i]).1 > 0 by {
            if i < s.len() - 1 {
                assert(s[i].1 >= s[s.len() - 1].1);
            }
        }
        lemma_all_positive(s);
        assert(s.take(s.len() as int) =~= s);
        s.len() as int
    } else {
        let t = s.drop_last();
        assert forall|i: int, j: int| 0 <= i < j < t.len() implies #[trigger] t[i].1 >= #[trigger] t[j].1 by {
            assert(t[i] == s[i]);
            assert(t[j] == s[j]);
        }
        let k = lemma_positive_prefix(t);
        assert(t.take(k) =~= s.take(k));
        k
    }
}

/// Law: the running sums of rows ordered longest first never rise above the
/// sum of the positive rows, nor fall below the lesser of zero and the
/// whole sum, and reach both; so they all fit exactly when those two do.
pub proof fn lemma_sorted_running_sums(s: Seq<(String, i128)>)
    requires
        sorted_desc(s),
    ensures
        forall|k: int|
            0 <= k <= s.len() ==> #[trigger] rows_sum(s.take(k)) <= rows_pos_sum(s) && (rows_sum(
                s.take(k),
            ) >= 0 || rows_sum(s.take(k)) >= rows_sum(s)),
        running_sums_fit(s) <==> (rows_pos_sum(s) <= crate::time::MAX_DELTA && rows_sum(s)
            >= -crate::time::MAX_DELTA),
{
    let p = lemma_positive_prefix(s);
    assert(s.take(s.len() as int) =~= s);
    if running_sums_fit(s) {
        assert(valid_delta(rows_sum(s.take(p))));
        assert(valid_delta(rows_sum(s.take(s.len() as int))));
    }
    assert forall|k: int| 0 <= k <= s.len() implies #[trigger] rows_sum(s.take(k)) <= rows_pos_sum(s)
        && (rows_sum(s.take(k)) >= 0 || rows_sum(s.take(k)) >= rows_sum(s)) by {
        lemma_pos_sum_prefix(s, k);
        let t = s.take(k);
        let u = s.skip(k);
        lemma_sum_split(s, k);
        lemma_signed_rows(t);
        lemma_signed_rows(u);
        if !(forall|i: int| 0 <= i < t.len() ==> (#[trigger] t[i]).1 >= 0) {
            let i0 = choose|i: int| 0 <= i < t.len() && !((#[trigger] t[i]).1 >= 0);
            assert forall|i: int| 0 <= i < u.len() implies (#[trigger] u[i]).1 <= 0 by {
                assert(u[i] == s[k + i]);
                assert(t[i0] == s[i0]);
                assert(s[i0].1 >= s[k + i].1);
            }
        }
    }
    lemma_sum_below_pos(s);
    if rows_pos_sum(s) <= crate::time::MAX_DELTA && rows_sum(s) >= -crate::time::MAX_DELTA {
        assert forall|k: int| 0 <= k <= s.len() implies valid_delta(#[trigger] rows_sum(s.take(k))) by {
            assert(rows_sum(s.take(k)) <= rows_pos_sum(s));
        }
    }
}

/// Sum of the durations below zero among the rows.
pub open spec fn rows_neg_sum(s: Seq<(String, i128)>) -> int
    decreases s.len(),
{
    if s.len() == 0 {
        0
    } else {
        rows_neg_sum(s.drop_last()) + if s.last().1 < 0 {
            s.last().1 as int
        } else {
            0
        }
    }
}

proof fn lemma_pos_neg(s: Seq<(String, i128)>)
    ensures
        rows_sum(s) == rows_pos_sum(s) + rows_neg_sum(s),
        rows_pos_sum(s) >= 0,
        rows_neg_sum(s) <= 0,
    decreases s.len(),
{
    if s.len() > 0 {
        lemma_pos_neg(s.drop_last());
    }
}

proof fn lemma_parts_prefix(s: Seq<(String, i128)>, k: int)
    requires
        0 <= k <= s.len(),
    ensures
        rows_pos_sum(s.take(k)) <= rows_pos_sum(s),
        rows_neg_sum(s.take(k)) >= rows_neg_sum(s),
    decreases s.len() - k,
{
    if k < s.len() {
        lemma_parts_prefix(s, k + 1);
        assert(s.take(k + 1).drop_last() =~= s.take(k));
    } else {
        assert(s.take(k) =~= s);
    }
}

/// Whether the running sums of rows ordered longest first all fit in a
/// duration: the positive rows add up to at most the largest duration and
/// all rows to at least the smallest.
pub fn sums_fit(rows: &[(String, i128)]) -> (r: bool)
    requires
        forall|i: int| 0 <= i < rows@.len() ==> valid_delta(#[trigger] rows@[i].1 as int),
    ensures
        r == (rows_pos_sum(rows@) <= crate::time::MAX_DELTA && rows_sum(rows@) >= -crate::time::MAX_DELTA),
{
    let mut pos: i128 = 0;
    let mut neg: i128 = 0;
    let mut i: usize = 0;
    proof {
        lemma_pos_neg(rows@);
        assert(rows@.take(0) =~= Seq::<(String, i128)>::empty());
    }
    while i < rows.len()
        invariant
            i <= rows@.len(),
            forall|j: int| 0 <= j < rows@.len() ==> valid_delta(#[trigger] rows@[j].1 as int),
            rows_sum(rows@) == rows_pos_sum(rows@) + rows_neg_sum(rows@),
            pos == rows_pos_sum(rows@.take(i as int)),
            neg == rows_neg_sum(rows@.take(i as int)),
            0 <= pos <= crate::time::MAX_DELTA,
            -2 * crate::time::MAX_DELTA <= neg <= 0,
        decreases rows@.len() - i,
    {
        let v = rows[i].1;
        proof {
            assert(rows@.take(i + 1).drop_last() =~= rows@.take(i as int));
            assert(valid_delta(rows@[i as int].1 as int));
            lemma_parts_prefix(rows@, i + 1);
        }
        if v > 0 {
            pos = pos + v;
            if pos > crate::time::MAX_DELTA {
                return false;
            }
        } else {
            neg = neg + v;
            if neg < -2 * crate::time::MAX_DELTA {
                proof {
                    lemma_pos_neg(rows@);
                }
                return false;
            }
        }
        i = i + 1;
    }
    proof {
        assert(rows@.take(i as int) =~= rows@);
    }
    pos + neg >= -crate::time::MAX_DELTA
}

/// Law: reordering rows does not change their sum (nor the sum of their
/// positive parts).
pub proof fn lemma_permutation_keeps_sum(p: Seq<int>, out: Seq<(String, i128)>, inp: Seq<(String, i128)>)
    requires
        permutes(p, out, inp),
    ensures
        rows_sum(out) == rows_sum(inp),
        rows_pos_sum(out) == rows_pos_sum(inp),
    decreases out.len(),
{
    if out.len() > 0 {
        let n = out.len() - 1;
        let j = p[n];
        let inp2 = inp.remove(j);
        let p2 = Seq::new(n as nat, |i: int| if p[i] < j {
            p[i]
        } else {
            p[i] - 1
        });
        assert forall|i: int| 0 <= i < p2.len() implies 0 <= #[trigger] p2[i] < inp2.len()
            && out.drop_last()[i] == inp2[p2[i]] by {
            assert(p[i] != p[n]);
        }
        assert forall|a: int, b: int| 0 <= a < b < p2.len() implies #[trigger] p2[a]
            != #[trigger] p2[b] by {
            assert(p[a] != p[b]);
            assert(p[a] != p[n]);
            assert(p[b] != p[n]);
        }
        assert(permutes(p2, out.drop_last(), inp2));
        lemma_permutation_keeps_sum(p2, out.drop_last(), inp2);
        lemma_sum_remove(inp, j);
    }
}

/// Removing a row takes its duration off the sum.
proof fn lemma_sum_remove(s: Seq<(String, i128)>, j: int)
    requires
        0 <= j < s.len(),
    ensures
        rows_sum(s) == rows_sum(s.remove(j)) + s[j].1,
        rows_pos_sum(s) == rows_pos_sum(s.remove(j)) + if s[j].1 > 0 {
            s[j].1 as int
        } else {
            0
        },
    decreases s.len(),
{
    if j == s.len() - 1 {
        assert(s.remove(j) =~= s.drop_last());
    } else {
        lemma_sum_remove(s.drop_last(), j);
        assert(s.remove(j).drop_last() =~= s.drop_last().remove(j));
        assert(s.remove(j).last() == s.last());
    }
}

/// Law: a sorted summary adds up to the same total as the rows it was
/// sorted from.
pub proof fn lemma_sorted_keeps_sum(out: Seq<(String, i128)>, inp: Seq<(String, i128)>)
    requires
        sorted_permutation_of(out, inp),
    ensures
        rows_sum(out) == rows_sum(inp),
        rows_pos_sum(out) == rows_pos_sum(inp),
{
    let p = choose|p: Seq<int>|
        #[trigger] permutes(p, out, inp) && forall|i: int, j: int|
            0 <= i < j < out.len() && out[i].1 == out[j].1 ==> p[i] < p[j];
    lemma_permutation_keeps_sum(p, out, inp);
}

} // verus!
