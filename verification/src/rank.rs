//! Ranking retained symbols and picking the outliers.
//!
//! Symbols are sorted ascending by a scalar metric (for the price panel, the
//! net change of the normalized series over the window) under a total integer
//! order, and the extremes are sampled logarithmically: `round(ln n)` from
//! each end, a sample that grows slowly with the universe instead of being a
//! fixed constant.

use vstd::prelude::*;
use vstd::seq_lib::lemma_multiset_commutative;

use crate::snapshot::PersistedSnapshot;
use crate::types::Pair;

verus! {

/// Ascending by metric.
pub open spec fn sorted_by_metric(s: Seq<(Pair, i64)>) -> bool {
    forall|k1: int, k2: int| 0 <= k1 < k2 < s.len() ==> (#[trigger] s[k1]).1 <= (#[trigger] s[k2]).1
}

/// No two entries name the same pair.
pub open spec fn distinct_pair_views(s: Seq<(Pair, i64)>) -> bool {
    forall|k1: int, k2: int|
        0 <= k1 < k2 < s.len() ==> (#[trigger] s[k1]).0@ != (#[trigger] s[k2]).0@
}

/// Each retained symbol with its ranking metric: the net change of its
/// normalized series over the window, last observation minus first.
pub fn performance(s: &PersistedSnapshot) -> (r: Vec<(Pair, i64)>)
    requires
        s.wf(),
    ensures
        r@.len() == s.entries@.len(),
        forall|k: int|
            0 <= k < r@.len() ==> (#[trigger] r@[k]).0@ == s.entries@[k].pair@ && r@[k].1
                == s.entries@[k].values@[s.entries@[k].values@.len() - 1]
                - s.entries@[k].values@[0],
        distinct_pair_views(r@),
{
    let n = s.entries.len();
    let mut out: Vec<(Pair, i64)> = Vec::new();
    let mut i: usize = 0;
    while i < n
        invariant
            i <= n,
            s.wf(),
            n == s.entries@.len(),
            out@.len() == i,
            forall|k: int|
                0 <= k < i ==> (#[trigger] out@[k]).0@ == s.entries@[k].pair@ && out@[k].1
                    == s.entries@[k].values@[s.entries@[k].values@.len() - 1]
                    - s.entries@[k].values@[0],
        decreases n - i,
    {
        let e = &s.entries[i];
        let last = e.values[e.values.len() - 1];
        let first = e.values[0];
        out.push((e.pair.clone(), last - first));
        i = i + 1;
    }
    out
}

/// A sequence with the same contents as one without repeated pairs has no
/// repeated pairs either.
proof fn lemma_multiset_keeps_distinct(a: Seq<(Pair, i64)>, b: Seq<(Pair, i64)>)
    requires
        a.to_multiset() == b.to_multiset(),
        distinct_pair_views(a),
    ensures
        distinct_pair_views(b),
{
    broadcast use vstd::seq_lib::group_to_multiset_ensures;

    assert(a.no_duplicates());
    a.lemma_multiset_has_no_duplicates();
    b.lemma_multiset_has_no_duplicates_conv();
    assert forall|k1: int, k2: int| 0 <= k1 < k2 < b.len() implies (#[trigger] b[k1]).0@ != (
    #[trigger] b[k2]).0@ by {
        if b[k1].0@ == b[k2].0@ {
            assert(b.contains(b[k1]));
            assert(b.contains(b[k2]));
            assert(b.to_multiset().count(b[k1]) > 0);
            assert(b.to_multiset().count(b[k2]) > 0);
            assert(a.to_multiset().count(b[k1]) > 0);
            assert(a.to_multiset().count(b[k2]) > 0);
            assert(a.contains(b[k1]));
            assert(a.contains(b[k2]));
            let i1 = choose|i: int| 0 <= i < a.len() && a[i] == b[k1];
            let i2 = choose|i: int| 0 <= i < a.len() && a[i] == b[k2];
            assert(b[k1] != b[k2]);
            assert(i1 != i2);
        }
    }
}

/// Sorts ascending by metric: a total integer order, so no data point can
/// make the ranking fail.
pub fn sort_by_metric(input: Vec<(Pair, i64)>) -> (r: Vec<(Pair, i64)>)
    ensures
        sorted_by_metric(r@),
        r@.to_multiset() == input@.to_multiset(),
        r@.len() == input@.len(),
        distinct_pair_views(input@) ==> distinct_pair_views(r@),
{
    let ghost original = input@;
    let mut out: Vec<(Pair, i64)> = Vec::new();
    proof {
        broadcast use vstd::seq_lib::group_to_multiset_ensures;

        assert(out@.to_multiset() =~= original.take(0).to_multiset());
    }
    for item in it: input.into_iter()
        invariant
            it.seq() == original,
            sorted_by_metric(out@),
            out@.len() == it.index(),
            out@.to_multiset() == original.take(it.index() as int).to_multiset(),
    {
        let ghost k = it.index() as int;
        let ghost before = out@;
        let m = out.len();
        let mut pos: usize = 0;
        while pos < m && out[pos].1 <= item.1
            invariant
                pos <= m,
                m == out@.len(),
                forall|j: int| 0 <= j < pos ==> (#[trigger] out@[j]).1 <= item.1,
            decreases m - pos,
        {
            pos = pos + 1;
        }
        out.insert(pos, item);
        proof {
            broadcast use vstd::seq_lib::group_to_multiset_ensures;

            assert(out@ =~= before.take(pos as int) + seq![item] + before.skip(pos as int));
            assert(before =~= before.take(pos as int) + before.skip(pos as int));
            lemma_multiset_commutative(before.take(pos as int), before.skip(pos as int));
            lemma_multiset_commutative(
                before.take(pos as int) + seq![item],
                before.skip(pos as int),
            );
            lemma_multiset_commutative(before.take(pos as int), seq![item]);
            assert(seq![item].to_multiset() =~= vstd::multiset::Multiset::empty().insert(item));
            assert(out@.to_multiset() =~= before.to_multiset().insert(item));
            assert(original.take(k + 1).drop_last() =~= original.take(k));
            assert(original.take(k + 1) =~= original.take(k).push(item));
            assert(original.take(k + 1).to_multiset() =~= original.take(
                k,
            ).to_multiset().insert(item));
            assert forall|k1: int, k2: int| 0 <= k1 < k2 < out@.len() implies (
            #[trigger] out@[k1]).1 <= (#[trigger] out@[k2]).1 by {
                if k2 < pos {
                    assert(out@[k1] == before[k1] && out@[k2] == before[k2]);
                } else if k1 > pos {
                    assert(out@[k1] == before[k1 - 1] && out@[k2] == before[k2 - 1]);
                } else if k1 == pos {
                    assert(out@[k1] == item && out@[k2] == before[k2 - 1]);
                } else if k2 == pos {
                    assert(out@[k1] == before[k1] && out@[k2] == item);
                } else {
                    assert(out@[k1] == before[k1] && out@[k2] == before[k2 - 1]);
                }
            }
        }
    }
    proof {
        assert(original.take(original.len() as int) =~= original);
        if distinct_pair_views(original) {
            lemma_multiset_keeps_distinct(original, out@);
        }
    }
    out
}

/// The sample size for the extremes: the natural logarithm of the retained
/// count, rounded to the nearest whole number.  Tabulated exactly: the
/// rounded logarithm equals `k` on a contiguous run of counts, and the runs
/// below cover every count a snapshot can hold.
pub open spec fn spec_round_ln(n: nat) -> nat {
    if n < 2 {
        0
    } else if n < 5 {
        1
    } else if n < 13 {
        2
    } else if n < 34 {
        3
    } else if n < 91 {
        4
    } else if n < 245 {
        5
    } else if n < 666 {
        6
    } else if n < 1809 {
        7
    } else if n < 4915 {
        8
    } else if n < 13360 {
        9
    } else if n < 36316 {
        10
    } else if n < 98716 {
        11
    } else if n < 268338 {
        12
    } else if n < 729417 {
        13
    } else {
        14
    }
}

/// The sample size for the extremes, `round(ln n)`.
pub fn round_ln(n: usize) -> (r: usize)
    requires
        n <= 1_000_000,
    ensures
        r == spec_round_ln(n as nat),
{
    if n < 2 {
        0
    } else if n < 5 {
        1
    } else if n < 13 {
        2
    } else if n < 34 {
        3
    } else if n < 91 {
        4
    } else if n < 245 {
        5
    } else if n < 666 {
        6
    } else if n < 1809 {
        7
    } else if n < 4915 {
        8
    } else if n < 13360 {
        9
    } else if n < 36316 {
        10
    } else if n < 98716 {
        11
    } else if n < 268338 {
        12
    } else if n < 729417 {
        13
    } else {
        14
    }
}

/// The two extremes of the ranking: `round(ln n)` pairs from the top of the
/// sort order (best first) and as many from the bottom (worst first).  When
/// twice the sample fits into the ranking, no pair sits in both samples.
pub fn top_bottom(sorted: &Vec<(Pair, i64)>) -> (r: (Vec<Pair>, Vec<Pair>))
    requires
        sorted@.len() <= 1_000_000,
    ensures
        r.0@.len() == r.1@.len(),
        r.0@.len() == vstd::math::min(
            spec_round_ln(sorted@.len() as nat) as int,
            sorted@.len() as int,
        ),
        forall|i: int| 0 <= i < r.0@.len() ==> (#[trigger] r.0@[i])@ == sorted@[sorted@.len() - 1
            - i].0@,
        forall|i: int| 0 <= i < r.1@.len() ==> (#[trigger] r.1@[i])@ == sorted@[i].0@,
        (distinct_pair_views(sorted@) && 2 * spec_round_ln(sorted@.len() as nat) <= sorted@.len())
            ==> forall|i: int, j: int|
            0 <= i < r.0@.len() && 0 <= j < r.1@.len() ==> (#[trigger] r.0@[i])@ != (
            #[trigger] r.1@[j])@,
{
    let n = sorted.len();
    let k = round_ln(n);
    let take = if k < n {
        k
    } else {
        n
    };
    let mut top: Vec<Pair> = Vec::new();
    let mut i: usize = 0;
    while i < take
        invariant
            i <= take <= n,
            n == sorted@.len(),
            top@.len() == i,
            forall|j: int| 0 <= j < i ==> (#[trigger] top@[j])@ == sorted@[n - 1 - j].0@,
        decreases take - i,
    {
        top.push(sorted[n - 1 - i].0.clone());
        i = i + 1;
    }
    let mut bottom: Vec<Pair> = Vec::new();
    let mut j: usize = 0;
    while j < take
        invariant
            j <= take <= n,
            n == sorted@.len(),
            bottom@.len() == j,
            forall|q: int| 0 <= q < j ==> (#[trigger] bottom@[q])@ == sorted@[q].0@,
        decreases take - j,
    {
        bottom.push(sorted[j].0.clone());
        j = j + 1;
    }
    (top, bottom)
}

} // verus!
