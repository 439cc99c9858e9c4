//! Folding per-symbol fetch outcomes into a persisted snapshot.
//!
//! The caller fans the fetches out however it likes and hands back one
//! outcome per candidate symbol; everything decided afterwards happens here:
//! the anchor check, normalization, alignment against the anchor's time
//! index, soft-miss collection, and the coverage statistic.

use vstd::prelude::*;

use crate::logret::LOG_RETURN_BOUND;
use crate::series::{normalize_series, spec_norm, RelevantHistoricalData};
use crate::types::{bytes_eq, CollectionParams, Pair};

verus! {

/// What one symbol's fetch came back with.
#[derive(Debug)]
pub enum FetchOutcome {
    /// The fetch succeeded and returned bars.
    Data(RelevantHistoricalData),
    /// The fetch succeeded but returned no data points: a soft miss.
    Empty,
    /// The fetch failed outright.
    Failed,
}

/// One symbol's normalized series inside a snapshot.
#[derive(Debug)]
pub struct SeriesEntry {
    pub pair: Pair,
    pub values: Vec<i64>,
}

/// A persisted market snapshot: the normalized series of every retained
/// symbol over one shared time index, stamped with when it was collected and
/// with the parameters it was collected for.
#[derive(Debug)]
pub struct PersistedSnapshot {
    /// When the snapshot was collected, epoch milliseconds.
    pub collected_at_ms: i64,
    pub entries: Vec<SeriesEntry>,
    /// The anchor symbol's bar open times, epoch milliseconds.
    pub time_index: Vec<i64>,
    pub params: CollectionParams,
}

impl PersistedSnapshot {
    /// Every invariant a snapshot carries:
    /// each retained series is exactly as long as the time index and starts
    /// at a log return of zero, keys are distinct well-formed pairs, and all
    /// numbers stay in their documented ranges.
    pub open spec fn wf(&self) -> bool {
        &&& self.params.wf()
        &&& 0 <= self.collected_at_ms < 1_000_000_000_000_000_000
        &&& 1 <= self.time_index@.len() <= 1_000_000
        &&& forall|i: int|
            0 <= i < self.time_index@.len() ==> 0 <= #[trigger] self.time_index@[i]
                < 1_000_000_000_000_000_000
        &&& self.entries@.len() <= 1_000_000
        &&& forall|k: int| 0 <= k < self.entries@.len() ==> (#[trigger] self.entries@[k]).pair.wf()
        &&& forall|k: int|
            0 <= k < self.entries@.len() ==> (#[trigger] self.entries@[k]).values@.len()
                == self.time_index@.len()
        &&& forall|k: int| 0 <= k < self.entries@.len() ==> (#[trigger] self.entries@[k]).values@[0] == 0
        &&& forall|k: int, i: int|
            0 <= k < self.entries@.len() && 0 <= i < self.entries@[k].values@.len()
                ==> -LOG_RETURN_BOUND <= #[trigger] self.entries@[k].values@[i]
                <= LOG_RETURN_BOUND
        &&& forall|k1: int, k2: int|
            0 <= k1 < k2 < self.entries@.len() ==> (#[trigger] self.entries@[k1]).pair@ != (
            #[trigger] self.entries@[k2]).pair@
    }
}

/// Every retained series opens at exactly zero: the normalization anchor.
pub proof fn lemma_snapshot_starts_at_zero(s: &PersistedSnapshot)
    requires
        s.wf(),
    ensures
        forall|k: int| 0 <= k < s.entries@.len() ==> (#[trigger] s.entries@[k]).values@[0] == 0,
{
}

/// Every retained series is exactly as long as the shared time index.
pub proof fn lemma_snapshot_aligned(s: &PersistedSnapshot)
    requires
        s.wf(),
    ensures
        forall|k: int|
            0 <= k < s.entries@.len() ==> (#[trigger] s.entries@[k]).values@.len()
                == s.time_index@.len(),
{
}

/// An outcome that actually carries data points.
pub open spec fn is_nonempty_data(o: FetchOutcome) -> bool {
    o matches FetchOutcome::Data(s) && s.col_closes@.len() >= 1
}

/// An outcome that succeeded but came back with nothing: a soft miss.
pub open spec fn is_soft_miss(o: FetchOutcome) -> bool {
    ||| o matches FetchOutcome::Empty
    ||| (o matches FetchOutcome::Data(s) && s.col_closes@.len() == 0)
}

/// Whether some outcome supplies data for the anchor symbol.
pub open spec fn anchor_ok(outs: Seq<(Pair, FetchOutcome)>, anchor: Seq<u8>) -> bool {
    exists|i: int| 0 <= i < outs.len() && (#[trigger] outs[i]).0@ == anchor && is_nonempty_data(
        outs[i].1,
    )
}

/// No two outcomes speak of the same pair.
pub open spec fn distinct_pairs(outs: Seq<(Pair, FetchOutcome)>) -> bool {
    forall|j1: int, j2: int|
        0 <= j1 < j2 < outs.len() ==> (#[trigger] outs[j1]).0@ != (#[trigger] outs[j2]).0@
}

/// Outcomes an aggregation accepts: well-formed distinct pairs, well-formed
/// series.
pub open spec fn wf_outcomes(outs: Seq<(Pair, FetchOutcome)>) -> bool {
    &&& distinct_pairs(outs)
    &&& forall|j: int| 0 <= j < outs.len() ==> (#[trigger] outs[j]).0.wf()
    &&& forall|j: int|
        0 <= j < outs.len() ==> ((#[trigger] outs[j]).1 matches FetchOutcome::Data(s) ==> s.wf())
}

/// The retained part of a run of outcomes: for each successful fetch whose
/// series is exactly `dt_len` bars long, its pair and normalized series, in
/// outcome order.
pub open spec fn retained_seq(outs: Seq<(Pair, FetchOutcome)>, dt_len: nat) -> Seq<
    (Seq<u8>, Seq<int>),
>
    decreases outs.len(),
{
    if outs.len() == 0 {
        Seq::empty()
    } else {
        let rest = retained_seq(outs.drop_last(), dt_len);
        match outs.last().1 {
            FetchOutcome::Data(s) => {
                if s.col_closes@.len() == dt_len && dt_len >= 1 {
                    rest.push((outs.last().0@, spec_norm(s.col_closes@)))
                } else {
                    rest
                }
            },
            _ => rest,
        }
    }
}

/// The soft misses of a run of outcomes, in outcome order.
pub open spec fn misses_seq(outs: Seq<(Pair, FetchOutcome)>) -> Seq<Seq<u8>>
    decreases outs.len(),
{
    if outs.len() == 0 {
        Seq::empty()
    } else {
        let rest = misses_seq(outs.drop_last());
        if is_soft_miss(outs.last().1) {
            rest.push(outs.last().0@)
        } else {
            rest
        }
    }
}

/// How many outcomes came back with data.
pub open spec fn count_data(outs: Seq<(Pair, FetchOutcome)>) -> nat
    decreases outs.len(),
{
    if outs.len() == 0 {
        0
    } else {
        count_data(outs.drop_last()) + if is_nonempty_data(outs.last().1) {
            1nat
        } else {
            0nat
        }
    }
}

/// Whether a pair identifier occurs among a run of outcomes.
pub open spec fn among_pairs(b: Seq<u8>, outs: Seq<(Pair, FetchOutcome)>) -> bool {
    exists|j: int| 0 <= j < outs.len() && (#[trigger] outs[j]).0@ == b
}

/// Retained pairs come from the outcomes and stay pairwise distinct.
proof fn lemma_retained_distinct(outs: Seq<(Pair, FetchOutcome)>, dt_len: nat)
    requires
        distinct_pairs(outs),
    ensures
        forall|k: int|
            0 <= k < retained_seq(outs, dt_len).len() ==> among_pairs(
                (#[trigger] retained_seq(outs, dt_len)[k]).0,
                outs,
            ),
        forall|k1: int, k2: int|
            0 <= k1 < k2 < retained_seq(outs, dt_len).len() ==> (#[trigger] retained_seq(
                outs,
                dt_len,
            )[k1]).0 != (#[trigger] retained_seq(outs, dt_len)[k2]).0,
    decreases outs.len(),
{
    if outs.len() > 0 {
        let prefix = outs.drop_last();
        assert(distinct_pairs(prefix));
        lemma_retained_distinct(prefix, dt_len);
        let rp = retained_seq(prefix, dt_len);
        let r = retained_seq(outs, dt_len);
        assert forall|k: int| 0 <= k < rp.len() implies among_pairs(rp[k].0, outs) by {
            let j = choose|j: int| 0 <= j < prefix.len() && (#[trigger] prefix[j]).0@ == rp[k].0;
            assert(outs[j].0@ == rp[k].0);
        }
        if r.len() > rp.len() {
            // the newly retained pair is the last outcome's, which the
            // distinctness of the outcomes keeps apart from every earlier one
            assert forall|k: int| 0 <= k < rp.len() implies rp[k].0 != outs.last().0@ by {
                let j = choose|j: int|
                    0 <= j < prefix.len() && (#[trigger] prefix[j]).0@ == rp[k].0;
                assert(outs[j].0@ == rp[k].0);
                assert(outs[j].0@ != outs[outs.len() - 1].0@);
            }
        }
    }
}

/// What one aggregation produced besides the snapshot itself.
#[derive(Debug)]
pub struct BuildOutcome {
    pub snapshot: PersistedSnapshot,
    /// Symbols whose fetch succeeded with zero data points, for the
    /// negative-result registry.
    pub soft_misses: Vec<Pair>,
    /// How many symbols came back with data.
    pub successes: usize,
    /// Whether the success rate fell below seventy percent of the universe.
    pub low_coverage: bool,
}

/// The one fatal way an aggregation fails: the anchor symbol's fetch failed
/// or returned empty, so there is no time index to align against.
#[derive(Clone, Copy, Debug, PartialEq, Eq, Structural)]
pub enum BuildError {
    AnchorMissing,
}

/// Folds one outcome per candidate symbol into a snapshot.
///
/// The anchor symbol's bar open times become the shared time index; a symbol
/// is retained exactly when its fetch returned data of exactly that length,
/// and its series is normalized to log returns against its own first close.
/// Soft misses are collected for the negative-result registry.  Failures of
/// other symbols are absorbed; only a missing or empty anchor is fatal.
pub fn aggregate(
    params: CollectionParams,
    universe_len: usize,
    outcomes: Vec<(Pair, FetchOutcome)>,
    anchor: &Pair,
    now_ms: i64,
) -> (r: Result<BuildOutcome, BuildError>)
    requires
        params.wf(),
        0 <= now_ms < 1_000_000_000_000_000_000,
        wf_outcomes(outcomes@),
        outcomes@.len() <= universe_len <= 1_000_000,
    ensures
        r is Err <==> !anchor_ok(outcomes@, anchor@),
        r matches Ok(b) ==> {
            &&& b.snapshot.wf()
            &&& b.snapshot.params == params
            &&& b.snapshot.collected_at_ms == now_ms
            &&& exists|i: int|
                0 <= i < outcomes@.len() && (#[trigger] outcomes@[i]).0@ == anchor@
                    && is_nonempty_data(outcomes@[i].1) && (outcomes@[i].1 matches
                FetchOutcome::Data(s) && b.snapshot.time_index@ == s.col_open_times@)
            &&& entry_views(b.snapshot.entries@) == retained_seq(
                outcomes@,
                b.snapshot.time_index@.len() as nat,
            )
            &&& pair_views(b.soft_misses@) == misses_seq(outcomes@)
            &&& b.successes == count_data(outcomes@)
            &&& (b.low_coverage <==> 100 * b.successes < 70 * universe_len)
        },
{
    // locate the anchor's outcome and take its time index
    let n = outcomes.len();
    let mut dt_index: Option<Vec<i64>> = None;
    let mut idx: usize = 0;
    while idx < n
        invariant
            idx <= n,
            n == outcomes@.len(),
            wf_outcomes(outcomes@),
            match dt_index {
                Some(dt) => exists|i: int|
                    0 <= i < outcomes@.len() && (#[trigger] outcomes@[i]).0@ == anchor@
                        && is_nonempty_data(outcomes@[i].1) && (outcomes@[i].1 matches
                    FetchOutcome::Data(s) && dt@ == s.col_open_times@ && s.wf()
                        && s.col_closes@.len() == dt@.len()),
                None => forall|i: int|
                    0 <= i < idx ==> !((#[trigger] outcomes@[i]).0@ == anchor@
                        && is_nonempty_data(outcomes@[i].1)),
            },
        decreases n - idx,
    {
        if dt_index.is_none() {
            let pr = &outcomes[idx];
            if bytes_eq(pr.0.bytes(), anchor.bytes()) {
                match &pr.1 {
                    FetchOutcome::Data(s) => {
                        if s.col_closes.len() >= 1 {
                            dt_index = Some(copy_i64_vec(&s.col_open_times));
                        }
                    },
                    _ => {},
                }
            }
        }
        idx = idx + 1;
    }
    let dt = match dt_index {
        Some(dt) => dt,
        None => {
            proof {
                assert(!anchor_ok(outcomes@, anchor@));
            }
            return Err(BuildError::AnchorMissing);
        },
    };
    let dt_len = dt.len();
    // fold the outcomes: normalize and align what succeeded, collect misses
    let ghost original = outcomes@;
    let mut entries: Vec<SeriesEntry> = Vec::new();
    let mut soft_misses: Vec<Pair> = Vec::new();
    let mut successes: usize = 0;
    for pr in it: outcomes.into_iter()
        invariant
            it.seq() == original,
            original.len() == n,
            wf_outcomes(original),
            n <= universe_len <= 1_000_000,
            1 <= dt_len == dt@.len() <= 1_000_000,
            forall|j: int| 0 <= j < dt@.len() ==> dt@[j] >= 0,
            entries@.len() <= it.index(),
            entry_views(entries@) == retained_seq(original.take(it.index() as int), dt_len as nat),
            pair_views(soft_misses@) == misses_seq(original.take(it.index() as int)),
            successes == count_data(original.take(it.index() as int)),
            successes <= it.index() <= n,
            forall|k: int| 0 <= k < entries@.len() ==> (#[trigger] entries@[k]).pair.wf(),
            forall|k: int|
                0 <= k < entries@.len() ==> (#[trigger] entries@[k]).values@.len() == dt@.len(),
            forall|k: int| 0 <= k < entries@.len() ==> (#[trigger] entries@[k]).values@[0] == 0,
            forall|k: int, v: int|
                0 <= k < entries@.len() && 0 <= v < entries@[k].values@.len()
                    ==> -LOG_RETURN_BOUND <= #[trigger] entries@[k].values@[v]
                    <= LOG_RETURN_BOUND,
            forall|k: int| 0 <= k < soft_misses@.len() ==> (#[trigger] soft_misses@[k]).wf(),
    {
        let ghost k = it.index() as int;
        let (pair, outcome) = pr;
        proof {
            assert(original.take(k + 1).drop_last() =~= original.take(k));
            assert(original.take(k + 1).last() == original[k]);
        }
        match outcome {
            FetchOutcome::Data(s) => {
                if s.col_closes.len() == 0 {
                    soft_misses.push(pair);
                    proof {
                        assert(pair_views(soft_misses@) =~= misses_seq(original.take(k + 1)));
                        assert(entry_views(entries@) =~= retained_seq(
                            original.take(k + 1),
                            dt_len as nat,
                        ));
                    }
                } else {
                    successes = successes + 1;
                    if s.col_closes.len() == dt_len {
                        let values = normalize_series(&s.col_closes);
                        let ghost vv = values@;
                        proof {
                            assert(vv.map_values(|v: i64| v as int) =~= spec_norm(s.col_closes@));
                        }
                        entries.push(SeriesEntry { pair, values });
                        proof {
                            assert(entry_views(entries@) =~= retained_seq(
                                original.take(k + 1),
                                dt_len as nat,
                            ));
                            assert(pair_views(soft_misses@) =~= misses_seq(original.take(k + 1)));
                        }
                    } else {
                        proof {
                            assert(entry_views(entries@) =~= retained_seq(
                                original.take(k + 1),
                                dt_len as nat,
                            ));
                            assert(pair_views(soft_misses@) =~= misses_seq(original.take(k + 1)));
                        }
                    }
                }
            },
            FetchOutcome::Empty => {
                soft_misses.push(pair);
                proof {
                    assert(pair_views(soft_misses@) =~= misses_seq(original.take(k + 1)));
                    assert(entry_views(entries@) =~= retained_seq(
                        original.take(k + 1),
                        dt_len as nat,
                    ));
                }
            },
            FetchOutcome::Failed => {
                proof {
                    assert(entry_views(entries@) =~= retained_seq(
                        original.take(k + 1),
                        dt_len as nat,
                    ));
                    assert(pair_views(soft_misses@) =~= misses_seq(original.take(k + 1)));
                }
            },
        }
    }
    let low_coverage = 100 * successes < 70 * universe_len;
    proof {
        assert(original.take(original.len() as int) =~= original);
        lemma_retained_distinct(original, dt_len as nat);
        let views = entry_views(entries@);
        assert forall|k1: int, k2: int|
            0 <= k1 < k2 < entries@.len() implies (#[trigger] entries@[k1]).pair@ != (
        #[trigger] entries@[k2]).pair@ by {
            assert(views[k1].0 == entries@[k1].pair@);
            assert(views[k2].0 == entries@[k2].pair@);
        }
    }
    let snapshot = PersistedSnapshot { collected_at_ms: now_ms, entries, time_index: dt, params };
    Ok(BuildOutcome { snapshot, soft_misses, successes, low_coverage })
}

/// Copies a vector of values.
fn copy_i64_vec(v: &Vec<i64>) -> (r: Vec<i64>)
    ensures
        r@ == v@,
{
    let mut r: Vec<i64> = Vec::new();
    let n = v.len();
    let mut i: usize = 0;
    while i < n
        invariant
            i <= n,
            n == v@.len(),
            r@ == v@.take(i as int),
        decreases n - i,
    {
        let x = v[i];
        r.push(x);
        proof {
            assert(r@ =~= v@.take(i + 1));
        }
        i = i + 1;
    }
    proof {
        assert(v@.take(n as int) =~= v@);
    }
    r
}

/// The pair-and-values view of a run of entries.
pub open spec fn entry_views(entries: Seq<SeriesEntry>) -> Seq<(Seq<u8>, Seq<int>)> {
    entries.map_values(|e: SeriesEntry| (e.pair@, e.values@.map_values(|v: i64| v as int)))
}

/// The identifier view of a run of pairs.
pub open spec fn pair_views(pairs: Seq<Pair>) -> Seq<Seq<u8>> {
    pairs.map_values(|p: Pair| p@)
}

} // verus!
