//! The long/short-ratio panel: collecting per-symbol ratio series, keeping
//! them sorted by the latest share of longs, and formatting the two-column
//! outlier report.

use vstd::prelude::*;
use vstd::seq_lib::lemma_multiset_commutative;
use vstd::string::StringExecFns;

use crate::numfmt::{
    ascii_chars, ascii_only, ascii_string, fixed2_digits, dec_digits, lemma_ascii_concat,
    lemma_dec_digits_range, lit_bytes, pad_left, pad_piece_right, pad_right, push_dec_u64,
    push_fixed2, push_lit,
};
use crate::types::Pair;

verus! {

/// Width of one column of the outlier report, in characters.
pub const CHANGE_STR_LEN: usize = 26;

/// One symbol's long/short-ratio history: the share of accounts long, one
/// observation per bar, at the fixed-point scale.
#[derive(Debug)]
pub struct Lsrs {
    pub pair: Pair,
    /// Share of longs per bar, scaled by one hundred million.
    pub values: Vec<i64>,
}

impl Lsrs {
    /// A usable ratio series: a well-formed pair and at least one
    /// observation, every observation a share in `[0, 1]` at scale.
    pub open spec fn wf(&self) -> bool {
        &&& self.pair.wf()
        &&& 1 <= self.values@.len() <= 1_000_000
        &&& forall|i: int| 0 <= i < self.values@.len() ==> 0 <= #[trigger] self.values@[i]
            <= 100_000_000
    }

    /// The latest share of longs.
    pub open spec fn spec_last(&self) -> int {
        self.values@.last() as int
    }

    /// The latest share of longs.
    pub fn last_long(&self) -> (r: i64)
        requires
            self.wf(),
        ensures
            r == self.spec_last(),
    {
        self.values[self.values.len() - 1]
    }
}

/// One column piece of a report row: the pair, the direction of the change
/// over the window, and the latest share of longs as a percentage, padded to
/// the column width.
pub open spec fn spec_row_piece(l: Lsrs) -> Seq<u8> {
    let change = l.values@.last() - l.values@.first();
    let sign: u8 = if change >= 0 {
        43
    } else {
        45
    };
    pad_right(
        pad_right(l.pair@, 14) + seq![sign] + pad_left(
            fixed2_digits((l.values@.last() * 100) as nat),
            7,
        ) + seq![37u8],
        CHANGE_STR_LEN as nat,
    )
}

/// The short rendering of one series: the pair and the latest share of
/// longs as a percentage.
pub open spec fn spec_short(l: Lsrs) -> Seq<u8> {
    l.pair@ + lit_bytes(": "@) + fixed2_digits((l.values@.last() * 100) as nat) + seq![37u8]
}

/// Appends one column piece.
fn push_row_piece(out: &mut Vec<u8>, l: &Lsrs)
    requires
        l.wf(),
    ensures
        final(out)@ == old(out)@ + spec_row_piece(*l),
        ascii_only(old(out)@) ==> ascii_only(final(out)@),
{
    let base = out.len();
    let sym_base = out.len();
    crate::registry::push_bytes(out, l.pair.bytes());
    proof {
        assert(out@.skip(sym_base as int) =~= l.pair@);
    }
    pad_piece_right(out, sym_base, 14);
    let change_neg = {
        let last = l.values[l.values.len() - 1];
        let first = l.values[0];
        last < first
    };
    out.push(if change_neg {
        45
    } else {
        43
    });
    let last = l.values[l.values.len() - 1];
    push_fixed2_left_padded(out, (last * 100) as u64, 7);
    out.push(37);
    proof {
        assert(out@.skip(base as int) =~= pad_right(l.pair@, 14) + seq![
            if l.values@.last() - l.values@.first() >= 0 {
                43u8
            } else {
                45u8
            },
        ] + pad_left(fixed2_digits((l.values@.last() * 100) as nat), 7) + seq![37u8]);
    }
    pad_piece_right(out, base, CHANGE_STR_LEN);
    proof {
        assert(out@ =~= old(out)@ + spec_row_piece(*l));
        if ascii_only(old(out)@) {
            assert forall|q: int| 0 <= q < out@.len() implies out@[q] < 128 by {
                if q < base {
                    assert(out@[q] == old(out)@[q]);
                } else {
                    assert(out@[q] == spec_row_piece(*l)[q - base]);
                    lemma_row_piece_ascii(*l);
                }
            }
        }
    }
}

/// A report row piece is ASCII: pair bytes, a sign, digits, and spaces.
proof fn lemma_row_piece_ascii(l: Lsrs)
    requires
        l.wf(),
    ensures
        ascii_only(spec_row_piece(l)),
{
    let change = l.values@.last() - l.values@.first();
    let sign: u8 = if change >= 0 {
        43
    } else {
        45
    };
    let pct = pad_left(fixed2_digits((l.values@.last() * 100) as nat), 7);
    crate::numfmt::lemma_ascii_fixed2((l.values@.last() * 100) as nat);
    crate::numfmt::lemma_ascii_pad_left(fixed2_digits((l.values@.last() * 100) as nat), 7);
    crate::numfmt::lemma_ascii_pad_right(l.pair@, 14);
    lemma_ascii_concat(pad_right(l.pair@, 14), seq![sign]);
    lemma_ascii_concat(pad_right(l.pair@, 14) + seq![sign], pct);
    lemma_ascii_concat((pad_right(l.pair@, 14) + seq![sign]) + pct, seq![37u8]);
    assert(pad_right(l.pair@, 14) + seq![sign] + pct + seq![37u8] =~= ((pad_right(l.pair@, 14)
        + seq![sign]) + pct) + seq![37u8]);
    crate::numfmt::lemma_ascii_pad_right(
        pad_right(l.pair@, 14) + seq![sign] + pct + seq![37u8],
        CHANGE_STR_LEN as nat,
    );
}

/// What one symbol's ratio fetch came back with.
#[derive(Debug)]
pub enum LsrOutcome {
    /// The fetch succeeded and returned ratio observations.
    Values(Vec<i64>),
    /// The fetch succeeded but returned no data points: a soft miss.
    Empty,
    /// The fetch failed outright.
    Failed,
}

/// Outcomes a collection accepts: well-formed distinct pairs and shares in
/// range.
pub open spec fn wf_lsr_outcomes(outs: Seq<(Pair, LsrOutcome)>) -> bool {
    &&& forall|j1: int, j2: int|
        0 <= j1 < j2 < outs.len() ==> (#[trigger] outs[j1]).0@ != (#[trigger] outs[j2]).0@
    &&& forall|j: int| 0 <= j < outs.len() ==> (#[trigger] outs[j]).0.wf()
    &&& forall|j: int|
        0 <= j < outs.len() ==> ((#[trigger] outs[j]).1 matches LsrOutcome::Values(vs) ==> (
        vs@.len() <= 1_000_000 && forall|q: int|
            0 <= q < vs@.len() ==> 0 <= #[trigger] vs@[q] <= 100_000_000))
}

/// The ratio series a run of outcomes keeps, in outcome order.
pub open spec fn kept_seq(outs: Seq<(Pair, LsrOutcome)>) -> Seq<(Seq<u8>, Seq<i64>)>
    decreases outs.len(),
{
    if outs.len() == 0 {
        Seq::empty()
    } else {
        let rest = kept_seq(outs.drop_last());
        match outs.last().1 {
            LsrOutcome::Values(vs) => {
                if vs@.len() >= 1 {
                    rest.push((outs.last().0@, vs@))
                } else {
                    rest
                }
            },
            _ => rest,
        }
    }
}

/// The soft misses of a run of outcomes, in outcome order.
pub open spec fn lsr_misses_seq(outs: Seq<(Pair, LsrOutcome)>) -> Seq<Seq<u8>>
    decreases outs.len(),
{
    if outs.len() == 0 {
        Seq::empty()
    } else {
        let rest = lsr_misses_seq(outs.drop_last());
        let miss = match outs.last().1 {
            LsrOutcome::Values(vs) => vs@.len() == 0,
            LsrOutcome::Empty => true,
            LsrOutcome::Failed => false,
        };
        if miss {
            rest.push(outs.last().0@)
        } else {
            rest
        }
    }
}

/// The view of a run of kept series.
pub open spec fn lsrs_views(ls: Seq<Lsrs>) -> Seq<(Seq<u8>, Seq<i64>)> {
    ls.map_values(|l: Lsrs| (l.pair@, l.values@))
}

/// Folds one ratio-fetch outcome per candidate symbol: series with data are
/// kept, soft misses are collected for the negative-result registry, and
/// failures are absorbed.  Nothing here is fatal: the ratio panel has no
/// anchor symbol.
pub fn collect_lsrs(outcomes: Vec<(Pair, LsrOutcome)>) -> (r: (Vec<Lsrs>, Vec<Pair>))
    requires
        wf_lsr_outcomes(outcomes@),
    ensures
        lsrs_views(r.0@) == kept_seq(outcomes@),
        crate::snapshot::pair_views(r.1@) == lsr_misses_seq(outcomes@),
        forall|k: int| 0 <= k < r.0@.len() ==> (#[trigger] r.0@[k]).wf(),
        forall|k: int| 0 <= k < r.1@.len() ==> (#[trigger] r.1@[k]).wf(),
{
    let ghost original = outcomes@;
    let mut kept: Vec<Lsrs> = Vec::new();
    let mut misses: Vec<Pair> = Vec::new();
    for pr in it: outcomes.into_iter()
        invariant
            it.seq() == original,
            wf_lsr_outcomes(original),
            lsrs_views(kept@) == kept_seq(original.take(it.index() as int)),
            crate::snapshot::pair_views(misses@) == lsr_misses_seq(
                original.take(it.index() as int),
            ),
            forall|k: int| 0 <= k < kept@.len() ==> (#[trigger] kept@[k]).wf(),
            forall|k: int| 0 <= k < misses@.len() ==> (#[trigger] misses@[k]).wf(),
    {
        let ghost k = it.index() as int;
        let (pair, outcome) = pr;
        proof {
            assert(original.take(k + 1).drop_last() =~= original.take(k));
            assert(original.take(k + 1).last() == original[k]);
        }
        match outcome {
            LsrOutcome::Values(vs) => {
                if vs.len() == 0 {
                    misses.push(pair);
                    proof {
                        assert(crate::snapshot::pair_views(misses@) =~= lsr_misses_seq(
                            original.take(k + 1),
                        ));
                        assert(lsrs_views(kept@) =~= kept_seq(original.take(k + 1)));
                    }
                } else {
                    kept.push(Lsrs { pair, values: vs });
                    proof {
                        assert(lsrs_views(kept@) =~= kept_seq(original.take(k + 1)));
                        assert(crate::snapshot::pair_views(misses@) =~= lsr_misses_seq(
                            original.take(k + 1),
                        ));
                    }
                }
            },
            LsrOutcome::Empty => {
                misses.push(pair);
                proof {
                    assert(crate::snapshot::pair_views(misses@) =~= lsr_misses_seq(
                        original.take(k + 1),
                    ));
                    assert(lsrs_views(kept@) =~= kept_seq(original.take(k + 1)));
                }
            },
            LsrOutcome::Failed => {
                proof {
                    assert(lsrs_views(kept@) =~= kept_seq(original.take(k + 1)));
                    assert(crate::snapshot::pair_views(misses@) =~= lsr_misses_seq(
                        original.take(k + 1),
                    ));
                }
            },
        }
    }
    proof {
        assert(original.take(original.len() as int) =~= original);
    }
    (kept, misses)
}

/// Ascending by latest share of longs.
pub open spec fn sorted_by_last(s: Seq<Lsrs>) -> bool {
    forall|k1: int, k2: int|
        0 <= k1 < k2 < s.len() ==> (#[trigger] s[k1]).values@.last() <= (
        #[trigger] s[k2]).values@.last()
}

/// The ratio panel's collection: its series are always sorted ascending by
/// the latest share of longs, and it remembers how many pairs the exchange
/// listed in all, for the coverage statistic.
#[derive(Debug)]
pub struct SortedLsrs {
    pub v: Vec<Lsrs>,
    pub __total_pairs_on_exchange: Option<usize>,
}

impl SortedLsrs {
    /// The sorted series.
    pub open spec fn view_series(&self) -> Seq<Lsrs> {
        self.v@
    }

    /// Sorted, well-formed contents of a displayable size.
    pub open spec fn wf(&self) -> bool {
        &&& sorted_by_last(self.view_series())
        &&& self.view_series().len() <= 1_000_000
        &&& forall|k: int| 0 <= k < self.view_series().len() ==> (
        #[trigger] self.view_series()[k]).wf()
    }

    /// How many series the collection holds.
    pub fn len(&self) -> (r: usize)
        ensures
            r == self.view_series().len(),
    {
        self.v.len()
    }

    /// One series by rank, worst long share first.
    pub fn get(&self, i: usize) -> (r: &Lsrs)
        requires
            i < self.view_series().len(),
        ensures
            r == self.view_series()[i as int],
    {
        &self.v[i]
    }

    /// Sorts the collected series ascending by their latest share of longs.
    /// The order is a total integer order, so no observation can make the
    /// build fail.
    pub fn build(v: Vec<Lsrs>) -> (r: SortedLsrs)
        requires
            v@.len() <= 1_000_000,
            forall|k: int| 0 <= k < v@.len() ==> (#[trigger] v@[k]).wf(),
        ensures
            r.wf(),
            r.view_series().to_multiset() == v@.to_multiset(),
            r.view_series().len() == v@.len(),
            r.__total_pairs_on_exchange is None,
    {
        let ghost original = v@;
        let mut out: Vec<Lsrs> = Vec::new();
        proof {
            broadcast use vstd::seq_lib::group_to_multiset_ensures;

            assert(out@.to_multiset() =~= original.take(0).to_multiset());
        }
        for item in it: v.into_iter()
            invariant
                it.seq() == original,
                forall|k: int| 0 <= k < original.len() ==> (#[trigger] original[k]).wf(),
                sorted_by_last(out@),
                out@.len() == it.index(),
                out@.to_multiset() == original.take(it.index() as int).to_multiset(),
                forall|k: int| 0 <= k < out@.len() ==> (#[trigger] out@[k]).wf(),
        {
            let ghost k = it.index() as int;
            let ghost before = out@;
            let key = item.values[item.values.len() - 1];
            let pos = insert_pos(&out, key);
            out.insert(pos, item);
            proof {
                broadcast use vstd::seq_lib::group_to_multiset_ensures;

                assert(out@ =~= before.take(pos as int) + seq![item] + before.skip(pos as int));
                assert(before =~= before.take(pos as int) + before.skip(pos as int));
                lemma_multiset_commutative(before.take(pos as int), before.skip(pos as int));
                lemma_multiset_commutative(
                    before.take(pos as int) + seq![item],
                    before.skip(pos as int),
                );
                lemma_multiset_commutative(before.take(pos as int), seq![item]);
                assert(seq![item].to_multiset() =~= vstd::multiset::Multiset::empty().insert(
                    item,
                ));
                assert(out@.to_multiset() =~= before.to_multiset().insert(item));
                assert(original.take(k + 1).drop_last() =~= original.take(k));
                assert(original.take(k + 1) =~= original.take(k).push(item));
                assert(original.take(k + 1).to_multiset() =~= original.take(
                    k,
                ).to_multiset().insert(item));
                assert forall|k1: int, k2: int| 0 <= k1 < k2 < out@.len() implies (
                #[trigger] out@[k1]).values@.last() <= (#[trigger] out@[k2]).values@.last() by {
                    if k2 < pos {
                        assert(out@[k1] == before[k1] && out@[k2] == before[k2]);
                    } else if k1 > pos {
                        assert(out@[k1] == before[k1 - 1] && out@[k2] == before[k2 - 1]);
                    } else if k1 == pos {
                        assert(out@[k1] == item && out@[k2] == before[k2 - 1]);
                    } else if k2 == pos {
                        assert(out@[k1] == before[k1] && out@[k2] == item);
                    } else {
                        assert(out@[k1] == before[k1] && out@[k2] == before[k2 - 1]);
                    }
                }
            }
        }
        proof {
            assert(original.take(original.len() as int) =~= original);
        }
        SortedLsrs { v: out, __total_pairs_on_exchange: None }
    }

    /// Stamps the collection with the universe size, for coverage.
    pub fn set_total_pairs(&mut self, total: usize)
        ensures
            final(self).v == old(self).v,
            final(self).__total_pairs_on_exchange == Some(total),
    {
        self.__total_pairs_on_exchange = Some(total);
    }
}

/// One report row: the i-th most shorted beside the i-th most longed.
pub open spec fn spec_row(v: Seq<Lsrs>, i: int) -> Seq<u8> {
    spec_row_piece(v[i]) + spec_row_piece(v[v.len() - 1 - i])
}

/// The report's header: the two column titles.
pub open spec fn spec_header() -> Seq<u8> {
    pad_right(lit_bytes("Most Shorted (% longs)"@), 26) + pad_right(
        lit_bytes("Most Longed (% longs)"@),
        26,
    )
}

/// The report's first `m` rows, each on its own line.
pub open spec fn spec_rows(v: Seq<Lsrs>, m: int) -> Seq<u8>
    decreases m,
{
    if m <= 0 {
        Seq::empty()
    } else {
        spec_rows(v, m - 1) + seq![10u8] + spec_row(v, m - 1)
    }
}

/// The sum of the latest shares of longs.
pub open spec fn sum_last(v: Seq<Lsrs>) -> int
    decreases v.len(),
{
    if v.len() == 0 {
        0
    } else {
        sum_last(v.drop_last()) + v.last().values@.last()
    }
}

/// The whole outlier report: the column titles when there is at least one
/// row, the two-column rows, a separator, the average of all latest shares,
/// and the coverage line.
pub open spec fn spec_outliers(v: Seq<Lsrs>, total: nat, rows: nat) -> Seq<u8> {
    let m: int = if rows < v.len() / 2 {
        rows as int
    } else {
        (v.len() / 2) as int
    };
    (if m >= 1 {
        spec_header()
    } else {
        Seq::<u8>::empty()
    }) + spec_rows(v, m) + seq![10u8] + Seq::new(26, |i: int| 45u8) + seq![10u8] + lit_bytes(
        "Average: "@,
    ) + fixed2_digits((sum_last(v) / v.len() as int) as nat) + seq![10u8] + lit_bytes(
        "Collected for "@,
    ) + dec_digits(v.len()) + seq![47u8] + dec_digits(total) + lit_bytes(
        " pairs on Binance/Perp"@,
    )
}

/// The report machinery could not produce a row: the collection holds too
/// few series for that rank.
#[derive(Clone, Copy, Debug, PartialEq, Eq, Structural)]
pub enum LsrError {
    NotEnoughData,
}

impl LsrError {
    /// The error as text.
    pub fn message(&self) -> (r: String)
        ensures
            r@ == "Not enough data"@,
    {
        String::from_str("Not enough data")
    }
}

impl Lsrs {
    /// One padded report column for this series: symbol, direction of the
    /// change over the window, latest share of longs as a percentage.
    pub fn display_change(&self) -> (r: String)
        requires
            self.wf(),
        ensures
            r@ == ascii_chars(spec_row_piece(*self)),
    {
        let mut out: Vec<u8> = Vec::new();
        push_row_piece(&mut out, self);
        proof {
            assert(out@ =~= spec_row_piece(*self));
        }
        ascii_string(&out)
    }

    /// The short rendering: symbol and latest share of longs.
    pub fn display_short(&self) -> (r: String)
        requires
            self.wf(),
        ensures
            r@ == ascii_chars(spec_short(*self)),
    {
        let mut out: Vec<u8> = Vec::new();
        crate::registry::push_bytes(&mut out, self.pair.bytes());
        proof {
            assert forall|q: int| 0 <= q < out@.len() implies out@[q] < 128 by {
                assert(crate::types::sym_byte_ok(self.pair@[q]));
            }
        }
        push_lit(&mut out, ": ");
        let last = self.values[self.values.len() - 1];
        push_fixed2(&mut out, (last * 100) as u64);
        out.push(37);
        proof {
            assert(out@ =~= spec_short(*self));
            crate::numfmt::lemma_ascii_fixed2((self.values@.last() * 100) as nat);
            assert forall|q: int| 0 <= q < out@.len() implies out@[q] < 128 by {
                let pl = self.pair@.len() as int;
                let cl = lit_bytes(": "@).len() as int;
                let fl = fixed2_digits((self.values@.last() * 100) as nat).len() as int;
                if q < pl {
                    assert(out@[q] == self.pair@[q]);
                    assert(crate::types::sym_byte_ok(self.pair@[q]));
                } else if q < pl + cl {
                    crate::numfmt::lemma_lit_bytes_ascii(": "@);
                    assert(out@[q] == lit_bytes(": "@)[q - pl]);
                } else if q < pl + cl + fl {
                    assert(out@[q] == fixed2_digits((self.values@.last() * 100) as nat)[q - pl
                        - cl]);
                } else {
                    assert(out@[q] == 37);
                }
            }
        }
        ascii_string(&out)
    }
}

impl SortedLsrs {
    /// One row of the outlier report: the i-th most shorted symbol beside
    /// the i-th most longed one.  There must be at least two series at that
    /// depth, one for each column.
    pub fn display_most_shorted_longed_row(&self, i: usize) -> (r: Result<String, LsrError>)
        requires
            self.wf(),
        ensures
            r is Ok <==> 2 * i + 2 <= self.view_series().len(),
            r matches Ok(s) ==> s@ == ascii_chars(spec_row(self.view_series(), i as int)),
    {
        let n = self.v.len();
        if n < 2 || i > (n - 2) / 2 {
            proof {
                if n >= 2 && 2 * i + 2 <= n {
                    assert(i <= (n - 2) / 2);
                }
            }
            return Err(LsrError::NotEnoughData);
        }
        proof {
            assert(2 * ((n - 2) / 2) <= n - 2);
        }
        let mut out: Vec<u8> = Vec::new();
        push_row_piece(&mut out, &self.v[i]);
        push_row_piece(&mut out, &self.v[n - 1 - i]);
        proof {
            assert(out@ =~= spec_row(self.view_series(), i as int));
        }
        Ok(ascii_string(&out))
    }

    /// The full outlier report: two columns of extremes (at most `rows` rows,
    /// never more than half the collection), a separator, the average latest
    /// share of longs, and a coverage line against the universe size.
    #[verifier::rlimit(100)]
    pub fn display_outliers(&self, rows: usize) -> (r: String)
        requires
            self.wf(),
            self.view_series().len() >= 1,
            self.__total_pairs_on_exchange is Some,
        ensures
            r@ == ascii_chars(
                spec_outliers(
                    self.view_series(),
                    self.__total_pairs_on_exchange->0 as nat,
                    rows as nat,
                ),
            ),
    {
        let ghost series = self.view_series();
        let n = self.v.len();
        let mut out: Vec<u8> = Vec::new();
        let m = if rows < n / 2 {
            rows
        } else {
            n / 2
        };
        let ghost hdr: Seq<u8> = if m >= 1 {
            spec_header()
        } else {
            Seq::<u8>::empty()
        };
        if m >= 1 {
            let base = out.len();
            push_lit(&mut out, "Most Shorted (% longs)");
            pad_piece_right(&mut out, base, 26);
            let base2 = out.len();
            push_lit(&mut out, "Most Longed (% longs)");
            pad_piece_right(&mut out, base2, 26);
            proof {
                assert(out@ =~= hdr);
            }
        }
        let mut i: usize = 0;
        proof {
            assert(out@ =~= hdr + spec_rows(series, 0));
        }
        while i < m
            invariant
                i <= m,
                m <= n / 2,
                n == series.len(),
                self.wf(),
                series == self.view_series(),
                hdr == (if m >= 1 {
                    spec_header()
                } else {
                    Seq::<u8>::empty()
                }),
                out@ == hdr + spec_rows(series, i as int),
                ascii_only(out@),
            decreases m - i,
        {
            out.push(10);
            push_row_piece(&mut out, &self.v[i]);
            push_row_piece(&mut out, &self.v[n - 1 - i]);
            i = i + 1;
            proof {
                assert(out@ =~= hdr + spec_rows(series, i as int));
            }
        }
        out.push(10);
        let mut d: usize = 0;
        while d < 26
            invariant
                d <= 26,
                hdr == (if (if rows < n / 2 {
                    rows as int
                } else {
                    (n / 2) as int
                }) >= 1 {
                    spec_header()
                } else {
                    Seq::<u8>::empty()
                }),
                out@ == hdr + spec_rows(series, (if rows < n / 2 {
                    rows as int
                } else {
                    (n / 2) as int
                })) + seq![10u8] + Seq::new(d as nat, |q: int| 45u8),
                ascii_only(out@),
            decreases 26 - d,
        {
            out.push(45);
            d = d + 1;
            proof {
                assert(out@ =~= hdr + spec_rows(series, (if rows < n / 2 {
                    rows as int
                } else {
                    (n / 2) as int
                })) + seq![10u8] + Seq::new(d as nat, |q: int| 45u8));
                assert forall|q: int| 0 <= q < out@.len() implies out@[q] < 128 by {
                    if q < out@.len() - 1 {
                        assert(out@[q] == out@.drop_last()[q]);
                    }
                }
            }
        }
        out.push(10);
        push_lit(&mut out, "Average: ");
        let mut sum: i128 = 0;
        let mut j: usize = 0;
        while j < n
            invariant
                j <= n,
                n == series.len(),
                self.wf(),
                series == self.view_series(),
                sum == sum_last(series.take(j as int)),
                0 <= sum <= j * 100_000_000,
            decreases n - j,
        {
            let lv = &self.v[j];
            let last = lv.values[lv.values.len() - 1];
            sum = sum + (last as i128);
            j = j + 1;
            proof {
                assert(series.take(j as int).drop_last() =~= series.take(j as int - 1));
                assert(sum <= j * 100_000_000) by (nonlinear_arith)
                    requires
                        sum <= (j - 1) * 100_000_000 + 100_000_000,
                        j >= 1,
                ;
            }
        }
        proof {
            assert(series.take(n as int) =~= series);
            assert(n * 100_000_000 <= 1_000_000i128 * 100_000_000) by (nonlinear_arith)
                requires
                    n <= 1_000_000,
            ;
        }
        let avg: i64 = (sum / (n as i128)) as i64;
        proof {
            vstd::arithmetic::div_mod::lemma_div_nonincreasing(sum as int, n as int);
            vstd::arithmetic::div_mod::lemma_div_pos_is_pos(sum as int, n as int);
        }
        push_fixed2(&mut out, avg as u64);
        out.push(10);
        push_lit(&mut out, "Collected for ");
        push_dec_u64(&mut out, n as u64);
        out.push(47);
        let total = match self.__total_pairs_on_exchange {
            Some(t) => t,
            None => 0,
        };
        push_dec_u64(&mut out, total as u64);
        push_lit(&mut out, " pairs on Binance/Perp");
        proof {
            assert(out@ =~= spec_outliers(
                series,
                self.__total_pairs_on_exchange->0 as nat,
                rows as nat,
            ));
        }
        ascii_string(&out)
    }
}

/// One symbol of the ratio panel as the caller displays it.
#[derive(Debug)]
pub struct RenderedLsr {
    pub pair: Pair,
    pub rend: String,
}

/// The whole ratio panel as the caller displays it: one rendered line per
/// symbol, ranked, plus the outlier report.
#[derive(Debug)]
pub struct RenderedLsrs {
    pub v: Vec<RenderedLsr>,
    pub outliers: String,
}

impl RenderedLsrs {
    /// Renders a sorted collection: the short form of every series in rank
    /// order, and the outlier report.
    pub fn from_sorted(s: &SortedLsrs, rows: usize) -> (r: RenderedLsrs)
        requires
            s.wf(),
            s.view_series().len() >= 1,
            s.__total_pairs_on_exchange is Some,
        ensures
            r.v@.len() == s.view_series().len(),
            forall|k: int|
                0 <= k < r.v@.len() ==> (#[trigger] r.v@[k]).pair@ == s.view_series()[k].pair@ && (
                #[trigger] r.v@[k]).rend@ == ascii_chars(spec_short(s.view_series()[k])),
            r.outliers@ == ascii_chars(
                spec_outliers(
                    s.view_series(),
                    s.__total_pairs_on_exchange->0 as nat,
                    rows as nat,
                ),
            ),
    {
        let n = s.v.len();
        let mut v: Vec<RenderedLsr> = Vec::new();
        let mut i: usize = 0;
        while i < n
            invariant
                i <= n,
                s.wf(),
                n == s.view_series().len(),
                v@.len() == i,
                forall|k: int|
                    0 <= k < i ==> (#[trigger] v@[k]).pair@ == s.view_series()[k].pair@ && (
                    #[trigger] v@[k]).rend@ == ascii_chars(spec_short(s.view_series()[k])),
            decreases n - i,
        {
            let l = &s.v[i];
            v.push(RenderedLsr { pair: l.pair.clone(), rend: l.display_short() });
            i = i + 1;
        }
        let outliers = s.display_outliers(rows);
        RenderedLsrs { v, outliers }
    }
}

/// The first rank whose latest share exceeds `key`.
fn insert_pos(out: &Vec<Lsrs>, key: i64) -> (pos: usize)
    requires
        forall|k: int| 0 <= k < out@.len() ==> (#[trigger] out@[k]).wf(),
    ensures
        pos <= out@.len(),
        forall|j: int| 0 <= j < pos ==> (#[trigger] out@[j]).values@.last() <= key,
        pos < out@.len() ==> out@[pos as int].values@.last() > key,
{
    let m = out.len();
    let mut pos: usize = 0;
    while pos < m
        invariant
            pos <= m,
            m == out@.len(),
            forall|k: int| 0 <= k < out@.len() ==> (#[trigger] out@[k]).wf(),
            forall|j: int| 0 <= j < pos ==> (#[trigger] out@[j]).values@.last() <= key,
        decreases m - pos,
    {
        let ol = &out[pos];
        if ol.values[ol.values.len() - 1] > key {
            return pos;
        }
        pos = pos + 1;
    }
    pos
}

/// Appends a two-decimal number right-aligned in the given width.
pub(crate) fn push_fixed2_left_padded(out: &mut Vec<u8>, v: u64, w: usize)
    requires
        v <= 1_000_000_000_000_000_000,
    ensures
        final(out)@ == old(out)@ + pad_left(fixed2_digits(v as nat), w as nat),
        ascii_only(old(out)@) ==> ascii_only(final(out)@),
{
    let mut digits: Vec<u8> = Vec::new();
    push_fixed2(&mut digits, v);
    let mut pad: usize = 0;
    let dl = digits.len();
    while pad < w && w - pad > dl
        invariant
            out@ == old(out)@ + Seq::new(pad as nat, |i: int| 32u8),
            digits@ == fixed2_digits(v as nat),
            dl == digits@.len(),
            pad + dl <= w || pad == 0,
            ascii_only(old(out)@) ==> ascii_only(out@),
        decreases w - pad,
    {
        out.push(32);
        pad = pad + 1;
        proof {
            assert(out@ =~= old(out)@ + Seq::new(pad as nat, |i: int| 32u8));
            if ascii_only(old(out)@) {
                assert forall|q: int| 0 <= q < out@.len() implies out@[q] < 128 by {
                    if q < old(out)@.len() {
                        assert(out@[q] == old(out)@[q]);
                    } else {
                        assert(out@[q] == 32);
                    }
                }
            }
        }
    }
    crate::registry::push_bytes(out, &digits);
    proof {
        assert(out@ =~= old(out)@ + pad_left(fixed2_digits(v as nat), w as nat));
        if ascii_only(old(out)@) {
            lemma_dec_digits_range(crate::numfmt::hundredths(v as nat) / 100);
            assert forall|q: int| 0 <= q < out@.len() implies out@[q] < 128 by {
                if q < old(out)@.len() {
                    assert(out@[q] == old(out)@[q]);
                } else {
                    assert(out@[q] == pad_left(fixed2_digits(v as nat), w as nat)[q - old(
                        out,
                    )@.len()]);
                }
            }
        }
    }
}

} // verus!
