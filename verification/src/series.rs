//! Per-symbol historical series: raw bars laid out as columns, and their
//! normalization into log returns anchored at the first observed close.

use vstd::prelude::*;

use crate::logret::{log_return, spec_log_return, LOG_RETURN_BOUND};

verus! {

/// One historical bar as the exchange reports it, in fixed-point units.
#[derive(Clone, Copy, Debug)]
pub struct Kline {
    /// Bar open time, epoch milliseconds.
    pub open_time_ms: i64,
    pub open: i64,
    pub high: i64,
    pub low: i64,
    pub close: i64,
    pub volume_quote: i64,
}

impl Kline {
    /// A usable bar: a bounded non-negative time stamp and a positive close.
    pub open spec fn wf(&self) -> bool {
        &&& 0 <= self.open_time_ms < 1_000_000_000_000_000_000
        &&& self.close >= 1
    }
}

/// A symbol's fetched history, one column per field.
#[derive(Clone, Debug)]
pub struct RelevantHistoricalData {
    pub col_open_times: Vec<i64>,
    pub col_opens: Vec<i64>,
    pub col_highs: Vec<i64>,
    pub col_lows: Vec<i64>,
    pub col_closes: Vec<i64>,
    pub col_volumes: Vec<i64>,
}

impl RelevantHistoricalData {
    /// Columns agree in length, stay of usable size, and hold usable values.
    pub open spec fn wf(&self) -> bool {
        &&& self.col_open_times@.len() == self.col_opens@.len()
        &&& self.col_open_times@.len() == self.col_highs@.len()
        &&& self.col_open_times@.len() == self.col_lows@.len()
        &&& self.col_open_times@.len() == self.col_closes@.len()
        &&& self.col_open_times@.len() == self.col_volumes@.len()
        &&& self.col_open_times@.len() <= 1_000_000
        &&& forall|i: int|
            0 <= i < self.col_open_times@.len() ==> 0 <= #[trigger] self.col_open_times@[i]
                < 1_000_000_000_000_000_000
        &&& forall|i: int| 0 <= i < self.col_closes@.len() ==> self.col_closes@[i] >= 1
    }

    /// How many bars the series holds.
    pub fn len(&self) -> (r: usize)
        ensures
            r == self.col_closes@.len(),
    {
        self.col_closes.len()
    }
}

/// Lays a fetched list of bars out as columns, preserving order.
pub fn get_historical_data(klines: Vec<Kline>) -> (r: RelevantHistoricalData)
    requires
        klines@.len() <= 1_000_000,
        forall|i: int| 0 <= i < klines@.len() ==> klines@[i].wf(),
    ensures
        r.wf(),
        r.col_open_times@.len() == klines@.len(),
        forall|i: int|
            0 <= i < klines@.len() ==> {
                &&& r.col_open_times@[i] == klines@[i].open_time_ms
                &&& r.col_opens@[i] == klines@[i].open
                &&& r.col_highs@[i] == klines@[i].high
                &&& r.col_lows@[i] == klines@[i].low
                &&& r.col_closes@[i] == klines@[i].close
                &&& r.col_volumes@[i] == klines@[i].volume_quote
            },
{
    let n = klines.len();
    let mut open_time: Vec<i64> = Vec::new();
    let mut open: Vec<i64> = Vec::new();
    let mut high: Vec<i64> = Vec::new();
    let mut low: Vec<i64> = Vec::new();
    let mut close: Vec<i64> = Vec::new();
    let mut volume: Vec<i64> = Vec::new();
    let mut i: usize = 0;
    while i < n
        invariant
            i <= n,
            n == klines@.len() <= 1_000_000,
            forall|j: int| 0 <= j < n ==> klines@[j].wf(),
            open_time@.len() == i,
            open@.len() == i,
            high@.len() == i,
            low@.len() == i,
            close@.len() == i,
            volume@.len() == i,
            forall|j: int|
                0 <= j < i ==> {
                    &&& open_time@[j] == klines@[j].open_time_ms
                    &&& open@[j] == klines@[j].open
                    &&& high@[j] == klines@[j].high
                    &&& low@[j] == klines@[j].low
                    &&& close@[j] == klines@[j].close
                    &&& volume@[j] == klines@[j].volume_quote
                },
        decreases n - i,
    {
        let k = klines[i];
        open_time.push(k.open_time_ms);
        open.push(k.open);
        high.push(k.high);
        low.push(k.low);
        close.push(k.close);
        volume.push(k.volume_quote);
        i = i + 1;
    }
    RelevantHistoricalData {
        col_open_times: open_time,
        col_opens: open,
        col_highs: high,
        col_lows: low,
        col_closes: close,
        col_volumes: volume,
    }
}

/// The log-return series of a close-price sequence, each observation taken
/// relative to the first one.
pub open spec fn spec_norm(closes: Seq<i64>) -> Seq<int> {
    Seq::new(closes.len(), |i: int| spec_log_return(closes[i] as int, closes[0] as int))
}

/// Normalizes a non-empty close-price sequence into log returns anchored at
/// its own first observation; the first normalized value is exactly zero.
pub fn normalize_series(closes: &Vec<i64>) -> (r: Vec<i64>)
    requires
        closes@.len() >= 1,
        forall|i: int| 0 <= i < closes@.len() ==> closes@[i] >= 1,
    ensures
        r@.len() == closes@.len(),
        forall|i: int| 0 <= i < r@.len() ==> r@[i] == spec_norm(closes@)[i],
        forall|i: int| 0 <= i < r@.len() ==> -LOG_RETURN_BOUND <= #[trigger] r@[i] <= LOG_RETURN_BOUND,
        r@[0] == 0,
{
    let first = closes[0];
    let n = closes.len();
    let mut out: Vec<i64> = Vec::new();
    let mut i: usize = 0;
    while i < n
        invariant
            i <= n,
            n == closes@.len(),
            closes@[0] == first,
            forall|j: int| 0 <= j < n ==> closes@[j] >= 1,
            out@.len() == i,
            forall|j: int| 0 <= j < i ==> out@[j] == spec_norm(closes@)[j],
            forall|j: int| 0 <= j < i ==> -LOG_RETURN_BOUND <= #[trigger] out@[j] <= LOG_RETURN_BOUND,
        decreases n - i,
    {
        let v = log_return(closes[i], first);
        out.push(v);
        i = i + 1;
    }
    proof {
        crate::logret::lemma_log_return_zero(first as int);
    }
    out
}

} // verus!
