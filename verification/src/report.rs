//! Caller-facing summaries of a price-performance snapshot: the coverage
//! title of the chart payload and the legend rows of the highlighted traces.

use vstd::prelude::*;

use crate::numfmt::{
    ascii_chars, ascii_only, ascii_string, dec_digits, fixed2_digits, lemma_ascii_fixed2,
    lemma_ascii_pad_left, lemma_ascii_pad_right, lit_bytes, pad_left, pad_piece_right, pad_right,
    push_dec_u64, push_lit,
};
use crate::snapshot::PersistedSnapshot;
use crate::types::{bytes_eq, Instrument, Pair};

verus! {

/// How many whole hours the snapshot's time index spans, with two extra bars
/// added to make up for the half-open ends of the window.
pub open spec fn spec_hours_covered(s: PersistedSnapshot) -> int {
    let first = s.time_index@.first() as int;
    let last = s.time_index@.last() as int;
    let span = first - last + 2 * s.params.timeframe.spec_duration_ms();
    (if span >= 0 {
        span
    } else {
        -span
    }) / 3_600_000
}

/// How many whole hours the snapshot's time index spans.
pub fn hours_covered(s: &PersistedSnapshot) -> (r: u64)
    requires
        s.wf(),
        forall|i: int| 0 <= i < s.time_index@.len() ==> #[trigger] s.time_index@[i]
            < 4_000_000_000_000_000,
    ensures
        r == spec_hours_covered(*s),
{
    let first = s.time_index[0] as i128;
    let last = s.time_index[s.time_index.len() - 1] as i128;
    let span: i128 = first - last + 2 * (s.params.timeframe.duration_ms() as i128);
    let mag: i128 = if span >= 0 {
        span
    } else {
        -span
    };
    (mag / 3_600_000) as u64
}

/// The chart payload's title: how many hours it spans and for how much of
/// the universe data was collected.  Below seventy percent coverage the
/// collected count is wrapped in a highlight so the caller can show the
/// degradation.
pub open spec fn spec_chart_title(s: PersistedSnapshot, universe_len: nat) -> Seq<u8> {
    let collected = dec_digits(s.entries@.len());
    let shown = if 100 * s.entries@.len() < 70 * universe_len {
        lit_bytes("<span style=\"color: #f59e0b;\">"@) + collected + lit_bytes("</span>"@)
    } else {
        collected
    };
    lit_bytes("Last "@) + dec_digits(spec_hours_covered(s) as nat) + lit_bytes("h of "@) + shown
        + seq![47u8] + dec_digits(universe_len) + lit_bytes(" pairs on "@) + lit_bytes(
        instr_name(s.params.instrument),
    )
}

/// The instrument's display name.
pub open spec fn instr_name(i: Instrument) -> Seq<char> {
    match i {
        Instrument::Perp => "Perp"@,
        Instrument::Spot => "Spot"@,
    }
}

/// Renders the chart payload's title line.
pub fn chart_title(s: &PersistedSnapshot, universe_len: usize) -> (r: String)
    requires
        s.wf(),
        universe_len <= 1_000_000,
        forall|i: int| 0 <= i < s.time_index@.len() ==> #[trigger] s.time_index@[i]
            < 4_000_000_000_000_000,
    ensures
        r@ == ascii_chars(spec_chart_title(*s, universe_len as nat)),
{
    let mut out: Vec<u8> = Vec::new();
    push_lit(&mut out, "Last ");
    let hours = hours_covered(s);
    push_dec_u64(&mut out, hours);
    push_lit(&mut out, "h of ");
    let collected = s.entries.len();
    let low = 100 * collected < 70 * universe_len;
    if low {
        push_lit(&mut out, "<span style=\"color: #f59e0b;\">");
        push_dec_u64(&mut out, collected as u64);
        push_lit(&mut out, "</span>");
    } else {
        push_dec_u64(&mut out, collected as u64);
    }
    out.push(47);
    push_dec_u64(&mut out, universe_len as u64);
    push_lit(&mut out, " pairs on ");
    match s.params.instrument {
        Instrument::Perp => push_lit(&mut out, "Perp"),
        Instrument::Spot => push_lit(&mut out, "Spot"),
    }
    proof {
        assert(out@ =~= spec_chart_title(*s, universe_len as nat));
    }
    ascii_string(&out)
}

/// The identifier with every `1000` multiplier prefix removed.
pub open spec fn remove_thousands(s: Seq<u8>) -> Seq<u8>
    decreases s.len(),
{
    if s.len() >= 4 && s.take(4) == seq![49u8, 48u8, 48u8, 48u8] {
        remove_thousands(s.skip(4))
    } else if s.len() == 0 {
        Seq::empty()
    } else {
        seq![s.first()] + remove_thousands(s.drop_first())
    }
}

/// The short label of a pair in a chart legend: the quote suffix dropped,
/// `1000` multipliers elided.
pub open spec fn spec_legend_label(p: Seq<u8>) -> Seq<u8> {
    if p.len() > 5 {
        remove_thousands(p.take(p.len() - 5))
    } else {
        remove_thousands(p)
    }
}

/// Computes a pair's legend label.
fn legend_label(p: &Pair) -> (r: Vec<u8>)
    requires
        p.wf(),
    ensures
        r@ == spec_legend_label(p@),
        ascii_only(r@),
{
    let bytes = p.bytes();
    let n = if bytes.len() > 5 {
        bytes.len() - 5
    } else {
        bytes.len()
    };
    let ghost head = if p@.len() > 5 {
        p@.take(p@.len() - 5)
    } else {
        p@
    };
    let mut out: Vec<u8> = Vec::new();
    proof {
        assert(head.skip(0) =~= head);
        assert(out@ + remove_thousands(head) =~= remove_thousands(head));
    }
    let mut i: usize = 0;
    while i < n
        invariant
            i <= n <= bytes@.len(),
            bytes@ == p@,
            p.wf(),
            head == p@.take(n as int),
            spec_legend_label(p@) == out@ + remove_thousands(head.skip(i as int)),
            ascii_only(out@),
        decreases n - i,
    {
        let four = i + 4 <= n && bytes[i] == 49 && bytes[i + 1] == 48 && bytes[i + 2] == 48
            && bytes[i + 3] == 48;
        if four {
            proof {
                assert(head.skip(i as int).take(4) =~= seq![49u8, 48u8, 48u8, 48u8]);
                assert(head.skip(i as int).skip(4) =~= head.skip(i as int + 4));
            }
            i = i + 4;
        } else {
            let b = bytes[i];
            out.push(b);
            proof {
                if head.skip(i as int).len() >= 4 {
                    assert(head.skip(i as int).take(4) != seq![49u8, 48u8, 48u8, 48u8]) by {
                        if head.skip(i as int).take(4) == seq![49u8, 48u8, 48u8, 48u8] {
                            assert(head.skip(i as int).take(4)[0] == p@[i as int]);
                            assert(head.skip(i as int).take(4)[1] == p@[i as int + 1]);
                            assert(head.skip(i as int).take(4)[2] == p@[i as int + 2]);
                            assert(head.skip(i as int).take(4)[3] == p@[i as int + 3]);
                        }
                    }
                }
                assert(head.skip(i as int).first() == p@[i as int]);
                assert(head.skip(i as int).drop_first() =~= head.skip(i as int + 1));
                assert(crate::types::sym_byte_ok(p@[i as int]));
            }
            i = i + 1;
        }
    }
    proof {
        assert(head.skip(n as int) =~= Seq::<u8>::empty());
        assert(out@ =~= spec_legend_label(p@));
    }
    out
}

/// One legend row of a highlighted trace: the short label, the direction of
/// the change, and the absolute percentage change, column-aligned.
pub open spec fn spec_legend_row(p: Seq<u8>, metric: int) -> Seq<u8> {
    let sign: u8 = if metric >= 0 {
        43
    } else {
        45
    };
    let mag = if metric >= 0 {
        metric
    } else {
        -metric
    };
    pad_right(spec_legend_label(p), 5) + seq![sign] + pad_left(
        fixed2_digits((mag * 100) as nat),
        5,
    ) + seq![37u8]
}

/// Renders one legend row for a highlighted trace, from the pair and its
/// net change over the window at the fixed-point scale.
pub fn legend_row(p: &Pair, metric: i64) -> (r: String)
    requires
        p.wf(),
        -crate::logret::LOG_RETURN_BOUND <= metric <= crate::logret::LOG_RETURN_BOUND,
    ensures
        r@ == ascii_chars(spec_legend_row(p@, metric as int)),
{
    let mut out: Vec<u8> = Vec::new();
    let label = legend_label(p);
    crate::registry::push_bytes(&mut out, &label);
    pad_piece_right(&mut out, 0, 5);
    proof {
        assert(out@ =~= pad_right(spec_legend_label(p@), 5));
    }
    let neg = metric < 0;
    out.push(if neg {
        45
    } else {
        43
    });
    let mag: i64 = if metric < 0 {
        -metric
    } else {
        metric
    };
    crate::lsr::push_fixed2_left_padded(&mut out, (mag * 100) as u64, 5);
    out.push(37);
    proof {
        assert(out@ =~= spec_legend_row(p@, metric as int));
        lemma_ascii_fixed2((if metric >= 0 {
            metric as int
        } else {
            -(metric as int)
        } * 100) as nat);
        lemma_ascii_pad_left(fixed2_digits((if metric >= 0 {
            metric as int
        } else {
            -(metric as int)
        } * 100) as nat), 5);
        lemma_ascii_pad_right(spec_legend_label(p@), 5);
        assert forall|q: int| 0 <= q < out@.len() implies out@[q] < 128 by {
            let a = pad_right(spec_legend_label(p@), 5);
            let c = pad_left(fixed2_digits((if metric >= 0 {
                metric as int
            } else {
                -(metric as int)
            } * 100) as nat), 5);
            if q < a.len() {
                assert(out@[q] == a[q]);
            } else if q == a.len() {
            } else if q < a.len() + 1 + c.len() {
                assert(out@[q] == c[q - a.len() - 1]);
            } else {
                assert(out@[q] == 37);
            }
        }
    }
    ascii_string(&out)
}

/// Whether a pair stands in a list of pairs.
pub fn pairs_contain(list: &Vec<Pair>, p: &Pair) -> (r: bool)
    ensures
        r <==> exists|j: int| 0 <= j < list@.len() && (#[trigger] list@[j])@ == p@,
{
    let n = list.len();
    let mut i: usize = 0;
    while i < n
        invariant
            i <= n,
            n == list@.len(),
            forall|j: int| 0 <= j < i ==> (#[trigger] list@[j])@ != p@,
        decreases n - i,
    {
        if bytes_eq(list[i].bytes(), p.bytes()) {
            return true;
        }
        i = i + 1;
    }
    false
}

} // verus!
