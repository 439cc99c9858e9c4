//! The snapshot cache: one JSON file per parameter triple, with a TTL
//! derived from the timeframe.
//!
//! The library computes file names and file contents and decides freshness;
//! reading and writing the actual files is the caller's.  A snapshot is
//! encoded as one JSON object; a load accepts exactly byte-faithful
//! re-encodings of a well-formed snapshot for the requested parameters, and
//! never returns one whose age has reached the timeframe's duration.

use vstd::prelude::*;

use crate::logret::LOG_RETURN_BOUND;
use crate::numfmt::{
    dec_digits, dec_digits_signed, lemma_dec_digits_range, lit_bytes, push_dec_i64, push_dec_u64,
    push_lit,
};
use crate::registry::push_bytes;
use crate::snapshot::{PersistedSnapshot, SeriesEntry};
use crate::types::{bytes_eq, CollectionParams, Instrument, Pair, TimeUnit};

verus! {

/// The instrument's name inside a cache key.
pub open spec fn instr_chars(i: Instrument) -> Seq<char> {
    match i {
        Instrument::Perp => "perp"@,
        Instrument::Spot => "spot"@,
    }
}

/// The deterministic token naming one parameter triple, as in `perp_5m_288`.
pub open spec fn spec_params_token(p: CollectionParams) -> Seq<u8> {
    lit_bytes(instr_chars(p.instrument)) + seq![95u8] + dec_digits(p.timeframe.qty as nat) + seq![
        p.timeframe.unit.spec_letter(),
    ] + seq![95u8] + dec_digits(p.range as nat)
}

/// The cache file's name for one parameter triple.
pub open spec fn spec_cache_filename(p: CollectionParams) -> Seq<u8> {
    lit_bytes("market_structure_"@) + spec_params_token(p) + lit_bytes(".json"@)
}

/// The numbers of a JSON array body, comma-separated.
pub open spec fn enc_items(vs: Seq<i64>) -> Seq<u8>
    decreases vs.len(),
{
    if vs.len() == 0 {
        Seq::empty()
    } else if vs.len() == 1 {
        dec_digits_signed(vs[0] as int)
    } else {
        enc_items(vs.drop_last()) + seq![44u8] + dec_digits_signed(vs.last() as int)
    }
}

/// One symbol's member of the series object: `"PAIR":[values]`.
pub open spec fn enc_entry(e: SeriesEntry) -> Seq<u8> {
    seq![34u8] + e.pair@ + lit_bytes("\":["@) + enc_items(e.values@) + seq![93u8]
}

/// The members of the series object, comma-separated.
pub open spec fn enc_entries(es: Seq<SeriesEntry>) -> Seq<u8>
    decreases es.len(),
{
    if es.len() == 0 {
        Seq::empty()
    } else if es.len() == 1 {
        enc_entry(es[0])
    } else {
        enc_entries(es.drop_last()) + seq![44u8] + enc_entry(es.last())
    }
}

/// The snapshot's one-object JSON form.
pub open spec fn spec_encode(s: PersistedSnapshot) -> Seq<u8> {
    lit_bytes("{\"collected_at\":"@) + dec_digits_signed(s.collected_at_ms as int) + lit_bytes(
        ",\"params\":\""@,
    ) + spec_params_token(s.params) + lit_bytes("\",\"time_index\":["@) + enc_items(
        s.time_index@,
    ) + lit_bytes("],\"series\":{"@) + enc_entries(s.entries@) + lit_bytes("}}"@)
}

/// Appends the parameter token.
pub fn push_params_token(out: &mut Vec<u8>, p: &CollectionParams)
    ensures
        final(out)@ == old(out)@ + spec_params_token(*p),
{
    match p.instrument {
        Instrument::Perp => push_lit(out, "perp"),
        Instrument::Spot => push_lit(out, "spot"),
    }
    out.push(95);
    push_dec_u64(out, p.timeframe.qty as u64);
    let letter: u8 = match p.timeframe.unit {
        TimeUnit::Second => 115,
        TimeUnit::Minute => 109,
        TimeUnit::Hour => 104,
        TimeUnit::Day => 100,
        TimeUnit::Week => 119,
    };
    out.push(letter);
    out.push(95);
    push_dec_u64(out, p.range as u64);
    proof {
        assert(out@ =~= old(out)@ + spec_params_token(*p));
    }
}

/// The deterministic cache file name for one parameter triple.
pub fn cache_filename(p: &CollectionParams) -> (r: Vec<u8>)
    ensures
        r@ == spec_cache_filename(*p),
{
    let mut out: Vec<u8> = Vec::new();
    push_lit(&mut out, "market_structure_");
    push_params_token(&mut out, p);
    push_lit(&mut out, ".json");
    proof {
        assert(out@ =~= spec_cache_filename(*p));
    }
    out
}

/// Appends a comma-separated run of numbers.
fn push_items(out: &mut Vec<u8>, vs: &Vec<i64>)
    ensures
        final(out)@ == old(out)@ + enc_items(vs@),
{
    let n = vs.len();
    let mut i: usize = 0;
    while i < n
        invariant
            i <= n,
            n == vs@.len(),
            out@ == old(out)@ + enc_items(vs@.take(i as int)),
        decreases n - i,
    {
        let ghost k = i as int;
        proof {
            assert(vs@.take(k + 1).drop_last() =~= vs@.take(k));
        }
        if i > 0 {
            out.push(44);
        }
        push_dec_i64(out, vs[i]);
        proof {
            assert(out@ =~= old(out)@ + enc_items(vs@.take(k + 1)));
        }
        i = i + 1;
    }
    proof {
        assert(vs@.take(n as int) =~= vs@);
    }
}

/// Appends the series object's members.
fn push_entries(out: &mut Vec<u8>, es: &Vec<SeriesEntry>)
    ensures
        final(out)@ == old(out)@ + enc_entries(es@),
{
    let n = es.len();
    let mut i: usize = 0;
    while i < n
        invariant
            i <= n,
            n == es@.len(),
            out@ == old(out)@ + enc_entries(es@.take(i as int)),
        decreases n - i,
    {
        let ghost k = i as int;
        proof {
            assert(es@.take(k + 1).drop_last() =~= es@.take(k));
        }
        if i > 0 {
            out.push(44);
        }
        let ghost before = out@;
        let e = &es[i];
        out.push(34);
        push_bytes(out, e.pair.bytes());
        push_lit(out, "\":[");
        push_items(out, &e.values);
        out.push(93);
        proof {
            assert(out@ =~= before + enc_entry(es@[k]));
            assert(out@ =~= old(out)@ + enc_entries(es@.take(k + 1)));
        }
        i = i + 1;
    }
    proof {
        assert(es@.take(n as int) =~= es@);
    }
}

/// Serializes a snapshot into its cache file's contents.
pub fn encode_snapshot(s: &PersistedSnapshot) -> (r: Vec<u8>)
    ensures
        r@ == spec_encode(*s),
{
    let mut out: Vec<u8> = Vec::new();
    push_lit(&mut out, "{\"collected_at\":");
    push_dec_i64(&mut out, s.collected_at_ms);
    push_lit(&mut out, ",\"params\":\"");
    push_params_token(&mut out, &s.params);
    push_lit(&mut out, "\",\"time_index\":[");
    push_items(&mut out, &s.time_index);
    push_lit(&mut out, "],\"series\":{");
    push_entries(&mut out, &s.entries);
    push_lit(&mut out, "}}");
    proof {
        assert(out@ =~= spec_encode(*s));
    }
    out
}

/// What a snapshot save hands the caller to write: the deterministic file
/// name and the full new contents, replacing any prior snapshot for the key.
pub fn save(s: &PersistedSnapshot) -> (r: (Vec<u8>, Vec<u8>))
    ensures
        r.0@ == spec_cache_filename(s.params),
        r.1@ == spec_encode(*s),
{
    (cache_filename(&s.params), encode_snapshot(s))
}

/// How many consecutive ASCII digits stand at position `i`.
pub open spec fn digit_run(s: Seq<u8>, i: int) -> int
    decreases s.len() - i,
{
    if 0 <= i < s.len() && 48 <= s[i] <= 57 {
        1 + digit_run(s, i + 1)
    } else {
        0
    }
}

/// A digit run surrounded by non-digit text is exactly the digits.
proof fn lemma_digit_run_concat(a: Seq<u8>, d: Seq<u8>, b: Seq<u8>)
    requires
        d.len() >= 1,
        forall|i: int| 0 <= i < d.len() ==> 48 <= #[trigger] d[i] <= 57,
        b.len() >= 1,
        !(48 <= b[0] <= 57),
    ensures
        digit_run(a + d + b, a.len() as int) == d.len(),
    decreases d.len(),
{
    let s = a + d + b;
    assert(s[a.len() as int] == d[0]);
    if d.len() == 1 {
        assert(s[a.len() as int + 1] == b[0]);
        assert(digit_run(s, a.len() as int + 1) == 0);
    } else {
        let a2 = a.push(d[0]);
        let d2 = d.drop_first();
        assert(a2 + d2 + b =~= s);
        lemma_digit_run_concat(a2, d2, b);
        assert(digit_run(s, a.len() as int + 1) == d2.len());
    }
}

/// The numeric value a digit sequence denotes.
pub open spec fn val_of_digits(s: Seq<u8>) -> nat
    decreases s.len(),
{
    if s.len() == 0 {
        0
    } else {
        val_of_digits(s.drop_last()) * 10 + (if s.last() >= 48 {
            (s.last() - 48) as nat
        } else {
            0
        })
    }
}

/// Rendering and reading back a number is the identity.
proof fn lemma_val_of_dec(n: nat)
    ensures
        val_of_digits(dec_digits(n)) == n,
    decreases n,
{
    if n < 10 {
        assert(dec_digits(n).drop_last() =~= Seq::<u8>::empty());
        assert(val_of_digits(Seq::<u8>::empty()) == 0);
        assert(dec_digits(n).last() == (48 + n) as u8);
    } else {
        lemma_val_of_dec(n / 10);
        assert(dec_digits(n).drop_last() =~= dec_digits(n / 10));
        assert(dec_digits(n).last() == (48 + n % 10) as u8);
    }
}

/// Two numbers with the same decimal rendering are the same.
proof fn lemma_dec_injective(n1: nat, n2: nat)
    requires
        dec_digits(n1) == dec_digits(n2),
    ensures
        n1 == n2,
{
    lemma_val_of_dec(n1);
    lemma_val_of_dec(n2);
}

/// Two well-formed snapshots with the same encoding were collected at the
/// same time: the encoding opens with the collection stamp, whose digits
/// read back uniquely.
proof fn lemma_encode_same_collected(s1: PersistedSnapshot, s2: PersistedSnapshot)
    requires
        spec_encode(s1) == spec_encode(s2),
        s1.collected_at_ms >= 0,
        s2.collected_at_ms >= 0,
    ensures
        s1.collected_at_ms == s2.collected_at_ms,
{
    let p = lit_bytes("{\"collected_at\":"@);
    let e = spec_encode(s1);
    let d1 = dec_digits(s1.collected_at_ms as nat);
    let d2 = dec_digits(s2.collected_at_ms as nat);
    let r1 = lit_bytes(",\"params\":\""@) + spec_params_token(s1.params) + lit_bytes(
        "\",\"time_index\":["@,
    ) + enc_items(s1.time_index@) + lit_bytes("],\"series\":{"@) + enc_entries(s1.entries@)
        + lit_bytes("}}"@);
    let r2 = lit_bytes(",\"params\":\""@) + spec_params_token(s2.params) + lit_bytes(
        "\",\"time_index\":["@,
    ) + enc_items(s2.time_index@) + lit_bytes("],\"series\":{"@) + enc_entries(s2.entries@)
        + lit_bytes("}}"@);
    reveal_strlit(",\"params\":\"");
    assert((',' as u8) == 44);
    assert(r1[0] == 44);
    assert(r2[0] == 44);
    lemma_dec_digits_range(s1.collected_at_ms as nat);
    lemma_dec_digits_range(s2.collected_at_ms as nat);
    assert(p + d1 + r1 =~= e);
    assert(p + d2 + r2 =~= spec_encode(s2));
    lemma_digit_run_concat(p, d1, r1);
    lemma_digit_run_concat(p, d2, r2);
    assert(d1.len() == d2.len());
    assert(d1 =~= d2) by {
        assert(forall|i: int|
            0 <= i < d1.len() ==> d1[i] == e[p.len() + i] && #[trigger] d2[i] == e[p.len() + i]);
    }
    lemma_dec_injective(s1.collected_at_ms as nat, s2.collected_at_ms as nat);
}

/// Ten to the `k`-th, clamped at eighteen digits' worth.
pub open spec fn ten_pow(k: nat) -> nat {
    if k == 0 {
        1
    } else if k == 1 {
        10
    } else if k == 2 {
        100
    } else if k == 3 {
        1_000
    } else if k == 4 {
        10_000
    } else if k == 5 {
        100_000
    } else if k == 6 {
        1_000_000
    } else if k == 7 {
        10_000_000
    } else if k == 8 {
        100_000_000
    } else if k == 9 {
        1_000_000_000
    } else if k == 10 {
        10_000_000_000
    } else if k == 11 {
        100_000_000_000
    } else if k == 12 {
        1_000_000_000_000
    } else if k == 13 {
        10_000_000_000_000
    } else if k == 14 {
        100_000_000_000_000
    } else if k == 15 {
        1_000_000_000_000_000
    } else if k == 16 {
        10_000_000_000_000_000
    } else if k == 17 {
        100_000_000_000_000_000
    } else {
        1_000_000_000_000_000_000
    }
}

/// A run of at most eighteen ASCII digits denotes a value below ten to its
/// length.
proof fn lemma_val_digits_bound(s: Seq<u8>)
    requires
        s.len() <= 18,
        forall|q: int| 0 <= q < s.len() ==> 48 <= #[trigger] s[q] <= 57,
    ensures
        val_of_digits(s) < ten_pow(s.len()),
    decreases s.len(),
{
    if s.len() > 0 {
        assert(forall|q: int| 0 <= q < s.drop_last().len() ==> 48 <= #[trigger] s.drop_last()[q] <= 57);
        lemma_val_digits_bound(s.drop_last());
        assert(ten_pow(s.len()) == 10 * ten_pow((s.len() - 1) as nat));
    }
}

/// A number below ten to the `k`-th renders in at most `k` digits.
proof fn lemma_dec_digits_len(n: nat, k: nat)
    requires
        1 <= k <= 18,
        n < ten_pow(k),
    ensures
        dec_digits(n).len() <= k,
    decreases k,
{
    if n >= 10 {
        assert(k >= 2);
        assert(ten_pow(k) == 10 * ten_pow((k - 1) as nat));
        vstd::arithmetic::div_mod::lemma_multiply_divide_lt(
            n as int,
            10,
            ten_pow((k - 1) as nat) as int,
        );
        lemma_dec_digits_len(n / 10, (k - 1) as nat);
    }
}

/// Values an encoded array body may hold.
pub open spec fn bounded_items(vs: Seq<i64>) -> bool {
    forall|k: int|
        0 <= k < vs.len() ==> -1_000_000_000_000_000_000 < #[trigger] vs[k]
            < 1_000_000_000_000_000_000
}

/// Where item `m`'s digits start inside `enc_items(vs)`.
pub open spec fn items_offset(vs: Seq<i64>, m: int) -> int {
    enc_items(vs.take(m)).len() + if m > 0 {
        1int
    } else {
        0int
    }
}

/// Item `m` stands at its offset inside the encoded array body, followed by
/// a comma or by the body's end.
proof fn lemma_enc_items_at(vs: Seq<i64>, m: int)
    requires
        0 <= m < vs.len(),
    ensures
        ({
            let e = enc_items(vs);
            let off = items_offset(vs, m);
            let d = dec_digits_signed(vs[m] as int);
            &&& 0 <= off
            &&& off + d.len() <= e.len()
            &&& e.subrange(off, off + d.len()) == d
            &&& (m < vs.len() - 1 ==> off + d.len() < e.len() && e[off + d.len()] == 44
                && items_offset(vs, m + 1) == off + d.len() + 1)
            &&& (m == vs.len() - 1 ==> off + d.len() == e.len())
        }),
    decreases vs.len(),
{
    let e = enc_items(vs);
    let off = items_offset(vs, m);
    let d = dec_digits_signed(vs[m] as int);
    if m == vs.len() - 1 {
        if vs.len() == 1 {
            assert(vs.take(0) =~= Seq::<i64>::empty());
            assert(e.subrange(0, d.len() as int) =~= d);
        } else {
            assert(vs.take(m) =~= vs.drop_last());
            assert(e =~= enc_items(vs.drop_last()) + seq![44u8] + d);
            assert(e.subrange(off, off + d.len()) =~= d);
        }
    } else {
        let prev = vs.drop_last();
        assert(vs.take(m) =~= prev.take(m));
        lemma_enc_items_at(prev, m);
        let ep = enc_items(prev);
        let dl = dec_digits_signed(vs.last() as int);
        assert(e =~= ep + seq![44u8] + dl);
        assert(e.subrange(off, off + d.len()) =~= ep.subrange(off, off + d.len()));
        if m < prev.len() - 1 {
            assert(vs.take(m + 1) =~= prev.take(m + 1));
        } else {
            // item m is the previous run's last; the comma separating it
            // from the new last item follows right after it
            assert(off + d.len() == ep.len());
            assert(e[off + d.len()] == 44);
            assert(vs.take(m + 1) =~= prev);
        }
    }
}

/// Series an encoded object may hold: well-formed symbols, bounded values.
pub open spec fn bounded_entries(es: Seq<SeriesEntry>) -> bool {
    forall|k: int|
        0 <= k < es.len() ==> ((#[trigger] es[k]).pair.wf() && bounded_items(es[k].values@))
}

/// Where entry `m` starts inside `enc_entries(es)`.
pub open spec fn entries_offset(es: Seq<SeriesEntry>, m: int) -> int {
    enc_entries(es.take(m)).len() + if m > 0 {
        1int
    } else {
        0int
    }
}

/// Entry `m` stands at its offset inside the encoded object body, followed
/// by a comma or by the body's end.
proof fn lemma_enc_entries_at(es: Seq<SeriesEntry>, m: int)
    requires
        0 <= m < es.len(),
    ensures
        ({
            let e = enc_entries(es);
            let off = entries_offset(es, m);
            let d = enc_entry(es[m]);
            &&& 0 <= off
            &&& off + d.len() <= e.len()
            &&& e.subrange(off, off + d.len()) == d
            &&& (m < es.len() - 1 ==> off + d.len() < e.len() && e[off + d.len()] == 44
                && entries_offset(es, m + 1) == off + d.len() + 1)
            &&& (m == es.len() - 1 ==> off + d.len() == e.len())
        }),
    decreases es.len(),
{
    let e = enc_entries(es);
    let off = entries_offset(es, m);
    let d = enc_entry(es[m]);
    if m == es.len() - 1 {
        if es.len() == 1 {
            assert(es.take(0) =~= Seq::<SeriesEntry>::empty());
            assert(e.subrange(0, d.len() as int) =~= d);
        } else {
            assert(es.take(m) =~= es.drop_last());
            assert(e =~= enc_entries(es.drop_last()) + seq![44u8] + d);
            assert(e.subrange(off, off + d.len()) =~= d);
        }
    } else {
        let prev = es.drop_last();
        assert(es.take(m) =~= prev.take(m));
        lemma_enc_entries_at(prev, m);
        let ep = enc_entries(prev);
        let dl = enc_entry(es.last());
        assert(e =~= ep + seq![44u8] + dl);
        assert(e.subrange(off, off + d.len()) =~= ep.subrange(off, off + d.len()));
        if m < prev.len() - 1 {
            assert(es.take(m + 1) =~= prev.take(m + 1));
        } else {
            assert(off + d.len() == ep.len());
            assert(e[off + d.len()] == 44);
            assert(es.take(m + 1) =~= prev);
        }
    }
}

/// Two runs of entries with the same symbol and value views encode alike.
proof fn lemma_enc_entries_congruent(a: Seq<SeriesEntry>, b: Seq<SeriesEntry>)
    requires
        a.len() == b.len(),
        forall|k: int|
            0 <= k < a.len() ==> (#[trigger] a[k]).pair@ == b[k].pair@ && (#[trigger] a[k]).values@
                == b[k].values@,
    ensures
        enc_entries(a) == enc_entries(b),
    decreases a.len(),
{
    if a.len() > 0 {
        assert(forall|k: int|
            0 <= k < a.drop_last().len() ==> (#[trigger] a.drop_last()[k]).pair@
                == b.drop_last()[k].pair@ && (#[trigger] a.drop_last()[k]).values@
                == b.drop_last()[k].values@);
        lemma_enc_entries_congruent(a.drop_last(), b.drop_last());
        assert(a.last().pair@ == b.last().pair@ && a.last().values@ == b.last().values@);
        assert(enc_entry(a.last()) == enc_entry(b.last()));
        assert(enc_entry(a[0]) == enc_entry(b[0]));
    }
}

/// No byte of a parameter token is a quote, and a token is short.
proof fn lemma_token_charset(p: CollectionParams)
    requires
        p.wf(),
    ensures
        spec_params_token(p).len() <= 48,
        forall|q: int|
            0 <= q < spec_params_token(p).len() ==> #[trigger] spec_params_token(p)[q] != 34,
{
    reveal_strlit("perp");
    reveal_strlit("spot");
    let t = spec_params_token(p);
    let ins = lit_bytes(instr_chars(p.instrument));
    let dq = dec_digits(p.timeframe.qty as nat);
    let dr = dec_digits(p.range as nat);
    lemma_dec_digits_range(p.timeframe.qty as nat);
    lemma_dec_digits_range(p.range as nat);
    lemma_dec_digits_len(p.timeframe.qty as nat, 10);
    lemma_dec_digits_len(p.range as nat, 10);
    assert(ins.len() == 4);
    assert forall|q: int| 0 <= q < t.len() implies #[trigger] t[q] != 34 by {
        if q < ins.len() {
            assert(t[q] == ins[q]);
            assert(ins[0] != 34 && ins[1] != 34 && ins[2] != 34 && ins[3] != 34);
        } else if q == ins.len() {
            assert(t[q] == 95);
        } else if q < ins.len() + 1 + dq.len() {
            assert(t[q] == dq[q - ins.len() - 1]);
        } else if q == ins.len() + 1 + dq.len() {
            assert(t[q] == p.timeframe.unit.spec_letter());
        } else if q == ins.len() + 2 + dq.len() {
            assert(t[q] == 95);
        } else {
            assert(t[q] == dr[q - ins.len() - 3 - dq.len()]);
        }
    }
}

/// Reads an unsigned decimal run at `i`: at least one and at most eighteen
/// digits.  On text that spells a bounded number followed by a non-digit,
/// it reads exactly that number.
fn scan_u64(b: &Vec<u8>, i: usize) -> (r: Option<(u64, usize)>)
    requires
        i <= b@.len(),
    ensures
        r matches Some(p) ==> i < p.1 <= b@.len() && p.0 < 1_000_000_000_000_000_000,
        forall|n: nat|
            (n < 1_000_000_000_000_000_000 && i + (#[trigger] dec_digits(n)).len() < b@.len()
                && b@.subrange(i as int, i + dec_digits(n).len()) == dec_digits(n) && !(48 <= b@[i
                + dec_digits(n).len()] <= 57)) ==> r == Some(
                (n as u64, (i + dec_digits(n).len()) as usize),
            ),
{
    let n_len = b.len();
    let mut j = i;
    let mut v: u64 = 0;
    proof {
        assert(b@.subrange(i as int, i as int) =~= Seq::<u8>::empty());
    }
    while j < n_len && j - i < 18 && 48 <= b[j] && b[j] <= 57
        invariant
            i <= j <= n_len,
            n_len == b@.len(),
            j - i <= 18,
            forall|q: int| i <= q < j ==> 48 <= #[trigger] b@[q] <= 57,
            v == val_of_digits(b@.subrange(i as int, j as int)),
            v < 1_000_000_000_000_000_000,
        decreases n_len - j,
    {
        let ghost pre = b@.subrange(i as int, j as int);
        v = v * 10 + ((b[j] - 48) as u64);
        j = j + 1;
        proof {
            assert(b@.subrange(i as int, j as int).drop_last() =~= pre);
            lemma_val_digits_bound(b@.subrange(i as int, j as int));
        }
    }
    proof {
        lemma_scan_u64_stop(b@, i as int, j as int, n_len as int);
    }
    if j == i {
        return None;
    }
    if j < n_len && 48 <= b[j] && b[j] <= 57 {
        // the run continues past what a stored number may hold
        return None;
    }
    proof {
        assert forall|n: nat|
            (n < 1_000_000_000_000_000_000 && i + (#[trigger] dec_digits(n)).len() < b@.len()
                && b@.subrange(i as int, i + dec_digits(n).len()) == dec_digits(n) && !(48 <= b@[i
                + dec_digits(n).len()] <= 57)) implies Some((v, j)) == Some(
            (n as u64, (i + dec_digits(n).len()) as usize),
        ) by {
            let d = dec_digits(n);
            lemma_dec_digits_range(n);
            lemma_dec_digits_len(n, 18);
            assert(b@.subrange(i as int, j as int) =~= d);
            lemma_val_of_dec(n);
        }
    }
    Some((v, j))
}

/// After the digit loop stops, the position sits exactly past any bounded
/// number the text spells at `i`.
proof fn lemma_scan_u64_stop(b: Seq<u8>, i: int, j: int, n_len: int)
    requires
        0 <= i <= j <= n_len == b.len(),
        j - i <= 18,
        forall|q: int| i <= q < j ==> 48 <= #[trigger] b[q] <= 57,
        !(j < n_len && j - i < 18 && 48 <= b[j] <= 57),
    ensures
        forall|n: nat|
            (n < 1_000_000_000_000_000_000 && i + (#[trigger] dec_digits(n)).len() < b.len()
                && b.subrange(i, i + dec_digits(n).len()) == dec_digits(n) && !(48 <= b[i
                + dec_digits(n).len()] <= 57)) ==> j == i + dec_digits(n).len(),
{
    assert forall|n: nat|
        (n < 1_000_000_000_000_000_000 && i + (#[trigger] dec_digits(n)).len() < b.len()
            && b.subrange(i, i + dec_digits(n).len()) == dec_digits(n) && !(48 <= b[i
            + dec_digits(n).len()] <= 57)) implies j == i + dec_digits(n).len() by {
        let d = dec_digits(n);
        lemma_dec_digits_range(n);
        lemma_dec_digits_len(n, 18);
        assert(forall|q: int|
            0 <= q < d.len() ==> b.subrange(i, i + d.len())[q] == #[trigger] b[i + q]);
        if j > i + d.len() {
            assert(48 <= b[i + d.len()] <= 57);
        }
        if j < i + d.len() {
            assert(b.subrange(i, i + d.len())[j - i] == b[i + (j - i)]);
            assert(b[j] == d[j - i]);
        }
    }
}

/// Reads a possibly negative number at `i`; exact on any bounded number the
/// text spells there.
fn scan_i64(b: &Vec<u8>, i: usize) -> (r: Option<(i64, usize)>)
    requires
        i <= b@.len(),
    ensures
        r matches Some(p) ==> i < p.1 <= b@.len(),
        forall|v: int|
            (-1_000_000_000_000_000_000 < v < 1_000_000_000_000_000_000 && i + (
            #[trigger] dec_digits_signed(v)).len() < b@.len() && b@.subrange(
                i as int,
                i + dec_digits_signed(v).len(),
            ) == dec_digits_signed(v) && !(48 <= b@[i + dec_digits_signed(v).len()] <= 57)) ==> r
                == Some((v as i64, (i + dec_digits_signed(v).len()) as usize)),
{
    if i < b.len() && b[i] == 45 {
        let r = match scan_u64(b, i + 1) {
            Some((m, j)) => Some((-(m as i64), j)),
            None => None,
        };
        proof {
            assert forall|v: int|
                (-1_000_000_000_000_000_000 < v < 1_000_000_000_000_000_000 && i + (
                #[trigger] dec_digits_signed(v)).len() < b@.len() && b@.subrange(
                    i as int,
                    i + dec_digits_signed(v).len(),
                ) == dec_digits_signed(v) && !(48 <= b@[i + dec_digits_signed(v).len()]
                    <= 57)) implies r == Some(
                (v as i64, (i + dec_digits_signed(v).len()) as usize),
            ) by {
                let d = dec_digits_signed(v);
                assert(forall|q: int|
                    0 <= q < d.len() ==> b@.subrange(i as int, i + d.len())[q] == #[trigger] b@[i
                        + q]);
                if v >= 0 {
                    lemma_dec_digits_range(v as nat);
                    assert(b@[i as int] == d[0]);
                } else {
                    let m = (-v) as nat;
                    assert forall|q: int|
                        0 <= q < dec_digits(m).len() implies b@.subrange(
                        i as int + 1,
                        i + d.len(),
                    )[q] == dec_digits(m)[q] by {
                        assert(b@.subrange(i as int, i + d.len())[q + 1] == d[q + 1]);
                        assert(b@.subrange(i as int, i + d.len())[q + 1] == b@[i + q + 1]);
                        assert(b@.subrange(i as int + 1, i + d.len())[q] == b@[i + 1 + q]);
                        assert(d[q + 1] == dec_digits(m)[q]);
                    }
                    assert(b@.subrange(i as int + 1, i + d.len()) =~= dec_digits(m));
                    assert(i + 1 + dec_digits(m).len() < b@.len());
                    assert(!(48 <= b@[i + 1 + dec_digits(m).len()] <= 57));
                    assert(m < 1_000_000_000_000_000_000);
                }
            }
        }
        r
    } else {
        let r = match scan_u64(b, i) {
            Some((m, j)) => Some((m as i64, j)),
            None => None,
        };
        proof {
            assert forall|v: int|
                (-1_000_000_000_000_000_000 < v < 1_000_000_000_000_000_000 && i + (
                #[trigger] dec_digits_signed(v)).len() < b@.len() && b@.subrange(
                    i as int,
                    i + dec_digits_signed(v).len(),
                ) == dec_digits_signed(v) && !(48 <= b@[i + dec_digits_signed(v).len()]
                    <= 57)) implies r == Some(
                (v as i64, (i + dec_digits_signed(v).len()) as usize),
            ) by {
                let d = dec_digits_signed(v);
                assert(forall|q: int|
                    0 <= q < d.len() ==> b@.subrange(i as int, i + d.len())[q] == #[trigger] b@[i
                        + q]);
                assert(b@[i as int] == d[0]);
                if v < 0 {
                    assert(d[0] == 45);
                } else {
                    assert(d == dec_digits(v as nat));
                    assert((v as nat) < 1_000_000_000_000_000_000);
                    assert(b@.subrange(i as int, i + dec_digits(v as nat).len()) == dec_digits(
                        v as nat,
                    ));
                }
            }
        }
        r
    }
}

/// Requires the text at `i` to spell out `lit`; exact whenever it does.
fn scan_expect(b: &Vec<u8>, i: usize, lit: &str) -> (r: Option<usize>)
    requires
        i <= b@.len(),
    ensures
        r matches Some(j) ==> i <= j <= b@.len(),
        (i + lit_bytes(lit@).len() <= b@.len() && b@.subrange(
            i as int,
            i + lit_bytes(lit@).len(),
        ) == lit_bytes(lit@)) ==> r == Some((i + lit_bytes(lit@).len()) as usize),
{
    let ghost lb = lit_bytes(lit@);
    let ghost matched = i + lb.len() <= b@.len() && b@.subrange(i as int, i + lb.len()) == lb;
    let mut j = i;
    for c in it: lit.chars()
        invariant
            it.seq() == lit@,
            j == i + it.index(),
            i <= j <= b@.len(),
            lb == lit_bytes(lit@),
            matched == (i + lb.len() <= b@.len() && b@.subrange(i as int, i + lb.len()) == lb),
    {
        let ghost k = it.index() as int;
        if j >= b.len() {
            proof {
                if matched {
                    assert(i + lb.len() <= b@.len());
                }
            }
            return None;
        }
        let u = c as u32;
        let cb: u8 = if u < 128 {
            u as u8
        } else {
            63
        };
        if b[j] != cb {
            proof {
                if matched {
                    assert(b@.subrange(i as int, i + lb.len())[k] == b@[i + k]);
                    assert(lb[k] == cb);
                }
            }
            return None;
        }
        j = j + 1;
    }
    Some(j)
}

/// Reads raw bytes up to a closing quote, at most the longest identifier;
/// exact whenever a quote closes a short quote-free run at `i`.
fn scan_quoted(b: &Vec<u8>, i: usize) -> (r: Option<(Vec<u8>, usize)>)
    requires
        i <= b@.len(),
    ensures
        r matches Some(p) ==> i < p.1 <= b@.len(),
        forall|m: int|
            (i <= m < b@.len() && m - i <= 48 && b@[m] == 34 && (forall|q: int|
                i <= q < m ==> b@[q] != 34)) ==> (r matches Some(p) && p.0@ == b@.subrange(
                i as int,
                m,
            ) && p.1 == m + 1),
{
    let n = b.len();
    let mut j = i;
    let mut out: Vec<u8> = Vec::new();
    proof {
        assert(out@ =~= b@.subrange(i as int, i as int));
    }
    while j < n && b[j] != 34 && j - i < 48
        invariant
            i <= j <= n,
            n == b@.len(),
            j - i <= 48,
            out@ == b@.subrange(i as int, j as int),
            forall|q: int| i <= q < j ==> b@[q] != 34,
        decreases n - j,
    {
        let x = b[j];
        out.push(x);
        j = j + 1;
        proof {
            assert(out@ =~= b@.subrange(i as int, j as int));
        }
    }
    proof {
        assert forall|m: int|
            (i <= m < b@.len() && m - i <= 48 && b@[m] == 34 && (forall|q: int|
                i <= q < m ==> b@[q] != 34)) implies j == m by {
            if j > m {
                assert(b@[m] != 34);
            }
            if j < m {
                assert(b@[j as int] != 34);
            }
        }
    }
    if j < n && b[j] == 34 {
        Some((out, j + 1))
    } else {
        None
    }
}

/// Reads a `[v,v,...,v]` array body starting right after its `[`; exact on
/// any encoded run of bounded values closed by `]`.
fn scan_items(b: &Vec<u8>, i: usize) -> (r: Option<(Vec<i64>, usize)>)
    requires
        i <= b@.len(),
    ensures
        r matches Some(p) ==> i < p.1 <= b@.len(),
        forall|vs: Seq<i64>|
            #[trigger] item_region(b@, i as int, vs) ==> (r matches Some(p) && p.0@ == vs && p.1
                == i + enc_items(vs).len() + 1),
{
    let n = b.len();
    if i < n && b[i] == 93 {
        let r: Option<(Vec<i64>, usize)> = Some((Vec::new(), i + 1));
        proof {
            assert forall|vs: Seq<i64>| item_region(b@, i as int, vs) implies (r matches Some(p)
                && p.0@ == vs && p.1 == i + enc_items(vs).len() + 1) by {
            if vs.len() > 0 {
                    lemma_enc_items_at(vs, 0);
                    assert(b@[i as int] == dec_digits_signed(vs[0] as int)[0]);
                    lemma_signed_head_not_bracket(vs[0] as int);
                }
                assert(enc_items(vs).len() == 0);
            }
        }
        return r;
    }
    let mut out: Vec<i64> = Vec::new();
    let mut j = i;
    proof {
        assert forall|vs: Seq<i64>| item_region(b@, i as int, vs) implies vs.len() > 0 by {
            if vs.len() == 0 {
                assert(enc_items(vs).len() == 0);
                assert(b@[i as int] == 93);
            }
        }
        assert(forall|vs: Seq<i64>| item_region(b@, i as int, vs) ==> out@ =~= vs.take(0));
    }
    loop
        invariant
            i <= j <= n,
            n == b@.len(),
            forall|vs: Seq<i64>|
                #[trigger] item_region(b@, i as int, vs) ==> (out@.len() < vs.len() && out@
                    == vs.take(out@.len() as int) && j == i + items_offset(
                    vs,
                    out@.len() as int,
                )),
        decreases n - j,
    {
        let ghost m = out@.len() as int;
        let (v, j2) = match scan_i64(b, j) {
            Some(p) => p,
            None => {
                proof {
                    assert forall|vs: Seq<i64>| !(#[trigger] item_region(
                        b@,
                        i as int,
                        vs,
                    )) by {
                        if item_region(b@, i as int, vs) {
                            lemma_item_step(b@, i as int, vs, m);
                        }
                    }
                }
                return None;
            },
        };
        proof {
            assert forall|vs: Seq<i64>| #[trigger] item_region(b@, i as int, vs) implies (v
                == vs[m] && j2 == j + dec_digits_signed(vs[m] as int).len()) by {
                lemma_item_step(b@, i as int, vs, m);
            }
        }
        out.push(v);
        if j2 < n && b[j2] == 44 {
            proof {
                assert forall|vs: Seq<i64>| #[trigger] item_region(b@, i as int, vs) implies (
                out@.len() < vs.len() && out@ == vs.take(out@.len() as int) && j2 + 1 == i
                    + items_offset(vs, out@.len() as int)) by {
                    lemma_item_step(b@, i as int, vs, m);
                    assert(out@ =~= vs.take(m + 1));
                    if m == vs.len() - 1 {
                        assert(b@[j2 as int] == 93);
                    }
                }
            }
            j = j2 + 1;
        } else if j2 < n && b[j2] == 93 {
            let r: Option<(Vec<i64>, usize)> = Some((out, j2 + 1));
            proof {
                assert forall|vs: Seq<i64>| #[trigger] item_region(b@, i as int, vs) implies (
                r matches Some(p) && p.0@ == vs && p.1 == i + enc_items(vs).len() + 1) by {
                    lemma_item_step(b@, i as int, vs, m);
                    if m < vs.len() - 1 {
                        assert(b@[j2 as int] == 44);
                    }
                    assert((r->0).0@ =~= vs);
                }
            }
            return r;
        } else {
            proof {
                assert forall|vs: Seq<i64>| !(#[trigger] item_region(b@, i as int, vs)) by {
                    if item_region(b@, i as int, vs) {
                        lemma_item_step(b@, i as int, vs, m);
                        if m == vs.len() - 1 {
                            assert(b@[j2 as int] == 93);
                        } else {
                            assert(b@[j2 as int] == 44);
                        }
                    }
                }
            }
            return None;
        }
    }
}

/// The text at `i` spells exactly the encoded array body of `vs`, closed by
/// a `]`.
pub open spec fn item_region(b: Seq<u8>, i: int, vs: Seq<i64>) -> bool {
    let e = enc_items(vs);
    &&& bounded_items(vs)
    &&& 0 <= i
    &&& i + e.len() < b.len()
    &&& b.subrange(i, i + e.len()) == e
    &&& b[i + e.len()] == 93
}

/// Inside an item region, item `m` spells its digits at its offset and a
/// separator or the closing bracket follows.
proof fn lemma_item_step(b: Seq<u8>, i: int, vs: Seq<i64>, m: int)
    requires
        item_region(b, i, vs),
        0 <= m < vs.len(),
    ensures
        ({
            let off = i + items_offset(vs, m);
            let d = dec_digits_signed(vs[m] as int);
            &&& i <= off
            &&& off + d.len() < b.len()
            &&& b.subrange(off, off + d.len()) == d
            &&& !(48 <= b[off + d.len()] <= 57)
            &&& (m < vs.len() - 1 ==> b[off + d.len()] == 44 && items_offset(vs, m + 1)
                == items_offset(vs, m) + d.len() + 1)
            &&& (m == vs.len() - 1 ==> off + d.len() == i + enc_items(vs).len())
        }),
{
    let e = enc_items(vs);
    lemma_enc_items_at(vs, m);
    let off = i + items_offset(vs, m);
    let d = dec_digits_signed(vs[m] as int);
    assert(forall|q: int| 0 <= q < e.len() ==> b.subrange(i, i + e.len())[q] == #[trigger] b[i
        + q]);
    assert(b.subrange(off, off + d.len()) =~= e.subrange(
        items_offset(vs, m),
        items_offset(vs, m) + d.len(),
    ));
}

/// A signed number's first byte is a minus sign or a digit, never a bracket
/// or brace.
proof fn lemma_signed_head_not_bracket(v: int)
    ensures
        dec_digits_signed(v).len() >= 1,
        dec_digits_signed(v)[0] == 45 || (48 <= dec_digits_signed(v)[0] <= 57),
{
    if v >= 0 {
        lemma_dec_digits_range(v as nat);
    } else {
        lemma_dec_digits_range((-v) as nat);
    }
}

/// The text at `i` spells exactly the encoded object body of `es`, closed
/// by a `}`.
pub open spec fn entry_region(b: Seq<u8>, i: int, es: Seq<SeriesEntry>) -> bool {
    let e = enc_entries(es);
    &&& bounded_entries(es)
    &&& 0 <= i
    &&& i + e.len() < b.len()
    &&& b.subrange(i, i + e.len()) == e
    &&& b[i + e.len()] == 125
}

/// Inside an entry region, entry `m` spells its member at its offset and a
/// separator or the closing brace follows.
proof fn lemma_entry_step(b: Seq<u8>, i: int, es: Seq<SeriesEntry>, m: int)
    requires
        entry_region(b, i, es),
        0 <= m < es.len(),
    ensures
        ({
            let off = i + entries_offset(es, m);
            let d = enc_entry(es[m]);
            &&& i <= off
            &&& off + d.len() < b.len()
            &&& b.subrange(off, off + d.len()) == d
            &&& (m < es.len() - 1 ==> b[off + d.len()] == 44 && entries_offset(es, m + 1)
                == entries_offset(es, m) + d.len() + 1)
            &&& (m == es.len() - 1 ==> off + d.len() == i + enc_entries(es).len())
        }),
{
    let e = enc_entries(es);
    lemma_enc_entries_at(es, m);
    let off = i + entries_offset(es, m);
    let d = enc_entry(es[m]);
    let eo = entries_offset(es, m);
    assert forall|q: int| 0 <= q < d.len() implies #[trigger] b.subrange(off, off + d.len())[q]
        == e.subrange(eo, eo + d.len())[q] by {
        assert(b.subrange(i, i + e.len())[eo + q] == e[eo + q]);
        assert(b.subrange(i, i + e.len())[eo + q] == b[i + (eo + q)]);
        assert(b.subrange(off, off + d.len())[q] == b[off + q]);
        assert(off + q == i + (eo + q));
        assert(e.subrange(eo, eo + d.len())[q] == e[eo + q]);
    }
    assert(b.subrange(off, off + d.len()) =~= e.subrange(eo, eo + d.len()));
}

/// Inside one entry's member, the symbol, the separators, and the value
/// array all stand at fixed offsets.
proof fn lemma_entry_layout(b: Seq<u8>, off: int, e: SeriesEntry)
    requires
        e.pair.wf(),
        bounded_items(e.values@),
        0 <= off,
        off + enc_entry(e).len() < b.len(),
        b.subrange(off, off + enc_entry(e).len()) == enc_entry(e),
        b[off + enc_entry(e).len()] == 44 || b[off + enc_entry(e).len()] == 125,
    ensures
        ({
            let pl = e.pair@.len() as int;
            let il = enc_items(e.values@).len() as int;
            &&& b[off] == 34
            &&& b.subrange(off + 1, off + 1 + pl) == e.pair@
            &&& b[off + 1 + pl] == 34
            &&& (forall|q: int| off + 1 <= q < off + 1 + pl ==> b[q] != 34)
            &&& b.subrange(off + 2 + pl, off + 4 + pl) == lit_bytes(":["@)
            &&& item_region(b, off + 4 + pl, e.values@)
            &&& off + 4 + pl + il == off + enc_entry(e).len() - 1
        }),
{
    reveal_strlit("\":[");
    reveal_strlit(":[");
    let d = enc_entry(e);
    let pl = e.pair@.len() as int;
    let il = enc_items(e.values@).len() as int;
    assert(lit_bytes("\":["@).len() == 3);
    assert(lit_bytes("\":["@)[0] == 34 && lit_bytes("\":["@)[1] == 58 && lit_bytes("\":["@)[2]
        == 91);
    assert(lit_bytes(":["@) =~= seq![58u8, 91u8]);
    assert forall|q: int| 0 <= q < d.len() implies b[off + q] == d[q] by {
        assert(b.subrange(off, off + d.len())[q] == b[off + q]);
    }
    assert forall|q: int| 0 <= q < pl implies b.subrange(off + 1, off + 1 + pl)[q]
        == e.pair@[q] by {
        assert(b.subrange(off + 1, off + 1 + pl)[q] == b[off + 1 + q]);
        assert(b[off + (1 + q)] == d[1 + q]);
        assert(d[1 + q] == e.pair@[q]);
    }
    assert(b.subrange(off + 1, off + 1 + pl) =~= e.pair@);
    assert forall|q: int| off + 1 <= q < off + 1 + pl implies b[q] != 34 by {
        assert(b[off + (q - off)] == d[q - off]);
        assert(b[q] == e.pair@[q - off - 1]);
        assert(crate::types::sym_byte_ok(e.pair@[q - off - 1]));
    }
    assert(b[off + (1 + pl)] == d[1 + pl]);
    assert(d[1 + pl] == 34);
    assert forall|q: int| 0 <= q < 2 implies b.subrange(off + 2 + pl, off + 4 + pl)[q]
        == lit_bytes(":["@)[q] by {
        assert(b.subrange(off + 2 + pl, off + 4 + pl)[q] == b[off + 2 + pl + q]);
        assert(b[off + (2 + pl + q)] == d[2 + pl + q]);
    }
    assert(b.subrange(off + 2 + pl, off + 4 + pl) =~= lit_bytes(":["@));
    assert forall|q: int| 0 <= q < il implies b.subrange(off + 4 + pl, off + 4 + pl + il)[q]
        == enc_items(e.values@)[q] by {
        assert(b.subrange(off + 4 + pl, off + 4 + pl + il)[q] == b[off + 4 + pl + q]);
        assert(b[off + (4 + pl + q)] == d[4 + pl + q]);
        assert(d[4 + pl + q] == enc_items(e.values@)[q]);
    }
    assert(b.subrange(off + 4 + pl, off + 4 + pl + il) =~= enc_items(e.values@));
    assert(b[off + (4 + pl + il)] == d[4 + pl + il]);
    assert(d[4 + pl + il] == 93);
    assert(b[off + 0] == d[0]);
    assert(d[0] == 34);
}

/// Reads a `{"PAIR":[...],...}` object body starting right after its `{`;
/// exact on any encoded run of well-formed entries closed by `}`.
fn scan_entries(b: &Vec<u8>, i: usize) -> (r: Option<(Vec<SeriesEntry>, usize)>)
    requires
        i <= b@.len(),
    ensures
        r matches Some(p) ==> i < p.1 <= b@.len(),
        forall|es: Seq<SeriesEntry>|
            #[trigger] entry_region(b@, i as int, es) ==> (r matches Some(p) && p.0@.len()
                == es.len() && (forall|k: int|
                0 <= k < es.len() ==> (#[trigger] p.0@[k]).pair@ == es[k].pair@ && (
                #[trigger] p.0@[k]).values@ == es[k].values@) && p.1 == i + enc_entries(es).len()
                + 1),
{
    let n = b.len();
    if i < n && b[i] == 125 {
        let r: Option<(Vec<SeriesEntry>, usize)> = Some((Vec::new(), i + 1));
        proof {
            assert forall|es: Seq<SeriesEntry>| entry_region(b@, i as int, es) implies (
            r matches Some(p) && p.0@.len() == es.len() && (forall|k: int|
                0 <= k < es.len() ==> (#[trigger] p.0@[k]).pair@ == es[k].pair@ && (
                #[trigger] p.0@[k]).values@ == es[k].values@) && p.1 == i + enc_entries(es).len()
                + 1) by {
                if es.len() > 0 {
                    lemma_enc_entries_at(es, 0);
                    assert(b@[i as int] == enc_entry(es[0])[0]);
                    assert(enc_entry(es[0])[0] == 34);
                }
                assert(enc_entries(es).len() == 0);
            }
        }
        return r;
    }
    let mut out: Vec<SeriesEntry> = Vec::new();
    let mut j = i;
    proof {
        assert forall|es: Seq<SeriesEntry>| entry_region(b@, i as int, es) implies es.len()
            > 0 by {
            if es.len() == 0 {
                assert(enc_entries(es).len() == 0);
                assert(b@[i as int] == 125);
            }
        }
    }
    loop
        invariant
            i <= j <= n,
            n == b@.len(),
            forall|es: Seq<SeriesEntry>|
                #[trigger] entry_region(b@, i as int, es) ==> (out@.len() < es.len() && (forall|
                    k: int,
                |
                    0 <= k < out@.len() ==> (#[trigger] out@[k]).pair@ == es[k].pair@ && (
                    #[trigger] out@[k]).values@ == es[k].values@) && j == i + entries_offset(
                    es,
                    out@.len() as int,
                )),
        decreases n - j,
    {
        let ghost m = out@.len() as int;
        if !(j < n && b[j] == 34) {
            proof {
                assert forall|es: Seq<SeriesEntry>| !(#[trigger] entry_region(
                    b@,
                    i as int,
                    es,
                )) by {
                    if entry_region(b@, i as int, es) {
                        lemma_entry_step(b@, i as int, es, m);
                        lemma_entry_next_byte(b@, i as int, es, m);
                        lemma_entry_layout(b@, i + entries_offset(es, m), es[m]);
                    }
                }
            }
            return None;
        }
        let (sym, j2) = match scan_quoted(b, j + 1) {
            Some(p) => p,
            None => {
                proof {
                    assert forall|es: Seq<SeriesEntry>| !(#[trigger] entry_region(
                        b@,
                        i as int,
                        es,
                    )) by {
                        if entry_region(b@, i as int, es) {
                            lemma_entry_step(b@, i as int, es, m);
                            lemma_entry_next_byte(b@, i as int, es, m);
                            lemma_entry_layout(b@, i + entries_offset(es, m), es[m]);
                        }
                    }
                }
                return None;
            },
        };
        proof {
            assert forall|es: Seq<SeriesEntry>| #[trigger] entry_region(b@, i as int, es) implies (
            sym@ == es[m].pair@ && j2 == j + 2 + es[m].pair@.len()) by {
                lemma_entry_step(b@, i as int, es, m);
                lemma_entry_next_byte(b@, i as int, es, m);
                lemma_entry_layout(b@, i + entries_offset(es, m), es[m]);
            }
        }
        let pair = match Pair::from_bytes(sym) {
            Some(p) => p,
            None => {
                proof {
                    assert forall|es: Seq<SeriesEntry>| !(#[trigger] entry_region(
                        b@,
                        i as int,
                        es,
                    )) by {
                        if entry_region(b@, i as int, es) {
                            assert(es[m].pair.wf());
                        }
                    }
                }
                return None;
            },
        };
        let j3 = match scan_expect(b, j2, ":[") {
            Some(p) => p,
            None => {
                proof {
                    reveal_strlit(":[");
                    assert forall|es: Seq<SeriesEntry>| !(#[trigger] entry_region(
                        b@,
                        i as int,
                        es,
                    )) by {
                        if entry_region(b@, i as int, es) {
                            lemma_entry_step(b@, i as int, es, m);
                            lemma_entry_next_byte(b@, i as int, es, m);
                            lemma_entry_layout(b@, i + entries_offset(es, m), es[m]);
                        }
                    }
                }
                return None;
            },
        };
        proof {
            reveal_strlit(":[");
            assert forall|es: Seq<SeriesEntry>| #[trigger] entry_region(b@, i as int, es) implies (
            j3 == j + 4 + es[m].pair@.len()) by {
                lemma_entry_step(b@, i as int, es, m);
                lemma_entry_next_byte(b@, i as int, es, m);
                lemma_entry_layout(b@, i + entries_offset(es, m), es[m]);
            }
        }
        let (values, j4) = match scan_items(b, j3) {
            Some(p) => p,
            None => {
                proof {
                    assert forall|es: Seq<SeriesEntry>| !(#[trigger] entry_region(
                        b@,
                        i as int,
                        es,
                    )) by {
                        if entry_region(b@, i as int, es) {
                            lemma_entry_step(b@, i as int, es, m);
                            lemma_entry_next_byte(b@, i as int, es, m);
                            lemma_entry_layout(b@, i + entries_offset(es, m), es[m]);
                        }
                    }
                }
                return None;
            },
        };
        proof {
            assert forall|es: Seq<SeriesEntry>| #[trigger] entry_region(b@, i as int, es) implies (
            values@ == es[m].values@ && j4 == i + entries_offset(es, m) + enc_entry(es[m]).len())
                by {
                lemma_entry_step(b@, i as int, es, m);
                lemma_entry_next_byte(b@, i as int, es, m);
                lemma_entry_layout(b@, i + entries_offset(es, m), es[m]);
            }
        }
        if j4 <= j {
            proof {
                assert forall|es: Seq<SeriesEntry>| !(#[trigger] entry_region(
                    b@,
                    i as int,
                    es,
                )) by {
                    if entry_region(b@, i as int, es) {
                        lemma_entry_step(b@, i as int, es, m);
                    }
                }
            }
            return None;
        }
        out.push(SeriesEntry { pair, values });
        if j4 < n && b[j4] == 44 {
            proof {
                assert forall|es: Seq<SeriesEntry>| #[trigger] entry_region(
                    b@,
                    i as int,
                    es,
                ) implies (out@.len() < es.len() && (forall|k: int|
                    0 <= k < out@.len() ==> (#[trigger] out@[k]).pair@ == es[k].pair@ && (
                    #[trigger] out@[k]).values@ == es[k].values@) && j4 + 1 == i + entries_offset(
                    es,
                    out@.len() as int,
                )) by {
                    lemma_entry_step(b@, i as int, es, m);
                    if m == es.len() - 1 {
                        assert(b@[j4 as int] == 125);
                    }
                }
            }
            j = j4 + 1;
        } else if j4 < n && b[j4] == 125 {
            let r: Option<(Vec<SeriesEntry>, usize)> = Some((out, j4 + 1));
            proof {
                assert forall|es: Seq<SeriesEntry>| #[trigger] entry_region(
                    b@,
                    i as int,
                    es,
                ) implies ((r->0).0@.len() == es.len() && (forall|k: int|
                    0 <= k < es.len() ==> (#[trigger] (r->0).0@[k]).pair@ == es[k].pair@ && (
                    #[trigger] (r->0).0@[k]).values@ == es[k].values@) && (r->0).1 == i
                    + enc_entries(es).len() + 1) by {
                    lemma_entry_step(b@, i as int, es, m);
                    if m < es.len() - 1 {
                        assert(b@[j4 as int] == 44);
                    }
                }
            }
            return r;
        } else {
            proof {
                assert forall|es: Seq<SeriesEntry>| !(#[trigger] entry_region(
                    b@,
                    i as int,
                    es,
                )) by {
                    if entry_region(b@, i as int, es) {
                        lemma_entry_step(b@, i as int, es, m);
                        if m == es.len() - 1 {
                            assert(b@[j4 as int] == 125);
                        } else {
                            assert(b@[j4 as int] == 44);
                        }
                    }
                }
            }
            return None;
        }
    }
}

/// The byte after entry `m`'s member is a comma or the closing brace.
proof fn lemma_entry_next_byte(b: Seq<u8>, i: int, es: Seq<SeriesEntry>, m: int)
    requires
        entry_region(b, i, es),
        0 <= m < es.len(),
    ensures
        ({
            let off = i + entries_offset(es, m);
            b[off + enc_entry(es[m]).len()] == 44 || b[off + enc_entry(es[m]).len()] == 125
        }),
{
    lemma_entry_step(b, i, es, m);
}

/// The facts a scan recovers about the one snapshot a byte run encodes.
pub open spec fn scan_recovers(c: PersistedSnapshot, s: PersistedSnapshot) -> bool {
    &&& c.collected_at_ms == s.collected_at_ms
    &&& c.params == s.params
    &&& c.time_index@ == s.time_index@
    &&& c.entries@.len() == s.entries@.len()
    &&& forall|k: int|
        0 <= k < c.entries@.len() ==> (#[trigger] c.entries@[k]).pair@ == s.entries@[k].pair@ && (
        #[trigger] c.entries@[k]).values@ == s.entries@[k].values@
}

/// Scans a full snapshot object for the given parameters.  Whatever it
/// accepts is re-validated by the caller; on the encoding of a well-formed
/// snapshot for these parameters it succeeds and recovers that snapshot's
/// contents.
#[verifier::rlimit(100)]
fn scan_snapshot(b: &Vec<u8>, params: &CollectionParams) -> (r: Option<PersistedSnapshot>)
    requires
        params.wf(),
    ensures
        r matches Some(s) ==> s.params == *params,
        forall|s: PersistedSnapshot|
            (s.wf() && s.params == *params && b@ == #[trigger] spec_encode(s)) ==> (r matches Some(
                c,
            ) && scan_recovers(c, s)),
{
    proof {
        reveal_strlit("{\"collected_at\":");
        reveal_strlit(",\"params\":\"");
        reveal_strlit("\",\"time_index\":[");
        reveal_strlit(",\"time_index\":[");
        reveal_strlit("],\"series\":{");
        reveal_strlit(",\"series\":{");
        reveal_strlit("}}");
        reveal_strlit("}");
        assert forall|s: PersistedSnapshot|
            (s.wf() && s.params == *params && b@ == #[trigger] spec_encode(s)) implies
            snapshot_layout(b@, s) by {
            lemma_snapshot_layout(b@, s);
        }
    }
    let blen = b.len();
    let r1 = scan_expect(b, 0, "{\"collected_at\":");
    proof {
        assert forall|s: PersistedSnapshot|
            (s.wf() && s.params == *params && b@ == #[trigger] spec_encode(s)) implies (
        r1 matches Some(p) && p == lit_bytes("{\"collected_at\":"@).len()) by {
            lemma_snapshot_layout(b@, s);
        }
    }
    let i1 = match r1 {
        Some(p) => p,
        None => {
            return None;
        },
    };
    let r2 = scan_i64(b, i1);
    proof {
        assert forall|s: PersistedSnapshot|
            (s.wf() && s.params == *params && b@ == #[trigger] spec_encode(s)) implies (
        r2 matches Some(p) && p.0 == s.collected_at_ms && p.1 == enc_pos_params(s)) by {
            lemma_snapshot_layout(b@, s);
            let dc = dec_digits_signed(s.collected_at_ms as int);
            assert(i1 == lit_bytes("{\"collected_at\":"@).len());
            assert(-1_000_000_000_000_000_000 < s.collected_at_ms < 1_000_000_000_000_000_000);
            assert(b@.subrange(i1 as int, i1 + dc.len()) == dc);
            assert(i1 + dc.len() < b@.len());
            assert(!(48 <= b@[i1 + dc.len()] <= 57));
            assert(b@.len() == blen);
            assert(0 <= enc_pos_params(s) <= blen);
        }
    }
    let (collected_at_ms, i2) = match r2 {
        Some(p) => p,
        None => {
            return None;
        },
    };
    let r3 = scan_expect(b, i2, ",\"params\":\"");
    proof {
        assert forall|s: PersistedSnapshot|
            (s.wf() && s.params == *params && b@ == #[trigger] spec_encode(s)) implies (
        r3 matches Some(p) && p == enc_pos_params(s) + lit_bytes(",\"params\":\""@).len()) by {
            lemma_snapshot_layout(b@, s);
            assert(i2 == enc_pos_params(s));
            assert(i2 + lit_bytes(",\"params\":\""@).len() <= b@.len());
            assert(b@.subrange(i2 as int, i2 + lit_bytes(",\"params\":\""@).len()) == lit_bytes(
                ",\"params\":\""@,
            ));
        }
    }
    let i3 = match r3 {
        Some(p) => p,
        None => {
            return None;
        },
    };
    let r4 = scan_quoted(b, i3);
    proof {
        assert forall|s: PersistedSnapshot|
            (s.wf() && s.params == *params && b@ == #[trigger] spec_encode(s)) implies (
        r4 matches Some(p) && p.0@ == spec_params_token(s.params) && p.1 == enc_pos_times(s)
            - lit_bytes(",\"time_index\":["@).len()) by {
            lemma_snapshot_layout(b@, s);
            let tk = spec_params_token(s.params);
            assert(i3 == enc_pos_params(s) + lit_bytes(",\"params\":\""@).len());
            assert(i3 + tk.len() < b@.len());
            assert(b@[i3 + tk.len()] == 34);
            assert(b@.subrange(i3 as int, i3 + tk.len()) == tk);
        }
    }
    let (token, i4) = match r4 {
        Some(p) => p,
        None => {
            return None;
        },
    };
    let mut expected: Vec<u8> = Vec::new();
    push_params_token(&mut expected, params);
    if !bytes_eq(&token, &expected) {
        proof {
            assert forall|s: PersistedSnapshot| !(s.wf() && s.params == *params && b@
                == #[trigger] spec_encode(s)) by {
                if s.wf() && s.params == *params && b@ == spec_encode(s) {
                    assert(token@ == spec_params_token(s.params));
                }
            }
        }
        return None;
    }
    let r5 = scan_expect(b, i4, ",\"time_index\":[");
    proof {
        assert forall|s: PersistedSnapshot|
            (s.wf() && s.params == *params && b@ == #[trigger] spec_encode(s)) implies (
        r5 matches Some(p) && p == enc_pos_times(s)) by {
            lemma_snapshot_layout(b@, s);
            assert(i4 == enc_pos_times(s) - lit_bytes(",\"time_index\":["@).len());
            assert(i4 + lit_bytes(",\"time_index\":["@).len() <= b@.len());
            assert(b@.subrange(i4 as int, i4 + lit_bytes(",\"time_index\":["@).len())
                == lit_bytes(",\"time_index\":["@));
        }
    }
    let i5 = match r5 {
        Some(p) => p,
        None => {
            return None;
        },
    };
    let r6 = scan_items(b, i5);
    proof {
        assert forall|s: PersistedSnapshot|
            (s.wf() && s.params == *params && b@ == #[trigger] spec_encode(s)) implies (
        r6 matches Some(p) && p.0@ == s.time_index@ && p.1 == enc_pos_series(s) - lit_bytes(
            ",\"series\":{"@,
        ).len()) by {
            lemma_snapshot_layout(b@, s);
            assert(i5 == enc_pos_times(s));
            assert(item_region(b@, i5 as int, s.time_index@));
        }
    }
    let (time_index, i6) = match r6 {
        Some(p) => p,
        None => {
            return None;
        },
    };
    let r7 = scan_expect(b, i6, ",\"series\":{");
    proof {
        assert forall|s: PersistedSnapshot|
            (s.wf() && s.params == *params && b@ == #[trigger] spec_encode(s)) implies (
        r7 matches Some(p) && p == enc_pos_series(s)) by {
            lemma_snapshot_layout(b@, s);
            assert(i6 == enc_pos_series(s) - lit_bytes(",\"series\":{"@).len());
            assert(i6 + lit_bytes(",\"series\":{"@).len() <= b@.len());
            assert(b@.subrange(i6 as int, i6 + lit_bytes(",\"series\":{"@).len()) == lit_bytes(
                ",\"series\":{"@,
            ));
        }
    }
    let i7 = match r7 {
        Some(p) => p,
        None => {
            return None;
        },
    };
    let r8 = scan_entries(b, i7);
    proof {
        assert forall|s: PersistedSnapshot|
            (s.wf() && s.params == *params && b@ == #[trigger] spec_encode(s)) implies (
        r8 matches Some(p) && p.0@.len() == s.entries@.len() && (forall|k: int|
            0 <= k < s.entries@.len() ==> (#[trigger] p.0@[k]).pair@ == s.entries@[k].pair@ && (
            #[trigger] p.0@[k]).values@ == s.entries@[k].values@) && p.1 == b@.len() - 1) by {
            lemma_snapshot_layout(b@, s);
            assert(i7 == enc_pos_series(s));
            assert(entry_region(b@, i7 as int, s.entries@));
        }
    }
    let (entries, i8) = match r8 {
        Some(p) => p,
        None => {
            return None;
        },
    };
    let r9 = scan_expect(b, i8, "}");
    proof {
        reveal_strlit("}");
        assert forall|s: PersistedSnapshot|
            (s.wf() && s.params == *params && b@ == #[trigger] spec_encode(s)) implies (
        r9 matches Some(p) && p == b@.len()) by {
            lemma_snapshot_layout(b@, s);
            assert(i8 == b@.len() - 1);
            assert(lit_bytes("}"@).len() == 1);
            assert(b@.subrange(i8 as int, i8 + 1) == lit_bytes("}"@));
        }
    }
    let i9 = match r9 {
        Some(p) => p,
        None => {
            return None;
        },
    };
    if i9 != b.len() {
        return None;
    }
    let r: Option<PersistedSnapshot> = Some(
        PersistedSnapshot { collected_at_ms, entries, time_index, params: *params },
    );
    proof {
        assert forall|s: PersistedSnapshot|
            (s.wf() && s.params == *params && b@ == #[trigger] spec_encode(s)) implies (
        r matches Some(c) && scan_recovers(c, s)) by {
            assert(r2 matches Some(p) && p.0 == s.collected_at_ms);
            assert(r6 matches Some(p) && p.0@ == s.time_index@);
            assert(r8 matches Some(p) && p.0@.len() == s.entries@.len() && (forall|k: int|
                0 <= k < s.entries@.len() ==> (#[trigger] p.0@[k]).pair@ == s.entries@[k].pair@
                    && (#[trigger] p.0@[k]).values@ == s.entries@[k].values@));
        }
    }
    r
}

/// Where the collection stamp ends inside an encoded snapshot.
pub open spec fn enc_pos_params(s: PersistedSnapshot) -> int {
    lit_bytes("{\"collected_at\":"@).len() + dec_digits_signed(s.collected_at_ms as int).len() as int
}

/// Where the time-index array body starts inside an encoded snapshot.
pub open spec fn enc_pos_times(s: PersistedSnapshot) -> int {
    enc_pos_params(s) + lit_bytes(",\"params\":\""@).len() + spec_params_token(s.params).len()
        + 1 + lit_bytes(",\"time_index\":["@).len() as int
}

/// Where the series object body starts inside an encoded snapshot.
pub open spec fn enc_pos_series(s: PersistedSnapshot) -> int {
    enc_pos_times(s) + enc_items(s.time_index@).len() + 1 + lit_bytes(",\"series\":{"@).len() as int
}

/// Where every part of an encoded snapshot stands inside its byte run.
pub open spec fn snapshot_layout(b: Seq<u8>, s: PersistedSnapshot) -> bool {
    let p0 = lit_bytes("{\"collected_at\":"@).len() as int;
    let dc = dec_digits_signed(s.collected_at_ms as int);
    let p1 = p0 + dc.len();
    let p2 = p1 + lit_bytes(",\"params\":\""@).len();
    let tk = spec_params_token(s.params);
    let p3 = p2 + tk.len();
    let p4 = p3 + lit_bytes("\",\"time_index\":["@).len();
    let ti = enc_items(s.time_index@);
    let p5 = p4 + ti.len();
    let p6 = p5 + lit_bytes("],\"series\":{"@).len();
    let en = enc_entries(s.entries@);
    let p7 = p6 + en.len();
    &&& b.subrange(0, p0) == lit_bytes("{\"collected_at\":"@)
    &&& b.subrange(p0, p1) == dc
    &&& p1 + dc.len() >= 0
    &&& !(48 <= b[p1] <= 57)
    &&& b.subrange(p1, p2) == lit_bytes(",\"params\":\""@)
    &&& b.subrange(p2, p3) == tk
    &&& b[p3] == 34
    &&& (forall|q: int| p2 <= q < p3 ==> b[q] != 34)
    &&& p3 - p2 <= 48
    &&& b.subrange(p3 + 1, p4) == lit_bytes(",\"time_index\":["@)
    &&& item_region(b, p4, s.time_index@)
    &&& p5 == p4 + ti.len()
    &&& b.subrange(p5 + 1, p6) == lit_bytes(",\"series\":{"@)
    &&& entry_region(b, p6, s.entries@)
    &&& b.subrange(p7 + 1, p7 + 2) == lit_bytes("}"@)
    &&& p7 + 2 == b.len()
}

/// The encoding of a well-formed snapshot lays its parts out as
/// `snapshot_layout` says.
proof fn lemma_snapshot_layout(b: Seq<u8>, s: PersistedSnapshot)
    requires
        s.wf(),
        b == spec_encode(s),
    ensures
        snapshot_layout(b, s),
{
    reveal_strlit("{\"collected_at\":");
    reveal_strlit(",\"params\":\"");
    reveal_strlit("\",\"time_index\":[");
    reveal_strlit(",\"time_index\":[");
    reveal_strlit("],\"series\":{");
    reveal_strlit(",\"series\":{");
    reveal_strlit("}}");
    reveal_strlit("}");
    let l0 = lit_bytes("{\"collected_at\":"@);
    let p0 = l0.len() as int;
    let dc = dec_digits_signed(s.collected_at_ms as int);
    let p1 = p0 + dc.len();
    let l1 = lit_bytes(",\"params\":\""@);
    let p2 = p1 + l1.len();
    let tk = spec_params_token(s.params);
    let p3 = p2 + tk.len();
    let l2 = lit_bytes("\",\"time_index\":["@);
    let p4 = p3 + l2.len();
    let ti = enc_items(s.time_index@);
    let p5 = p4 + ti.len();
    let l3 = lit_bytes("],\"series\":{"@);
    let p6 = p5 + l3.len();
    let en = enc_entries(s.entries@);
    let p7 = p6 + en.len();
    let l4 = lit_bytes("}}"@);
    assert(l0.len() == 16 && l1.len() == 11 && l2.len() == 16 && l3.len() == 12 && l4.len() == 2);
    assert(b =~= l0 + dc + l1 + tk + l2 + ti + l3 + en + l4);
    assert(b.len() == p7 + 2);
    assert forall|q: int| 0 <= q < b.len() implies #[trigger] b[q] == seg_byte(
        l0,
        dc,
        l1,
        tk,
        l2,
        ti,
        l3,
        en,
        l4,
        q,
    ) by {}
    lemma_token_charset(s.params);
    lemma_signed_head_not_bracket(s.collected_at_ms as int);
    assert(b.subrange(0, p0) =~= l0);
    assert(b.subrange(p0, p1) =~= dc);
    assert(b[p1] == l1[0]);
    assert(l1[0] == 44);
    assert(b.subrange(p1, p2) =~= l1);
    assert(b.subrange(p2, p3) =~= tk);
    assert(b[p3] == l2[0]);
    assert(l2[0] == 34);
    assert forall|q: int| p2 <= q < p3 implies b[q] != 34 by {
        assert(b[q] == tk[q - p2]);
    }
    assert(lit_bytes(",\"time_index\":["@) =~= l2.subrange(1, l2.len() as int));
    assert(b.subrange(p3 + 1, p4) =~= l2.subrange(1, l2.len() as int));
    assert(b.subrange(p4, p5) =~= ti);
    assert(b[p5] == l3[0]);
    assert(l3[0] == 93);
    assert(item_region(b, p4, s.time_index@));
    assert(lit_bytes(",\"series\":{"@) =~= l3.subrange(1, l3.len() as int));
    assert(b.subrange(p5 + 1, p6) =~= l3.subrange(1, l3.len() as int));
    assert(b.subrange(p6, p7) =~= en);
    assert(b[p7] == l4[0]);
    assert(l4[0] == 125);
    assert forall|k: int| 0 <= k < s.entries@.len() implies ((
    #[trigger] s.entries@[k]).pair.wf() && bounded_items(s.entries@[k].values@)) by {
        assert(forall|q: int|
            0 <= q < s.entries@[k].values@.len() ==> -LOG_RETURN_BOUND
                <= #[trigger] s.entries@[k].values@[q] <= LOG_RETURN_BOUND);
    }
    assert(entry_region(b, p6, s.entries@));
    assert(lit_bytes("}"@) =~= l4.subrange(1, 2));
    assert(b.subrange(p7 + 1, p7 + 2) =~= l4.subrange(1, 2));
}

/// The byte of a nine-piece concatenation at position `q`.
pub open spec fn seg_byte(
    l0: Seq<u8>,
    dc: Seq<u8>,
    l1: Seq<u8>,
    tk: Seq<u8>,
    l2: Seq<u8>,
    ti: Seq<u8>,
    l3: Seq<u8>,
    en: Seq<u8>,
    l4: Seq<u8>,
    q: int,
) -> u8 {
    let p0 = l0.len() as int;
    let p1 = p0 + dc.len();
    let p2 = p1 + l1.len();
    let p3 = p2 + tk.len();
    let p4 = p3 + l2.len();
    let p5 = p4 + ti.len();
    let p6 = p5 + l3.len();
    let p7 = p6 + en.len();
    if q < p0 {
        l0[q]
    } else if q < p1 {
        dc[q - p0]
    } else if q < p2 {
        l1[q - p1]
    } else if q < p3 {
        tk[q - p2]
    } else if q < p4 {
        l2[q - p3]
    } else if q < p5 {
        ti[q - p4]
    } else if q < p6 {
        l3[q - p5]
    } else if q < p7 {
        en[q - p6]
    } else {
        l4[q - p7]
    }
}

/// Checks every snapshot invariant that `wf` states: given well-formed
/// parameters, the answer is exact.
fn check_wf(s: &PersistedSnapshot) -> (r: bool)
    requires
        s.params.wf(),
    ensures
        r <==> s.wf(),
{
    if s.collected_at_ms < 0 || s.collected_at_ms >= 1_000_000_000_000_000_000 {
        return false;
    }
    let tn = s.time_index.len();
    if tn < 1 || tn > 1_000_000 {
        return false;
    }
    let mut i: usize = 0;
    while i < tn
        invariant
            i <= tn,
            tn == s.time_index@.len(),
            forall|j: int|
                0 <= j < i ==> 0 <= #[trigger] s.time_index@[j] < 1_000_000_000_000_000_000,
        decreases tn - i,
    {
        let t = s.time_index[i];
        if t < 0 || t >= 1_000_000_000_000_000_000 {
            return false;
        }
        i = i + 1;
    }
    let en = s.entries.len();
    if en > 1_000_000 {
        return false;
    }
    let mut k: usize = 0;
    while k < en
        invariant
            k <= en,
            en == s.entries@.len(),
            tn == s.time_index@.len(),
            1 <= tn,
            forall|j: int| 0 <= j < k ==> (#[trigger] s.entries@[j]).pair.wf(),
            forall|j: int| 0 <= j < k ==> (#[trigger] s.entries@[j]).values@.len() == tn,
            forall|j: int| 0 <= j < k ==> (#[trigger] s.entries@[j]).values@[0] == 0,
            forall|j: int, v: int|
                0 <= j < k && 0 <= v < s.entries@[j].values@.len() ==> -LOG_RETURN_BOUND
                    <= #[trigger] s.entries@[j].values@[v] <= LOG_RETURN_BOUND,
            forall|j1: int, j2: int|
                0 <= j1 < j2 < k ==> (#[trigger] s.entries@[j1]).pair@ != (
                #[trigger] s.entries@[j2]).pair@,
        decreases en - k,
    {
        let e = &s.entries[k];
        if !e.pair.is_wf() {
            return false;
        }
        if e.values.len() != tn {
            return false;
        }
        if e.values[0] != 0 {
            return false;
        }
        let vn = e.values.len();
        let mut v: usize = 0;
        while v < vn
            invariant
                v <= vn,
                0 <= k < s.entries@.len(),
                vn == s.entries@[k as int].values@.len(),
                e == s.entries@[k as int],
                forall|j: int|
                    0 <= j < v ==> -LOG_RETURN_BOUND <= #[trigger] s.entries@[k as int].values@[j]
                        <= LOG_RETURN_BOUND,
            decreases vn - v,
        {
            let x = e.values[v];
            if x < -LOG_RETURN_BOUND || x > LOG_RETURN_BOUND {
                return false;
            }
            v = v + 1;
        }
        let mut j: usize = 0;
        while j < k
            invariant
                j <= k < s.entries@.len(),
                e == s.entries@[k as int],
                forall|j2: int|
                    0 <= j2 < j ==> (#[trigger] s.entries@[j2]).pair@ != s.entries@[k as int].pair@,
            decreases k - j,
        {
            if bytes_eq(s.entries[j].pair.bytes(), e.pair.bytes()) {
                return false;
            }
            j = j + 1;
        }
        k = k + 1;
    }
    true
}

/// Loads a snapshot from a cache file's contents, when there is one to load.
///
/// Returns a snapshot exactly when the contents are the byte-faithful
/// encoding of a well-formed snapshot for the requested parameters whose age
/// at `now_ms` is non-negative and under the timeframe's duration: such
/// contents always load, what comes back re-encodes to the very same bytes,
/// and no snapshot old enough to be stale is ever handed back.  Missing or
/// unreadable contents and contents for other parameters yield `None`.
pub fn try_load(params: &CollectionParams, now_ms: i64, contents: Option<&Vec<u8>>) -> (r: Option<
    PersistedSnapshot,
>)
    requires
        params.wf(),
        now_ms >= 0,
    ensures
        r matches Some(s) ==> {
            &&& contents matches Some(c) && c@ == spec_encode(s)
            &&& s.wf()
            &&& s.params == *params
            &&& 0 <= now_ms - s.collected_at_ms < params.timeframe.spec_duration_ms() as int
        },
        (contents matches Some(c) && exists|s: PersistedSnapshot|
            s.wf() && s.params == *params && c@ == #[trigger] spec_encode(s) && 0 <= now_ms
                - s.collected_at_ms < params.timeframe.spec_duration_ms() as int) ==> r is Some,
        forall|s: PersistedSnapshot|
            (contents matches Some(c) && s.wf() && c@ == #[trigger] spec_encode(s) && !(0 <= now_ms
                - s.collected_at_ms < params.timeframe.spec_duration_ms() as int)) ==> r is None,
{
    let c = match contents {
        Some(c) => c,
        None => {
            return None;
        },
    };
    let candidate = match scan_snapshot(c, params) {
        Some(s) => s,
        None => {
            proof {
                assert forall|s: PersistedSnapshot| !(s.wf() && s.params == *params && c@
                    == #[trigger] spec_encode(s)) by {}
            }
            return None;
        },
    };
    proof {
        assert forall|s: PersistedSnapshot|
            (s.wf() && s.params == *params && c@ == #[trigger] spec_encode(s)) implies (
        candidate.wf() && spec_encode(candidate) == spec_encode(s) && candidate.collected_at_ms
            == s.collected_at_ms) by {
            assert(scan_recovers(candidate, s));
            assert forall|k: int| 0 <= k < candidate.entries@.len() implies ((
            #[trigger] candidate.entries@[k]).pair.wf() && candidate.entries@[k].values@.len()
                == candidate.time_index@.len() && candidate.entries@[k].values@[0] == 0) by {
                assert(s.entries@[k].pair.wf());
                assert(s.entries@[k].values@.len() == s.time_index@.len());
                assert(s.entries@[k].values@[0] == 0);
            }
            assert forall|k: int, q: int|
                0 <= k < candidate.entries@.len() && 0 <= q
                    < candidate.entries@[k].values@.len() implies -LOG_RETURN_BOUND
                <= #[trigger] candidate.entries@[k].values@[q] <= LOG_RETURN_BOUND by {
                assert(s.entries@[k].values@[q] == candidate.entries@[k].values@[q]);
            }
            assert forall|k1: int, k2: int|
                0 <= k1 < k2 < candidate.entries@.len() implies (
            #[trigger] candidate.entries@[k1]).pair@ != (#[trigger] candidate.entries@[k2]).pair@
                by {
                assert(s.entries@[k1].pair@ != s.entries@[k2].pair@);
            }
            lemma_enc_entries_congruent(candidate.entries@, s.entries@);
        }
    }
    if !check_wf(&candidate) {
        proof {
            assert forall|s: PersistedSnapshot| !(s.wf() && s.params == *params && c@
                == #[trigger] spec_encode(s)) by {}
        }
        return None;
    }
    let reencoded = encode_snapshot(&candidate);
    if !bytes_eq(&reencoded, c) {
        proof {
            assert forall|s: PersistedSnapshot| !(s.wf() && s.params == *params && c@
                == #[trigger] spec_encode(s)) by {}
        }
        return None;
    }
    let ttl = params.timeframe.duration_ms();
    proof {
        assert(params.timeframe.qty * params.timeframe.unit.spec_ms() <= 1_000_000i64
            * 604_800_000) by (nonlinear_arith)
            requires
                params.timeframe.qty <= 1_000_000,
                params.timeframe.unit.spec_ms() <= 604_800_000,
        ;
    }
    let age: i64 = now_ms - candidate.collected_at_ms;
    if 0 <= age && age < (ttl as i64) {
        proof {
            assert forall|s: PersistedSnapshot|
                (s.wf() && c@ == #[trigger] spec_encode(s) && !(0 <= now_ms - s.collected_at_ms
                    < params.timeframe.spec_duration_ms() as int)) implies false by {
                lemma_encode_same_collected(s, candidate);
            }
        }
        Some(candidate)
    } else {
        proof {
            assert forall|s: PersistedSnapshot| !(s.wf() && s.params == *params && c@
                == #[trigger] spec_encode(s) && 0 <= now_ms - s.collected_at_ms
                < params.timeframe.spec_duration_ms() as int) by {}
        }
        None
    }
}

} // verus!
