//! Core value types of the snapshot engine: trading pairs, timeframes,
//! instrument kinds, and the parameter triple that names one cache namespace.

use vstd::prelude::*;

use crate::numfmt::{ascii_chars, ascii_string, lit_bytes};

verus! {

/// A byte a pair identifier may contain: ASCII letters, digits, `'-'`, `'_'`.
pub open spec fn sym_byte_ok(b: u8) -> bool {
    (48 <= b <= 57) || (65 <= b <= 90) || (97 <= b <= 122) || b == 45 || b == 95
}

/// A well-formed pair identifier: short, non-empty, over the symbol alphabet.
pub open spec fn wf_sym_bytes(s: Seq<u8>) -> bool {
    &&& 1 <= s.len() <= 48
    &&& forall|i: int| 0 <= i < s.len() ==> sym_byte_ok(s[i])
}

/// The same condition stated over characters, for construction from text.
pub open spec fn wf_sym_chars(s: Seq<char>) -> bool {
    &&& 1 <= s.len() <= 48
    &&& forall|i: int|
        0 <= i < s.len() ==> (s[i] as u32) < 128 && sym_byte_ok((s[i] as u32) as u8)
}

/// An exchange-qualified trading pair identifier such as `BTC-USDT`.
/// Equality goes by the identifier text alone.
#[derive(Debug)]
pub struct Pair {
    bytes: Vec<u8>,
}

impl Clone for Pair {
    fn clone(&self) -> (r: Pair)
        ensures
            r@ == self@,
    {
        Pair { bytes: self.bytes.clone() }
    }
}

impl View for Pair {
    type V = Seq<u8>;

    closed spec fn view(&self) -> Seq<u8> {
        self.bytes@
    }
}

/// Byte-for-byte equality of two vectors.
pub fn bytes_eq(a: &Vec<u8>, b: &Vec<u8>) -> (r: bool)
    ensures
        r <==> a@ == b@,
{
    if a.len() != b.len() {
        return false;
    }
    let n = a.len();
    let mut i: usize = 0;
    while i < n
        invariant
            i <= n,
            n == a@.len() == b@.len(),
            forall|j: int| 0 <= j < i ==> a@[j] == b@[j],
        decreases n - i,
    {
        if a[i] != b[i] {
            return false;
        }
        i = i + 1;
    }
    proof {
        assert(a@ =~= b@);
    }
    true
}

impl Pair {
    /// Whether the identifier is well formed; constructors establish this.
    pub open spec fn wf(&self) -> bool {
        wf_sym_bytes(self@)
    }

    /// Builds a pair from raw bytes, accepting exactly the well-formed ones.
    pub fn from_bytes(bytes: Vec<u8>) -> (r: Option<Pair>)
        ensures
            r is Some <==> wf_sym_bytes(bytes@),
            r is Some ==> r->0@ == bytes@ && r->0.wf(),
    {
        if bytes.len() < 1 || bytes.len() > 48 {
            return None;
        }
        let n = bytes.len();
        let mut i: usize = 0;
        while i < n
            invariant
                i <= n,
                n == bytes@.len(),
                forall|j: int| 0 <= j < i ==> sym_byte_ok(bytes@[j]),
            decreases n - i,
        {
            let b = bytes[i];
            let ok = (48 <= b && b <= 57) || (65 <= b && b <= 90) || (97 <= b && b <= 122) || b
                == 45 || b == 95;
            if !ok {
                return None;
            }
            i = i + 1;
        }
        Some(Pair { bytes })
    }

    /// Builds a pair from text, accepting exactly well-formed identifiers.
    pub fn from_str(s: &str) -> (r: Option<Pair>)
        ensures
            r is Some <==> wf_sym_chars(s@),
            r is Some ==> r->0@ == lit_bytes(s@) && r->0.wf(),
    {
        let mut bytes: Vec<u8> = Vec::new();
        for c in it: s.chars()
            invariant
                it.seq() == s@,
                bytes@ == lit_bytes(it.seq().take(it.index() as int)),
                forall|j: int|
                    0 <= j < it.index() ==> (s@[j] as u32) < 128 && sym_byte_ok(
                        (s@[j] as u32) as u8,
                    ),
        {
            let ghost k = it.index() as int;
            let u = c as u32;
            if u >= 128 {
                return None;
            }
            let b = u as u8;
            let ok = (48 <= b && b <= 57) || (65 <= b && b <= 90) || (97 <= b && b <= 122) || b
                == 45 || b == 95;
            if !ok {
                return None;
            }
            bytes.push(b);
            proof {
                assert(lit_bytes(it.seq().take(k + 1)) =~= lit_bytes(it.seq().take(k)) + seq![
                    (c as u32) as u8,
                ]);
            }
        }
        proof {
            assert(s@.take(s@.len() as int) =~= s@);
        }
        if bytes.len() < 1 || bytes.len() > 48 {
            return None;
        }
        Some(Pair { bytes })
    }

    /// Checks well-formedness of the identifier.
    pub fn is_wf(&self) -> (r: bool)
        ensures
            r <==> self.wf(),
    {
        if self.bytes.len() < 1 || self.bytes.len() > 48 {
            return false;
        }
        let n = self.bytes.len();
        let mut i: usize = 0;
        while i < n
            invariant
                i <= n,
                n == self@.len(),
                forall|j: int| 0 <= j < i ==> sym_byte_ok(self@[j]),
            decreases n - i,
        {
            let b = self.bytes[i];
            let ok = (48 <= b && b <= 57) || (65 <= b && b <= 90) || (97 <= b && b <= 122) || b
                == 45 || b == 95;
            if !ok {
                return false;
            }
            i = i + 1;
        }
        true
    }

    /// The identifier's bytes.
    pub fn bytes(&self) -> (r: &Vec<u8>)
        ensures
            r@ == self@,
    {
        &self.bytes
    }

    /// The identifier as text.
    pub fn render(&self) -> (r: String)
        requires
            self.wf(),
        ensures
            r@ == ascii_chars(self@),
    {
        ascii_string(&self.bytes)
    }
}

/// Whether an identifier occurs in a run of pairs.
pub open spec fn occurs(b: Seq<u8>, ps: Seq<Pair>) -> bool {
    exists|j: int| 0 <= j < ps.len() && (#[trigger] ps[j])@ == b
}

/// The run with later repetitions of an identifier dropped: each symbol's
/// first occurrence, in order.
pub open spec fn spec_dedup(ps: Seq<Pair>) -> Seq<Pair>
    decreases ps.len(),
{
    if ps.len() == 0 {
        Seq::empty()
    } else {
        let rest = spec_dedup(ps.drop_last());
        if occurs(ps.last()@, ps.drop_last()) {
            rest
        } else {
            rest.push(ps.last())
        }
    }
}

/// Deduplicates a resolved symbol universe, keeping the first occurrence of
/// each identifier and their order.
pub fn dedup_pairs(input: Vec<Pair>) -> (r: Vec<Pair>)
    ensures
        r@ == spec_dedup(input@),
        forall|k1: int, k2: int| 0 <= k1 < k2 < r@.len() ==> (#[trigger] r@[k1])@ != (
        #[trigger] r@[k2])@,
        forall|k: int| 0 <= k < r@.len() ==> occurs((#[trigger] r@[k])@, input@),
        forall|j: int| 0 <= j < input@.len() ==> occurs((#[trigger] input@[j])@, r@),
{
    let ghost original = input@;
    let mut out: Vec<Pair> = Vec::new();
    for p in it: input.into_iter()
        invariant
            it.seq() == original,
            out@ == spec_dedup(original.take(it.index() as int)),
            forall|k1: int, k2: int| 0 <= k1 < k2 < out@.len() ==> (#[trigger] out@[k1])@ != (
            #[trigger] out@[k2])@,
            forall|k: int| 0 <= k < out@.len() ==> occurs(
                (#[trigger] out@[k])@,
                original.take(it.index() as int),
            ),
            forall|j: int|
                0 <= j < it.index() ==> occurs((#[trigger] original[j])@, out@),
    {
        let ghost k = it.index() as int;
        let ghost pre = original.take(k);
        proof {
            assert(original.take(k + 1).drop_last() =~= pre);
            assert(original.take(k + 1).last() == original[k]);
        }
        let mut seen = false;
        let n = out.len();
        let mut i: usize = 0;
        while i < n
            invariant
                i <= n,
                n == out@.len(),
                seen ==> occurs(p@, out@),
                !seen ==> forall|j: int| 0 <= j < i ==> (#[trigger] out@[j])@ != p@,
            decreases n - i,
        {
            if bytes_eq(out[i].bytes(), p.bytes()) {
                seen = true;
            }
            i = i + 1;
        }
        proof {
            // a symbol stands in the output so far exactly when it occurred
            // in the prefix already handled
            if seen {
                let w = choose|j: int| 0 <= j < out@.len() && (#[trigger] out@[j])@ == p@;
                assert(occurs(out@[w]@, pre));
            } else {
                if occurs(p@, pre) {
                    let w = choose|j: int| 0 <= j < pre.len() && (#[trigger] pre[j])@ == p@;
                    assert(occurs(pre[w]@, out@));
                }
            }
        }
        if !seen {
            let ghost before = out@;
            out.push(p);
            proof {
                assert(out@ =~= spec_dedup(original.take(k + 1)));
                assert forall|j: int| 0 <= j < k + 1 implies occurs(
                    (#[trigger] original[j])@,
                    out@,
                ) by {
                    if j < k {
                        let w = choose|q: int|
                            0 <= q < before.len() && (#[trigger] before[q])@ == original[j]@;
                        assert(out@[w]@ == original[j]@);
                    } else {
                        assert(out@.last()@ == original[k]@);
                    }
                }
                assert forall|q: int| 0 <= q < out@.len() implies occurs(
                    (#[trigger] out@[q])@,
                    original.take(k + 1),
                ) by {
                    if q < out@.len() - 1 {
                        let w = choose|j: int| 0 <= j < pre.len() && (#[trigger] pre[j])@ == out@[q]@;
                        assert(original.take(k + 1)[w]@ == out@[q]@);
                    } else {
                        assert(original.take(k + 1)[k]@ == out@[q]@);
                    }
                }
            }
        } else {
            proof {
                assert(out@ =~= spec_dedup(original.take(k + 1)));
                assert forall|q: int| 0 <= q < out@.len() implies occurs(
                    (#[trigger] out@[q])@,
                    original.take(k + 1),
                ) by {
                    let w = choose|j: int| 0 <= j < pre.len() && (#[trigger] pre[j])@ == out@[q]@;
                    assert(original.take(k + 1)[w]@ == out@[q]@);
                }
            }
        }
    }
    proof {
        assert(original.take(original.len() as int) =~= original);
    }
    out
}

impl PartialEq for Pair {
    fn eq(&self, other: &Pair) -> (r: bool) {
        bytes_eq(&self.bytes, &other.bytes)
    }
}

impl vstd::std_specs::cmp::PartialEqSpecImpl for Pair {
    open spec fn obeys_eq_spec() -> bool {
        true
    }

    open spec fn eq_spec(&self, other: &Pair) -> bool {
        self@ == other@
    }
}

/// A sampling interval's unit.
#[derive(Clone, Copy, Debug, PartialEq, Eq, Structural)]
pub enum TimeUnit {
    Second,
    Minute,
    Hour,
    Day,
    Week,
}

/// A named sampling interval such as `5m`: a count of units.
/// Its wall-clock duration spaces historical bars and derives the cache TTL.
#[derive(Clone, Copy, Debug, PartialEq, Eq, Structural)]
pub struct Timeframe {
    pub qty: u32,
    pub unit: TimeUnit,
}

impl TimeUnit {
    /// Milliseconds in one unit.
    pub open spec fn spec_ms(&self) -> u64 {
        match self {
            TimeUnit::Second => 1_000,
            TimeUnit::Minute => 60_000,
            TimeUnit::Hour => 3_600_000,
            TimeUnit::Day => 86_400_000,
            TimeUnit::Week => 604_800_000,
        }
    }

    /// The letter naming the unit in a timeframe token, as in `5m`.
    pub open spec fn spec_letter(&self) -> u8 {
        match self {
            TimeUnit::Second => 115,
            TimeUnit::Minute => 109,
            TimeUnit::Hour => 104,
            TimeUnit::Day => 100,
            TimeUnit::Week => 119,
        }
    }
}

impl Timeframe {
    /// A meaningful timeframe: a positive, bounded count of units.
    pub open spec fn wf(&self) -> bool {
        1 <= self.qty <= 1_000_000
    }

    /// The interval's wall-clock duration in milliseconds.
    pub open spec fn spec_duration_ms(&self) -> u64 {
        (self.qty * self.unit.spec_ms()) as u64
    }

    /// The interval's wall-clock duration in milliseconds.
    pub fn duration_ms(&self) -> (r: u64)
        ensures
            r == self.spec_duration_ms(),
    {
        let unit_ms: u64 = match self.unit {
            TimeUnit::Second => 1_000,
            TimeUnit::Minute => 60_000,
            TimeUnit::Hour => 3_600_000,
            TimeUnit::Day => 86_400_000,
            TimeUnit::Week => 604_800_000,
        };
        proof {
            assert(self.qty * unit_ms <= 0xFFFF_FFFFu64 * 604_800_000) by (nonlinear_arith)
                requires
                    unit_ms <= 604_800_000,
                    self.qty <= 0xFFFF_FFFFu64,
            ;
        }
        (self.qty as u64) * unit_ms
    }
}

/// The kind of instrument a snapshot covers.
#[derive(Clone, Copy, Debug, PartialEq, Eq, Structural)]
pub enum Instrument {
    Perp,
    Spot,
}

/// The triple identifying one cache namespace: what was collected, at which
/// sampling interval, and over how many bars.
#[derive(Clone, Copy, Debug, PartialEq, Eq, Structural)]
pub struct CollectionParams {
    pub instrument: Instrument,
    pub timeframe: Timeframe,
    /// Number of historical bars requested per symbol.
    pub range: u32,
}

impl CollectionParams {
    /// Meaningful parameters: a well-formed timeframe and at least one bar.
    pub open spec fn wf(&self) -> bool {
        &&& self.timeframe.wf()
        &&& 1 <= self.range <= 1_000_000
    }

    pub fn new(timeframe: Timeframe, range: u32, instrument: Instrument) -> (r:
        CollectionParams)
        ensures
            r == (CollectionParams { instrument, timeframe, range }),
    {
        CollectionParams { instrument, timeframe, range }
    }
}

} // verus!
