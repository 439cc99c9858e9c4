//! Rendering of integers and fixed-point scalars as ASCII text.
//!
//! Reports are assembled as vectors of ASCII bytes, with their contents pinned
//! down over `Seq<u8>`; a single trusted conversion turns a finished byte
//! vector into a `String`.

use vstd::prelude::*;

verus! {

/// The bytes of a piece of text, one byte per character; a character
/// outside ASCII stands in as `'?'`, so the result is always ASCII.
pub open spec fn lit_bytes(s: Seq<char>) -> Seq<u8> {
    s.map_values(|c: char| if (c as u32) < 128 { (c as u32) as u8 } else { 63u8 })
}

/// Text bytes are ASCII by construction.
pub proof fn lemma_lit_bytes_ascii(s: Seq<char>)
    ensures
        ascii_only(lit_bytes(s)),
{
    assert forall|i: int| 0 <= i < lit_bytes(s).len() implies lit_bytes(s)[i] < 128 by {
        let c = s[i];
        if (c as u32) < 128 {
            assert(lit_bytes(s)[i] == (c as u32) as u8);
        } else {
            assert(lit_bytes(s)[i] == 63u8);
        }
    }
}

/// Two ASCII runs concatenate to an ASCII run.
pub proof fn lemma_ascii_concat(a: Seq<u8>, b: Seq<u8>)
    requires
        ascii_only(a),
        ascii_only(b),
    ensures
        ascii_only(a + b),
{
    assert forall|i: int| 0 <= i < (a + b).len() implies (a + b)[i] < 128 by {
        if i < a.len() {
            assert((a + b)[i] == a[i]);
        } else {
            assert((a + b)[i] == b[i - a.len()]);
        }
    }
}

/// Appends the characters of `s` to `out`, one byte per character.
pub fn push_lit(out: &mut Vec<u8>, s: &str)
    ensures
        final(out)@ == old(out)@ + lit_bytes(s@),
        ascii_only(old(out)@) ==> ascii_only(final(out)@),
{
    proof {
        assert(out@ =~= old(out)@ + lit_bytes(Seq::<char>::empty()));
    }
    for c in it: s.chars()
        invariant
            it.seq() == s@,
            out@ == old(out)@ + lit_bytes(it.seq().take(it.index() as int)),
    {
        let ghost k = it.index() as int;
        let u = c as u32;
        if u < 128 {
            out.push(u as u8);
        } else {
            out.push(63);
        }
        proof {
            assert(lit_bytes(it.seq().take(k + 1)) =~= lit_bytes(it.seq().take(k)) + seq![
                if (c as u32) < 128 {
                    (c as u32) as u8
                } else {
                    63u8
                },
            ]);
        }
    }
    proof {
        assert(s@.take(s@.len() as int) =~= s@);
        assert(out@ =~= old(out)@ + lit_bytes(s@));
        if ascii_only(old(out)@) {
            lemma_lit_bytes_ascii(s@);
            lemma_ascii_concat(old(out)@, lit_bytes(s@));
        }
    }
}

/// Decimal digits of `n`, most significant first, without leading zeros
/// (a single `'0'` for zero).
pub open spec fn dec_digits(n: nat) -> Seq<u8>
    decreases n,
{
    if n < 10 {
        seq![(48 + n) as u8]
    } else {
        dec_digits(n / 10) + seq![(48 + n % 10) as u8]
    }
}

/// The view of a byte sequence as text, one character per ASCII byte.
pub open spec fn ascii_chars(s: Seq<u8>) -> Seq<char> {
    s.map_values(|b: u8| b as char)
}

/// All bytes are printable ASCII or one of the control characters the
/// reports use (`'\n'`).
pub open spec fn ascii_only(s: Seq<u8>) -> bool {
    forall|i: int| 0 <= i < s.len() ==> s[i] < 128
}

/// Every byte of a decimal rendering is an ASCII digit.
pub proof fn lemma_dec_digits_range(n: nat)
    ensures
        dec_digits(n).len() >= 1,
        forall|i: int| 0 <= i < dec_digits(n).len() ==> 48 <= #[trigger] dec_digits(n)[i] <= 57,
    decreases n,
{
    if n >= 10 {
        lemma_dec_digits_range(n / 10);
        assert forall|i: int| 0 <= i < dec_digits(n).len() implies 48 <= #[trigger] dec_digits(
            n,
        )[i] <= 57 by {
            if i < dec_digits(n / 10).len() {
                assert(dec_digits(n)[i] == dec_digits(n / 10)[i]);
            }
        }
    }
}

/// Appends the decimal form of `n` to `out`.
pub fn push_dec_u64(out: &mut Vec<u8>, n: u64)
    ensures
        final(out)@ == old(out)@ + dec_digits(n as nat),
        ascii_only(old(out)@) ==> ascii_only(final(out)@),
{
    proof {
        lemma_dec_digits_range(n as nat);
    }
    let ghost full = dec_digits(n as nat);
    let mut rev: Vec<u8> = Vec::new();
    let mut m: u64 = n;
    loop
        invariant_except_break
            full == dec_digits(m as nat) + rev@.reverse(),
        ensures
            full == rev@.reverse(),
        decreases m,
    {
        let ghost prev = rev@;
        let ghost m0 = m as nat;
        let d: u8 = (m % 10) as u8;
        rev.push(48 + d);
        proof {
            assert(rev@.reverse() =~= seq![(48 + m0 % 10) as u8] + prev.reverse());
        }
        if m < 10 {
            proof {
                assert(dec_digits(m0) == seq![(48 + m0) as u8]);
                assert(full =~= rev@.reverse());
            }
            break;
        }
        m = m / 10;
        proof {
            assert(dec_digits(m0) == dec_digits(m0 / 10) + seq![(48 + m0 % 10) as u8]);
            assert(dec_digits(m0 / 10) + (seq![(48 + m0 % 10) as u8] + prev.reverse())
                =~= (dec_digits(m0 / 10) + seq![(48 + m0 % 10) as u8]) + prev.reverse());
        }
    }
    let mut i: usize = rev.len();
    proof {
        assert(full.take(full.len() as int - i as int) =~= Seq::<u8>::empty());
        assert(out@ =~= old(out)@ + full.take(full.len() as int - i as int));
    }
    while i > 0
        invariant
            i <= rev@.len(),
            full == rev@.reverse(),
            out@ == old(out)@ + full.take(full.len() as int - i as int),
        decreases i,
    {
        i = i - 1;
        let b = rev[i];
        out.push(b);
        proof {
            assert(full.take(full.len() - i as int) =~= full.take(full.len() - (i + 1)) + seq![
                full[full.len() - i - 1],
            ]);
            assert(full[full.len() - i - 1] == rev@[i as int]);
        }
    }
    proof {
        assert(full.take(full.len() as int) =~= full);
        if ascii_only(old(out)@) {
            lemma_ascii_concat(old(out)@, full);
        }
    }
}

/// Decimal form of a possibly negative value: a leading `'-'` for negatives,
/// then the digits of the magnitude.
pub open spec fn dec_digits_signed(v: int) -> Seq<u8> {
    if v < 0 {
        seq![45u8] + dec_digits((-v) as nat)
    } else {
        dec_digits(v as nat)
    }
}

/// Appends the decimal form of `v`, with a `'-'` sign when negative.
pub fn push_dec_i64(out: &mut Vec<u8>, v: i64)
    ensures
        final(out)@ == old(out)@ + dec_digits_signed(v as int),
        ascii_only(old(out)@) ==> ascii_only(final(out)@),
{
    if v < 0 {
        out.push(45);
        proof {
            if ascii_only(old(out)@) {
                lemma_ascii_concat(old(out)@, seq![45u8]);
                assert(out@ =~= old(out)@ + seq![45u8]);
            }
        }
        let m: u64 = ((-(v as i128)) as u64);
        push_dec_u64(out, m);
        proof {
            assert(old(out)@ + (seq![45u8] + dec_digits(m as nat)) =~= (old(out)@ + seq![45u8])
                + dec_digits(m as nat));
        }
    } else {
        push_dec_u64(out, v as u64);
    }
}

/// Hundredths of a scaled value: `v` counts units of one hundred-millionth,
/// and the result counts units of one hundredth, rounded half away from zero.
pub open spec fn hundredths(v: nat) -> nat {
    (v + 500_000) / 1_000_000
}

/// Text of a non-negative scaled value with exactly two decimal places,
/// as in `3.14` for a value close to 3.14 times the scale.
pub open spec fn fixed2_digits(v: nat) -> Seq<u8> {
    dec_digits(hundredths(v) / 100) + seq![
        46u8,
        (48 + (hundredths(v) / 10) % 10) as u8,
        (48 + hundredths(v) % 10) as u8,
    ]
}

/// Appends `v` (scaled by one hundred million) with two decimal places.
pub fn push_fixed2(out: &mut Vec<u8>, v: u64)
    requires
        v <= 1_000_000_000_000_000_000,
    ensures
        final(out)@ == old(out)@ + fixed2_digits(v as nat),
        ascii_only(old(out)@) ==> ascii_only(final(out)@),
{
    let h: u64 = (v + 500_000) / 1_000_000;
    push_dec_u64(out, h / 100);
    out.push(46);
    out.push(48 + ((h / 10) % 10) as u8);
    out.push(48 + (h % 10) as u8);
    proof {
        assert(final(out)@ =~= old(out)@ + fixed2_digits(v as nat));
        if ascii_only(old(out)@) {
            lemma_dec_digits_range(hundredths(v as nat) / 100);
            lemma_ascii_concat(old(out)@, fixed2_digits(v as nat));
        }
    }
}

/// `s` followed by spaces up to width `w` (unchanged when already wider).
pub open spec fn pad_right(s: Seq<u8>, w: nat) -> Seq<u8> {
    if s.len() >= w {
        s
    } else {
        s + Seq::new((w - s.len()) as nat, |i: int| 32u8)
    }
}

/// Spaces followed by `s` up to width `w` (unchanged when already wider).
pub open spec fn pad_left(s: Seq<u8>, w: nat) -> Seq<u8> {
    if s.len() >= w {
        s
    } else {
        Seq::new((w - s.len()) as nat, |i: int| 32u8) + s
    }
}

/// Appends spaces until `out` has grown by at least `w` bytes past `base_len`,
/// so that the piece appended since `base_len` is left-aligned in width `w`.
pub fn pad_piece_right(out: &mut Vec<u8>, base_len: usize, w: usize)
    requires
        base_len <= old(out)@.len(),
    ensures
        final(out)@ == old(out)@.take(base_len as int) + pad_right(
            old(out)@.skip(base_len as int),
            w as nat,
        ),
        ascii_only(old(out)@) ==> ascii_only(final(out)@),
{
    let ghost piece = old(out)@.skip(base_len as int);
    let mut n: usize = out.len() - base_len;
    if n >= w {
        proof {
            assert(old(out)@ =~= old(out)@.take(base_len as int) + piece);
        }
        return ;
    }
    while n < w
        invariant
            base_len + n == out@.len(),
            n >= piece.len(),
            n <= w,
            out@ == old(out)@.take(base_len as int) + piece + Seq::new(
                (n - piece.len()) as nat,
                |i: int| 32u8,
            ),
        decreases w - n,
    {
        out.push(32);
        n = n + 1;
        proof {
            assert(out@ =~= old(out)@.take(base_len as int) + piece + Seq::new(
                (n - piece.len()) as nat,
                |i: int| 32u8,
            ));
        }
    }
    proof {
        assert(out@ =~= old(out)@.take(base_len as int) + pad_right(piece, w as nat));
        if ascii_only(old(out)@) {
            assert forall|q: int| 0 <= q < out@.len() implies out@[q] < 128 by {
                if q < base_len {
                    assert(out@[q] == old(out)@[q]);
                } else if q < old(out)@.len() {
                    assert(out@[q] == piece[q - base_len]);
                    assert(piece[q - base_len] == old(out)@[q]);
                } else {
                    assert(out@[q] == 32);
                }
            }
        }
    }
}

/// Padding preserves ASCII-ness.
pub proof fn lemma_ascii_pad_right(s: Seq<u8>, w: nat)
    requires
        ascii_only(s),
    ensures
        ascii_only(pad_right(s, w)),
{
    if s.len() < w {
        assert forall|i: int| 0 <= i < pad_right(s, w).len() implies pad_right(s, w)[i] < 128 by {
            if i < s.len() {
                assert(pad_right(s, w)[i] == s[i]);
            } else {
                assert(pad_right(s, w)[i] == 32);
            }
        }
    }
}

/// Padding preserves ASCII-ness.
pub proof fn lemma_ascii_pad_left(s: Seq<u8>, w: nat)
    requires
        ascii_only(s),
    ensures
        ascii_only(pad_left(s, w)),
{
    if s.len() < w {
        assert forall|i: int| 0 <= i < pad_left(s, w).len() implies pad_left(s, w)[i] < 128 by {
            if i < w - s.len() {
                assert(pad_left(s, w)[i] == 32);
            } else {
                assert(pad_left(s, w)[i] == s[i - (w - s.len())]);
            }
        }
    }
}

/// A two-decimal rendering is ASCII.
pub proof fn lemma_ascii_fixed2(v: nat)
    ensures
        ascii_only(fixed2_digits(v)),
{
    lemma_dec_digits_range(hundredths(v) / 100);
    let d = dec_digits(hundredths(v) / 100);
    assert forall|i: int| 0 <= i < fixed2_digits(v).len() implies fixed2_digits(v)[i] < 128 by {
        if i < d.len() {
            assert(fixed2_digits(v)[i] == d[i]);
        }
    }
}

/// Relies on `String::from_utf8`: a vector of ASCII bytes decodes to the
/// string with exactly one character per byte.
#[verifier::external_body]
pub(crate) fn ascii_string(bytes: &Vec<u8>) -> (r: String)
    requires
        ascii_only(bytes@),
    ensures
        r@ == ascii_chars(bytes@),
{
    String::from_utf8(bytes.clone()).unwrap_or_default()
}

} // verus!
