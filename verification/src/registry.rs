//! The negative-result registry: symbols known to return no data.
//!
//! The registry lives in one newline-delimited file.  It is read in full at
//! the start of a build and rewritten in full when the build recorded new
//! soft misses.  Membership is sticky for thirty days; once the file is
//! older, the whole set is discarded so every symbol is retried.

use vstd::prelude::*;

use crate::snapshot::pair_views;
use crate::types::{bytes_eq, Pair};

verus! {

/// How long registry membership sticks: thirty days, in milliseconds.
pub const REGISTRY_MAX_AGE_MS: i64 = 2_592_000_000;

/// The finished lines and the trailing unfinished line of a byte run,
/// splitting on newlines and dropping empty lines.
pub open spec fn split_lines(s: Seq<u8>) -> (Seq<Seq<u8>>, Seq<u8>)
    decreases s.len(),
{
    if s.len() == 0 {
        (Seq::empty(), Seq::empty())
    } else {
        let (ls, cur) = split_lines(s.drop_last());
        let b = s.last();
        if b == 10 {
            if cur.len() > 0 {
                (ls.push(cur), Seq::empty())
            } else {
                (ls, Seq::empty())
            }
        } else {
            (ls, cur.push(b))
        }
    }
}

/// The non-empty lines of a byte run.
pub open spec fn parse_lines(s: Seq<u8>) -> Seq<Seq<u8>> {
    let (ls, cur) = split_lines(s);
    if cur.len() > 0 {
        ls.push(cur)
    } else {
        ls
    }
}

/// The lines joined back with single newlines.
pub open spec fn render_lines(ls: Seq<Seq<u8>>) -> Seq<u8>
    decreases ls.len(),
{
    if ls.len() == 0 {
        Seq::empty()
    } else if ls.len() == 1 {
        ls[0]
    } else {
        render_lines(ls.drop_last()) + seq![10u8] + ls.last()
    }
}

/// Whether an identifier is one of the registry's lines.
pub open spec fn is_member(b: Seq<u8>, reg: Seq<Seq<u8>>) -> bool {
    exists|j: int| 0 <= j < reg.len() && reg[j] == b
}

/// The universe with the registry's members removed, in order.
pub open spec fn spec_filter(u: Seq<Pair>, reg: Seq<Seq<u8>>) -> Seq<Pair>
    decreases u.len(),
{
    if u.len() == 0 {
        Seq::empty()
    } else {
        let rest = spec_filter(u.drop_last(), reg);
        if is_member(u.last()@, reg) {
            rest
        } else {
            rest.push(u.last())
        }
    }
}

/// No symbol of a filtered universe is a registry member: a symbol the
/// registry holds is never handed on to the fetch scheduler.
pub proof fn lemma_filter_excludes(u: Seq<Pair>, reg: Seq<Seq<u8>>)
    ensures
        forall|k: int|
            0 <= k < spec_filter(u, reg).len() ==> !is_member(
                (#[trigger] spec_filter(u, reg)[k])@,
                reg,
            ),
    decreases u.len(),
{
    if u.len() > 0 {
        lemma_filter_excludes(u.drop_last(), reg);
        let rest = spec_filter(u.drop_last(), reg);
        let r = spec_filter(u, reg);
        assert forall|k: int| 0 <= k < r.len() implies !is_member((#[trigger] r[k])@, reg) by {
            if k < rest.len() {
                assert(r[k] == rest[k]);
            } else {
                assert(r[k] == u.last());
            }
        }
    }
}

/// Filtering against an empty registry keeps the whole universe: once the
/// registry has expired, every previously registered symbol is retried.
pub proof fn lemma_filter_empty(u: Seq<Pair>)
    ensures
        spec_filter(u, Seq::empty()) =~= u,
    decreases u.len(),
{
    if u.len() > 0 {
        lemma_filter_empty(u.drop_last());
        assert(u.drop_last().push(u.last()) =~= u);
    }
}

/// An expired or missing registry excludes nothing: every previously
/// registered symbol becomes eligible again in the next cycle.
pub proof fn lemma_expired_registry_keeps_universe(u: Seq<Pair>, entries: Seq<Vec<u8>>)
    requires
        entries.len() == 0,
    ensures
        spec_filter(u, entry_seq(entries)) =~= u,
{
    assert(entry_seq(entries) =~= Seq::<Seq<u8>>::empty());
    lemma_filter_empty(u);
}

/// The set of symbols known to yield no data, with one shared age.
#[derive(Debug)]
pub struct NoDataRegistry {
    /// One recorded identifier per line of the registry file.
    pub entries: Vec<Vec<u8>>,
}

/// The view of the registry's entries.
pub open spec fn entry_seq(entries: Seq<Vec<u8>>) -> Seq<Seq<u8>> {
    entries.map_values(|e: Vec<u8>| e@)
}

impl NoDataRegistry {
    /// Reads the registry from its file's contents and age.  A missing file
    /// or one at least thirty days old yields the empty registry, forcing a
    /// full retry of every symbol this cycle.
    pub fn load(contents: Option<&Vec<u8>>, age_ms: i64) -> (r: NoDataRegistry)
        ensures
            match contents {
                Some(c) => {
                    if 0 <= age_ms < REGISTRY_MAX_AGE_MS {
                        entry_seq(r.entries@) == parse_lines(c@)
                    } else {
                        r.entries@.len() == 0
                    }
                },
                None => r.entries@.len() == 0,
            },
    {
        match contents {
            Some(c) => {
                if 0 <= age_ms && age_ms < REGISTRY_MAX_AGE_MS {
                    let mut lines: Vec<Vec<u8>> = Vec::new();
                    let mut cur: Vec<u8> = Vec::new();
                    let n = c.len();
                    let mut i: usize = 0;
                    while i < n
                        invariant
                            i <= n,
                            n == c@.len(),
                            entry_seq(lines@) == split_lines(c@.take(i as int)).0,
                            cur@ == split_lines(c@.take(i as int)).1,
                        decreases n - i,
                    {
                        let ghost k = i as int;
                        proof {
                            assert(c@.take(k + 1).drop_last() =~= c@.take(k));
                        }
                        let b = c[i];
                        if b == 10 {
                            if cur.len() > 0 {
                                let finished = cur;
                                cur = Vec::new();
                                lines.push(finished);
                                proof {
                                    assert(entry_seq(lines@) =~= split_lines(c@.take(k + 1)).0);
                                }
                            }
                        } else {
                            cur.push(b);
                        }
                        i = i + 1;
                    }
                    proof {
                        assert(c@.take(n as int) =~= c@);
                    }
                    if cur.len() > 0 {
                        lines.push(cur);
                        proof {
                            assert(entry_seq(lines@) =~= parse_lines(c@));
                        }
                    }
                    NoDataRegistry { entries: lines }
                } else {
                    NoDataRegistry { entries: Vec::new() }
                }
            },
            None => NoDataRegistry { entries: Vec::new() },
        }
    }

    /// Whether an identifier is recorded.
    pub fn contains(&self, b: &Vec<u8>) -> (r: bool)
        ensures
            r <==> is_member(b@, entry_seq(self.entries@)),
    {
        let n = self.entries.len();
        let mut i: usize = 0;
        while i < n
            invariant
                i <= n,
                n == self.entries@.len(),
                forall|j: int| 0 <= j < i ==> entry_seq(self.entries@)[j] != b@,
            decreases n - i,
        {
            if bytes_eq(&self.entries[i], b) {
                proof {
                    assert(entry_seq(self.entries@)[i as int] == b@);
                }
                return true;
            }
            i = i + 1;
        }
        false
    }

    /// Removes the registry's members from the universe before a fetch.
    pub fn filter(&self, universe: Vec<Pair>) -> (r: Vec<Pair>)
        ensures
            r@ == spec_filter(universe@, entry_seq(self.entries@)),
            forall|k: int|
                0 <= k < r@.len() ==> !is_member((#[trigger] r@[k])@, entry_seq(self.entries@)),
    {
        let ghost original = universe@;
        let mut out: Vec<Pair> = Vec::new();
        for p in it: universe.into_iter()
            invariant
                it.seq() == original,
                out@ == spec_filter(original.take(it.index() as int), entry_seq(self.entries@)),
        {
            let ghost k = it.index() as int;
            proof {
                assert(original.take(k + 1).drop_last() =~= original.take(k));
            }
            if !self.contains(p.bytes()) {
                out.push(p);
            }
        }
        proof {
            assert(original.take(original.len() as int) =~= original);
            lemma_filter_excludes(original, entry_seq(self.entries@));
        }
        out
    }

    /// Records one soft miss.
    pub fn record(&mut self, symbol: &Pair)
        ensures
            entry_seq(final(self).entries@) == entry_seq(old(self).entries@).push(symbol@),
    {
        let line = copy_bytes(symbol.bytes());
        self.entries.push(line);
        proof {
            assert(entry_seq(self.entries@) =~= entry_seq(old(self).entries@).push(symbol@));
        }
    }

    /// Merges a build's newly recorded soft misses, in order.
    pub fn record_all(&mut self, symbols: &Vec<Pair>)
        ensures
            entry_seq(final(self).entries@) == entry_seq(old(self).entries@) + pair_views(
                symbols@,
            ),
    {
        let n = symbols.len();
        let mut i: usize = 0;
        proof {
            assert(entry_seq(self.entries@) =~= entry_seq(old(self).entries@) + pair_views(
                symbols@.take(0),
            ));
        }
        while i < n
            invariant
                i <= n,
                n == symbols@.len(),
                entry_seq(self.entries@) == entry_seq(old(self).entries@) + pair_views(
                    symbols@.take(i as int),
                ),
            decreases n - i,
        {
            self.record(&symbols[i]);
            i = i + 1;
            proof {
                assert(entry_seq(self.entries@) =~= entry_seq(old(self).entries@) + pair_views(
                    symbols@.take(i as int),
                ));
            }
        }
        proof {
            assert(symbols@.take(n as int) =~= symbols@);
        }
    }

    /// The registry file's new contents: every entry on its own line.
    pub fn persist(&self) -> (r: Vec<u8>)
        ensures
            r@ == render_lines(entry_seq(self.entries@)),
    {
        let mut out: Vec<u8> = Vec::new();
        let n = self.entries.len();
        let mut i: usize = 0;
        while i < n
            invariant
                i <= n,
                n == self.entries@.len(),
                out@ == render_lines(entry_seq(self.entries@).take(i as int)),
            decreases n - i,
        {
            let ghost k = i as int;
            proof {
                assert(entry_seq(self.entries@).take(k + 1).drop_last() =~= entry_seq(
                    self.entries@,
                ).take(k));
            }
            if i > 0 {
                out.push(10);
            }
            push_bytes(&mut out, &self.entries[i]);
            proof {
                assert(out@ =~= render_lines(entry_seq(self.entries@).take(k + 1)));
            }
            i = i + 1;
        }
        proof {
            assert(entry_seq(self.entries@).take(n as int) =~= entry_seq(self.entries@));
        }
        out
    }
}

/// Appends a byte vector to another.
pub fn push_bytes(out: &mut Vec<u8>, v: &Vec<u8>)
    ensures
        final(out)@ == old(out)@ + v@,
{
    let n = v.len();
    let mut i: usize = 0;
    while i < n
        invariant
            i <= n,
            n == v@.len(),
            out@ == old(out)@ + v@.take(i as int),
        decreases n - i,
    {
        let b = v[i];
        out.push(b);
        proof {
            assert(out@ =~= old(out)@ + v@.take(i + 1));
        }
        i = i + 1;
    }
    proof {
        assert(v@.take(n as int) =~= v@);
        assert(out@ =~= old(out)@ + v@);
    }
}

/// Copies a byte vector.
pub fn copy_bytes(v: &Vec<u8>) -> (r: Vec<u8>)
    ensures
        r@ == v@,
{
    let mut r: Vec<u8> = Vec::new();
    push_bytes(&mut r, v);
    proof {
        assert(r@ =~= v@);
    }
    r
}

} // verus!
