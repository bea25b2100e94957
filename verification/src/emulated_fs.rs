//! A Fiat-Shamir transcript: challenges are SHA-256 hashes of everything
//! absorbed so far.
//!
//! The state is the byte string fed to the hash: the little-endian seed, then
//! each absorbed message and, at each squeeze, the little-endian counter. A
//! squeeze hashes that string and reads the first 16 bytes of the digest as a
//! little-endian `u128`.
use crate::binary_field::BinaryField;
use crate::merkle_tree::{all_below, sha256, sha256_digest, sort_queries, strictly_increasing};
use std::collections::HashSet;
use vstd::bytes::{spec_u128_from_le_bytes, spec_u32_to_le_bytes, u128_from_le_bytes, u32_to_le_bytes};
use vstd::prelude::*;
use vstd::slice::slice_subrange;

verus! {

broadcast use vstd::std_specs::hash::group_hash_axioms;

/// The bytes hashed by the squeeze made at counter `c` on transcript `t`.
pub open spec fn squeeze_input(t: Seq<u8>, c: u32) -> Seq<u8> {
    t + spec_u32_to_le_bytes(c)
}

/// The value of the squeeze made at counter `c` on transcript `t`.
pub open spec fn squeeze_value(t: Seq<u8>, c: u32) -> u128 {
    spec_u128_from_le_bytes(sha256(squeeze_input(t, c)).subrange(0, 16))
}

/// The query index below `n` drawn at counter `c` on transcript `t`.
pub open spec fn query_value(t: Seq<u8>, c: u32, n: usize) -> usize {
    ((squeeze_value(t, c) as usize) % n) as usize
}

/// Drawing queries below `n` until `s` distinct ones are collected in `acc`
/// (or the counter is exhausted): the queries, in the order first drawn, and
/// the final transcript and counter.
pub open spec fn distinct_queries(t: Seq<u8>, c: u32, n: usize, s: nat, acc: Seq<usize>) -> (
    Seq<usize>,
    Seq<u8>,
    u32,
)
    decreases u32::MAX - c,
{
    if acc.len() >= s || c == u32::MAX {
        (acc, t, c)
    } else {
        let q = query_value(t, c, n);
        let acc2 = if acc.contains(q) {
            acc
        } else {
            acc.push(q)
        };
        distinct_queries(squeeze_input(t, c), (c + 1) as u32, n, s, acc2)
    }
}

/// The transcript and counter after `k` squeezes from `(t, c)`.
pub open spec fn after_squeezes(t: Seq<u8>, c: u32, k: nat) -> (Seq<u8>, u32)
    decreases k,
{
    if k == 0 {
        (t, c)
    } else {
        let p = after_squeezes(t, c, (k - 1) as nat);
        (squeeze_input(p.0, p.1), (p.1 + 1) as u32)
    }
}

/// No value occurs twice.
pub open spec fn all_distinct(qs: Seq<usize>) -> bool {
    forall|a: int, b: int| 0 <= a < b < qs.len() ==> #[trigger] qs[a] != #[trigger] qs[b]
}

/// A Fiat-Shamir transcript.
pub struct FS {
    transcript: Vec<u8>,
    counter: u32,
}

impl FS {
    /// The bytes hashed so far.
    pub closed spec fn spec_transcript(self) -> Seq<u8> {
        self.transcript@
    }

    /// The number of squeezes made so far.
    pub closed spec fn spec_counter(self) -> u32 {
        self.counter
    }

    /// A transcript seeded with `seed`.
    pub fn new(seed: u32) -> (r: Self)
        ensures
            r.spec_transcript() == spec_u32_to_le_bytes(seed),
            r.spec_counter() == 0,
    {
        FS { transcript: u32_to_le_bytes(seed), counter: 0 }
    }

    /// The number of squeezes made so far.
    pub fn counter(&self) -> (r: u32)
        ensures
            r == self.spec_counter(),
    {
        self.counter
    }

    /// Appends `elems` to the transcript.
    pub fn absorb(&mut self, elems: &[u8])
        ensures
            final(self).spec_transcript() == old(self).spec_transcript() + elems@,
            final(self).spec_counter() == old(self).spec_counter(),
    {
        let mut tail = vstd::slice::slice_to_vec(elems);
        self.transcript.append(&mut tail);
    }

    /// Absorbs the counter, advances it, and returns the first 16 bytes of
    /// the hash of the transcript as a little-endian `u128`.
    pub fn squeeze(&mut self) -> (r: u128)
        requires
            old(self).spec_counter() < u32::MAX,
        ensures
            r == squeeze_value(old(self).spec_transcript(), old(self).spec_counter()),
            final(self).spec_transcript() == squeeze_input(
                old(self).spec_transcript(),
                old(self).spec_counter(),
            ),
            final(self).spec_counter() == old(self).spec_counter() + 1,
    {
        let mut ctr = u32_to_le_bytes(self.counter);
        self.transcript.append(&mut ctr);
        self.counter = self.counter + 1;
        let digest = sha256_digest(self.transcript.as_slice());
        let head = slice_subrange(digest.as_slice(), 0, 16);
        u128_from_le_bytes(head)
    }

    /// A field element made of the low bits of a squeeze.
    pub fn get_field<F: BinaryField>(&mut self) -> (r: F)
        requires
            old(self).spec_counter() < u32::MAX,
        ensures
            r == F::spec_from_u128(squeeze_value(old(self).spec_transcript(), old(self).spec_counter())),
            final(self).spec_transcript() == squeeze_input(
                old(self).spec_transcript(),
                old(self).spec_counter(),
            ),
            final(self).spec_counter() == old(self).spec_counter() + 1,
    {
        let value = self.squeeze();
        F::from_u128(value)
    }

    /// A query index below `n`: a squeeze, truncated to `usize`, modulo `n`.
    pub fn get_query(&mut self, n: usize) -> (r: usize)
        requires
            n > 0,
            old(self).spec_counter() < u32::MAX,
        ensures
            r == query_value(old(self).spec_transcript(), old(self).spec_counter(), n),
            r < n,
            final(self).spec_transcript() == squeeze_input(
                old(self).spec_transcript(),
                old(self).spec_counter(),
            ),
            final(self).spec_counter() == old(self).spec_counter() + 1,
    {
        let value = self.squeeze() as usize;
        value % n
    }

    /// `s` distinct query indices below `n`, in the order first drawn.
    /// Drawing stops early only if the counter runs out.
    pub fn get_distinct_queries(&mut self, n: usize, s: usize) -> (r: Vec<usize>)
        requires
            s == 0 || n > 0,
            s <= n,
        ensures
            (r@, final(self).spec_transcript(), final(self).spec_counter()) == distinct_queries(
                old(self).spec_transcript(),
                old(self).spec_counter(),
                n,
                s as nat,
                seq![],
            ),
            all_distinct(r@),
            forall|j: int| 0 <= j < r@.len() ==> #[trigger] r@[j] < n,
            r@.len() <= s,
            r@.len() == s || final(self).spec_counter() == u32::MAX,
    {
        let ghost t0 = self.spec_transcript();
        let ghost c0 = self.spec_counter();
        let mut queries: Vec<usize> = Vec::with_capacity(s);
        let mut seen: HashSet<usize> = HashSet::new();
        proof {
            lemma_distinct_queries(t0, c0, n, s as nat, seq![]);
        }
        while queries.len() < s && self.counter < u32::MAX
            invariant
                s == 0 || n > 0,
                s <= n,
                queries@.len() <= s,
                seen@ == queries@.to_set(),
                all_distinct(queries@),
                forall|j: int| 0 <= j < queries@.len() ==> #[trigger] queries@[j] < n,
                distinct_queries(self.spec_transcript(), self.spec_counter(), n, s as nat, queries@)
                    == distinct_queries(t0, c0, n, s as nat, seq![]),
            decreases u32::MAX - self.spec_counter(),
        {
            let ghost t = self.spec_transcript();
            let ghost c = self.spec_counter();
            let ghost acc = queries@;
            let q = self.get_query(n);
            if !seen.contains(&q) {
                proof {
                    assert(!acc.contains(q));
                    assert forall|a: int, b: int| 0 <= a < b < acc.push(q).len() implies #[trigger] acc.push(q)[a]
                        != #[trigger] acc.push(q)[b] by {
                        if b == acc.len() {
                            assert(acc[a] == acc.push(q)[a]);
                            assert(acc.contains(acc[a]));
                        }
                    }
                }
                queries.push(q);
                seen.insert(q);
                proof {
                    assert(queries@ == acc.push(q));
                    assert(seen@ =~= queries@.to_set()) by {
                        assert forall|x: usize| seen@.contains(x) <==> queries@.to_set().contains(x) by {
                            if x == q {
                                assert(queries@[acc.len() as int] == q);
                            } else if acc.contains(x) {
                                let k = choose|k: int| 0 <= k < acc.len() && acc[k] == x;
                                assert(queries@[k] == x);
                            }
                        }
                    }
                }
            } else {
                proof {
                    assert(acc.contains(q));
                }
            }
        }
        queries
    }
}

/// What `distinct_queries` collects stays distinct, below `n`, and stops at
/// `s` unless the counter runs out.
pub proof fn lemma_distinct_queries(t: Seq<u8>, c: u32, n: usize, s: nat, acc: Seq<usize>)
    requires
        n > 0 || acc.len() >= s,
        all_distinct(acc),
        forall|j: int| 0 <= j < acc.len() ==> #[trigger] acc[j] < n,
        acc.len() <= s,
    ensures
        ({
            let r = distinct_queries(t, c, n, s, acc);
            &&& all_distinct(r.0)
            &&& forall|j: int| 0 <= j < r.0.len() ==> #[trigger] r.0[j] < n
            &&& r.0.len() <= s
            &&& r.0.len() == s || r.2 == u32::MAX
        }),
    decreases u32::MAX - c,
{
    if acc.len() >= s || c == u32::MAX {
    } else {
        let q = query_value(t, c, n);
        if acc.contains(q) {
            lemma_distinct_queries(squeeze_input(t, c), (c + 1) as u32, n, s, acc);
        } else {
            let acc2 = acc.push(q);
            assert forall|a: int, b: int| 0 <= a < b < acc2.len() implies #[trigger] acc2[a] != #[trigger] acc2[b] by {
                if b == acc.len() {
                    assert(acc2[a] == acc[a]);
                    assert(acc.contains(acc[a]));
                } else {
                    assert(acc2[a] == acc[a]);
                    assert(acc2[b] == acc[b]);
                }
            }
            assert forall|j: int| 0 <= j < acc2.len() implies #[trigger] acc2[j] < n by {
                if j < acc.len() {
                    assert(acc2[j] == acc[j]);
                }
            }
            lemma_distinct_queries(squeeze_input(t, c), (c + 1) as u32, n, s, acc2);
        }
    }
}

/// A field element from the next squeeze, or `None` when the counter is
/// used up.
pub(crate) fn next_field<F: BinaryField>(fs: &mut FS) -> (r: Option<F>)
    ensures
        old(fs).spec_counter() == u32::MAX ==> r is None && *final(fs) == *old(fs),
        old(fs).spec_counter() < u32::MAX ==> {
            &&& r == Some(F::spec_from_u128(squeeze_value(old(fs).spec_transcript(), old(fs).spec_counter())))
            &&& final(fs).spec_transcript() == squeeze_input(old(fs).spec_transcript(), old(fs).spec_counter())
            &&& final(fs).spec_counter() == old(fs).spec_counter() + 1
        },
{
    if fs.counter() == u32::MAX {
        return None;
    }
    Some(fs.get_field())
}

/// `s` distinct queries below `n` drawn from the transcript, in increasing
/// order; `None` when the counter runs out first.
pub(crate) fn draw_sorted_queries(fs: &mut FS, n: usize, s: usize) -> (r: Option<Vec<usize>>)
    requires
        n > 0,
        s <= n,
    ensures
        ({
            let d = distinct_queries(old(fs).spec_transcript(), old(fs).spec_counter(), n, s as nat, seq![]);
            &&& final(fs).spec_transcript() == d.1
            &&& final(fs).spec_counter() == d.2
            &&& r is None <==> d.0.len() < s
            &&& r matches Some(q) ==> {
                &&& q@.len() == s
                &&& strictly_increasing(q@)
                &&& all_below(q@, n as int)
                &&& q@.to_multiset() == d.0.to_multiset()
            }
        }),
{
    let drawn = fs.get_distinct_queries(n, s);
    if drawn.len() < s {
        return None;
    }
    let sorted = sort_queries(&drawn);
    proof {
        assert forall|j: int| 0 <= j < sorted@.len() implies #[trigger] sorted@[j] < n by {
            assert(sorted@.contains(sorted@[j]));
            assert(drawn@.contains(sorted@[j]));
        }
    }
    Some(sorted)
}

} // verus!
