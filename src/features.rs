//! Byte-level features: the byte histogram and hashed token buckets.
use vstd::prelude::*;

use crate::ratio::Ratio;
use crate::text::{split_str, str_split, views};

verus! {

/// How many of `s` equal `b`.
pub open spec fn byte_count(s: Seq<u8>, b: int) -> nat
    decreases s.len(),
{
    if s.len() == 0 {
        0
    } else {
        byte_count(s.drop_last(), b) + if s.last() == b {
            1nat
        } else {
            0nat
        }
    }
}

/// The counts of the byte values below `n`, added up.
pub open spec fn bins_total(s: Seq<u8>, n: int) -> int
    decreases n,
{
    if n <= 0 {
        0
    } else {
        bins_total(s, n - 1) + byte_count(s, n - 1)
    }
}

proof fn lemma_byte_count_le(s: Seq<u8>, b: int)
    ensures
        byte_count(s, b) <= s.len(),
    decreases s.len(),
{
    if s.len() > 0 {
        lemma_byte_count_le(s.drop_last(), b);
    }
}

/// The share of each of the 256 byte values among `bytes`, as exact ratios
/// of counts to the length.
pub fn to_byte_histogram(bytes: &[u8]) -> (r: Vec<Ratio>)
    ensures
        r@.len() == 256,
        forall|b: int|
            0 <= b < 256 ==> #[trigger] r@[b] == (Ratio {
                num: byte_count(bytes@, b) as u64,
                den: bytes@.len() as u64,
            }),
{
    let mut counts: Vec<u64> = Vec::new();
    let mut b: usize = 0;
    while b < 256
        invariant
            b <= 256,
            counts@.len() == b,
            forall|x: int| 0 <= x < b ==> #[trigger] counts@[x] == 0,
        decreases 256 - b,
    {
        counts.push(0);
        b = b + 1;
    }
    let mut i: usize = 0;
    while i < bytes.len()
        invariant
            i <= bytes@.len(),
            counts@.len() == 256,
            forall|x: int| 0 <= x < 256 ==> #[trigger] counts@[x] == byte_count(bytes@.take(i as int), x),
        decreases bytes@.len() - i,
    {
        let v = bytes[i] as usize;
        assert(bytes@.take(i + 1).drop_last() =~= bytes@.take(i as int));
        proof {
            lemma_byte_count_le(bytes@.take(i as int), v as int);
        }
        let c = counts[v];
        counts.set(v, c + 1);
        i = i + 1;
    }
    assert(bytes@.take(i as int) =~= bytes@);
    let len = bytes.len() as u64;
    let mut out: Vec<Ratio> = Vec::new();
    let mut b: usize = 0;
    while b < 256
        invariant
            b <= 256,
            counts@.len() == 256,
            len == bytes@.len(),
            forall|x: int| 0 <= x < 256 ==> #[trigger] counts@[x] == byte_count(bytes@, x),
            out@.len() == b,
            forall|x: int|
                0 <= x < b ==> #[trigger] out@[x] == (Ratio {
                    num: byte_count(bytes@, x) as u64,
                    den: bytes@.len() as u64,
                }),
        decreases 256 - b,
    {
        out.push(Ratio { num: counts[b], den: len });
        b = b + 1;
    }
    out
}

proof fn lemma_bins_push(s: Seq<u8>, x: u8, n: int)
    requires
        0 <= n <= 256,
    ensures
        bins_total(s.push(x), n) == bins_total(s, n) + if x < n {
            1int
        } else {
            0int
        },
    decreases n,
{
    assert(s.push(x).drop_last() =~= s);
    if n > 0 {
        lemma_bins_push(s, x, n - 1);
    }
}

/// The histogram's counts add up to the length, so that for a non-empty
/// buffer its ratios sum to exactly one.
pub proof fn lemma_histogram_total(bytes: Seq<u8>)
    ensures
        bins_total(bytes, 256) == bytes.len(),
    decreases bytes.len(),
{
    if bytes.len() == 0 {
        lemma_bins_empty(bytes, 256);
    } else {
        let p = bytes.drop_last();
        lemma_histogram_total(p);
        assert(p.push(bytes.last()) =~= bytes);
        lemma_bins_push(p, bytes.last(), 256);
    }
}

proof fn lemma_bins_empty(s: Seq<u8>, n: int)
    requires
        s.len() == 0,
    ensures
        bins_total(s, n) == 0,
    decreases n,
{
    if n > 0 {
        lemma_bins_empty(s, n - 1);
    }
}

/// A non-empty buffer of one repeated byte value puts its whole length in
/// that value's bin and nothing in any other, so its histogram has a single
/// bin of probability one.
pub proof fn lemma_single_value_histogram(bytes: Seq<u8>, c: u8)
    requires
        forall|i: int| 0 <= i < bytes.len() ==> #[trigger] bytes[i] == c,
    ensures
        byte_count(bytes, c as int) == bytes.len(),
        forall|b: int| b != c ==> #[trigger] byte_count(bytes, b) == 0,
    decreases bytes.len(),
{
    if bytes.len() > 0 {
        let p = bytes.drop_last();
        assert forall|i: int| 0 <= i < p.len() implies #[trigger] p[i] == c by {
            assert(p[i] == bytes[i]);
        }
        lemma_single_value_histogram(p, c);
        assert(bytes.last() == bytes[bytes.len() - 1]);
        assert forall|b: int| b != c implies #[trigger] byte_count(bytes, b) == 0 by {
            assert(byte_count(p, b) == 0);
        }
    }
}

} // verus!

verus! {

/// What murmur3's 32-bit hash with seed 0 gives for `bytes` read from
/// memory, or `None` where it reports a read error.
pub uninterp spec fn murmur3_32_of(bytes: Seq<u8>) -> Option<u32>;

/// Relies on `murmur3::murmur3_32`, seed 0, over a `std::io::Cursor` on the
/// token: its result depends on the bytes alone. The hash counts the bytes
/// read in a `u32`, hence the bound on the length.
#[verifier::external_body]
fn murmur3_hash(token: &[u8]) -> (r: Option<u32>)
    requires
        token@.len() <= u32::MAX,
    ensures
        r == murmur3_32_of(token@),
{
    murmur3::murmur3_32(&mut std::io::Cursor::new(token), 0).ok()
}

/// The hash of one token; a token too long for the hasher has none.
pub open spec fn token_hash(t: Seq<u8>) -> Option<u32> {
    if t.len() <= u32::MAX {
        murmur3_32_of(t)
    } else {
        None
    }
}

/// The hashes of all tokens, or `None` if any token has none.
pub open spec fn token_hashes(tokens: Seq<Seq<u8>>) -> Option<Seq<u32>>
    decreases tokens.len(),
{
    if tokens.len() == 0 {
        Some(Seq::empty())
    } else {
        match (token_hashes(tokens.drop_last()), token_hash(tokens.last())) {
            (Some(hs), Some(h)) => Some(hs.push(h)),
            _ => None,
        }
    }
}

/// How many of `hashes` fall in bucket `b` of `m`.
pub open spec fn bucket_hits(hashes: Seq<u32>, m: int, b: int) -> nat
    decreases hashes.len(),
{
    if hashes.len() == 0 {
        0
    } else {
        bucket_hits(hashes.drop_last(), m, b) + if (hashes.last() as int) % m == b {
            1nat
        } else {
            0nat
        }
    }
}

/// The bucket vector of `hashes`: `k_buckets - 1` buckets, each holding how
/// many hashes fall in it, or with `binary` whether any does. One of the
/// `k_buckets` requested buckets is never allocated, which looks like an
/// off-by-one; the vector's length is pinned by the tests.
pub open spec fn bucketed(hashes: Seq<u32>, k_buckets: int, binary: bool) -> Seq<u64> {
    Seq::new(
        (k_buckets - 1) as nat,
        |b: int|
            if binary {
                if bucket_hits(hashes, k_buckets - 1, b) > 0 {
                    1u64
                } else {
                    0u64
                }
            } else {
                bucket_hits(hashes, k_buckets - 1, b) as u64
            },
    )
}

/// What the hash trick makes of `input` split at `delimiter`.
pub open spec fn hash_trick_result(
    input: Seq<char>,
    k_buckets: int,
    binary: bool,
    delimiter: Seq<char>,
) -> Option<Seq<u64>> {
    match token_hashes(str_split(input, delimiter)) {
        Some(hs) => Some(bucketed(hs, k_buckets, binary)),
        None => None,
    }
}

proof fn lemma_hits_le(hashes: Seq<u32>, m: int, b: int)
    ensures
        bucket_hits(hashes, m, b) <= hashes.len(),
    decreases hashes.len(),
{
    if hashes.len() > 0 {
        lemma_hits_le(hashes.drop_last(), m, b);
    }
}

/// Puts each hash in bucket `hash % (k_buckets - 1)`: a counter per bucket,
/// or with `binary` a mark of one.
pub fn bucket_hashes(hashes: &Vec<u32>, k_buckets: u32, binary: bool) -> (r: Vec<u64>)
    requires
        k_buckets >= 2,
    ensures
        r@ == bucketed(hashes@, k_buckets as int, binary),
{
    let m = k_buckets - 1;
    let mut out: Vec<u64> = Vec::new();
    let mut b: u32 = 0;
    while b < m
        invariant
            b <= m,
            out@.len() == b,
            forall|x: int| 0 <= x < b ==> #[trigger] out@[x] == 0,
        decreases m - b,
    {
        out.push(0);
        b = b + 1;
    }
    let mut i: usize = 0;
    while i < hashes.len()
        invariant
            m == k_buckets - 1,
            m >= 1,
            i <= hashes@.len(),
            out@.len() == m,
            forall|x: int|
                0 <= x < m ==> #[trigger] out@[x] == if binary {
                    if bucket_hits(hashes@.take(i as int), m as int, x) > 0 {
                        1u64
                    } else {
                        0u64
                    }
                } else {
                    bucket_hits(hashes@.take(i as int), m as int, x) as u64
                },
        decreases hashes@.len() - i,
    {
        let h = hashes[i];
        let idx = (h % m) as usize;
        assert(hashes@.take(i + 1).drop_last() =~= hashes@.take(i as int));
        proof {
            lemma_hits_le(hashes@.take(i as int), m as int, idx as int);
        }
        if binary {
            out.set(idx, 1);
        } else {
            let c = out[idx];
            out.set(idx, c + 1);
        }
        i = i + 1;
    }
    assert(hashes@.take(i as int) =~= hashes@);
    assert(out@ =~= bucketed(hashes@, k_buckets as int, binary));
    out
}

/// Splits `input` at `delimiter` as `str::split` does, hashes each token with murmur3 and puts
/// the hashes in buckets as `bucket_hashes` does. `None` where a token could
/// not be hashed.
pub fn hash_trick(input: &str, k_buckets: u32, binary: bool, delimiter: &str) -> (r: Option<
    Vec<u64>,
>)
    requires
        k_buckets >= 2,
    ensures
        match r {
            Some(v) => hash_trick_result(
                input@,
                k_buckets as int,
                binary,
                delimiter@,
            ) == Some(v@),
            None => hash_trick_result(
                input@,
                k_buckets as int,
                binary,
                delimiter@,
            ) is None,
        },
{
    let tokens = split_str(input, delimiter);
    let ghost ts = views(tokens@);
    let mut hashes: Vec<u32> = Vec::new();
    let mut i: usize = 0;
    while i < tokens.len()
        invariant
            ts == views(tokens@),
            ts == str_split(input@, delimiter@),
            i <= tokens@.len(),
            token_hashes(ts.take(i as int)) == Some(hashes@),
        decreases tokens@.len() - i,
    {
        let t = tokens[i].as_slice();
        assert(ts.take(i + 1).drop_last() =~= ts.take(i as int));
        assert(t@ == ts[i as int]);
        if t.len() > u32::MAX as usize {
            assert(token_hashes(ts.take(i + 1)) is None);
            proof {
                lemma_hashes_none_extends(ts, i as int + 1);
            }
            return None;
        }
        match murmur3_hash(t) {
            Some(h) => {
                hashes.push(h);
            },
            None => {
                assert(token_hashes(ts.take(i + 1)) is None);
                proof {
                    lemma_hashes_none_extends(ts, i as int + 1);
                }
                return None;
            },
        }
        i = i + 1;
    }
    assert(ts.take(i as int) =~= ts);
    Some(bucket_hashes(&hashes, k_buckets, binary))
}

proof fn lemma_hashes_none_extends(ts: Seq<Seq<u8>>, i: int)
    requires
        0 <= i <= ts.len(),
        token_hashes(ts.take(i)) is None,
    ensures
        token_hashes(ts) is None,
    decreases ts.len() - i,
{
    if i < ts.len() {
        assert(ts.take(i + 1).drop_last() =~= ts.take(i));
        lemma_hashes_none_extends(ts, i + 1);
    } else {
        assert(ts.take(i) =~= ts);
    }
}

/// Hashing the same text with the same buckets, mode and delimiter always
/// gives the same vector: any two results that the contract of `hash_trick`
/// admits are equal.
pub proof fn lemma_hash_trick_deterministic(
    input: Seq<char>,
    k_buckets: int,
    binary: bool,
    delimiter: Seq<char>,
    first: Option<Seq<u64>>,
    second: Option<Seq<u64>>,
)
    requires
        first == hash_trick_result(input, k_buckets, binary, delimiter),
        second == hash_trick_result(input, k_buckets, binary, delimiter),
    ensures
        first == second,
{
}

} // verus!
