//! Hash-trick tokenizer.
//!
//! Text is split on every byte that is not an ASCII letter, digit, `_`
//! or `-`; empty pieces are dropped. Each remaining token is hashed with
//! FNV-1a over its UTF-8 bytes and reduced modulo a fixed bucket count,
//! yielding an ordered sequence of bucket indices. Splitting on bytes
//! agrees with splitting on characters here, because every byte of a
//! multi-byte UTF-8 character is outside the ASCII token alphabet.

use vstd::prelude::*;
use vstd::string::StringSliceAdditionalSpecFns;

verus! {

pub const FNV_OFFSET: u64 = 0xcbf29ce484222325;

pub const FNV_PRIME: u64 = 0x100000001b3;

/// FNV-1a over a byte sequence: start from the offset basis, then for
/// each byte xor it in and multiply (wrapping) by the FNV prime.
pub open spec fn fnv1a(bytes: Seq<u8>) -> u64
    decreases bytes.len(),
{
    if bytes.len() == 0 {
        FNV_OFFSET
    } else {
        vstd::wrapping::u64_specs::wrapping_mul(
            fnv1a(bytes.drop_last()) ^ (bytes.last() as u64),
            FNV_PRIME,
        )
    }
}

/// Bytes that may appear inside a token: ASCII alphanumerics, `_`, `-`.
pub open spec fn is_token_byte(b: u8) -> bool {
    (0x30 <= b && b <= 0x39)  // digits
    || (0x41 <= b && b <= 0x5a)  // upper-case letters
    || (0x61 <= b && b <= 0x7a)  // lower-case letters
    || b == 0x5f  // underscore
    || b == 0x2d  // hyphen
}

/// The maximal runs of token bytes of `s`, in order, given that the
/// token-byte run `cur` immediately precedes `s`.
pub open spec fn tokens_from(s: Seq<u8>, cur: Seq<u8>) -> Seq<Seq<u8>>
    decreases s.len(),
{
    if s.len() == 0 {
        if cur.len() > 0 {
            seq![cur]
        } else {
            Seq::empty()
        }
    } else if is_token_byte(s[0]) {
        tokens_from(s.drop_first(), cur.push(s[0]))
    } else {
        (if cur.len() > 0 {
            seq![cur]
        } else {
            Seq::<Seq<u8>>::empty()
        }) + tokens_from(s.drop_first(), Seq::empty())
    }
}

/// The non-empty maximal runs of token bytes of `s`, in order.
pub open spec fn tokens(s: Seq<u8>) -> Seq<Seq<u8>> {
    tokens_from(s, Seq::empty())
}

/// The bucket a single token falls into.
pub open spec fn bucket_of(token: Seq<u8>, buckets: usize) -> usize {
    (fnv1a(token) % (buckets as u64)) as usize
}

/// The bucket of every token of `ts`, in order.
pub open spec fn buckets_of(ts: Seq<Seq<u8>>, buckets: usize) -> Seq<usize> {
    ts.map_values(|t: Seq<u8>| bucket_of(t, buckets))
}

/// Hash a byte string with FNV-1a (64 bit, offset basis
/// `0xcbf29ce484222325`, prime `0x100000001b3`, wrapping multiply).
pub fn fnv1a_hash(bytes: &[u8]) -> (r: u64)
    ensures
        r == fnv1a(bytes@),
{
    let n: usize = bytes.len();
    let mut hash: u64 = FNV_OFFSET;
    let mut i: usize = 0;
    while i < n
        invariant
            n == bytes@.len(),
            i <= n,
            hash == fnv1a(bytes@.take(i as int)),
        decreases n - i,
    {
        hash = (hash ^ (bytes[i] as u64)).wrapping_mul(FNV_PRIME);
        i = i + 1;
        proof {
            assert(bytes@.take(i as int).drop_last() =~= bytes@.take(i - 1));
            assert(bytes@.take(i as int).last() == bytes@[i - 1]);
        }
    }
    proof {
        assert(bytes@.take(n as int) =~= bytes@);
    }
    hash
}

/// Maps text to bucket indices by splitting and hashing. The bucket
/// count is fixed at construction and must be positive.
#[derive(Clone, Debug)]
pub struct HashTrickTokenizer {
    buckets: usize,
}

impl HashTrickTokenizer {
    /// The configured bucket count.
    pub closed spec fn spec_buckets(&self) -> usize {
        self.buckets
    }

    /// A tokenizer is well formed when it has at least one bucket.
    pub open spec fn wf(&self) -> bool {
        self.spec_buckets() > 0
    }

    pub fn new(buckets: usize) -> (r: HashTrickTokenizer)
        requires
            buckets > 0,
        ensures
            r.wf(),
            r.spec_buckets() == buckets,
    {
        HashTrickTokenizer { buckets }
    }

    pub fn buckets(&self) -> (r: usize)
        ensures
            r == self.spec_buckets(),
    {
        self.buckets
    }

    /// Split `text` into tokens and hash each into a bucket index.
    /// Empty text (or text with no token byte) yields no indices.
    pub fn token_indices(&self, text: &str) -> (r: Vec<usize>)
        requires
            self.wf(),
        ensures
            r@ == buckets_of(tokens(text.spec_bytes()), self.spec_buckets()),
            forall|i: int| 0 <= i < r@.len() ==> r@[i] < self.spec_buckets(),
    {
        let bytes: &[u8] = text.as_bytes();
        let ghost s = bytes@;
        let ghost bb = self.spec_buckets();
        let n: usize = bytes.len();
        let mut res: Vec<usize> = Vec::new();
        let mut cur_hash: u64 = FNV_OFFSET;
        let mut cur_len: usize = 0;
        let ghost mut cur: Seq<u8> = Seq::empty();
        let mut i: usize = 0;
        proof {
            assert(s.skip(0) =~= s);
            assert(res@ + buckets_of(tokens_from(s, cur), bb) =~= buckets_of(tokens(s), bb));
        }
        while i < n
            invariant
                self.wf(),
                bb == self.spec_buckets(),
                s == bytes@,
                n == s.len(),
                i <= n,
                cur_len == cur.len(),
                cur.len() <= i,
                cur_hash == fnv1a(cur),
                buckets_of(tokens(s), bb) == res@ + buckets_of(tokens_from(s.skip(i as int), cur), bb),
                forall|k: int| 0 <= k < res@.len() ==> res@[k] < bb,
            decreases n - i,
        {
            let ghost prev_cur = cur;
            let ghost prev_res = res@;
            let ghost si = s.skip(i as int);
            proof {
                assert(si.len() > 0);
                assert(si[0] == s[i as int]);
                assert(si.drop_first() =~= s.skip(i + 1));
            }
            let b = bytes[i];
            if is_token_byte_exec(b) {
                cur_hash = (cur_hash ^ (b as u64)).wrapping_mul(FNV_PRIME);
                cur_len = cur_len + 1;
                proof {
                    let pushed = prev_cur.push(b);
                    assert(pushed.drop_last() =~= prev_cur);
                    assert(pushed.last() == b);
                    cur = pushed;
                    assert(tokens_from(si, prev_cur) == tokens_from(s.skip(i + 1), cur));
                }
            } else {
                if cur_len > 0 {
                    let idx = (cur_hash % (self.buckets as u64)) as usize;
                    res.push(idx);
                    proof {
                        assert(idx == bucket_of(prev_cur, bb));
                    }
                }
                cur_hash = FNV_OFFSET;
                cur_len = 0;
                proof {
                    cur = Seq::empty();
                    if prev_cur.len() > 0 {
                        let rest = tokens_from(s.skip(i + 1), cur);
                        assert(tokens_from(si, prev_cur) =~= seq![prev_cur] + rest);
                        lemma_buckets_of_cons(prev_cur, rest, bb);
                        assert(prev_res + buckets_of(tokens_from(si, prev_cur), bb) =~= res@
                            + buckets_of(rest, bb));
                    } else {
                        assert(tokens_from(si, prev_cur) == tokens_from(s.skip(i + 1), cur));
                    }
                }
            }
            i = i + 1;
        }
        if cur_len > 0 {
            let idx = (cur_hash % (self.buckets as u64)) as usize;
            let ghost prev_res = res@;
            res.push(idx);
            proof {
                assert(s.skip(n as int) =~= Seq::<u8>::empty());
                assert(tokens_from(s.skip(n as int), cur) =~= seq![cur]);
                assert(idx == bucket_of(cur, bb));
                lemma_buckets_of_cons(cur, Seq::empty(), bb);
                assert(buckets_of(Seq::<Seq<u8>>::empty(), bb) =~= Seq::<usize>::empty());
                assert(prev_res + buckets_of(tokens_from(s.skip(n as int), cur), bb) =~= res@);
            }
        } else {
            proof {
                assert(s.skip(n as int) =~= Seq::<u8>::empty());
                assert(cur =~= Seq::<u8>::empty());
                assert(buckets_of(tokens_from(s.skip(n as int), cur), bb) =~= Seq::<usize>::empty());
            }
        }
        proof {
            assert(res@ =~= buckets_of(tokens(s), bb));
        }
        res
    }
}

/// Executable form of [`is_token_byte`].
pub fn is_token_byte_exec(b: u8) -> (r: bool)
    ensures
        r == is_token_byte(b),
{
    (0x30 <= b && b <= 0x39) || (0x41 <= b && b <= 0x5a) || (0x61 <= b && b <= 0x7a) || b == 0x5f
        || b == 0x2d
}

proof fn lemma_buckets_of_cons(t: Seq<u8>, rest: Seq<Seq<u8>>, buckets: usize)
    ensures
        buckets_of(seq![t] + rest, buckets) =~= seq![bucket_of(t, buckets)] + buckets_of(
            rest,
            buckets,
        ),
{
}

} // verus!
