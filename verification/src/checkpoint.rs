//! Versioned binary checkpoint container.
//!
//! Layout, all integers little-endian: the four magic bytes `SGPT`, a
//! `u32` version, a `u32` flags word, a `u32` configuration-blob
//! length, the configuration blob (JSON, see [`crate::config_codec`]),
//! a `u32` parameter count, and per parameter a `u32` element count
//! followed by that many 8-byte words. Each word carries one 64-bit
//! IEEE-754 double as its bit pattern; this module moves the patterns
//! unchanged, so a round trip preserves every parameter bit for bit.
//! Bytes after the last parameter are ignored.

use vstd::prelude::*;
use crate::config_codec::{encode_config, parse_config, spec_config_json, spec_parse_config};
use crate::model::ScorerConfig;

verus! {

/// The present container version.
pub const CHECKPOINT_VERSION: u32 = 1;

/// Why a checkpoint cannot be decoded or applied.
#[derive(Debug)]
pub enum CheckpointError {
    /// Magic wrong, truncated, or a count that does not fit the data.
    InvalidFormat(String),
    /// The configuration blob is not a readable configuration object.
    Json,
}

/// A decoded checkpoint: header words, configuration, and per slot the
/// bit patterns of its doubles.
#[derive(Debug)]
pub struct LoadedCheckpoint {
    pub version: u32,
    pub flags: u32,
    pub config: ScorerConfig,
    pub params: Vec<Vec<u64>>,
}

// ---------------------------------------------------------------
// Little-endian words
// ---------------------------------------------------------------
pub open spec fn spec_le32(n: u32) -> Seq<u8> {
    seq![
        (n & 0xff) as u8,
        ((n >> 8) & 0xff) as u8,
        ((n >> 16) & 0xff) as u8,
        ((n >> 24) & 0xff) as u8,
    ]
}

pub open spec fn spec_le64(n: u64) -> Seq<u8> {
    seq![
        (n & 0xff) as u8,
        ((n >> 8) & 0xff) as u8,
        ((n >> 16) & 0xff) as u8,
        ((n >> 24) & 0xff) as u8,
        ((n >> 32) & 0xff) as u8,
        ((n >> 40) & 0xff) as u8,
        ((n >> 48) & 0xff) as u8,
        ((n >> 56) & 0xff) as u8,
    ]
}

/// The `u32` whose little-endian bytes sit at `i`.
pub open spec fn spec_le32_at(s: Seq<u8>, i: int) -> u32 {
    (s[i] as u32) | ((s[i + 1] as u32) << 8) | ((s[i + 2] as u32) << 16) | ((s[i + 3] as u32)
        << 24)
}

/// The `u64` whose little-endian bytes sit at `i`.
pub open spec fn spec_le64_at(s: Seq<u8>, i: int) -> u64 {
    (s[i] as u64) | ((s[i + 1] as u64) << 8) | ((s[i + 2] as u64) << 16) | ((s[i + 3] as u64)
        << 24) | ((s[i + 4] as u64) << 32) | ((s[i + 5] as u64) << 40) | ((s[i + 6] as u64) << 48)
        | ((s[i + 7] as u64) << 56)
}

proof fn lemma_le32_roundtrip(n: u32)
    ensures
        spec_le32_at(spec_le32(n), 0) == n,
{
    assert(((n & 0xff) as u8 as u32) | ((((n >> 8) & 0xff) as u8 as u32) << 8) | ((((n >> 16)
        & 0xff) as u8 as u32) << 16) | ((((n >> 24) & 0xff) as u8 as u32) << 24) == n)
        by (bit_vector);
}

proof fn lemma_le64_roundtrip(n: u64)
    ensures
        spec_le64_at(spec_le64(n), 0) == n,
{
    assert(((n & 0xff) as u8 as u64) | ((((n >> 8) & 0xff) as u8 as u64) << 8) | ((((n >> 16)
        & 0xff) as u8 as u64) << 16) | ((((n >> 24) & 0xff) as u8 as u64) << 24) | ((((n >> 32)
        & 0xff) as u8 as u64) << 32) | ((((n >> 40) & 0xff) as u8 as u64) << 40) | ((((n >> 48)
        & 0xff) as u8 as u64) << 48) | ((((n >> 56) & 0xff) as u8 as u64) << 56) == n)
        by (bit_vector);
}

/// `spec_le32_at` reads only the four bytes at `i`.
proof fn lemma_le32_at_of(s: Seq<u8>, i: int, n: u32)
    requires
        0 <= i,
        i + 4 <= s.len(),
        s.subrange(i, i + 4) == spec_le32(n),
    ensures
        spec_le32_at(s, i) == n,
{
    assert(s[i] == spec_le32(n)[0]);
    assert(s[i + 1] == spec_le32(n)[1]);
    assert(s[i + 2] == spec_le32(n)[2]);
    assert(s[i + 3] == spec_le32(n)[3]);
    lemma_le32_roundtrip(n);
}

proof fn lemma_le64_at_of(s: Seq<u8>, i: int, n: u64)
    requires
        0 <= i,
        i + 8 <= s.len(),
        s.subrange(i, i + 8) == spec_le64(n),
    ensures
        spec_le64_at(s, i) == n,
{
    assert(s[i] == spec_le64(n)[0]);
    assert(s[i + 1] == spec_le64(n)[1]);
    assert(s[i + 2] == spec_le64(n)[2]);
    assert(s[i + 3] == spec_le64(n)[3]);
    assert(s[i + 4] == spec_le64(n)[4]);
    assert(s[i + 5] == spec_le64(n)[5]);
    assert(s[i + 6] == spec_le64(n)[6]);
    assert(s[i + 7] == spec_le64(n)[7]);
    lemma_le64_roundtrip(n);
}

/// Append the little-endian bytes of `n`.
pub fn push_le32(out: &mut Vec<u8>, n: u32)
    ensures
        final(out)@ == old(out)@ + spec_le32(n),
{
    out.push((n & 0xff) as u8);
    out.push(((n >> 8) & 0xff) as u8);
    out.push(((n >> 16) & 0xff) as u8);
    out.push(((n >> 24) & 0xff) as u8);
    proof {
        assert(final(out)@ =~= old(out)@ + spec_le32(n));
    }
}

/// Append the little-endian bytes of `n`.
pub fn push_le64(out: &mut Vec<u8>, n: u64)
    ensures
        final(out)@ == old(out)@ + spec_le64(n),
{
    out.push((n & 0xff) as u8);
    out.push(((n >> 8) & 0xff) as u8);
    out.push(((n >> 16) & 0xff) as u8);
    out.push(((n >> 24) & 0xff) as u8);
    out.push(((n >> 32) & 0xff) as u8);
    out.push(((n >> 40) & 0xff) as u8);
    out.push(((n >> 48) & 0xff) as u8);
    out.push(((n >> 56) & 0xff) as u8);
    proof {
        assert(final(out)@ =~= old(out)@ + spec_le64(n));
    }
}

/// Read the `u32` at `pos`; `None` when fewer than four bytes remain.
pub fn read_u32(bytes: &[u8], pos: usize) -> (r: Option<(u32, usize)>)
    requires
        pos <= bytes@.len(),
    ensures
        match r {
            Some((v, p)) => pos + 4 <= bytes@.len() && v == spec_le32_at(bytes@, pos as int) && p
                == pos + 4,
            None => pos + 4 > bytes@.len(),
        },
{
    if bytes.len() - pos < 4 {
        return None;
    }
    let v = (bytes[pos] as u32) | ((bytes[pos + 1] as u32) << 8) | ((bytes[pos + 2] as u32) << 16)
        | ((bytes[pos + 3] as u32) << 24);
    Some((v, pos + 4))
}

/// Read the 8-byte word at `pos` (the bit pattern of one double).
pub fn read_f64_bits(bytes: &[u8], pos: usize) -> (r: Option<(u64, usize)>)
    requires
        pos <= bytes@.len(),
    ensures
        match r {
            Some((v, p)) => pos + 8 <= bytes@.len() && v == spec_le64_at(bytes@, pos as int) && p
                == pos + 8,
            None => pos + 8 > bytes@.len(),
        },
{
    if bytes.len() - pos < 8 {
        return None;
    }
    let v = (bytes[pos] as u64) | ((bytes[pos + 1] as u64) << 8) | ((bytes[pos + 2] as u64) << 16)
        | ((bytes[pos + 3] as u64) << 24) | ((bytes[pos + 4] as u64) << 32) | ((bytes[pos + 5]
        as u64) << 40) | ((bytes[pos + 6] as u64) << 48) | ((bytes[pos + 7] as u64) << 56);
    Some((v, pos + 8))
}

// ---------------------------------------------------------------
// Container layout
// ---------------------------------------------------------------
pub open spec fn spec_magic() -> Seq<u8> {
    seq![0x53u8, 0x47, 0x50, 0x54]
}

/// The words of one parameter, eight bytes each.
pub open spec fn spec_words_bytes(p: Seq<u64>) -> Seq<u8>
    decreases p.len(),
{
    if p.len() == 0 {
        Seq::empty()
    } else {
        spec_le64(p[0]) + spec_words_bytes(p.drop_first())
    }
}

/// All parameter blocks: per parameter its element count, then its
/// words.
pub open spec fn spec_params_bytes(ps: Seq<Seq<u64>>) -> Seq<u8>
    decreases ps.len(),
{
    if ps.len() == 0 {
        Seq::empty()
    } else {
        spec_le32(ps[0].len() as u32) + spec_words_bytes(ps[0]) + spec_params_bytes(
            ps.drop_first(),
        )
    }
}

/// The byte string a checkpoint with these contents serializes to.
pub open spec fn spec_checkpoint_bytes(cfg: ScorerConfig, flags: u32, ps: Seq<Seq<u64>>) -> Seq<
    u8,
> {
    spec_magic() + spec_le32(CHECKPOINT_VERSION) + spec_le32(flags) + spec_le32(
        spec_config_json(cfg).len() as u32,
    ) + spec_config_json(cfg) + spec_le32(ps.len() as u32) + spec_params_bytes(ps)
}

proof fn lemma_words_bytes_len(p: Seq<u64>)
    ensures
        spec_words_bytes(p).len() == 8 * p.len(),
    decreases p.len(),
{
    if p.len() > 0 {
        lemma_words_bytes_len(p.drop_first());
    }
}

proof fn lemma_words_take_step(p: Seq<u64>, j: int)
    requires
        0 <= j < p.len(),
    ensures
        spec_words_bytes(p.take(j + 1)) == spec_words_bytes(p.take(j)) + spec_le64(p[j]),
    decreases j,
{
    if j == 0 {
        assert(p.take(1).drop_first() =~= Seq::<u64>::empty());
        assert(p.take(0) =~= Seq::<u64>::empty());
        assert(p.take(1)[0] == p[0]);
        assert(spec_words_bytes(Seq::<u64>::empty()) == Seq::<u8>::empty());
        assert(spec_words_bytes(p.take(1)) =~= spec_le64(p[0]));
        assert(spec_words_bytes(p.take(0)) + spec_le64(p[0]) =~= spec_le64(p[0]));
    } else {
        lemma_words_take_step(p.drop_first(), j - 1);
        assert(p.take(j + 1).drop_first() =~= p.drop_first().take(j));
        assert(p.take(j).drop_first() =~= p.drop_first().take(j - 1));
        assert(p.take(j + 1)[0] == p[0]);
        assert(p.take(j)[0] == p[0]);
        assert(p.drop_first()[j - 1] == p[j]);
        assert(spec_le64(p[0]) + (spec_words_bytes(p.drop_first().take(j - 1)) + spec_le64(p[j]))
            =~= (spec_le64(p[0]) + spec_words_bytes(p.drop_first().take(j - 1))) + spec_le64(
            p[j],
        ));
    }
}

proof fn lemma_params_take_step(ps: Seq<Seq<u64>>, j: int)
    requires
        0 <= j < ps.len(),
    ensures
        spec_params_bytes(ps.take(j + 1)) == spec_params_bytes(ps.take(j)) + spec_le32(
            ps[j].len() as u32,
        ) + spec_words_bytes(ps[j]),
    decreases j,
{
    if j == 0 {
        assert(ps.take(1).drop_first() =~= Seq::<Seq<u64>>::empty());
        assert(ps.take(0) =~= Seq::<Seq<u64>>::empty());
        assert(ps.take(1)[0] == ps[0]);
        assert(spec_params_bytes(Seq::<Seq<u64>>::empty()) == Seq::<u8>::empty());
        assert(spec_params_bytes(ps.take(1)) =~= spec_le32(ps[0].len() as u32) + spec_words_bytes(
            ps[0],
        ));
        assert(spec_params_bytes(ps.take(0)) + spec_le32(ps[0].len() as u32) + spec_words_bytes(
            ps[0],
        ) =~= spec_le32(ps[0].len() as u32) + spec_words_bytes(ps[0]));
    } else {
        lemma_params_take_step(ps.drop_first(), j - 1);
        assert(ps.take(j + 1).drop_first() =~= ps.drop_first().take(j));
        assert(ps.take(j).drop_first() =~= ps.drop_first().take(j - 1));
        assert(ps.take(j + 1)[0] == ps[0]);
        assert(ps.take(j)[0] == ps[0]);
        assert(ps.drop_first()[j - 1] == ps[j]);
        let head = spec_le32(ps[0].len() as u32) + spec_words_bytes(ps[0]);
        let mid = spec_params_bytes(ps.drop_first().take(j - 1));
        let tail = spec_le32(ps[j].len() as u32) + spec_words_bytes(ps[j]);
        assert(head + (mid + tail) =~= (head + mid) + tail);
        assert(spec_params_bytes(ps.take(j + 1)) =~= head + (mid + tail));
        assert(spec_params_bytes(ps.take(j)) + spec_le32(ps[j].len() as u32) + spec_words_bytes(
            ps[j],
        ) =~= (head + mid) + tail);
    }
}

// ---------------------------------------------------------------
// Encoding
// ---------------------------------------------------------------
/// Serialize a checkpoint: configuration, flags and per-slot words.
pub fn encode_checkpoint(cfg: &ScorerConfig, flags: u32, params: &Vec<Vec<u64>>) -> (r: Vec<u8>)
    requires
        cfg.wf(),
        params@.len() < 0x1_0000_0000,
        forall|k: int| 0 <= k < params@.len() ==> #[trigger] params@[k]@.len() < 0x1_0000_0000,
    ensures
        r@ == spec_checkpoint_bytes(*cfg, flags, params.deep_view()),
{
    let ghost psv = params.deep_view();
    let mut out: Vec<u8> = Vec::new();
    out.push(0x53);
    out.push(0x47);
    out.push(0x50);
    out.push(0x54);
    proof {
        assert(out@ =~= spec_magic());
    }
    push_le32(&mut out, CHECKPOINT_VERSION);
    push_le32(&mut out, flags);
    let cfg_bytes = encode_config(cfg);
    proof {
        crate::config_codec::lemma_config_json_len(*cfg);
    }
    push_le32(&mut out, cfg_bytes.len() as u32);
    crate::config_codec::push_bytes(&mut out, &cfg_bytes);
    push_le32(&mut out, params.len() as u32);
    let ghost header = out@;
    let n = params.len();
    let mut t: usize = 0;
    proof {
        assert(psv.take(0) =~= Seq::<Seq<u64>>::empty());
        assert(out@ =~= header + spec_params_bytes(psv.take(0)));
    }
    while t < n
        invariant
            n == params@.len(),
            psv == params.deep_view(),
            forall|k: int| 0 <= k < params@.len() ==> #[trigger] params@[k]@.len() < 0x1_0000_0000,
            t <= n,
            out@ == header + spec_params_bytes(psv.take(t as int)),
        decreases n - t,
    {
        let p = &params[t];
        proof {
            assert(psv[t as int] == params@[t as int]@);
        }
        push_le32(&mut out, p.len() as u32);
        let ghost base = out@;
        let m = p.len();
        let mut k: usize = 0;
        proof {
            assert(psv[t as int].take(0) =~= Seq::<u64>::empty());
            assert(out@ =~= base + spec_words_bytes(psv[t as int].take(0)));
        }
        while k < m
            invariant
                m == p@.len(),
                p@ == psv[t as int],
                0 <= t < psv.len(),
                k <= m,
                out@ == base + spec_words_bytes(psv[t as int].take(k as int)),
            decreases m - k,
        {
            push_le64(&mut out, p[k]);
            k = k + 1;
            proof {
                lemma_words_take_step(psv[t as int], k - 1);
                assert(out@ =~= base + spec_words_bytes(psv[t as int].take(k as int)));
            }
        }
        t = t + 1;
        proof {
            assert(psv[t - 1].take(m as int) =~= psv[t - 1]);
            lemma_params_take_step(psv, t - 1);
            assert(out@ =~= header + spec_params_bytes(psv.take(t as int)));
        }
    }
    proof {
        assert(psv.take(n as int) =~= psv);
        assert(out@ =~= spec_checkpoint_bytes(*cfg, flags, psv));
    }
    out
}

// ---------------------------------------------------------------
// Decoding
// ---------------------------------------------------------------
/// Header of a container: version, flags, configuration bytes, and the
/// position just after the configuration blob.
pub open spec fn spec_header(s: Seq<u8>) -> Option<(u32, u32, Seq<u8>, int)> {
    if s.len() < 16 || s.subrange(0, 4) != spec_magic() {
        None
    } else {
        let clen = spec_le32_at(s, 12) as int;
        if 16 + clen > s.len() {
            None
        } else {
            Some((spec_le32_at(s, 4), spec_le32_at(s, 8), s.subrange(16, 16 + clen), 16 + clen))
        }
    }
}

/// The parameter blocks: `n` repetitions of a count plus that many
/// words, starting at `i`; yields the words and the end position.
pub open spec fn spec_parse_params(s: Seq<u8>, i: int, n: int) -> Option<(Seq<Seq<u64>>, int)>
    decreases n,
{
    if n <= 0 {
        Some((Seq::empty(), i))
    } else if i + 4 > s.len() {
        None
    } else {
        let m = spec_le32_at(s, i) as int;
        if i + 4 + 8 * m > s.len() {
            None
        } else {
            let words = Seq::new(m as nat, |k: int| spec_le64_at(s, i + 4 + 8 * k));
            match spec_parse_params(s, i + 4 + 8 * m, n - 1) {
                None => None,
                Some((rest, j)) => Some((seq![words] + rest, j)),
            }
        }
    }
}

/// A fully successful decode: header, configuration, parameter count
/// and blocks.
pub open spec fn spec_decode_ok(s: Seq<u8>) -> Option<(u32, u32, ScorerConfig, Seq<Seq<u64>>)> {
    match spec_header(s) {
        None => None,
        Some((ver, flags, cfgb, next)) => match spec_parse_config(cfgb) {
            None => None,
            Some(cfg) => if next + 4 > s.len() {
                None
            } else {
                match spec_parse_params(s, next + 4, spec_le32_at(s, next) as int) {
                    None => None,
                    Some((ps, _)) => Some((ver, flags, cfg, ps)),
                }
            },
        },
    }
}

/// The container is well formed up to the configuration blob, but the
/// blob itself is not a readable configuration.
pub open spec fn spec_decode_json_err(s: Seq<u8>) -> bool {
    match spec_header(s) {
        None => false,
        Some((ver, flags, cfgb, next)) => spec_parse_config(cfgb) is None,
    }
}

fn prefix_matches_magic(bytes: &[u8]) -> (r: bool)
    ensures
        r == (bytes@.len() >= 4 && bytes@.subrange(0, 4) == spec_magic()),
{
    if bytes.len() < 4 {
        return false;
    }
    let ok = bytes[0] == 0x53 && bytes[1] == 0x47 && bytes[2] == 0x50 && bytes[3] == 0x54;
    proof {
        if ok {
            assert(bytes@.subrange(0, 4) =~= spec_magic());
        } else {
            assert(bytes@.subrange(0, 4)[0] == bytes@[0]);
            assert(bytes@.subrange(0, 4)[1] == bytes@[1]);
            assert(bytes@.subrange(0, 4)[2] == bytes@[2]);
            assert(bytes@.subrange(0, 4)[3] == bytes@[3]);
        }
    }
    ok
}

/// Prefix the blocks decoded so far onto the outcome for the rest.
pub open spec fn spec_prepend_params(
    pre: Seq<Seq<u64>>,
    r: Option<(Seq<Seq<u64>>, int)>,
) -> Option<(Seq<Seq<u64>>, int)> {
    match r {
        Some((rest, j)) => Some((pre + rest, j)),
        None => None,
    }
}

/// Decode a checkpoint from bytes. Trailing bytes after the last
/// parameter are ignored.
pub fn decode_checkpoint(bytes: &[u8]) -> (r: Result<LoadedCheckpoint, CheckpointError>)
    ensures
        match r {
            Ok(l) => spec_decode_ok(bytes@) == Some(
                (l.version, l.flags, l.config, l.params.deep_view()),
            ),
            Err(CheckpointError::Json) => spec_decode_json_err(bytes@),
            Err(CheckpointError::InvalidFormat(_)) => spec_decode_ok(bytes@) is None
                && !spec_decode_json_err(bytes@),
        },
{
    let ghost s = bytes@;
    if !prefix_matches_magic(bytes) {
        return Err(CheckpointError::InvalidFormat("bad magic".to_owned()));
    }
    let (version, p1) = match read_u32(bytes, 4) {
        Some(x) => x,
        None => { return Err(CheckpointError::InvalidFormat("truncated header".to_owned())); },
    };
    let (flags, p2) = match read_u32(bytes, 8) {
        Some(x) => x,
        None => { return Err(CheckpointError::InvalidFormat("truncated header".to_owned())); },
    };
    let (clen32, p3) = match read_u32(bytes, 12) {
        Some(x) => x,
        None => { return Err(CheckpointError::InvalidFormat("truncated header".to_owned())); },
    };
    let clen = clen32 as usize;
    if bytes.len() - 16 < clen {
        return Err(CheckpointError::InvalidFormat("truncated configuration".to_owned()));
    }
    let mut cfgb: Vec<u8> = Vec::new();
    let mut k: usize = 0;
    proof {
        assert(cfgb@ =~= s.subrange(16, 16int));
    }
    while k < clen
        invariant
            16 + clen <= s.len(),
            s.len() <= usize::MAX,
            s == bytes@,
            k <= clen,
            cfgb@ == s.subrange(16, 16 + k as int),
        decreases clen - k,
    {
        cfgb.push(bytes[16 + k]);
        k = k + 1;
        proof {
            assert(cfgb@ =~= s.subrange(16, 16 + k as int));
        }
    }
    let config = match parse_config(cfgb.as_slice()) {
        Some(c) => c,
        None => { return Err(CheckpointError::Json); },
    };
    let next = 16 + clen;
    let (n_params32, p4) = match read_u32(bytes, next) {
        Some(x) => x,
        None => {
            return Err(CheckpointError::InvalidFormat("truncated parameter count".to_owned()));
        },
    };
    let ghost n_total = n_params32 as int;
    let mut params: Vec<Vec<u64>> = Vec::new();
    let mut pos: usize = p4;
    let mut t: u32 = 0;
    proof {
        assert(params.deep_view() =~= Seq::<Seq<u64>>::empty());
        assert(spec_header(s) == Some((version, flags, cfgb@, next as int)));
    }
    while t < n_params32
        invariant
            s == bytes@,
            s.len() <= usize::MAX,
            t <= n_params32,
            pos <= s.len(),
            n_total == n_params32 as int,
            spec_header(s) == Some((version, flags, cfgb@, next as int)),
            spec_parse_config(cfgb@) == Some(config),
            next + 4 <= s.len(),
            spec_le32_at(s, next as int) == n_params32,
            p4 == next + 4,
            params.deep_view().len() == t as int,
            spec_parse_params(s, p4 as int, n_total) == spec_prepend_params(
                params.deep_view(),
                spec_parse_params(s, pos as int, n_total - t),
            ),
        decreases n_params32 - t,
    {
        let ghost pre = params.deep_view();
        let (m32, q) = match read_u32(bytes, pos) {
            Some(x) => x,
            None => {
                proof {
                    assert(spec_parse_params(s, pos as int, n_total - t) is None);
                }
                return Err(CheckpointError::InvalidFormat("truncated parameter".to_owned()));
            },
        };
        let m = m32 as usize;
        if ((bytes.len() - q) as u64) < (m as u64) * 8 {
            proof {
                assert(spec_le32_at(s, pos as int) == m32);
            }
            proof {
                assert(q + 8 * (m as int) > s.len());
                assert(spec_parse_params(s, pos as int, n_total - t) is None);
            }
            return Err(CheckpointError::InvalidFormat("truncated parameter".to_owned()));
        }
        proof {
            assert(q + 8 * (m as int) <= s.len());
        }
        let ghost words_spec = Seq::new(m as nat, |j: int| spec_le64_at(s, q + 8 * j));
        let mut words: Vec<u64> = Vec::new();
        let mut wpos: usize = q;
        let mut j: usize = 0;
        while j < m
            invariant
                s == bytes@,
                j <= m,
                wpos == q + 8 * j,
                q + 8 * m <= s.len(),
                words@.len() == j,
                words_spec == Seq::new(m as nat, |j0: int| spec_le64_at(s, q as int + 8 * j0)),
                forall|j0: int| 0 <= j0 < j ==> words@[j0] == words_spec[j0],
            decreases m - j,
        {
            let (w, nw) = match read_f64_bits(bytes, wpos) {
                Some(x) => x,
                None => {
                    proof {
                        assert(false);
                    }
                    return Err(CheckpointError::InvalidFormat("truncated parameter".to_owned()));
                },
            };
            words.push(w);
            wpos = nw;
            j = j + 1;
        }
        proof {
            assert(words@ =~= words_spec);
        }
        let ghost old_deep = params.deep_view();
        params.push(words);
        pos = wpos;
        t = t + 1;
        proof {
            assert forall|x: int| 0 <= x < params@.len() implies #[trigger] params.deep_view()[x]
                == params@[x]@ by {}
            assert(params.deep_view() =~= old_deep.push(words@));
            let tail = spec_parse_params(s, pos as int, n_total - t);
            assert(spec_parse_params(s, (pos - 8 * m - 4) as int, n_total - (t - 1))
                == spec_prepend_params(seq![words_spec], tail));
            match tail {
                Some((rest, _end)) => {
                    assert(pre + (seq![words_spec] + rest) =~= params.deep_view() + rest);
                },
                None => {},
            }
        }
    }
    proof {
        assert(spec_parse_params(s, pos as int, 0) == Some((Seq::<Seq<u64>>::empty(), pos as int)));
        assert(params.deep_view() + Seq::<Seq<u64>>::empty() =~= params.deep_view());
    }
    Ok(LoadedCheckpoint { version, flags, config, params })
}

/// Whether a loaded checkpoint fits a live ranker whose parameters have
/// the given element counts: same number of parameters, and the same
/// count slot by slot.
pub open spec fn spec_apply_fits(params: Seq<Seq<u64>>, target_lens: Seq<usize>) -> bool {
    params.len() == target_lens.len() && (forall|k: int|
        0 <= k < params.len() ==> #[trigger] params[k].len() == target_lens[k])
}

/// Check a loaded checkpoint against the parameter element counts of
/// the ranker it is to be applied to.
pub fn check_apply(loaded: &LoadedCheckpoint, target_lens: &Vec<usize>) -> (r: Result<
    (),
    CheckpointError,
>)
    ensures
        r is Ok <==> spec_apply_fits(loaded.params.deep_view(), target_lens@),
{
    if loaded.params.len() != target_lens.len() {
        return Err(CheckpointError::InvalidFormat("parameter count mismatch".to_owned()));
    }
    let n = target_lens.len();
    let mut k: usize = 0;
    while k < n
        invariant
            n == target_lens@.len(),
            n == loaded.params@.len(),
            k <= n,
            forall|j: int|
                0 <= j < k ==> #[trigger] loaded.params.deep_view()[j].len() == target_lens@[j],
        decreases n - k,
    {
        if loaded.params[k].len() != target_lens[k] {
            proof {
                assert(loaded.params.deep_view()[k as int].len() != target_lens@[k as int]);
            }
            return Err(CheckpointError::InvalidFormat("parameter size mismatch".to_owned()));
        }
        proof {
            assert(loaded.params.deep_view()[k as int].len() == target_lens@[k as int]);
        }
        k = k + 1;
    }
    Ok(())
}

// ---------------------------------------------------------------
// Round trip
// ---------------------------------------------------------------
proof fn lemma_words_at(s: Seq<u8>, i: int, p: Seq<u64>)
    requires
        0 <= i,
        i + 8 * p.len() <= s.len(),
        s.subrange(i, i + 8 * p.len()) == spec_words_bytes(p),
    ensures
        forall|k: int| 0 <= k < p.len() ==> spec_le64_at(s, i + 8 * k) == p[k],
    decreases p.len(),
{
    lemma_words_bytes_len(p);
    if p.len() > 0 {
        let w = spec_words_bytes(p);
        lemma_words_bytes_len(p.drop_first());
        assert forall|j: int| 0 <= j < 8 implies s[i + j] == spec_le64(p[0])[j] by {
            assert(s.subrange(i, i + 8 * p.len())[j] == s[i + j]);
            assert(w[j] == (spec_le64(p[0]) + spec_words_bytes(p.drop_first()))[j]);
        }
        assert(s.subrange(i, i + 8) =~= spec_le64(p[0]));
        lemma_le64_at_of(s, i, p[0]);
        assert forall|j: int| 0 <= j < 8 * p.drop_first().len() implies #[trigger] s.subrange(
            i + 8,
            i + 8 + 8 * p.drop_first().len(),
        )[j] == spec_words_bytes(p.drop_first())[j] by {
            assert(s.subrange(i + 8, i + 8 + 8 * p.drop_first().len())[j] == s[i + 8 + j]);
            assert(s.subrange(i, i + 8 * p.len())[8 + j] == s[i + 8 + j]);
            assert(w[8 + j] == spec_words_bytes(p.drop_first())[j]);
        }
        assert(s.subrange(i + 8, i + 8 + 8 * p.drop_first().len()) =~= spec_words_bytes(
            p.drop_first(),
        ));
        lemma_words_at(s, i + 8, p.drop_first());
        assert forall|k: int| 0 <= k < p.len() implies spec_le64_at(s, i + 8 * k) == p[k] by {
            if k > 0 {
                assert(spec_le64_at(s, (i + 8) + 8 * (k - 1)) == p.drop_first()[k - 1]);
                assert((i + 8) + 8 * (k - 1) == i + 8 * k);
            }
        }
    }
}

proof fn lemma_parse_params_encoded(s: Seq<u8>, i: int, ps: Seq<Seq<u64>>)
    requires
        0 <= i,
        i + spec_params_bytes(ps).len() <= s.len(),
        s.subrange(i, i + spec_params_bytes(ps).len()) == spec_params_bytes(ps),
        forall|k: int| 0 <= k < ps.len() ==> #[trigger] ps[k].len() < 0x1_0000_0000,
    ensures
        spec_parse_params(s, i, ps.len() as int) == Some(
            (ps, i + spec_params_bytes(ps).len() as int),
        ),
    decreases ps.len(),
{
    if ps.len() == 0 {
        assert(spec_params_bytes(ps).len() == 0);
    } else {
        let b = spec_params_bytes(ps);
        let lb = b.len() as int;
        let p0 = ps[0];
        let m = p0.len() as int;
        lemma_words_bytes_len(p0);
        let rest_b = spec_params_bytes(ps.drop_first());
        assert(b =~= (spec_le32(m as u32) + spec_words_bytes(p0)) + rest_b);
        assert forall|j: int| 0 <= j < lb implies s[i + j] == b[j] by {
            assert(s.subrange(i, i + lb)[j] == s[i + j]);
        }
        assert forall|j: int| 0 <= j < 4 implies #[trigger] s.subrange(i, i + 4)[j] == spec_le32(
            m as u32,
        )[j] by {
            assert(s[i + j] == b[j]);
        }
        assert(s.subrange(i, i + 4) =~= spec_le32(m as u32));
        lemma_le32_at_of(s, i, m as u32);
        assert(spec_le32_at(s, i) == m as u32);
        assert(m as u32 as int == m);
        assert forall|j: int| 0 <= j < 8 * m implies #[trigger] s.subrange(
            i + 4,
            i + 4 + 8 * m,
        )[j] == spec_words_bytes(p0)[j] by {
            assert(s[i + 4 + j] == b[4 + j]);
            assert(s.subrange(i + 4, i + 4 + 8 * m)[j] == s[i + 4 + j]);
        }
        assert(s.subrange(i + 4, i + 4 + 8 * m) =~= spec_words_bytes(p0));
        lemma_words_at(s, i + 4, p0);
        let words = Seq::new(m as nat, |k: int| spec_le64_at(s, i + 4 + 8 * k));
        assert(words =~= p0);
        let i2 = i + 4 + 8 * m;
        let lrest = rest_b.len() as int;
        assert forall|j: int| 0 <= j < lrest implies #[trigger] s.subrange(i2, i2 + lrest)[j]
            == rest_b[j] by {
            assert(s[i2 + j] == b[4 + 8 * m + j]);
            assert(s.subrange(i2, i2 + lrest)[j] == s[i2 + j]);
        }
        assert(s.subrange(i2, i2 + lrest) =~= rest_b);
        lemma_parse_params_encoded(s, i2, ps.drop_first());
        assert(seq![words] + ps.drop_first() =~= ps);
    }
}

proof fn lemma_subrange_prefix(x: Seq<u8>, y: Seq<u8>, i: int, j: int)
    requires
        0 <= i <= j <= x.len(),
    ensures
        (x + y).subrange(i, j) == x.subrange(i, j),
{
    assert((x + y).subrange(i, j) =~= x.subrange(i, j));
}

proof fn lemma_subrange_suffix(x: Seq<u8>, y: Seq<u8>)
    ensures
        (x + y).subrange(x.len() as int, x.len() as int + y.len() as int) == y,
{
    assert((x + y).subrange(x.len() as int, x.len() as int + y.len() as int) =~= y);
}

/// Decoding what was encoded succeeds and returns exactly what was put
/// in: the current version, the same flags, the same configuration,
/// and every parameter word bit for bit.
#[verifier::rlimit(100)]
pub proof fn lemma_checkpoint_roundtrip(cfg: ScorerConfig, flags: u32, ps: Seq<Seq<u64>>)
    requires
        cfg.wf(),
        ps.len() < 0x1_0000_0000,
        forall|k: int| 0 <= k < ps.len() ==> #[trigger] ps[k].len() < 0x1_0000_0000,
    ensures
        spec_decode_ok(spec_checkpoint_bytes(cfg, flags, ps)) == Some(
            (CHECKPOINT_VERSION, flags, cfg, ps),
        ),
{
    let s = spec_checkpoint_bytes(cfg, flags, ps);
    let cj = spec_config_json(cfg);
    let lc = cj.len() as int;
    crate::config_codec::lemma_config_json_len(cfg);
    let pb = spec_params_bytes(ps);
    let lp = pb.len() as int;
    let a1 = spec_magic();
    let a2 = a1 + spec_le32(CHECKPOINT_VERSION);
    let a3 = a2 + spec_le32(flags);
    let a4 = a3 + spec_le32(lc as u32);
    let a5 = a4 + cj;
    let a6 = a5 + spec_le32(ps.len() as u32);
    assert(s == a6 + pb);
    assert(s.len() == 20 + lc + lp);
    // magic
    lemma_subrange_prefix(a6, pb, 0, 4);
    lemma_subrange_prefix(a5, spec_le32(ps.len() as u32), 0, 4);
    lemma_subrange_prefix(a4, cj, 0, 4);
    lemma_subrange_prefix(a3, spec_le32(lc as u32), 0, 4);
    lemma_subrange_prefix(a2, spec_le32(flags), 0, 4);
    lemma_subrange_prefix(a1, spec_le32(CHECKPOINT_VERSION), 0, 4);
    assert(a1.subrange(0, 4) =~= a1);
    assert(s.subrange(0, 4) == spec_magic());
    // version
    lemma_subrange_prefix(a6, pb, 4, 8);
    lemma_subrange_prefix(a5, spec_le32(ps.len() as u32), 4, 8);
    lemma_subrange_prefix(a4, cj, 4, 8);
    lemma_subrange_prefix(a3, spec_le32(lc as u32), 4, 8);
    lemma_subrange_prefix(a2, spec_le32(flags), 4, 8);
    lemma_subrange_suffix(a1, spec_le32(CHECKPOINT_VERSION));
    assert(s.subrange(4, 8) == spec_le32(CHECKPOINT_VERSION));
    lemma_le32_at_of(s, 4, CHECKPOINT_VERSION);
    // flags
    lemma_subrange_prefix(a6, pb, 8, 12);
    lemma_subrange_prefix(a5, spec_le32(ps.len() as u32), 8, 12);
    lemma_subrange_prefix(a4, cj, 8, 12);
    lemma_subrange_prefix(a3, spec_le32(lc as u32), 8, 12);
    lemma_subrange_suffix(a2, spec_le32(flags));
    assert(s.subrange(8, 12) == spec_le32(flags));
    lemma_le32_at_of(s, 8, flags);
    // configuration length
    lemma_subrange_prefix(a6, pb, 12, 16);
    lemma_subrange_prefix(a5, spec_le32(ps.len() as u32), 12, 16);
    lemma_subrange_prefix(a4, cj, 12, 16);
    lemma_subrange_suffix(a3, spec_le32(lc as u32));
    assert(s.subrange(12, 16) == spec_le32(lc as u32));
    lemma_le32_at_of(s, 12, lc as u32);
    assert(lc as u32 as int == lc);
    // configuration blob
    lemma_subrange_prefix(a6, pb, 16, 16 + lc);
    lemma_subrange_prefix(a5, spec_le32(ps.len() as u32), 16, 16 + lc);
    lemma_subrange_suffix(a4, cj);
    assert(s.subrange(16, 16 + lc) == cj);
    assert(spec_header(s) == Some((CHECKPOINT_VERSION, flags, cj, 16 + lc)));
    crate::config_codec::lemma_config_json_roundtrip(cfg);
    // parameter count
    lemma_subrange_prefix(a6, pb, 16 + lc, 20 + lc);
    lemma_subrange_suffix(a5, spec_le32(ps.len() as u32));
    assert(s.subrange(16 + lc, 20 + lc) == spec_le32(ps.len() as u32));
    lemma_le32_at_of(s, 16 + lc, ps.len() as u32);
    assert(ps.len() as u32 as int == ps.len() as int);
    // parameter blocks
    lemma_subrange_suffix(a6, pb);
    assert(s.subrange(20 + lc, 20 + lc + lp) == pb);
    lemma_parse_params_encoded(s, 20 + lc, ps);
}

} // verus!
