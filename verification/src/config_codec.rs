//! JSON codec for the ranker configuration blob inside a checkpoint.
//!
//! A configuration is written as a single JSON object whose six fields
//! are unsigned integers, in declaration order and without whitespace —
//! exactly the form the checkpoint writer produces. The reader accepts
//! that object with any interstitial whitespace, fields in the written
//! order, integer values of up to eighteen digits that fit the machine
//! word, and nothing after the closing brace but whitespace.

use vstd::prelude::*;
use crate::dates::{all_digits, digits_val, is_digit, lemma_digits_val_bound, pow10};
use crate::model::ScorerConfig;

verus! {

// ---------------------------------------------------------------
// Decimal representation
// ---------------------------------------------------------------
/// Decimal digits of `n`, most significant first, no leading zeros.
pub open spec fn spec_dec(n: nat) -> Seq<u8>
    decreases n,
{
    if n < 10 {
        seq![(0x30 + n) as u8]
    } else {
        spec_dec(n / 10) + seq![(0x30 + n % 10) as u8]
    }
}

proof fn lemma_dec_val(n: nat)
    ensures
        spec_dec(n).len() >= 1,
        all_digits(spec_dec(n)),
        digits_val(spec_dec(n)) == n,
        n >= 10 ==> spec_dec(n)[0] != 0x30,
        n < 10 ==> spec_dec(n).len() == 1,
    decreases n,
{
    if n < 10 {
        assert(spec_dec(n) =~= seq![(0x30 + n) as u8]);
        assert(spec_dec(n).drop_last() =~= Seq::<u8>::empty());
        assert(digits_val(Seq::<u8>::empty()) == 0);
        assert(digits_val(spec_dec(n)) == 0 * 10 + ((0x30 + n) as u8 - 0x30));
    } else {
        lemma_dec_val(n / 10);
        let d = spec_dec(n);
        assert(d.drop_last() =~= spec_dec(n / 10));
        assert(d.last() == (0x30 + n % 10) as u8);
        assert(d[0] == spec_dec(n / 10)[0]);
        vstd::arithmetic::div_mod::lemma_fundamental_div_mod(n as int, 10);
        assert(digits_val(d) == digits_val(spec_dec(n / 10)) * 10 + (n % 10));
    }
}

proof fn lemma_dec_len(n: nat, m: nat)
    requires
        m >= 1,
        n < pow10(m),
    ensures
        spec_dec(n).len() <= m,
    decreases n,
{
    if n < 10 {
    } else {
        assert(pow10(m) == 10 * pow10((m - 1) as nat));
        lemma_dec_len(n / 10, (m - 1) as nat);
    }
}

/// Append the decimal digits of `n`.
pub fn push_dec(out: &mut Vec<u8>, n: u64)
    ensures
        final(out)@ == old(out)@ + spec_dec(n as nat),
    decreases n,
{
    if n < 10 {
        out.push(0x30 + n as u8);
        proof {
            assert(final(out)@ =~= old(out)@ + spec_dec(n as nat));
        }
    } else {
        let ghost pre = out@;
        push_dec(out, n / 10);
        out.push(0x30 + (n % 10) as u8);
        proof {
            assert(final(out)@ =~= pre + spec_dec(n as nat));
        }
    }
}

// ---------------------------------------------------------------
// Byte-level parsing primitives
// ---------------------------------------------------------------
/// JSON interstitial whitespace.
pub open spec fn is_ws(b: u8) -> bool {
    b == 0x20 || b == 0x09 || b == 0x0a || b == 0x0d
}

/// First position at or after `i` holding a non-whitespace byte.
pub open spec fn spec_skip_ws(s: Seq<u8>, i: int) -> int
    decreases s.len() - i,
{
    if 0 <= i < s.len() && is_ws(s[i]) {
        spec_skip_ws(s, i + 1)
    } else {
        i
    }
}

/// The position after `lit` if it occurs verbatim at `i`.
pub open spec fn spec_expect(s: Seq<u8>, i: int, lit: Seq<u8>) -> Option<int> {
    if 0 <= i && i + lit.len() <= s.len() && s.subrange(i, i + lit.len()) == lit {
        Some(i + lit.len())
    } else {
        None
    }
}

/// Length of the run of decimal digits starting at `i`.
pub open spec fn digit_run_len(s: Seq<u8>, i: int) -> int
    decreases s.len() - i,
{
    if 0 <= i < s.len() && is_digit(s[i]) {
        1 + digit_run_len(s, i + 1)
    } else {
        0
    }
}

proof fn lemma_run_bounds(s: Seq<u8>, i: int)
    requires
        0 <= i <= s.len(),
    ensures
        0 <= digit_run_len(s, i),
        i + digit_run_len(s, i) <= s.len(),
        all_digits(s.subrange(i, i + digit_run_len(s, i))),
    decreases s.len() - i,
{
    if i < s.len() && is_digit(s[i]) {
        lemma_run_bounds(s, i + 1);
        let k = digit_run_len(s, i);
        assert forall|j: int| 0 <= j < k implies is_digit(#[trigger] s.subrange(i, i + k)[j]) by {
            if j > 0 {
                assert(s.subrange(i + 1, i + 1 + digit_run_len(s, i + 1))[j - 1] == s[i + j]);
            }
        }
    }
}

proof fn lemma_run_exact(s: Seq<u8>, i: int, k: int)
    requires
        0 <= i,
        0 <= k,
        i + k <= s.len(),
        forall|j: int| i <= j < i + k ==> is_digit(s[j]),
        i + k == s.len() || !is_digit(s[i + k]),
    ensures
        digit_run_len(s, i) == k,
    decreases k,
{
    if k > 0 {
        lemma_run_exact(s, i + 1, k - 1);
    }
}

/// An unsigned JSON integer at `i`: a non-empty digit run with no
/// leading zero, at most eighteen digits; yields its value and the
/// position after it.
pub open spec fn spec_parse_uint(s: Seq<u8>, i: int) -> Option<(int, int)> {
    let k = digit_run_len(s, i);
    if k == 0 || k > 18 {
        None
    } else if k > 1 && s[i] == 0x30 {
        None
    } else {
        Some((digits_val(s.subrange(i, i + k)), i + k))
    }
}

/// Skip whitespace from `pos`.
pub fn skip_ws(bytes: &[u8], pos: usize) -> (r: usize)
    requires
        pos <= bytes@.len(),
    ensures
        r == spec_skip_ws(bytes@, pos as int),
        pos <= r <= bytes@.len(),
{
    let n = bytes.len();
    let mut j = pos;
    while j < n && (bytes[j] == 0x20 || bytes[j] == 0x09 || bytes[j] == 0x0a || bytes[j] == 0x0d)
        invariant
            pos <= j <= n,
            n == bytes@.len(),
            spec_skip_ws(bytes@, pos as int) == spec_skip_ws(bytes@, j as int),
        decreases n - j,
    {
        j = j + 1;
    }
    j
}

/// Match `lit` verbatim at `pos`.
pub fn expect(bytes: &[u8], pos: usize, lit: &[u8]) -> (r: Option<usize>)
    requires
        pos <= bytes@.len(),
    ensures
        match r {
            Some(p) => spec_expect(bytes@, pos as int, lit@) == Some(p as int) && p <= bytes@.len()
                && p == pos + lit@.len(),
            None => spec_expect(bytes@, pos as int, lit@) is None,
        },
{
    let m = lit.len();
    let n = bytes.len();
    if m > n - pos || pos > n {
        return None;
    }
    let mut k: usize = 0;
    while k < m
        invariant
            pos + m <= n,
            n == bytes@.len(),
            m == lit@.len(),
            k <= m,
            forall|j: int| 0 <= j < k ==> bytes@[pos + j] == lit@[j],
        decreases m - k,
    {
        if bytes[pos + k] != lit[k] {
            proof {
                assert(bytes@.subrange(pos as int, pos + m)[k as int] != lit@[k as int]);
            }
            return None;
        }
        k = k + 1;
    }
    proof {
        assert(bytes@.subrange(pos as int, pos + m) =~= lit@);
    }
    Some(pos + m)
}

/// Parse an unsigned integer at `pos` that fits the machine word.
pub fn parse_uint(bytes: &[u8], pos: usize) -> (r: Option<(usize, usize)>)
    requires
        pos <= bytes@.len(),
    ensures
        match r {
            Some((v, p)) => spec_parse_uint(bytes@, pos as int) == Some((v as int, p as int))
                && pos < p <= bytes@.len(),
            None => spec_parse_uint(bytes@, pos as int) is None || (spec_parse_uint(
                bytes@,
                pos as int,
            ) matches Some((v, _)) && v > usize::MAX),
        },
{
    let ghost s = bytes@;
    let n = bytes.len();
    let mut j = pos;
    let mut val: u64 = 0;
    proof {
        assert(s.subrange(pos as int, pos as int) =~= Seq::<u8>::empty());
    }
    while j < n && bytes[j] >= 0x30 && bytes[j] <= 0x39 && j - pos < 19
        invariant
            pos <= j <= n,
            n == s.len(),
            s == bytes@,
            j - pos <= 19,
            forall|q: int| pos <= q < j ==> is_digit(s[q]),
            val == digits_val(s.subrange(pos as int, j as int)),
            val < 0x8AC7230489E80000,  // 10^19
        decreases n - j,
    {
        proof {
            reveal_with_fuel(pow10, 20);
            lemma_digits_val_bound(s.subrange(pos as int, j as int));
            lemma_pow10_mono((j - pos) as nat, 18);
        }
        let b = bytes[j];
        val = val * 10 + (b - 0x30) as u64;
        j = j + 1;
        proof {
            let cur = s.subrange(pos as int, j as int);
            assert(cur.drop_last() =~= s.subrange(pos as int, j - 1));
            assert(cur.last() == b);
            reveal_with_fuel(pow10, 20);
            lemma_digits_val_bound(cur);
        }
    }
    let k = j - pos;
    if k == 0 {
        proof {
            assert(digit_run_len(s, pos as int) == 0);
        }
        return None;
    }
    if k > 18 {
        proof {
            lemma_run_exact_prefix(s, pos as int, k as int);
        }
        return None;
    }
    proof {
        lemma_run_exact(s, pos as int, k as int);
    }
    if bytes[pos] == 0x30 && k > 1 {
        return None;
    }
    if val > usize_max_u64() {
        return None;
    }
    Some((val as usize, j))
}

/// `usize::MAX` as a `u64`.
fn usize_max_u64() -> (r: u64)
    ensures
        r == usize::MAX as u64,
        usize::MAX as u64 <= u64::MAX,
{
    usize::MAX as u64
}

proof fn lemma_run_exact_prefix(s: Seq<u8>, i: int, m: int)
    requires
        0 <= i,
        0 <= m,
        i + m <= s.len(),
        forall|j: int| i <= j < i + m ==> is_digit(s[j]),
    ensures
        digit_run_len(s, i) >= m,
    decreases m,
{
    if m > 0 {
        assert(is_digit(s[i]));
        lemma_run_exact_prefix(s, i + 1, m - 1);
        assert(digit_run_len(s, i) == 1 + digit_run_len(s, i + 1));
    } else {
        lemma_run_bounds(s, i);
    }
}

proof fn lemma_pow10_pos(n: nat)
    ensures
        pow10(n) >= 1,
    decreases n,
{
    if n > 0 {
        lemma_pow10_pos((n - 1) as nat);
    }
}

proof fn lemma_pow10_mono(a: nat, b: nat)
    requires
        a <= b,
    ensures
        pow10(a) <= pow10(b),
    decreases b,
{
    lemma_pow10_pos(a);
    if a < b {
        lemma_pow10_mono(a, (b - 1) as nat);
        lemma_pow10_pos((b - 1) as nat);
        assert(pow10(b) == 10 * pow10((b - 1) as nat));
    }
}

// ---------------------------------------------------------------
// The configuration object
// ---------------------------------------------------------------
pub open spec fn spec_key_native_dim() -> Seq<u8> {
    seq![0x6e, 0x61, 0x74, 0x69, 0x76, 0x65, 0x5f, 0x64, 0x69, 0x6d]
}

pub open spec fn spec_key_internal_dim() -> Seq<u8> {
    seq![0x69, 0x6e, 0x74, 0x65, 0x72, 0x6e, 0x61, 0x6c, 0x5f, 0x64, 0x69, 0x6d]
}

pub open spec fn spec_key_value_dim() -> Seq<u8> {
    seq![0x76, 0x61, 0x6c, 0x75, 0x65, 0x5f, 0x64, 0x69, 0x6d]
}

pub open spec fn spec_key_extra_features() -> Seq<u8> {
    seq![0x65, 0x78, 0x74, 0x72, 0x61, 0x5f, 0x66, 0x65, 0x61, 0x74, 0x75, 0x72, 0x65, 0x73]
}

pub open spec fn spec_key_hash_buckets() -> Seq<u8> {
    seq![0x68, 0x61, 0x73, 0x68, 0x5f, 0x62, 0x75, 0x63, 0x6b, 0x65, 0x74, 0x73]
}

pub open spec fn spec_key_project_slots() -> Seq<u8> {
    seq![0x70, 0x72, 0x6f, 0x6a, 0x65, 0x63, 0x74, 0x5f, 0x73, 0x6c, 0x6f, 0x74, 0x73]
}

fn key_native_dim() -> (r: Vec<u8>)
    ensures
        r@ == spec_key_native_dim(),
{
    let r = vec![0x6eu8, 0x61, 0x74, 0x69, 0x76, 0x65, 0x5f, 0x64, 0x69, 0x6d];
    proof {
        assert(r@ =~= spec_key_native_dim());
    }
    r
}

fn key_internal_dim() -> (r: Vec<u8>)
    ensures
        r@ == spec_key_internal_dim(),
{
    let r = vec![0x69u8, 0x6e, 0x74, 0x65, 0x72, 0x6e, 0x61, 0x6c, 0x5f, 0x64, 0x69, 0x6d];
    proof {
        assert(r@ =~= spec_key_internal_dim());
    }
    r
}

fn key_value_dim() -> (r: Vec<u8>)
    ensures
        r@ == spec_key_value_dim(),
{
    let r = vec![0x76u8, 0x61, 0x6c, 0x75, 0x65, 0x5f, 0x64, 0x69, 0x6d];
    proof {
        assert(r@ =~= spec_key_value_dim());
    }
    r
}

fn key_extra_features() -> (r: Vec<u8>)
    ensures
        r@ == spec_key_extra_features(),
{
    let r = vec![0x65u8, 0x78, 0x74, 0x72, 0x61, 0x5f, 0x66, 0x65, 0x61, 0x74, 0x75, 0x72, 0x65, 0x73];
    proof {
        assert(r@ =~= spec_key_extra_features());
    }
    r
}

fn key_hash_buckets() -> (r: Vec<u8>)
    ensures
        r@ == spec_key_hash_buckets(),
{
    let r = vec![0x68u8, 0x61, 0x73, 0x68, 0x5f, 0x62, 0x75, 0x63, 0x6b, 0x65, 0x74, 0x73];
    proof {
        assert(r@ =~= spec_key_hash_buckets());
    }
    r
}

fn key_project_slots() -> (r: Vec<u8>)
    ensures
        r@ == spec_key_project_slots(),
{
    let r = vec![0x70u8, 0x72, 0x6f, 0x6a, 0x65, 0x63, 0x74, 0x5f, 0x73, 0x6c, 0x6f, 0x74, 0x73];
    proof {
        assert(r@ =~= spec_key_project_slots());
    }
    r
}

/// A key with its surrounding quotes and trailing colon: `"key":`.
pub open spec fn spec_quoted_key(key: Seq<u8>) -> Seq<u8> {
    seq![0x22u8] + key + seq![0x22u8, 0x3a]
}

/// One `"key":value` member followed by `,` (or by nothing when last).
pub open spec fn spec_member(key: Seq<u8>, v: nat, comma: bool) -> Seq<u8> {
    spec_quoted_key(key) + spec_dec(v) + (if comma {
        seq![0x2cu8]
    } else {
        Seq::<u8>::empty()
    })
}

/// The canonical configuration blob: the six fields in declaration
/// order, no whitespace.
pub open spec fn spec_config_json(cfg: ScorerConfig) -> Seq<u8> {
    seq![0x7bu8] + spec_member(spec_key_native_dim(), cfg.native_dim as nat, true) + spec_member(
        spec_key_internal_dim(),
        cfg.internal_dim as nat,
        true,
    ) + spec_member(spec_key_value_dim(), cfg.value_dim as nat, true) + spec_member(
        spec_key_extra_features(),
        cfg.extra_features as nat,
        true,
    ) + spec_member(spec_key_hash_buckets(), cfg.hash_buckets as nat, true) + spec_member(
        spec_key_project_slots(),
        cfg.project_slots as nat,
        false,
    ) + seq![0x7du8]
}

/// One field of the tolerant reader: whitespace, the quoted key,
/// whitespace, a colon, whitespace, the value, whitespace, and a comma
/// when the field is not the last.
pub open spec fn spec_parse_field(s: Seq<u8>, i: int, key: Seq<u8>, comma: bool) -> Option<
    (int, int),
> {
    let i1 = spec_skip_ws(s, i);
    match spec_expect(s, i1, seq![0x22u8] + key + seq![0x22u8]) {
        None => None,
        Some(i2) => {
            let i3 = spec_skip_ws(s, i2);
            match spec_expect(s, i3, seq![0x3au8]) {
                None => None,
                Some(i4) => {
                    let i5 = spec_skip_ws(s, i4);
                    match spec_parse_uint(s, i5) {
                        None => None,
                        Some((v, i6)) => if v > usize::MAX {
                            None
                        } else if comma {
                            let i7 = spec_skip_ws(s, i6);
                            match spec_expect(s, i7, seq![0x2cu8]) {
                                None => None,
                                Some(i8) => Some((v, i8)),
                            }
                        } else {
                            Some((v, i6))
                        },
                    }
                },
            }
        },
    }
}

/// The whole configuration object, fields in written order, arbitrary
/// interstitial whitespace, nothing but whitespace after it.
pub open spec fn spec_parse_config(s: Seq<u8>) -> Option<ScorerConfig> {
    let i1 = spec_skip_ws(s, 0);
    match spec_expect(s, i1, seq![0x7bu8]) {
        None => None,
        Some(i2) => match spec_parse_field(s, i2, spec_key_native_dim(), true) {
            None => None,
            Some((nd, i3)) => match spec_parse_field(s, i3, spec_key_internal_dim(), true) {
                None => None,
                Some((id, i4)) => match spec_parse_field(s, i4, spec_key_value_dim(), true) {
                    None => None,
                    Some((vd, i5)) => match spec_parse_field(
                        s,
                        i5,
                        spec_key_extra_features(),
                        true,
                    ) {
                        None => None,
                        Some((ef, i6)) => match spec_parse_field(
                            s,
                            i6,
                            spec_key_hash_buckets(),
                            true,
                        ) {
                            None => None,
                            Some((hb, i7)) => match spec_parse_field(
                                s,
                                i7,
                                spec_key_project_slots(),
                                false,
                            ) {
                                None => None,
                                Some((ps, i8)) => {
                                    let i9 = spec_skip_ws(s, i8);
                                    match spec_expect(s, i9, seq![0x7du8]) {
                                        None => None,
                                        Some(i10) => if spec_skip_ws(s, i10) == s.len() {
                                            Some(
                                                ScorerConfig {
                                                    native_dim: nd as usize,
                                                    internal_dim: id as usize,
                                                    value_dim: vd as usize,
                                                    extra_features: ef as usize,
                                                    hash_buckets: hb as usize,
                                                    project_slots: ps as usize,
                                                },
                                            )
                                        } else {
                                            None
                                        },
                                    }
                                },
                            },
                        },
                    },
                },
            },
        },
    }
}

/// Append `src` to `out`.
pub fn push_bytes(out: &mut Vec<u8>, src: &Vec<u8>)
    ensures
        final(out)@ == old(out)@ + src@,
{
    let m = src.len();
    let mut k: usize = 0;
    proof {
        assert(out@ =~= old(out)@ + src@.take(0));
    }
    while k < m
        invariant
            m == src@.len(),
            k <= m,
            out@ == old(out)@ + src@.take(k as int),
        decreases m - k,
    {
        out.push(src[k]);
        k = k + 1;
        proof {
            assert(out@ =~= old(out)@ + src@.take(k as int));
        }
    }
    proof {
        assert(old(out)@ + src@.take(m as int) =~= old(out)@ + src@);
    }
}

/// Write one member: quoted key, colon, value, optional comma.
fn push_member(out: &mut Vec<u8>, key: &Vec<u8>, v: usize, comma: bool)
    ensures
        final(out)@ == old(out)@ + spec_member(key@, v as nat, comma),
{
    let ghost pre = out@;
    out.push(0x22);
    push_bytes(out, key);
    out.push(0x22);
    out.push(0x3a);
    proof {
        assert(out@ =~= pre + spec_quoted_key(key@));
    }
    push_dec(out, v as u64);
    if comma {
        out.push(0x2c);
    }
    proof {
        assert(out@ =~= pre + spec_member(key@, v as nat, comma));
    }
}

/// Serialize a configuration to its canonical JSON form.
pub fn encode_config(cfg: &ScorerConfig) -> (r: Vec<u8>)
    ensures
        r@ == spec_config_json(*cfg),
{
    let mut out: Vec<u8> = Vec::new();
    out.push(0x7b);
    push_member(&mut out, &key_native_dim(), cfg.native_dim, true);
    push_member(&mut out, &key_internal_dim(), cfg.internal_dim, true);
    push_member(&mut out, &key_value_dim(), cfg.value_dim, true);
    push_member(&mut out, &key_extra_features(), cfg.extra_features, true);
    push_member(&mut out, &key_hash_buckets(), cfg.hash_buckets, true);
    push_member(&mut out, &key_project_slots(), cfg.project_slots, false);
    out.push(0x7d);
    proof {
        assert(out@ =~= spec_config_json(*cfg));
    }
    out
}

proof fn lemma_parse_field_at(s: Seq<u8>, i: int, key: Seq<u8>, v: nat, comma: bool)
    requires
        0 <= i,
        i + spec_member(key, v, comma).len() <= s.len(),
        s.subrange(i, i + spec_member(key, v, comma).len()) == spec_member(key, v, comma),
        v < pow10(18),
        v <= usize::MAX,
        !comma ==> (i + spec_member(key, v, comma).len() == s.len() || !is_digit(
            s[i + spec_member(key, v, comma).len()],
        )),
    ensures
        spec_parse_field(s, i, key, comma) == Some(
            (v as int, i + spec_member(key, v, comma).len()),
        ),
{
    let m = spec_member(key, v, comma);
    let lm = m.len() as int;
    let kq = seq![0x22u8] + key + seq![0x22u8];
    let lk = kq.len() as int;
    let d = spec_dec(v);
    let ld = d.len() as int;
    lemma_dec_val(v);
    lemma_dec_len(v, 18);
    assert(m =~= kq + seq![0x3au8] + d + (if comma {
        seq![0x2cu8]
    } else {
        Seq::<u8>::empty()
    }));
    assert forall|j: int| 0 <= j < lm implies s[i + j] == m[j] by {
        assert(s.subrange(i, i + lm)[j] == s[i + j]);
    }
    assert(s[i] == m[0]);
    assert(m[0] == 0x22);
    assert(spec_skip_ws(s, i) == i);
    assert(s.subrange(i, i + lk) =~= kq);
    assert(spec_expect(s, i, kq) == Some(i + lk));
    let i2 = i + lk;
    assert(s[i2] == m[lk]);
    assert(m[lk] == 0x3a);
    assert(spec_skip_ws(s, i2) == i2);
    assert(s.subrange(i2, i2 + 1) =~= seq![0x3au8]);
    assert(spec_expect(s, i2, seq![0x3au8]) == Some(i2 + 1));
    let i4 = i2 + 1;
    assert forall|j: int| 0 <= j < ld implies #[trigger] s.subrange(i4, i4 + ld)[j] == d[j] by {
        assert(s[i + (lk + 1 + j)] == m[lk + 1 + j]);
        assert(m[lk + 1 + j] == d[j]);
        assert(i + (lk + 1 + j) == i4 + j);
        assert(s.subrange(i4, i4 + ld)[j] == s[i4 + j]);
    }
    assert(s.subrange(i4, i4 + ld) =~= d);
    assert(s[i4] == d[0]);
    assert(is_digit(d[0]));
    assert(spec_skip_ws(s, i4) == i4);
    assert forall|j: int| i4 <= j < i4 + ld implies is_digit(s[j]) by {
        assert(s[j] == s.subrange(i4, i4 + ld)[j - i4]);
        assert(s[j] == d[j - i4]);
    }
    if comma {
        assert(s[i + (lm - 1)] == m[lm - 1]);
        assert(i + (lm - 1) == i4 + ld);
        assert(s[i4 + ld] == m[lm - 1]);
        assert(m[lm - 1] == 0x2c);
    }
    lemma_run_exact(s, i4, ld);
    if ld > 1 {
        assert(v >= 10);
        assert(s[i4] != 0x30);
    }
    assert(digits_val(s.subrange(i4, i4 + ld)) == v);
    assert(spec_parse_uint(s, i4) == Some((v as int, i4 + ld)));
    let i6 = i4 + ld;
    if comma {
        assert(spec_skip_ws(s, i6) == i6);
        assert(s.subrange(i6, i6 + 1) =~= seq![0x2cu8]);
        assert(spec_expect(s, i6, seq![0x2cu8]) == Some(i6 + 1));
        assert(i6 + 1 == i + lm);
    } else {
        assert(i6 == i + lm);
    }
}

/// The canonical blob of a well-formed configuration is short: each
/// value has at most nine digits, so the whole object fits easily in a
/// length field.
pub proof fn lemma_config_json_len(cfg: ScorerConfig)
    requires
        cfg.wf(),
    ensures
        spec_config_json(cfg).len() <= 200,
{
    reveal_with_fuel(pow10, 10);
    lemma_dec_len(cfg.native_dim as nat, 9);
    lemma_dec_len(cfg.internal_dim as nat, 9);
    lemma_dec_len(cfg.value_dim as nat, 9);
    lemma_dec_len(cfg.extra_features as nat, 9);
    lemma_dec_len(cfg.hash_buckets as nat, 9);
    lemma_dec_len(cfg.project_slots as nat, 9);
}

/// The reader recovers exactly what the writer wrote: for any
/// well-formed configuration, parsing its canonical JSON form yields
/// that configuration.
#[verifier::rlimit(100)]
pub proof fn lemma_config_json_roundtrip(cfg: ScorerConfig)
    requires
        cfg.wf(),
    ensures
        spec_parse_config(spec_config_json(cfg)) == Some(cfg),
{
    reveal_with_fuel(pow10, 19);
    let s = spec_config_json(cfg);
    let m1 = spec_member(spec_key_native_dim(), cfg.native_dim as nat, true);
    let m2 = spec_member(spec_key_internal_dim(), cfg.internal_dim as nat, true);
    let m3 = spec_member(spec_key_value_dim(), cfg.value_dim as nat, true);
    let m4 = spec_member(spec_key_extra_features(), cfg.extra_features as nat, true);
    let m5 = spec_member(spec_key_hash_buckets(), cfg.hash_buckets as nat, true);
    let m6 = spec_member(spec_key_project_slots(), cfg.project_slots as nat, false);
    let p1 = 1int;
    let p2 = p1 + m1.len() as int;
    let p3 = p2 + m2.len() as int;
    let p4 = p3 + m3.len() as int;
    let p5 = p4 + m4.len() as int;
    let p6 = p5 + m5.len() as int;
    let p7 = p6 + m6.len() as int;
    assert(s.len() == p7 + 1);
    assert(s[0] == 0x7b);
    assert(spec_skip_ws(s, 0) == 0);
    assert(s.subrange(0, 1) =~= seq![0x7bu8]);
    assert(spec_expect(s, 0, seq![0x7bu8]) == Some(1int));
    assert(s.subrange(p1, p2) =~= m1);
    lemma_parse_field_at(s, p1, spec_key_native_dim(), cfg.native_dim as nat, true);
    assert(s.subrange(p2, p3) =~= m2);
    lemma_parse_field_at(s, p2, spec_key_internal_dim(), cfg.internal_dim as nat, true);
    assert(s.subrange(p3, p4) =~= m3);
    lemma_parse_field_at(s, p3, spec_key_value_dim(), cfg.value_dim as nat, true);
    assert(s.subrange(p4, p5) =~= m4);
    lemma_parse_field_at(s, p4, spec_key_extra_features(), cfg.extra_features as nat, true);
    assert(s.subrange(p5, p6) =~= m5);
    lemma_parse_field_at(s, p5, spec_key_hash_buckets(), cfg.hash_buckets as nat, true);
    assert(s.subrange(p6, p7) =~= m6);
    assert(s[p7] == 0x7d);
    lemma_parse_field_at(s, p6, spec_key_project_slots(), cfg.project_slots as nat, false);
    assert(spec_skip_ws(s, p7) == p7);
    assert(s.subrange(p7, p7 + 1) =~= seq![0x7du8]);
    assert(spec_expect(s, p7, seq![0x7du8]) == Some(p7 + 1));
    assert(spec_skip_ws(s, s.len() as int) == s.len());
    assert(spec_parse_config(s) == Some(cfg));
}

/// Read one member with the given key.
fn parse_field(bytes: &[u8], pos: usize, key: &Vec<u8>, comma: bool) -> (r: Option<
    (usize, usize),
>)
    requires
        pos <= bytes@.len(),
    ensures
        match r {
            Some((v, p)) => spec_parse_field(bytes@, pos as int, key@, comma) == Some(
                (v as int, p as int),
            ) && p <= bytes@.len(),
            None => spec_parse_field(bytes@, pos as int, key@, comma) is None,
        },
{
    let i1 = skip_ws(bytes, pos);
    let mut quoted: Vec<u8> = Vec::new();
    quoted.push(0x22);
    push_bytes(&mut quoted, key);
    quoted.push(0x22);
    proof {
        assert(quoted@ =~= seq![0x22u8] + key@ + seq![0x22u8]);
    }
    let i2 = match expect(bytes, i1, quoted.as_slice()) {
        Some(p) => p,
        None => { return None; },
    };
    let i3 = skip_ws(bytes, i2);
    let colon = vec![0x3au8];
    proof {
        assert(colon@ =~= seq![0x3au8]);
    }
    let i4 = match expect(bytes, i3, colon.as_slice()) {
        Some(p) => p,
        None => { return None; },
    };
    let i5 = skip_ws(bytes, i4);
    let (v, i6) = match parse_uint(bytes, i5) {
        Some(x) => x,
        None => { return None; },
    };
    if comma {
        let i7 = skip_ws(bytes, i6);
        let cm = vec![0x2cu8];
        proof {
            assert(cm@ =~= seq![0x2cu8]);
        }
        let i8 = match expect(bytes, i7, cm.as_slice()) {
            Some(p) => p,
            None => { return None; },
        };
        Some((v, i8))
    } else {
        Some((v, i6))
    }
}

/// Read a configuration object. Accepts the field order the writer
/// uses, with arbitrary whitespace around tokens.
pub fn parse_config(bytes: &[u8]) -> (r: Option<ScorerConfig>)
    ensures
        r == spec_parse_config(bytes@),
{
    let i1 = skip_ws(bytes, 0);
    let open = vec![0x7bu8];
    proof {
        assert(open@ =~= seq![0x7bu8]);
    }
    let i2 = match expect(bytes, i1, open.as_slice()) {
        Some(p) => p,
        None => { return None; },
    };
    let (nd, i3) = match parse_field(bytes, i2, &key_native_dim(), true) {
        Some(x) => x,
        None => { return None; },
    };
    let (id, i4) = match parse_field(bytes, i3, &key_internal_dim(), true) {
        Some(x) => x,
        None => { return None; },
    };
    let (vd, i5) = match parse_field(bytes, i4, &key_value_dim(), true) {
        Some(x) => x,
        None => { return None; },
    };
    let (ef, i6) = match parse_field(bytes, i5, &key_extra_features(), true) {
        Some(x) => x,
        None => { return None; },
    };
    let (hb, i7) = match parse_field(bytes, i6, &key_hash_buckets(), true) {
        Some(x) => x,
        None => { return None; },
    };
    let (ps, i8) = match parse_field(bytes, i7, &key_project_slots(), false) {
        Some(x) => x,
        None => { return None; },
    };
    let i9 = skip_ws(bytes, i8);
    let close = vec![0x7du8];
    proof {
        assert(close@ =~= seq![0x7du8]);
    }
    let i10 = match expect(bytes, i9, close.as_slice()) {
        Some(p) => p,
        None => { return None; },
    };
    let rest = skip_ws(bytes, i10);
    if rest != bytes.len() {
        return None;
    }
    Some(
        ScorerConfig {
            native_dim: nd,
            internal_dim: id,
            value_dim: vd,
            extra_features: ef,
            hash_buckets: hb,
            project_slots: ps,
        },
    )
}

} // verus!
