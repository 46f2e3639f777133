//! Training-side decisions: sample validation, the canary split, and
//! the top-K overlap behind the stability metric.
//!
//! The numeric loop itself — forward, backward, optimizer step — runs
//! on 64-bit floats outside this crate; everything it decides from
//! counts and indices is specified and checked here.

use vstd::prelude::*;
use crate::model::ScorerConfig;

verus! {

/// Why a batch stops at a sample.
#[derive(Debug)]
pub enum TrainingError {
    /// The sample's internal widths disagree.
    InvalidSample(String),
    /// The ranker rejected the sample's shapes.
    Model(String),
}

/// What to do with a sample that passed validation.
#[derive(Clone, Copy, Debug, PartialEq, Eq, Structural)]
pub enum SampleCheck {
    /// The sample has no candidates: legal, but nothing to train on.
    Skip,
    /// The sample is trainable.
    Train,
}

/// Shape summary of one training sample: the widths the validator
/// looks at, never the values.
pub struct SampleMeta {
    /// Length of the query embedding.
    pub query_len: usize,
    /// Number of candidates (length of the embedding list).
    pub n_candidates: usize,
    /// Number of labels.
    pub n_labels: usize,
    /// Number of candidate texts (zero when none were supplied).
    pub n_texts: usize,
    /// Width of each supplied feature row (empty when none were
    /// supplied; default rows of the configured width are used then).
    pub feature_lens: Vec<usize>,
}

/// The validator's verdict, in the order the checks run: label count,
/// emptiness, query width, feature-row count, feature-row widths, text
/// count.
#[derive(Clone, Copy, Debug, PartialEq, Eq, Structural)]
pub enum SampleOutcome {
    Skip,
    Train,
    LabelCountMismatch,
    QueryDimMismatch,
    FeatureCountMismatch,
    FeatureWidthMismatch,
    TextCountMismatch,
}

/// First failing check of a sample, or `Skip` / `Train`.
pub open spec fn spec_check_sample(
    query_len: int,
    n_candidates: int,
    n_labels: int,
    n_texts: int,
    feature_lens: Seq<usize>,
    cfg: ScorerConfig,
) -> SampleOutcome {
    if n_candidates != n_labels {
        SampleOutcome::LabelCountMismatch
    } else if n_candidates == 0 {
        SampleOutcome::Skip
    } else if query_len != cfg.native_dim {
        SampleOutcome::QueryDimMismatch
    } else if feature_lens.len() != 0 && feature_lens.len() != n_candidates {
        SampleOutcome::FeatureCountMismatch
    } else if exists|k: int|
        0 <= k < feature_lens.len() && #[trigger] feature_lens[k] != cfg.extra_features {
        SampleOutcome::FeatureWidthMismatch
    } else if n_texts != 0 && n_texts != n_candidates {
        SampleOutcome::TextCountMismatch
    } else {
        SampleOutcome::Train
    }
}

/// Validate a sample's widths against the configuration. An empty
/// candidate list is legal and skipped; every other disagreement is an
/// invalid sample.
pub fn validate_sample(meta: &SampleMeta, cfg: &ScorerConfig) -> (r: Result<
    SampleCheck,
    TrainingError,
>)
    ensures
        ({
            let o = spec_check_sample(
                meta.query_len as int,
                meta.n_candidates as int,
                meta.n_labels as int,
                meta.n_texts as int,
                meta.feature_lens@,
                *cfg,
            );
            match r {
                Ok(c) => (c == SampleCheck::Skip && o == SampleOutcome::Skip) || (c
                    == SampleCheck::Train && o == SampleOutcome::Train),
                Err(TrainingError::InvalidSample(_)) => o != SampleOutcome::Skip && o
                    != SampleOutcome::Train,
                Err(TrainingError::Model(_)) => false,
            }
        }),
{
    if meta.n_candidates != meta.n_labels {
        return Err(TrainingError::InvalidSample("candidate and label counts differ".to_owned()));
    }
    if meta.n_candidates == 0 {
        return Ok(SampleCheck::Skip);
    }
    if meta.query_len != cfg.native_dim {
        return Err(TrainingError::InvalidSample("query dimension mismatch".to_owned()));
    }
    let nf = meta.feature_lens.len();
    if nf != 0 && nf != meta.n_candidates {
        return Err(
            TrainingError::InvalidSample("candidate and feature row counts differ".to_owned()),
        );
    }
    let mut k: usize = 0;
    while k < nf
        invariant
            nf == meta.feature_lens@.len(),
            meta.n_candidates == meta.n_labels,
            meta.n_candidates > 0,
            meta.query_len == cfg.native_dim,
            nf == 0 || nf == meta.n_candidates,
            k <= nf,
            forall|j: int| 0 <= j < k ==> #[trigger] meta.feature_lens@[j] == cfg.extra_features,
        decreases nf - k,
    {
        if meta.feature_lens[k] != cfg.extra_features {
            proof {
                assert(meta.feature_lens@[k as int] != cfg.extra_features);
            }
            return Err(TrainingError::InvalidSample("invalid feature dimension".to_owned()));
        }
        k = k + 1;
    }
    if meta.n_texts != 0 && meta.n_texts != meta.n_candidates {
        return Err(TrainingError::InvalidSample("candidate and text counts differ".to_owned()));
    }
    Ok(SampleCheck::Train)
}

/// Sizes of the canary and training sets: with at most ten samples,
/// all of them serve as both; otherwise the first ten are the canary
/// and the rest are trained on.
pub fn canary_split(total: usize) -> (r: (usize, usize))
    ensures
        total <= 10 ==> r == (total, total),
        total > 10 ==> r == (10usize, (total - 10) as usize),
{
    if total <= 10 {
        (total, total)
    } else {
        (10, total - 10)
    }
}

/// How many entries of `post` occur in `pre` (an entry of `post` that
/// occurs in `pre` counts once per occurrence in `post`).
pub open spec fn spec_overlap(post: Seq<usize>, pre: Seq<usize>) -> int
    decreases post.len(),
{
    if post.len() == 0 {
        0
    } else {
        spec_overlap(post.drop_last(), pre) + (if pre.contains(post.last()) {
            1int
        } else {
            0int
        })
    }
}

/// Does `hay` hold `x`?
fn contains_index(hay: &Vec<usize>, x: usize) -> (r: bool)
    ensures
        r == hay@.contains(x),
{
    let n = hay.len();
    let mut k: usize = 0;
    while k < n
        invariant
            n == hay@.len(),
            k <= n,
            forall|j: int| 0 <= j < k ==> hay@[j] != x,
        decreases n - k,
    {
        if hay[k] == x {
            return true;
        }
        k = k + 1;
    }
    proof {
        assert(!hay@.contains(x));
    }
    false
}

/// Count how many of the post-training top entries also appear in the
/// pre-training top entries.
pub fn topk_overlap(post: &Vec<usize>, pre: &Vec<usize>) -> (r: usize)
    ensures
        r == spec_overlap(post@, pre@),
        r <= post@.len(),
{
    let n = post.len();
    let mut count: usize = 0;
    let mut k: usize = 0;
    proof {
        assert(post@.take(0) =~= Seq::<usize>::empty());
    }
    while k < n
        invariant
            n == post@.len(),
            k <= n,
            count <= k,
            count == spec_overlap(post@.take(k as int), pre@),
        decreases n - k,
    {
        let hit = contains_index(pre, post[k]);
        if hit {
            count = count + 1;
        }
        k = k + 1;
        proof {
            assert(post@.take(k as int).drop_last() =~= post@.take(k - 1));
            assert(post@.take(k as int).last() == post@[k - 1]);
        }
    }
    proof {
        assert(post@.take(n as int) =~= post@);
    }
    count
}

/// When every post entry occurs among the pre entries, the overlap is
/// the whole post list.
pub proof fn lemma_overlap_full(post: Seq<usize>, pre: Seq<usize>)
    requires
        forall|k: int| 0 <= k < post.len() ==> pre.contains(#[trigger] post[k]),
    ensures
        spec_overlap(post, pre) == post.len(),
    decreases post.len(),
{
    if post.len() > 0 {
        assert(pre.contains(post.last()));
        assert(forall|k: int|
            0 <= k < post.drop_last().len() ==> pre.contains(#[trigger] post.drop_last()[k]));
        lemma_overlap_full(post.drop_last(), pre);
    }
}

/// Top-K stability of an unchanged model: when the pre- and
/// post-training top lists are the same list, every entry overlaps, so
/// the overlap count equals the list length and the per-sample
/// stability ratio is exactly one.
pub proof fn lemma_overlap_identical(s: Seq<usize>)
    ensures
        spec_overlap(s, s) == s.len(),
{
    assert(forall|k: int| 0 <= k < s.len() ==> s.contains(#[trigger] s[k]));
    lemma_overlap_full(s, s);
}

/// The denominator of the per-sample stability ratio: at most five,
/// at most the candidate count.
pub fn topk_cap(candidate_count: usize) -> (r: usize)
    ensures
        r == if candidate_count < 5 {
            candidate_count as int
        } else {
            5int
        },
{
    if candidate_count < 5 {
        candidate_count
    } else {
        5
    }
}

} // verus!
