//! Cross-attention ranker: configuration, parameter layout and input
//! validation.
//!
//! The scorer owns seven parameter slots, addressed by dense indices
//! into the tape's parameter store. The slots are registered on a fresh
//! tape in a fixed order (down-projection, Q, K, V, hash-embedding
//! table, project-embedding table, gate), while checkpoints list them
//! in the order down-projection, Q, K, V, gate, hash-embedding table,
//! project-embedding table. The numeric forward pass runs outside this
//! crate; everything it decides from plain values — shapes, encoding
//! routes, slot arithmetic — is specified and checked here.

use vstd::prelude::*;
use crate::tokenizer::HashTrickTokenizer;

verus! {

/// The configured dimensions of a ranker.
#[derive(Clone, Copy, Debug, PartialEq, Eq, Structural)]
pub struct ScorerConfig {
    /// Width of external (native) embeddings.
    pub native_dim: usize,
    /// Attention width.
    pub internal_dim: usize,
    /// Value projection width.
    pub value_dim: usize,
    /// Width of a candidate's feature row.
    pub extra_features: usize,
    /// Bucket count of the hash-trick tokenizer.
    pub hash_buckets: usize,
    /// Number of project-conditioning embedding rows.
    pub project_slots: usize,
}

/// The default configuration.
pub open spec fn spec_default_config() -> ScorerConfig {
    ScorerConfig {
        native_dim: 768,
        internal_dim: 64,
        value_dim: 32,
        extra_features: 12,
        hash_buckets: 16384,
        project_slots: 32,
    }
}

impl ScorerConfig {
    /// Every dimension is positive and small enough that widths derived
    /// from the configuration cannot overflow.
    pub open spec fn wf(&self) -> bool {
        &&& 1 <= self.native_dim <= 0x10000
        &&& 1 <= self.internal_dim <= 0x10000
        &&& 1 <= self.value_dim <= 0x10000
        &&& 1 <= self.extra_features <= 0x10000
        &&& 1 <= self.hash_buckets <= 0x10000000
        &&& 1 <= self.project_slots <= 0x10000
    }
}

impl Default for ScorerConfig {
    fn default() -> (r: ScorerConfig)
        ensures
            r == spec_default_config(),
            r.wf(),
    {
        ScorerConfig {
            native_dim: 768,
            internal_dim: 64,
            value_dim: 32,
            extra_features: 12,
            hash_buckets: 16384,
            project_slots: 32,
        }
    }
}

/// How a candidate will be turned into an internal vector.
#[derive(Clone, Copy, Debug, PartialEq, Eq, Structural)]
pub enum EncodeRoute {
    /// A native-width embedding is present: down-project and normalize.
    NativeEmbedding,
    /// No usable embedding, but text is present: hash, embed, pool.
    HashedText,
}

/// Why a scoring call is rejected.
#[derive(Clone, Copy, Debug, PartialEq, Eq, Structural)]
pub enum ScoreError {
    /// The query embedding does not have the configured native width.
    QueryDimMismatch,
    /// The candidate list is empty.
    EmptyCandidateSet,
    /// The candidate at this position has a feature row of the wrong width.
    FeatureDimMismatch(usize),
    /// The candidate at this position has neither a usable embedding nor text.
    MissingEncoding(usize),
}

/// Shape summary of one candidate: the length of its embedding if one
/// was supplied, whether text was supplied, and its feature-row width.
#[derive(Clone, Copy, Debug, PartialEq, Eq, Structural)]
pub struct CandidateMeta {
    pub embedding_len: Option<usize>,
    pub has_text: bool,
    pub feature_len: usize,
}

/// The encoding route of one candidate: a native embedding is used only
/// when its width matches exactly, otherwise text is used, otherwise
/// the candidate cannot be encoded.
pub open spec fn spec_route(c: CandidateMeta, native_dim: usize) -> Option<EncodeRoute> {
    if c.embedding_len == Some(native_dim) {
        Some(EncodeRoute::NativeEmbedding)
    } else if c.has_text {
        Some(EncodeRoute::HashedText)
    } else {
        None
    }
}

/// Route every candidate from position `i` on, or report the first
/// failure: a wrong feature width is reported before a missing
/// encoding, and lower positions before higher ones.
pub open spec fn spec_plan_from(
    cands: Seq<CandidateMeta>,
    cfg: ScorerConfig,
    i: int,
) -> Result<Seq<EncodeRoute>, ScoreError>
    decreases cands.len() - i,
{
    if i < 0 || i >= cands.len() {
        Ok(Seq::empty())
    } else if cands[i].feature_len != cfg.extra_features {
        Err(ScoreError::FeatureDimMismatch(i as usize))
    } else {
        match spec_route(cands[i], cfg.native_dim) {
            None => Err(ScoreError::MissingEncoding(i as usize)),
            Some(rt) => match spec_plan_from(cands, cfg, i + 1) {
                Ok(rest) => Ok(seq![rt] + rest),
                Err(e) => Err(e),
            },
        }
    }
}

/// Prefix already-routed candidates onto the outcome for the rest.
pub open spec fn spec_prepend_routes(
    pre: Seq<EncodeRoute>,
    r: Result<Seq<EncodeRoute>, ScoreError>,
) -> Result<Seq<EncodeRoute>, ScoreError> {
    match r {
        Ok(rest) => Ok(pre + rest),
        Err(e) => Err(e),
    }
}

/// Validate a whole scoring call: the query must have the native width
/// and the candidate list must be non-empty, then every candidate must
/// route.
pub open spec fn spec_plan(
    cands: Seq<CandidateMeta>,
    cfg: ScorerConfig,
    query_len: int,
) -> Result<Seq<EncodeRoute>, ScoreError> {
    if query_len != cfg.native_dim {
        Err(ScoreError::QueryDimMismatch)
    } else if cands.len() == 0 {
        Err(ScoreError::EmptyCandidateSet)
    } else {
        spec_plan_from(cands, cfg, 0)
    }
}

/// The cross-attention ranker's static description: its configuration,
/// the tape slots of its seven parameters, and its tokenizer.
#[derive(Clone, Debug)]
pub struct CrossAttentionScorer {
    config: ScorerConfig,
    down_proj: usize,
    q_proj: usize,
    k_proj: usize,
    v_proj: usize,
    gate_proj: usize,
    hash_embeddings: usize,
    project_embeddings: usize,
    tokenizer: HashTrickTokenizer,
}

impl CrossAttentionScorer {
    pub closed spec fn spec_config(&self) -> ScorerConfig {
        self.config
    }

    /// The slots follow the registration order on a fresh tape:
    /// down-projection, Q, K, V, hash table, project table, gate.
    pub closed spec fn spec_slots_canonical(&self) -> bool {
        &&& self.down_proj == 0
        &&& self.q_proj == 1
        &&& self.k_proj == 2
        &&& self.v_proj == 3
        &&& self.hash_embeddings == 4
        &&& self.project_embeddings == 5
        &&& self.gate_proj == 6
    }

    pub open spec fn wf(&self) -> bool {
        &&& self.spec_config().wf()
        &&& self.spec_slots_canonical()
        &&& self.spec_tokenizer().wf()
        &&& self.spec_tokenizer().spec_buckets() == self.spec_config().hash_buckets
    }

    pub closed spec fn spec_tokenizer(&self) -> HashTrickTokenizer {
        self.tokenizer
    }

    /// Describe a ranker whose parameters occupy the first seven slots
    /// of a fresh tape, in registration order.
    pub fn new(config: ScorerConfig) -> (r: CrossAttentionScorer)
        requires
            config.wf(),
        ensures
            r.wf(),
            r.spec_config() == config,
    {
        CrossAttentionScorer {
            config,
            down_proj: 0,
            q_proj: 1,
            k_proj: 2,
            v_proj: 3,
            hash_embeddings: 4,
            project_embeddings: 5,
            gate_proj: 6,
            tokenizer: HashTrickTokenizer::new(config.hash_buckets),
        }
    }

    pub fn config(&self) -> (r: ScorerConfig)
        ensures
            r == self.spec_config(),
    {
        self.config
    }

    pub fn tokenizer(&self) -> (r: &HashTrickTokenizer)
        ensures
            r == self.spec_tokenizer(),
    {
        &self.tokenizer
    }

    /// The tape slots of the seven parameters in checkpoint order:
    /// down-projection, Q, K, V, gate, hash table, project table.
    pub fn param_indices(&self) -> (r: [usize; 7])
        requires
            self.wf(),
        ensures
            r@ == seq![0usize, 1, 2, 3, 6, 4, 5],
    {
        let r = [
            self.down_proj,
            self.q_proj,
            self.k_proj,
            self.v_proj,
            self.gate_proj,
            self.hash_embeddings,
            self.project_embeddings,
        ];
        proof {
            assert(r@ =~= seq![0usize, 1, 2, 3, 6, 4, 5]);
        }
        r
    }

    /// Rows of the parameter at checkpoint position `slot`.
    pub open spec fn spec_slot_rows(cfg: ScorerConfig, slot: int) -> int {
        if slot == 0 {
            cfg.internal_dim as int
        } else if slot == 1 {
            cfg.internal_dim as int
        } else if slot == 2 {
            cfg.internal_dim as int
        } else if slot == 3 {
            cfg.value_dim as int
        } else if slot == 4 {
            1
        } else if slot == 5 {
            cfg.hash_buckets as int
        } else {
            cfg.project_slots as int
        }
    }

    /// Columns of the parameter at checkpoint position `slot`.
    pub open spec fn spec_slot_cols(cfg: ScorerConfig, slot: int) -> int {
        if slot == 0 {
            cfg.native_dim as int
        } else if slot == 4 {
            cfg.value_dim + cfg.extra_features + cfg.internal_dim + 1
        } else {
            cfg.internal_dim as int
        }
    }

    /// The (rows, cols) shape of the parameter at checkpoint position
    /// `slot`.
    pub fn checkpoint_slot_shape(&self, slot: usize) -> (r: (usize, usize))
        requires
            self.wf(),
            slot < 7,
        ensures
            r.0 == Self::spec_slot_rows(self.spec_config(), slot as int),
            r.1 == Self::spec_slot_cols(self.spec_config(), slot as int),
    {
        let cfg = self.config;
        let rows = if slot == 0 || slot == 1 || slot == 2 {
            cfg.internal_dim
        } else if slot == 3 {
            cfg.value_dim
        } else if slot == 4 {
            1
        } else if slot == 5 {
            cfg.hash_buckets
        } else {
            cfg.project_slots
        };
        let cols = if slot == 0 {
            cfg.native_dim
        } else if slot == 4 {
            cfg.value_dim + cfg.extra_features + cfg.internal_dim + 1
        } else {
            cfg.internal_dim
        };
        (rows, cols)
    }

    /// The project-embedding row selected by a project slot: reduction
    /// modulo the configured row count.
    pub fn project_row(&self, project_slot: usize) -> (r: usize)
        requires
            self.wf(),
        ensures
            r == project_slot as int % self.spec_config().project_slots as int,
            r < self.spec_config().project_slots,
    {
        project_slot % self.config.project_slots
    }

    /// Decide how every candidate of a call will be encoded, or reject
    /// the call: wrong query width, empty candidate set, a feature row
    /// of the wrong width, or a candidate with no way to encode it.
    pub fn plan_candidates(&self, query_len: usize, cands: &Vec<CandidateMeta>) -> (r: Result<
        Vec<EncodeRoute>,
        ScoreError,
    >)
        requires
            self.wf(),
        ensures
            match r {
                Ok(routes) => spec_plan(cands@, self.spec_config(), query_len as int) == Ok::<
                    Seq<EncodeRoute>,
                    ScoreError,
                >(routes@),
                Err(e) => spec_plan(cands@, self.spec_config(), query_len as int) == Err::<
                    Seq<EncodeRoute>,
                    ScoreError,
                >(e),
            },
    {
        let ghost cfg = self.spec_config();
        let ghost s = cands@;
        if query_len != self.config.native_dim {
            return Err(ScoreError::QueryDimMismatch);
        }
        if cands.len() == 0 {
            return Err(ScoreError::EmptyCandidateSet);
        }
        let n = cands.len();
        let mut routes: Vec<EncodeRoute> = Vec::new();
        let mut i: usize = 0;
        while i < n
            invariant
                cfg == self.spec_config(),
                s == cands@,
                n == s.len(),
                query_len == cfg.native_dim,
                n > 0,
                i <= n,
                routes@.len() == i,
                spec_plan_from(s, cfg, 0) == spec_prepend_routes(
                    routes@,
                    spec_plan_from(s, cfg, i as int),
                ),
            decreases n - i,
        {
            let c = cands[i];
            if c.feature_len != self.config.extra_features {
                proof {
                    assert(spec_plan_from(s, cfg, i as int) == Err::<Seq<EncodeRoute>, ScoreError>(
                        ScoreError::FeatureDimMismatch(i),
                    ));
                }
                return Err(ScoreError::FeatureDimMismatch(i));
            }
            let rt: EncodeRoute;
            match c.embedding_len {
                Some(el) if el == self.config.native_dim => {
                    rt = EncodeRoute::NativeEmbedding;
                },
                _ => {
                    if c.has_text {
                        rt = EncodeRoute::HashedText;
                    } else {
                        proof {
                            assert(spec_route(s[i as int], cfg.native_dim) is None);
                            assert(spec_plan_from(s, cfg, i as int) == Err::<
                                Seq<EncodeRoute>,
                                ScoreError,
                            >(ScoreError::MissingEncoding(i)));
                        }
                        return Err(ScoreError::MissingEncoding(i));
                    }
                },
            }
            proof {
                assert(spec_route(s[i as int], cfg.native_dim) == Some(rt));
            }
            let ghost prev_routes = routes@;
            routes.push(rt);
            i = i + 1;
            proof {
                let tail = spec_plan_from(s, cfg, i as int);
                assert(spec_plan_from(s, cfg, i - 1) == spec_prepend_routes(seq![rt], tail));
                if tail is Ok {
                    let rest = tail->Ok_0;
                    assert(prev_routes + (seq![rt] + rest) =~= routes@ + rest);
                }
            }
        }
        proof {
            assert(spec_plan_from(s, cfg, n as int) == Ok::<Seq<EncodeRoute>, ScoreError>(
                Seq::empty(),
            ));
            assert(routes@ + Seq::<EncodeRoute>::empty() =~= routes@);
        }
        Ok(routes)
    }
}

} // verus!
