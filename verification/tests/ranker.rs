use predictor::model::{
    CandidateMeta, CrossAttentionScorer, EncodeRoute, ScoreError, ScorerConfig,
};
use predictor::protocol::ServiceCounters;
use predictor::training::{
    canary_split, topk_cap, topk_overlap, validate_sample, SampleCheck, SampleMeta, TrainingError,
};

fn small_config() -> ScorerConfig {
    ScorerConfig {
        native_dim: 8,
        internal_dim: 4,
        value_dim: 2,
        extra_features: 3,
        hash_buckets: 128,
        project_slots: 4,
    }
}

fn meta(embedding_len: Option<usize>, has_text: bool, feature_len: usize) -> CandidateMeta {
    CandidateMeta { embedding_len, has_text, feature_len }
}

#[test]
fn default_config_matches_documented_values() {
    let cfg = ScorerConfig::default();
    assert_eq!(cfg.native_dim, 768);
    assert_eq!(cfg.internal_dim, 64);
    assert_eq!(cfg.value_dim, 32);
    assert_eq!(cfg.extra_features, 12);
    assert_eq!(cfg.hash_buckets, 16384);
    assert_eq!(cfg.project_slots, 32);
}

#[test]
fn param_indices_follow_checkpoint_order() {
    let scorer = CrossAttentionScorer::new(small_config());
    assert_eq!(scorer.param_indices(), [0, 1, 2, 3, 6, 4, 5]);
    assert_eq!(scorer.config(), small_config());
}

#[test]
fn checkpoint_slot_shapes_follow_configuration() {
    let cfg = small_config();
    let scorer = CrossAttentionScorer::new(cfg);
    // down-projection, Q, K, V, gate, hash table, project table
    assert_eq!(scorer.checkpoint_slot_shape(0), (4, 8));
    assert_eq!(scorer.checkpoint_slot_shape(1), (4, 4));
    assert_eq!(scorer.checkpoint_slot_shape(2), (4, 4));
    assert_eq!(scorer.checkpoint_slot_shape(3), (2, 4));
    assert_eq!(scorer.checkpoint_slot_shape(4), (1, 2 + 3 + 4 + 1));
    assert_eq!(scorer.checkpoint_slot_shape(5), (128, 4));
    assert_eq!(scorer.checkpoint_slot_shape(6), (4, 4));
}

#[test]
fn project_row_reduces_modulo_slots() {
    let scorer = CrossAttentionScorer::new(small_config());
    assert_eq!(scorer.project_row(0), 0);
    assert_eq!(scorer.project_row(5), 1);
    assert_eq!(scorer.project_row(7), 3);
}

#[test]
fn plan_routes_native_over_text() {
    let scorer = CrossAttentionScorer::new(small_config());
    let cands = vec![
        meta(Some(8), false, 3),
        meta(Some(8), true, 3),
        meta(None, true, 3),
        meta(Some(5), true, 3),
    ];
    let routes = scorer.plan_candidates(8, &cands).unwrap();
    assert_eq!(
        routes,
        vec![
            EncodeRoute::NativeEmbedding,
            EncodeRoute::NativeEmbedding,
            EncodeRoute::HashedText,
            EncodeRoute::HashedText,
        ]
    );
}

#[test]
fn plan_rejects_bad_inputs_in_order() {
    let scorer = CrossAttentionScorer::new(small_config());
    let good = vec![meta(Some(8), false, 3)];
    assert_eq!(
        scorer.plan_candidates(7, &good),
        Err(ScoreError::QueryDimMismatch)
    );
    assert_eq!(
        scorer.plan_candidates(8, &Vec::new()),
        Err(ScoreError::EmptyCandidateSet)
    );
    let bad_features = vec![meta(Some(8), false, 3), meta(Some(8), false, 2)];
    assert_eq!(
        scorer.plan_candidates(8, &bad_features),
        Err(ScoreError::FeatureDimMismatch(1))
    );
    // the feature check fires before the encoding check on the same candidate
    let both_bad = vec![meta(None, false, 2)];
    assert_eq!(
        scorer.plan_candidates(8, &both_bad),
        Err(ScoreError::FeatureDimMismatch(0))
    );
    let unencodable = vec![meta(Some(8), false, 3), meta(Some(5), false, 3)];
    assert_eq!(
        scorer.plan_candidates(8, &unencodable),
        Err(ScoreError::MissingEncoding(1))
    );
}

fn sample(query_len: usize, n: usize, n_labels: usize, feature_lens: Vec<usize>) -> SampleMeta {
    SampleMeta { query_len, n_candidates: n, n_labels, n_texts: 0, feature_lens }
}

#[test]
fn validate_sample_accepts_and_skips() {
    let cfg = small_config();
    assert_eq!(
        validate_sample(&sample(8, 2, 2, vec![3, 3]), &cfg).unwrap(),
        SampleCheck::Train
    );
    // missing feature rows are legal: default rows are used
    assert_eq!(
        validate_sample(&sample(8, 2, 2, Vec::new()), &cfg).unwrap(),
        SampleCheck::Train
    );
    // an empty candidate list is skipped, not an error
    assert_eq!(
        validate_sample(&sample(8, 0, 0, Vec::new()), &cfg).unwrap(),
        SampleCheck::Skip
    );
}

#[test]
fn validate_sample_rejects_mismatches() {
    let cfg = small_config();
    assert!(matches!(
        validate_sample(&sample(8, 2, 3, Vec::new()), &cfg),
        Err(TrainingError::InvalidSample(_))
    ));
    assert!(matches!(
        validate_sample(&sample(7, 2, 2, Vec::new()), &cfg),
        Err(TrainingError::InvalidSample(_))
    ));
    assert!(matches!(
        validate_sample(&sample(8, 2, 2, vec![3]), &cfg),
        Err(TrainingError::InvalidSample(_))
    ));
    assert!(matches!(
        validate_sample(&sample(8, 2, 2, vec![3, 4]), &cfg),
        Err(TrainingError::InvalidSample(_))
    ));
}

#[test]
fn canary_split_reserves_first_ten() {
    assert_eq!(canary_split(0), (0, 0));
    assert_eq!(canary_split(7), (7, 7));
    assert_eq!(canary_split(10), (10, 10));
    assert_eq!(canary_split(11), (10, 1));
    assert_eq!(canary_split(45), (10, 35));
}

#[test]
fn topk_overlap_counts_shared_indices() {
    assert_eq!(topk_overlap(&vec![0, 1, 2], &vec![2, 3, 4]), 1);
    assert_eq!(topk_overlap(&vec![0, 1, 2], &vec![5, 6]), 0);
    assert_eq!(topk_overlap(&Vec::new(), &vec![1]), 0);
    assert_eq!(topk_overlap(&vec![4, 2, 0, 1, 3], &vec![0, 1, 2, 3, 4]), 5);
}

#[test]
fn topk_overlap_of_identical_lists_is_full() {
    // identical pre and post rankings give stability exactly 1
    for list in [vec![3, 1, 4, 1, 5], vec![0], Vec::new()] {
        let n = list.len();
        assert_eq!(topk_overlap(&list, &list), n);
        let k = topk_cap(n);
        if k > 0 {
            assert_eq!(topk_overlap(&list, &list) / list.len(), 1);
        }
    }
}

#[test]
fn topk_cap_is_five_or_fewer() {
    assert_eq!(topk_cap(0), 0);
    assert_eq!(topk_cap(3), 3);
    assert_eq!(topk_cap(5), 5);
    assert_eq!(topk_cap(9), 5);
}

#[test]
fn counters_advance_only_on_steps() {
    let mut c = ServiceCounters::new();
    assert_eq!(c.model_version, 1);
    assert_eq!(c.train_steps, 0);
    let s = c.status(None);
    assert!(!s.trained);
    c.record_training(0, 4);
    assert_eq!(c.model_version, 1);
    assert_eq!(c.training_pairs, 4);
    c.record_training(3, 2);
    assert_eq!(c.model_version, 2);
    assert_eq!(c.train_steps, 3);
    assert_eq!(c.training_pairs, 6);
    let s = c.status(Some("2026-02-20T14:00:00Z".to_string()));
    assert!(s.trained);
    assert_eq!(s.model_version, 2);
    assert_eq!(s.last_trained.as_deref(), Some("2026-02-20T14:00:00Z"));
}
