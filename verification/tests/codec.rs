use predictor::checkpoint::{
    check_apply, decode_checkpoint, encode_checkpoint, read_u32, CheckpointError,
};
use predictor::config_codec::{encode_config, parse_config};
use predictor::model::ScorerConfig;

fn small_config() -> ScorerConfig {
    ScorerConfig {
        native_dim: 8,
        internal_dim: 4,
        value_dim: 2,
        extra_features: 3,
        hash_buckets: 128,
        project_slots: 4,
    }
}

#[test]
fn config_encodes_to_canonical_json() {
    let cfg = small_config();
    let bytes = encode_config(&cfg);
    let expected = "{\"native_dim\":8,\"internal_dim\":4,\"value_dim\":2,\
                    \"extra_features\":3,\"hash_buckets\":128,\"project_slots\":4}";
    assert_eq!(bytes, expected.as_bytes().to_vec());
}

#[test]
fn config_json_is_read_back_by_a_general_json_parser() {
    let cfg = ScorerConfig::default();
    let bytes = encode_config(&cfg);
    let v: serde_json::Value = serde_json::from_slice(&bytes).unwrap();
    assert_eq!(v["native_dim"].as_u64(), Some(768));
    assert_eq!(v["internal_dim"].as_u64(), Some(64));
    assert_eq!(v["value_dim"].as_u64(), Some(32));
    assert_eq!(v["extra_features"].as_u64(), Some(12));
    assert_eq!(v["hash_buckets"].as_u64(), Some(16384));
    assert_eq!(v["project_slots"].as_u64(), Some(32));
    assert_eq!(v.as_object().unwrap().len(), 6);
}

#[test]
fn config_parses_what_it_writes() {
    let cfg = ScorerConfig::default();
    let parsed = parse_config(&encode_config(&cfg)).unwrap();
    assert_eq!(parsed, cfg);
}

#[test]
fn config_parser_tolerates_whitespace() {
    let text = " { \"native_dim\" : 8 , \"internal_dim\" : 4 , \"value_dim\" : 2 ,\n\
                \t\"extra_features\" : 3 , \"hash_buckets\" : 128 , \"project_slots\" : 4 } ";
    assert_eq!(parse_config(text.as_bytes()).unwrap(), small_config());
}

#[test]
fn config_parser_rejects_malformed_objects() {
    assert!(parse_config(b"").is_none());
    assert!(parse_config(b"{}").is_none());
    assert!(parse_config(b"{\"native_dim\":8}").is_none());
    // leading zero is not a JSON integer
    let bad = "{\"native_dim\":08,\"internal_dim\":4,\"value_dim\":2,\
               \"extra_features\":3,\"hash_buckets\":128,\"project_slots\":4}";
    assert!(parse_config(bad.as_bytes()).is_none());
    // trailing garbage
    let trailing = "{\"native_dim\":8,\"internal_dim\":4,\"value_dim\":2,\
                    \"extra_features\":3,\"hash_buckets\":128,\"project_slots\":4}x";
    assert!(parse_config(trailing.as_bytes()).is_none());
}

fn bits(values: &[f64]) -> Vec<u64> {
    values.iter().map(|v| v.to_bits()).collect()
}

#[test]
fn checkpoint_roundtrip_is_bit_exact() {
    let cfg = small_config();
    let params = vec![
        bits(&[1.5, -2.25, 0.0, -0.0, 1.0e-300]),
        bits(&[f64::MAX, f64::MIN_POSITIVE]),
        Vec::new(),
        bits(&[0.1 + 0.2]),
    ];
    let encoded = encode_checkpoint(&cfg, 0xdead_beef, &params);
    let loaded = decode_checkpoint(&encoded).unwrap();
    assert_eq!(loaded.version, 1);
    assert_eq!(loaded.flags, 0xdead_beef);
    assert_eq!(loaded.config, cfg);
    assert_eq!(loaded.params, params);
    for (slot, p) in loaded.params.iter().enumerate() {
        for (i, w) in p.iter().enumerate() {
            assert_eq!(f64::from_bits(*w).to_bits(), params[slot][i]);
        }
    }
}

#[test]
fn checkpoint_layout_is_little_endian() {
    let cfg = small_config();
    let params = vec![bits(&[1.0])];
    let encoded = encode_checkpoint(&cfg, 7, &params);
    assert_eq!(&encoded[0..4], b"SGPT");
    assert_eq!(&encoded[4..8], &[1, 0, 0, 0]);
    assert_eq!(&encoded[8..12], &[7, 0, 0, 0]);
    let cfg_len = u32::from_le_bytes([encoded[12], encoded[13], encoded[14], encoded[15]]) as usize;
    assert_eq!(cfg_len, encode_config(&cfg).len());
    let n_off = 16 + cfg_len;
    assert_eq!(&encoded[n_off..n_off + 4], &[1, 0, 0, 0]);
    assert_eq!(&encoded[n_off + 4..n_off + 8], &[1, 0, 0, 0]);
    assert_eq!(&encoded[n_off + 8..n_off + 16], &1.0f64.to_le_bytes());
}

#[test]
fn checkpoint_rejects_bad_magic() {
    let cfg = small_config();
    let mut encoded = encode_checkpoint(&cfg, 0, &vec![bits(&[1.0])]);
    encoded[0] = b'X';
    assert!(matches!(
        decode_checkpoint(&encoded),
        Err(CheckpointError::InvalidFormat(_))
    ));
}

#[test]
fn checkpoint_rejects_truncation() {
    let cfg = small_config();
    let encoded = encode_checkpoint(&cfg, 0, &vec![bits(&[1.0, 2.0])]);
    for cut in [2, 10, 20, encoded.len() - 1] {
        assert!(matches!(
            decode_checkpoint(&encoded[..cut]),
            Err(CheckpointError::InvalidFormat(_))
        ));
    }
}

#[test]
fn checkpoint_rejects_unreadable_config() {
    let mut encoded: Vec<u8> = Vec::new();
    encoded.extend_from_slice(b"SGPT");
    encoded.extend_from_slice(&1u32.to_le_bytes());
    encoded.extend_from_slice(&0u32.to_le_bytes());
    encoded.extend_from_slice(&4u32.to_le_bytes());
    encoded.extend_from_slice(b"liar");
    encoded.extend_from_slice(&0u32.to_le_bytes());
    assert!(matches!(decode_checkpoint(&encoded), Err(CheckpointError::Json)));
}

#[test]
fn checkpoint_ignores_trailing_bytes() {
    let cfg = small_config();
    let mut encoded = encode_checkpoint(&cfg, 0, &vec![bits(&[3.5])]);
    encoded.extend_from_slice(b"junk");
    let loaded = decode_checkpoint(&encoded).unwrap();
    assert_eq!(loaded.params, vec![bits(&[3.5])]);
}

#[test]
fn apply_checks_parameter_shapes() {
    let cfg = small_config();
    let params = vec![bits(&[1.0, 2.0]), bits(&[3.0])];
    let loaded = decode_checkpoint(&encode_checkpoint(&cfg, 0, &params)).unwrap();
    assert!(check_apply(&loaded, &vec![2, 1]).is_ok());
    assert!(matches!(
        check_apply(&loaded, &vec![2]),
        Err(CheckpointError::InvalidFormat(_))
    ));
    assert!(matches!(
        check_apply(&loaded, &vec![2, 3]),
        Err(CheckpointError::InvalidFormat(_))
    ));
}

#[test]
fn read_u32_is_little_endian() {
    let bytes = [0x78u8, 0x56, 0x34, 0x12, 0xff];
    let (v, next) = read_u32(&bytes, 0).unwrap();
    assert_eq!(v, 0x1234_5678);
    assert_eq!(next, 4);
    assert!(read_u32(&bytes, 2).is_none());
}
