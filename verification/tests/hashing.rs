use predictor::data::project_to_slot;
use predictor::rng::Rng;
use predictor::tokenizer::{fnv1a_hash, HashTrickTokenizer};

#[test]
fn token_indices_are_stable() {
    let tokenizer = HashTrickTokenizer::new(256);
    let a = tokenizer.token_indices("foo bar baz");
    let b = tokenizer.token_indices("foo bar baz");
    assert_eq!(a, b);
    assert!(a.iter().all(|idx| *idx < 256));
}

#[test]
fn fnv1a_known_values() {
    assert_eq!(fnv1a_hash(&[]), 0xcbf29ce484222325);
    assert_eq!(fnv1a_hash(b"a"), 0xaf63dc4c8601ec8c);
    assert_eq!(fnv1a_hash(b"foobar"), 0x85944171f73967e8);
}

#[test]
fn token_indices_match_manual_hashing() {
    let tokenizer = HashTrickTokenizer::new(256);
    let idx = tokenizer.token_indices("foo bar");
    let expected = vec![
        (fnv1a_hash(b"foo") % 256) as usize,
        (fnv1a_hash(b"bar") % 256) as usize,
    ];
    assert_eq!(idx, expected);
}

#[test]
fn token_indices_empty_and_separator_only() {
    let tokenizer = HashTrickTokenizer::new(64);
    assert!(tokenizer.token_indices("").is_empty());
    assert!(tokenizer.token_indices("  ,;!  ").is_empty());
}

#[test]
fn token_indices_keep_underscore_and_hyphen() {
    let tokenizer = HashTrickTokenizer::new(1024);
    let idx = tokenizer.token_indices("a_b-c d");
    let expected = vec![
        (fnv1a_hash(b"a_b-c") % 1024) as usize,
        (fnv1a_hash(b"d") % 1024) as usize,
    ];
    assert_eq!(idx, expected);
}

#[test]
fn token_indices_split_on_non_ascii_characters() {
    // Bytes of a multi-byte character all fall outside the token
    // alphabet, so they separate exactly as the character itself does.
    let tokenizer = HashTrickTokenizer::new(512);
    let idx = tokenizer.token_indices("caf\u{e9} vibe");
    let expected = vec![
        (fnv1a_hash(b"caf") % 512) as usize,
        (fnv1a_hash(b"vibe") % 512) as usize,
    ];
    assert_eq!(idx, expected);
}

#[test]
fn project_to_slot_deterministic() {
    let a = project_to_slot(Some("my-project"), 32);
    let b = project_to_slot(Some("my-project"), 32);
    assert_eq!(a, b);
    assert!(a < 32);
}

#[test]
fn project_to_slot_none_is_zero() {
    assert_eq!(project_to_slot(None, 32), 0);
    assert_eq!(project_to_slot(Some(""), 32), 0);
}

#[test]
fn project_to_slot_matches_hash() {
    let expected = (fnv1a_hash(b"alpha") % 32) as usize;
    assert_eq!(project_to_slot(Some("alpha"), 32), expected);
}

#[test]
fn rng_is_deterministic_from_seed() {
    let mut a = Rng::new(0x51_9e7);
    let mut b = Rng::new(0x51_9e7);
    for _ in 0..100 {
        assert_eq!(a.next_u64(), b.next_u64());
    }
}

#[test]
fn rng_first_step_from_one() {
    let mut r = Rng::new(1);
    assert_eq!(r.next_u64(), 0x4082_2041);
}
