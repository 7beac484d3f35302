use run_length::adaptive::{choose_strategy, encode, profile, Strategy};

#[test]
fn test_profile_empty() {
    let p = profile(&[]);
    assert_eq!(p.total_bytes, 0);
    assert_eq!(p.unique_bytes, 0);
    assert!(p.is_binary);
}

#[test]
fn test_profile_repetitive() {
    let data = vec![42; 100];
    let p = profile(&data);
    assert_eq!(p.run_count, 1);
    let repetition_ratio = 1.0 - (p.run_count as f64 / p.total_bytes as f64);
    assert!(repetition_ratio > 0.9);
}

#[test]
fn test_strategy_binary() {
    let data = vec![0, 0, 0, 1, 1, 1, 0, 0];
    assert_eq!(choose_strategy(&data), Strategy::BinaryRle);
}

#[test]
fn test_strategy_repetitive() {
    let data = vec![b'A'; 50];
    let strategy = choose_strategy(&data);
    assert!(strategy == Strategy::BasicRle || strategy == Strategy::PackBits);
}

#[test]
fn test_encode_decode_roundtrip() {
    let data = vec![b'X'; 20];
    let (encoded, strategy) = encode(&data);
    assert!(encoded.len() < data.len());
    assert_ne!(strategy, Strategy::NoCompression);
}

#[test]
fn profile_counts() {
    let p = profile(b"aabccc1");
    assert_eq!(p.total_bytes, 7);
    assert_eq!(p.unique_bytes, 4);
    assert_eq!(p.run_count, 4);
    assert!(!p.is_binary);
    let p = profile(&[1, 0, 0, 1]);
    assert_eq!(p.unique_bytes, 2);
    assert_eq!(p.run_count, 3);
    assert!(p.is_binary);
}

#[test]
fn strategy_empty_is_no_compression() {
    assert_eq!(choose_strategy(&[]), Strategy::NoCompression);
    let (encoded, strategy) = encode(&[]);
    assert!(encoded.is_empty());
    assert_eq!(strategy, Strategy::NoCompression);
}

#[test]
fn strategy_basic_rle_for_repetitive_data() {
    assert_eq!(choose_strategy(&[b'A'; 50]), Strategy::BasicRle);
    let (encoded, strategy) = encode(&[b'A'; 50]);
    assert_eq!(strategy, Strategy::BasicRle);
    assert_eq!(encoded, vec![b'A', 50]);
}

#[test]
fn strategy_packbits_for_mixed_data() {
    // few runs, so not repetitive; PackBits still shrinks the long run
    let mut data: Vec<u8> = (2..40).collect();
    data.extend_from_slice(&[9; 20]);
    assert_eq!(choose_strategy(&data), Strategy::PackBits);
    let (encoded, strategy) = encode(&data);
    assert_eq!(strategy, Strategy::PackBits);
    assert_eq!(encoded, run_length::packbits::encode(&data));
    assert!(encoded.len() < data.len());
}

#[test]
fn strategy_no_compression_for_incompressible_data() {
    let data: Vec<u8> = (2..60).collect();
    assert_eq!(choose_strategy(&data), Strategy::NoCompression);
    let (encoded, strategy) = encode(&data);
    assert_eq!(strategy, Strategy::NoCompression);
    assert_eq!(encoded, data);
}

#[test]
fn binary_strategy_writes_little_endian_runs() {
    let data = vec![1, 1, 1, 0];
    let (encoded, strategy) = encode(&data);
    assert_eq!(strategy, Strategy::BinaryRle);
    assert_eq!(encoded, vec![0, 0, 0, 0, 3, 0, 0, 0, 1, 0, 0, 0]);
    let mut data = vec![0u8; 300];
    data.push(1);
    let (encoded, _) = encode(&data);
    assert_eq!(encoded, vec![44, 1, 0, 0, 1, 0, 0, 0]);
}

#[test]
fn binary_strategy_decodes_back() {
    let data = vec![0, 0, 1, 1, 1, 0, 1, 1];
    let (encoded, strategy) = encode(&data);
    assert_eq!(strategy, Strategy::BinaryRle);
    assert_eq!(encoded.len() % 4, 0);
    let runs: Vec<u32> = encoded
        .chunks(4)
        .map(|c| u32::from_le_bytes([c[0], c[1], c[2], c[3]]))
        .collect();
    assert_eq!(run_length::binary::decode_binary(&runs, 0), data);
}
