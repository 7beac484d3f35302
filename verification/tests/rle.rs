use run_length::rle::{decode, encode, encode_with_threshold};

#[test]
fn rle_test_empty() {
    assert!(encode(&[]).is_empty());
    assert!(decode(&[]).is_empty());
}

#[test]
fn test_single_byte() {
    let data = b"A";
    let encoded = encode(data);
    assert_eq!(encoded, vec![b'A', 1]);
    assert_eq!(decode(&encoded), data.to_vec());
}

#[test]
fn test_repeated_bytes() {
    let data = b"AAAAAA";
    let encoded = encode(data);
    assert_eq!(encoded, vec![b'A', 6]);
    assert_eq!(decode(&encoded), data.to_vec());
}

#[test]
fn test_roundtrip_mixed() {
    let data = b"AAAAABBBCCD";
    let encoded = encode(data);
    let decoded = decode(&encoded);
    assert_eq!(decoded, data.to_vec());
}

#[test]
fn test_compression_ratio_highly_repetitive() {
    let data = vec![b'X'; 100];
    let encoded = encode(&data);
    assert!(encoded.len() < data.len());
}

#[test]
fn test_worst_case_no_repetition() {
    let data: Vec<u8> = (0..=255).collect();
    let encoded = encode(&data);
    // Worst case: each byte is different, so encoded is 2x original
    assert_eq!(encoded.len(), data.len() * 2);
}

#[test]
fn test_roundtrip_long_runs() {
    let mut data = Vec::new();
    data.extend_from_slice(&vec![b'A'; 300]);
    data.extend_from_slice(&vec![b'B'; 200]);
    data.extend_from_slice(&vec![b'C'; 50]);
    let encoded = encode(&data);
    let decoded = decode(&encoded);
    assert_eq!(decoded, data);
}

#[test]
fn rle_encode_exact_pairs() {
    assert_eq!(encode(b"AAAAABBBCCD"), vec![b'A', 5, b'B', 3, b'C', 2, b'D', 1]);
}

#[test]
fn rle_long_run_splits_at_255() {
    let data = vec![7u8; 300];
    assert_eq!(encode(&data), vec![7, 255, 7, 45]);
    let data = vec![9u8; 510];
    assert_eq!(encode(&data), vec![9, 255, 9, 255]);
}

#[test]
fn rle_decode_ignores_trailing_odd_byte() {
    assert_eq!(decode(&[b'Z', 3, b'Q']), vec![b'Z'; 3]);
    assert_eq!(decode(&[b'Z']), Vec::<u8>::new());
}

#[test]
fn rle_decode_zero_count() {
    assert_eq!(decode(&[b'Z', 0, b'Y', 2]), vec![b'Y', b'Y']);
}

#[test]
fn rle_threshold_short_runs_spelled_out() {
    assert_eq!(
        encode_with_threshold(b"AAAABBC", 3),
        vec![b'A', 4, b'B', 1, b'B', 1, b'C', 1]
    );
    assert!(encode_with_threshold(&[], 3).is_empty());
}

#[test]
fn rle_threshold_at_most_one_is_basic_encoding() {
    let data = b"AAAABBCDDDDDDD";
    assert_eq!(encode_with_threshold(data, 0), encode(data));
    assert_eq!(encode_with_threshold(data, 1), encode(data));
}

#[test]
fn rle_threshold_roundtrip() {
    let mut data = vec![3u8; 260];
    data.extend_from_slice(b"xyzzy");
    for min_run in [0u8, 1, 2, 5, 255] {
        assert_eq!(decode(&encode_with_threshold(&data, min_run)), data);
    }
}

#[test]
fn rle_threshold_long_run_pieces() {
    // 300 bytes split into 255 + 45; the 45-byte piece is below the threshold.
    let data = vec![1u8; 300];
    let encoded = encode_with_threshold(&data, 100);
    assert_eq!(encoded.len(), 2 + 2 * 45);
    assert_eq!(&encoded[..2], &[1, 255]);
    assert!(encoded[2..].chunks(2).all(|p| p == [1, 1]));
}

#[test]
fn rle_threshold_keeps_only_longer_runs() {
    // a run exactly as long as the threshold is spelled out
    assert_eq!(
        encode_with_threshold(b"AAAB", 3),
        vec![b'A', 1, b'A', 1, b'A', 1, b'B', 1]
    );
    assert_eq!(encode_with_threshold(b"AAAAB", 3), vec![b'A', 4, b'B', 1]);
}
