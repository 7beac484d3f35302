use run_length::packbits::{decode, encode};

#[test]
fn packbits_test_empty() {
    assert!(encode(&[]).is_empty());
    assert!(decode(&[]).is_empty());
}

#[test]
fn test_all_same() {
    let data = vec![0xAA; 10];
    let encoded = encode(&data);
    let decoded = decode(&encoded);
    assert_eq!(decoded, data);
}

#[test]
fn test_all_different() {
    let data: Vec<u8> = (0..50).collect();
    let encoded = encode(&data);
    let decoded = decode(&encoded);
    assert_eq!(decoded, data);
}

#[test]
fn test_mixed_runs_and_literals() {
    let mut data = Vec::new();
    data.extend_from_slice(&[1, 2, 3]); // literal
    data.extend_from_slice(&vec![4; 20]); // run
    data.extend_from_slice(&[5, 6]); // literal
    let encoded = encode(&data);
    let decoded = decode(&encoded);
    assert_eq!(decoded, data);
}

#[test]
fn test_roundtrip_random() {
    let data = vec![0xAA, 0xAA, 0xAA, 0x00, 0x01, 0x02, 0xFF, 0xFF, 0xFF, 0xFF];
    let encoded = encode(&data);
    let decoded = decode(&encoded);
    assert_eq!(decoded, data);
}

#[test]
fn test_compression_all_repeated() {
    let data = vec![42; 100];
    let encoded = encode(&data);
    assert!(encoded.len() < data.len());
}

#[test]
fn packbits_exact_encoding() {
    let data = vec![0xAA, 0xAA, 0xAA, 0x00, 0x01, 0x02, 0xFF, 0xFF, 0xFF, 0xFF];
    assert_eq!(encode(&data), vec![254, 0xAA, 2, 0x00, 0x01, 0x02, 253, 0xFF]);
    assert_eq!(encode(&[42; 100]), vec![157, 42]);
    assert_eq!(encode(&[7]), vec![0, 7]);
}

#[test]
fn packbits_long_run_split_at_128() {
    let data = vec![5u8; 130];
    assert_eq!(encode(&data), vec![129, 5, 255, 5]);
}

#[test]
fn packbits_literal_block_split_at_128() {
    let data: Vec<u8> = (0..200).map(|i| i as u8).collect();
    let encoded = encode(&data);
    assert_eq!(encoded[0], 127);
    assert_eq!(encoded[129], 71);
    assert_eq!(encoded.len(), 202);
    assert_eq!(decode(&encoded), data);
}

#[test]
fn packbits_literal_stops_before_repeat() {
    assert_eq!(encode(&[1, 2, 2]), vec![0, 1, 255, 2]);
}

#[test]
fn packbits_decode_nop_header() {
    assert_eq!(decode(&[128, 255, 9]), vec![9, 9]);
    assert_eq!(decode(&[128, 128]), Vec::<u8>::new());
}

#[test]
fn packbits_decode_cut_short() {
    // a literal header asking for more bytes than remain ends the output
    assert_eq!(decode(&[0, 7, 3, 1, 2]), vec![7]);
    // a repeat header with no byte after it ends the output
    assert_eq!(decode(&[0, 7, 250]), vec![7]);
}
