use run_length::binary::{decode_binary, decode_image, encode_binary, encode_image};

#[test]
fn binary_test_empty() {
    assert!(encode_binary(&[]).is_empty());
    assert!(decode_binary(&[], 0).is_empty());
}

#[test]
fn test_all_zeros() {
    let data = vec![0; 10];
    let runs = encode_binary(&data);
    assert_eq!(runs, vec![10]);
    let decoded = decode_binary(&runs, 0);
    assert_eq!(decoded, data);
}

#[test]
fn test_alternating() {
    let data = vec![0, 1, 0, 1, 0, 1];
    let runs = encode_binary(&data);
    assert_eq!(runs, vec![1, 1, 1, 1, 1, 1]);
}

#[test]
fn test_binary_roundtrip() {
    let data = vec![0, 0, 0, 1, 1, 0, 0, 0, 0];
    let runs = encode_binary(&data);
    let decoded = decode_binary(&runs, 0);
    assert_eq!(decoded, data);
}

#[test]
fn test_image_encode_decode() {
    let width = 4;
    let height = 3;
    let data = vec![
        0, 0, 1, 1,
        1, 1, 0, 0,
        0, 0, 0, 0,
    ];
    let rows = encode_image(width, height, &data);
    assert_eq!(rows.len(), 3);
    let decoded = decode_image(&rows, width);
    assert_eq!(decoded, data);
}

#[test]
fn test_image_compression_ratio() {
    // Uniform rows should compress well
    let width = 8;
    let mut data = Vec::new();
    for _ in 0..8 {
        data.extend_from_slice(&vec![0; 8]);
    }
    let rows = encode_image(width, 8, &data);
    let total_runs: usize = rows.iter().map(|r| r.len()).sum();
    // Each row is a single run of 8 zeros
    assert_eq!(total_runs, 8);
}

#[test]
fn binary_leading_one_gives_empty_zero_run() {
    assert_eq!(encode_binary(&[1, 1, 0]), vec![0, 2, 1]);
}

#[test]
fn binary_skips_non_bits() {
    assert_eq!(encode_binary(&[0, 7, 0, 200, 1]), vec![2, 1]);
    assert!(encode_binary(&[5, 6, 7]).is_empty());
}

#[test]
fn binary_decode_first_value() {
    assert_eq!(decode_binary(&[2, 1], 1), vec![1, 1, 0]);
    // any first value above 1 counts as 1
    assert_eq!(decode_binary(&[2, 1], 9), vec![1, 1, 0]);
    assert_eq!(decode_binary(&[0, 2], 0), vec![1, 1]);
}

#[test]
fn image_rows_past_data_are_empty() {
    // width larger than the data: the first row holds all of it
    let rows = encode_image(10, 1, &[0, 1, 1]);
    assert_eq!(rows, vec![vec![1, 2]]);
    // the last row is clipped to the data
    let rows = encode_image(2, 3, &[1, 1, 0, 0, 1]);
    assert_eq!(rows, vec![vec![0, 2], vec![2], vec![0, 1]]);
    // zero width: every row is empty
    let rows = encode_image(0, 2, &[1, 0]);
    assert_eq!(rows, vec![Vec::<u32>::new(), Vec::new()]);
}

#[test]
fn image_decode_cuts_rows_to_width() {
    let rows = vec![vec![3, 2], vec![1]];
    assert_eq!(decode_image(&rows, 4), vec![0, 0, 0, 1, 0]);
}
