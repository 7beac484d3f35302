use run_length::stats::{byte_counts, worst_case_expansion};

#[test]
fn test_worst_case_expansion() {
    assert_eq!(worst_case_expansion(100), 200);
}

#[test]
fn worst_case_expansion_bounds_basic_encoding() {
    let data: Vec<u8> = (0..=255).collect();
    assert_eq!(run_length::rle::encode(&data).len(), worst_case_expansion(data.len()));
    assert_eq!(worst_case_expansion(0), 0);
}

#[test]
fn byte_counts_distribution() {
    let counts = byte_counts(b"abca");
    assert_eq!(counts.len(), 256);
    assert_eq!(counts[b'a' as usize], 2);
    assert_eq!(counts[b'b' as usize], 1);
    assert_eq!(counts[b'c' as usize], 1);
    assert_eq!(counts.iter().sum::<usize>(), 4);
    assert!(byte_counts(&[]).iter().all(|&c| c == 0));
}
