use rice_coder::{create_rice_coder, estimate_optimal_k, RiceCoder, RiceError};

fn round_trip(values: &[u32], k: u8) -> Vec<u32> {
    let mut coder = RiceCoder::new(k);
    let mut encoded: Vec<u8> = Vec::new();
    coder.encode_vals(values, &mut encoded);
    let mut decoded = Vec::new();
    coder.decode_into(&encoded, &mut decoded);
    decoded
}

fn bits_text(bytes: &[u8]) -> String {
    let mut text = String::new();
    for byte in bytes {
        text.push_str(&format!("{:08b} ", byte));
    }
    text
}

#[test]
fn test_rice_coding() {
    let mut coder = RiceCoder::new(3);
    let original_values: Vec<u32> = vec![37, 12, 5, 150, 255, 0, 10];

    let mut encoded: Vec<u8> = Vec::new();
    coder.encode_vals(&original_values, &mut encoded);

    let mut decoded_values = Vec::new();
    coder.decode_into(&encoded, &mut decoded_values);

    assert_eq!(original_values, decoded_values);
}

#[test]
fn test_calculate_optimal_k_small_values() {
    let values = vec![1, 2, 3, 4, 5, 6, 7, 8];
    let optimal_k = estimate_optimal_k(&values, 50);
    assert_eq!(optimal_k, 3);

    let optimal_k_90 = estimate_optimal_k(&values, 90);
    assert_eq!(optimal_k_90, 4);
}

#[test]
fn print_test() {
    for val in 1..12u32 {
        let mut coder = RiceCoder::new(2);
        let mut encoded: Vec<u8> = Vec::new();
        coder.encode_vals(&[val], &mut encoded);
        println!("{:0>2} {}", val, bits_text(&encoded));
    }
}

#[test]
fn random_values_round_trip() {
    let mut seed: u64 = 0x2545_F491_4F6C_DD1D;
    for round in 0..200u32 {
        seed = seed.wrapping_mul(6364136223846793005).wrapping_add(1442695040888963407);
        let len = (seed >> 59) as usize;
        let mut values = Vec::new();
        for _ in 0..len {
            seed = seed.wrapping_mul(6364136223846793005).wrapping_add(1442695040888963407);
            values.push(((seed >> 32) % 500_001) as u32);
        }
        let k = (round % 7 + 1) as u8;
        let mut coder = create_rice_coder(k).unwrap();
        let mut encoded: Vec<u8> = Vec::new();
        coder.encode_vals(&values, &mut encoded);
        let mut decoded = Vec::new();
        coder.decode_into(&encoded, &mut decoded);
        assert_eq!(values, decoded);
    }
}

#[test]
fn round_trip_every_parameter() {
    let values: Vec<u32> = vec![0, 1, 2, 3, 100, 1000, 65_535, 1 << 20, 123_456_789];
    for k in 0..=31u8 {
        let large: Vec<u32> = values.iter().copied().filter(|v| (v >> k) < 5000).collect();
        assert_eq!(round_trip(&large, k), large);
    }
    let top: Vec<u32> = vec![u32::MAX, u32::MAX - 1, 0, 1 << 31];
    assert_eq!(round_trip(&top, 31), top);
    assert_eq!(round_trip(&top, 20), top);
}

#[test]
fn zero_parameter_is_unary() {
    // 3 in unary is 1110, padded with ones.
    let mut coder = RiceCoder::new(0);
    let mut encoded: Vec<u8> = Vec::new();
    coder.encode_vals(&[3], &mut encoded);
    assert_eq!(encoded, vec![0b1110_1111]);
    let values: Vec<u32> = vec![0, 1, 5, 0, 17, 2, 9];
    assert_eq!(round_trip(&values, 0), values);
    assert_eq!(round_trip(&[1], 0), vec![1]);
}

#[test]
fn exact_codeword_bits() {
    // 37 with k = 3: quotient 4 (11110), remainder 5 (101).
    let mut coder = RiceCoder::new(3);
    let mut encoded: Vec<u8> = Vec::new();
    coder.encode_vals(&[37], &mut encoded);
    assert_eq!(encoded, vec![0b1111_0101]);

    // 1 with k = 0: 10, then six padding ones.
    let mut coder = RiceCoder::new(0);
    let mut encoded: Vec<u8> = Vec::new();
    coder.encode_vals(&[1], &mut encoded);
    assert_eq!(encoded, vec![0b1011_1111]);

    // 70 with k = 1: 35 ones, a zero, the bit 0, then five padding ones.
    let mut coder = RiceCoder::new(1);
    let mut encoded: Vec<u8> = Vec::new();
    coder.encode_vals(&[70], &mut encoded);
    assert_eq!(encoded, vec![0xFF, 0xFF, 0xFF, 0xFF, 0b1110_0111]);
}

#[test]
fn large_parameter_keeps_all_bits() {
    // A long unary run followed by a wide remainder.
    let values: Vec<u32> = vec![u32::MAX, 31 << 27, (1 << 27) - 1, 7];
    for k in 24..=28u8 {
        assert_eq!(round_trip(&values, k), values);
    }
}

#[test]
fn counted_boundary() {
    let values: Vec<u32> = (0..255).collect();
    let mut coder = RiceCoder::new(4);
    let mut encoded: Vec<u8> = Vec::new();
    assert_eq!(coder.encode_vals_counted(&values, &mut encoded), Ok(()));
    assert_eq!(encoded[0], 255);
    let mut decoded = Vec::new();
    coder.decode_counted_into(&encoded, &mut decoded);
    assert_eq!(decoded, values);

    let too_many: Vec<u32> = (0..256).collect();
    let mut encoded: Vec<u8> = Vec::new();
    assert_eq!(
        coder.encode_vals_counted(&too_many, &mut encoded),
        Err(RiceError::TooManyValues)
    );
    assert!(encoded.is_empty());
}

#[test]
fn counted_empty_is_one_zero_byte() {
    let mut coder = RiceCoder::new(5);
    let mut encoded: Vec<u8> = Vec::new();
    assert_eq!(coder.encode_vals_counted(&[], &mut encoded), Ok(()));
    assert_eq!(encoded, vec![0]);
    let mut decoded = Vec::new();
    assert_eq!(coder.decode_counted_into(&encoded, &mut decoded), 1);
    assert!(decoded.is_empty());
}

#[test]
fn counted_stops_at_count() {
    let mut coder = RiceCoder::new(0);
    let mut encoded: Vec<u8> = Vec::new();
    assert_eq!(coder.encode_vals_counted(&[0, 0], &mut encoded), Ok(()));
    // Count 2, then 0 0 and six padding ones: the padding would not decode anyway.
    assert_eq!(encoded, vec![2, 0b0011_1111]);
    // With a smaller count, only that many values come out.
    let mut decoded = Vec::new();
    assert_eq!(coder.decode_counted_into(&[1, 0b0000_0000], &mut decoded), 2);
    assert_eq!(decoded, vec![0]);
    let mut decoded = Vec::new();
    assert_eq!(coder.decode_counted_into(&[], &mut decoded), 0);
    assert!(decoded.is_empty());
}

#[test]
fn empty_inputs() {
    assert_eq!(estimate_optimal_k(&[], 0), 0);
    assert_eq!(estimate_optimal_k(&[], 50), 0);
    assert_eq!(estimate_optimal_k(&[], 100), 0);
    let mut coder = RiceCoder::new(3);
    let mut encoded: Vec<u8> = Vec::new();
    coder.encode_vals(&[], &mut encoded);
    assert!(encoded.is_empty());
    let mut decoded = Vec::new();
    assert_eq!(coder.decode_into(&[], &mut decoded), 0);
    assert!(decoded.is_empty());
}

#[test]
fn truncated_stream_keeps_whole_values() {
    let values: Vec<u32> = vec![37, 12, 5, 150, 255, 0, 10];
    let mut coder = RiceCoder::new(3);
    let mut encoded: Vec<u8> = Vec::new();
    coder.encode_vals(&values, &mut encoded);
    // Codeword lengths with k = 3: 8, 5, 4, 22, 35, 4, 5 bits; they end at
    // bits 8, 13, 17, 39, 74, 78, 83.
    assert_eq!(encoded.len(), 11);
    let expected: [usize; 12] = [0, 1, 2, 3, 3, 4, 4, 4, 4, 4, 6, 7];
    for (m, &count) in expected.iter().enumerate() {
        let mut decoded = Vec::new();
        let read = coder.decode_into(&encoded[..m], &mut decoded);
        assert_eq!(read, m);
        assert_eq!(decoded, values[..count].to_vec());
    }
}

#[test]
fn decode_appends_and_reads_all() {
    let mut coder = RiceCoder::new(2);
    let mut encoded: Vec<u8> = Vec::new();
    coder.encode_vals(&[9, 3], &mut encoded);
    let mut decoded = vec![42];
    let read = coder.decode_into(&encoded, &mut decoded);
    assert_eq!(read, encoded.len());
    assert_eq!(decoded, vec![42, 9, 3]);
}

#[test]
fn finalize_twice_writes_once() {
    let mut coder = RiceCoder::new(3);
    let mut encoded: Vec<u8> = Vec::new();
    coder.encode_vals(&[1, 2], &mut encoded);
    let after_first = encoded.clone();
    coder.finalize(&mut encoded);
    coder.finalize(&mut encoded);
    assert_eq!(encoded, after_first);
}

#[test]
fn factory_checks_parameter() {
    assert!(create_rice_coder(0).is_ok());
    assert!(create_rice_coder(31).is_ok());
    assert_eq!(create_rice_coder(32).err(), Some(RiceError::ParameterOutOfRange));
    assert_eq!(create_rice_coder(255).err(), Some(RiceError::ParameterOutOfRange));
}

#[test]
fn estimate_sorts_its_input() {
    let values = vec![8, 1, 7, 2, 6, 3, 5, 4];
    assert_eq!(estimate_optimal_k(&values, 50), 3);
    assert_eq!(estimate_optimal_k(&values, 90), 4);
    assert_eq!(estimate_optimal_k(&values, 0), 1);
    assert_eq!(estimate_optimal_k(&[0, 0, 0], 100), 0);
    assert_eq!(estimate_optimal_k(&[u32::MAX], 50), 32);
    assert_eq!(estimate_optimal_k(&[1000, 3, 3, 3], 75), 10);
}

#[test]
fn estimate_rises_with_percentile() {
    let values = vec![0, 1, 3, 9, 40, 200, 1500, 70_000, 5, 2];
    let mut previous = 0;
    for p in 0..=150usize {
        let k = estimate_optimal_k(&values, p);
        assert!(k >= previous);
        previous = k;
    }
    assert_eq!(estimate_optimal_k(&values, usize::MAX), 17);
}
