use bsexp::vli::VLI;

#[test]
fn test_vli_encode_decode() {
    // Write a long pseudo-random sequence of values.
    let mut buf: Vec<u8> = Vec::new();
    let mut seed: u64 = 0x1234_5678_9ABC_DEF0;
    let mut v1: Vec<u64> = Vec::new();
    for _ in 0..1000 {
        seed = seed.wrapping_mul(6364136223846793005).wrapping_add(1);
        v1.push(seed);
    }
    for v in &v1 {
        let (bytes, len) = v.to_vli_bytes();
        buf.extend_from_slice(&bytes[0..len]);
    }

    // Read them back and compare.
    let mut pos: usize = 0;
    let mut all_equal = true;
    for v in &v1 {
        match u64::read_vli_bytes(&buf, pos) {
            Ok((decoded, next)) => {
                all_equal = all_equal && decoded == *v;
                pos = next;
            }
            Err(_) => {
                all_equal = false;
            }
        }
    }
    assert!(all_equal);
}

#[test]
fn vli_boundary_values_round_trip_with_minimal_length() {
    let cases: [(u64, usize); 8] = [
        (0, 1),
        (127, 1),
        (128, 2),
        (16383, 2),
        (16384, 3),
        ((1u64 << 56) - 1, 8),
        (1u64 << 56, 9),
        (u64::MAX, 9),
    ];
    for (value, expected_len) in cases {
        let (bytes, len) = value.to_vli_bytes();
        assert_eq!(len, expected_len, "length for {value}");
        let (decoded, next) = u64::read_vli_bytes(&bytes[0..len], 0).unwrap();
        assert_eq!(decoded, value);
        assert_eq!(next, len);
    }
}

#[test]
fn vli_exact_bytes() {
    assert_eq!(0u64.to_vli_bytes().0[0], 0);
    assert_eq!(127u64.to_vli_bytes().0[0], 127);
    let (b, l) = 128u64.to_vli_bytes();
    assert_eq!(l, 2);
    assert_eq!(&b[0..2], &[0x80, 0x01]);
    let (b, l) = 300u64.to_vli_bytes();
    assert_eq!(l, 2);
    assert_eq!(&b[0..2], &[0xAC, 0x02]);
}

#[test]
fn vli_truncated_read_fails() {
    let (bytes, len) = 16384u64.to_vli_bytes();
    assert_eq!(len, 3);
    for cut in 0..len {
        assert!(u64::read_vli_bytes(&bytes[0..cut], 0).is_err());
    }
}
