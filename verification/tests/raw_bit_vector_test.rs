use succinct_rs::{BitVectorString, RawBitVector};

#[test]
fn raw_bit_vector_test() {
    for length in 1..=(1u64 << 16) {
        let rbv = RawBitVector::from_length(length);
        assert_eq!(rbv.length(), length);
    }
}

#[test]
fn from_length_is_all_zero() {
    for length in [1u64, 2, 8, 9, 16, 17] {
        let rbv = RawBitVector::from_length(length);
        for i in 0..length {
            assert_eq!(rbv.access(i), false, "length={}, i={}", length, i);
        }
    }
}

#[test]
fn from_str_reads_each_bit() {
    let cases: Vec<(&str, Vec<bool>)> = vec![
        ("0", vec![false]),
        ("1", vec![true]),
        ("10", vec![true, false]),
        ("01010101", vec![false, true, false, true, false, true, false, true]),
        (
            "101010101",
            vec![true, false, true, false, true, false, true, false, true],
        ),
    ];
    for (s, bits) in cases {
        let rbv = RawBitVector::from_str(&BitVectorString::new(s));
        assert_eq!(rbv.length(), bits.len() as u64);
        for (i, &bit) in bits.iter().enumerate() {
            assert_eq!(rbv.access(i as u64), bit, "s={}, i={}", s, i);
        }
    }
}

#[test]
fn set_bit_sets_only_that_bit() {
    let mut rbv = RawBitVector::from_str(&BitVectorString::new("000000000"));
    rbv.set_bit(0);
    rbv.set_bit(2);
    rbv.set_bit(8);
    rbv.set_bit(2);
    let expected = [true, false, true, false, false, false, false, false, true];
    for (i, &bit) in expected.iter().enumerate() {
        assert_eq!(rbv.access(i as u64), bit, "i={}", i);
    }
}

#[test]
fn popcount_counts_ones() {
    let cases: Vec<(&str, u64)> = vec![
        ("0", 0),
        ("00000000", 0),
        ("01010101", 4),
        ("10101010", 4),
        ("11111111", 8),
        ("000000000", 0),
        ("010101010", 4),
        ("101010101", 5),
        ("111111111", 9),
    ];
    for (s, expected) in cases {
        let rbv = RawBitVector::from_str(&BitVectorString::new(s));
        assert_eq!(rbv.popcount(), expected, "s={}", s);
    }
}

#[test]
fn copy_sub_cases() {
    let cases: Vec<(&str, u64, u64, Vec<bool>)> = vec![
        ("0", 0, 1, vec![false]),
        ("01000101", 0, 2, vec![false, true]),
        ("01000101", 0, 8, vec![false, true, false, false, false, true, false, true]),
        ("01000101", 7, 1, vec![true]),
        ("010001010", 7, 2, vec![true, false]),
        ("010001010", 8, 1, vec![false]),
        ("1011001001010", 9, 4, vec![true, false, true, false]),
    ];
    for (s, i, size, expected) in cases {
        let rbv = RawBitVector::from_str(&BitVectorString::new(s));
        let copied = rbv.copy_sub(i, size);
        assert_eq!(copied.length(), expected.len() as u64);
        for (t, &bit) in expected.iter().enumerate() {
            assert_eq!(copied.access(t as u64), bit, "s={}, i={}, size={}, t={}", s, i, size, t);
        }
    }
}

#[test]
fn test() {
    let samples = 10000;

    for _ in 0..samples {
        let s = &format!("{:b}", rand::random::<u16>());
        let bvs = BitVectorString::new(s);
        let rbv = RawBitVector::from_str(&bvs);

        for i in 0..s.len() {
            for size in 1..(s.len() - i) {
                let copied_rbv = rbv.copy_sub(i as u64, size as u64);

                let substr: String = s.chars().skip(i).take(size).collect();
                let substr_bvs = BitVectorString::new(&substr);
                let substr_rbv = RawBitVector::from_str(&substr_bvs);

                assert_eq!(
                    copied_rbv, substr_rbv,
                    "bit vector = {}, copy_sub(i={}, size={})",
                    s, i, size
                );
            }
        }
    }
}
