use succinct_rs::{BitVectorBuilder, BitVectorString, PopcountTable};

#[test]
fn build_from_length() {
    let bv = BitVectorBuilder::from_length(2).build();
    assert_eq!(bv.access(0), false);
    assert_eq!(bv.access(1), false);
}

#[test]
fn build_from_length_and_set_bit() {
    let bv = BitVectorBuilder::from_length(2)
        .set_bit(0)
        .set_bit(1)
        .set_bit(0)
        .build();
    assert_eq!(bv.access(0), true);
    assert_eq!(bv.access(1), true);
}

#[test]
fn build_from_str() {
    let bv = BitVectorBuilder::from_str(BitVectorString::new("01")).build();
    assert_eq!(bv.access(0), false);
    assert_eq!(bv.access(1), true);
}

#[test]
fn build_from_str_and_set_bit() {
    let builder = BitVectorBuilder::from_str(BitVectorString::new("00"))
        .set_bit(0)
        .set_bit(1)
        .set_bit(0);
    let bv = builder.build();
    assert_eq!(bv.access(0), true);
    assert_eq!(bv.access(1), true);
}

#[test]
fn rank_small_values() {
    let cases: Vec<(&str, u64, u64)> = vec![
        ("0", 0, 0),
        ("00", 0, 0),
        ("00", 1, 0),
        ("01", 0, 0),
        ("01", 1, 1),
        ("10", 0, 1),
        ("10", 1, 1),
        ("11", 0, 1),
        ("11", 1, 2),
        ("10010", 0, 1),
        ("10010", 1, 1),
        ("10010", 2, 1),
        ("10010", 3, 2),
        ("10010", 4, 2),
    ];
    for (s, i, expected) in cases {
        let bv = BitVectorBuilder::from_str(BitVectorString::new(s)).build();
        assert_eq!(bv.rank(i), expected, "s={}, i={}", s, i);
    }
}

#[test]
fn select_positions() {
    let bv = BitVectorBuilder::from_str(BitVectorString::new("10010")).build();
    assert_eq!(bv.select(0), None);
    assert_eq!(bv.select(1), Some(0));
    assert_eq!(bv.select(2), Some(3));
    assert_eq!(bv.select(3), None);

    let bv = BitVectorBuilder::from_str(BitVectorString::new("0110")).build();
    assert_eq!(bv.select(1), Some(1));
    assert_eq!(bv.select(2), Some(2));
    assert_eq!(bv.select(3), None);
}

#[test]
fn select_inverse_concrete() {
    // For every k in 1..=popcount: access(select(k)) is 1 and
    // rank(select(k)) == k.
    let s = "101100011101";
    let total = s.chars().filter(|&c| c == '1').count() as u64;
    let bv = BitVectorBuilder::from_str(BitVectorString::new(s)).build();
    for k in 1..=total {
        let p = bv.select(k).unwrap();
        assert_eq!(bv.access(p), true, "k={}", k);
        assert_eq!(bv.rank(p), k, "k={}", k);
    }
    assert_eq!(bv.select(total + 1), None);
}

#[test]
fn rank0_select0_duality_concrete() {
    let s = "10110001";
    let bv = BitVectorBuilder::from_str(BitVectorString::new(s)).build();
    for i in 0..s.len() as u64 {
        assert_eq!(bv.rank0(i), i + 1 - bv.rank(i), "i={}", i);
    }
    // k-th 0-bit positions of "10110001": 1, 4, 5, 6.
    assert_eq!(bv.select0(0), None);
    assert_eq!(bv.select0(1), Some(1));
    assert_eq!(bv.select0(2), Some(4));
    assert_eq!(bv.select0(3), Some(5));
    assert_eq!(bv.select0(4), Some(6));
    assert_eq!(bv.select0(5), None);
}

#[test]
fn boundary_rank_equals_popcount() {
    // rank at the last position counts every set bit.
    let cases: Vec<&str> = vec!["0", "1", "10010", "11111111", "000000000", "101010101"];
    for s in cases {
        let total = s.chars().filter(|&c| c == '1').count() as u64;
        let bv = BitVectorBuilder::from_str(BitVectorString::new(s)).build();
        assert_eq!(bv.rank(bv.length() - 1), total, "s={}", s);
    }
    for length in [1u64, 2, 7, 8, 9, 63, 64, 65, 1000] {
        let bv = BitVectorBuilder::from_length(length).set_bit(0).build();
        assert_eq!(bv.length(), length);
        assert_eq!(bv.rank(length - 1), 1, "length={}", length);
    }
}

#[test]
fn build_twice_yields_equivalent_vectors() {
    let builder = BitVectorBuilder::from_str(BitVectorString::new("1001101")).set_bit(1);
    let first = builder.build();
    let second = builder.build();
    for i in 0..first.length() {
        assert_eq!(first.access(i), second.access(i), "i={}", i);
        assert_eq!(first.rank(i), second.rank(i), "i={}", i);
    }
}

#[test]
fn popcount_table_values() {
    let table = PopcountTable::new(8);
    assert_eq!(table.popcount(0), 0);
    assert_eq!(table.popcount(0b1), 1);
    assert_eq!(table.popcount(0b1011_0101), 5);
    assert_eq!(table.popcount(0b1111_1111), 8);
    let table = PopcountTable::new(3);
    assert_eq!(table.popcount(0b101), 2);
    assert_eq!(table.popcount(0b111), 3);
}

#[test]
fn bit_string_validation() {
    assert!(BitVectorString::is_valid_str("0"));
    assert!(BitVectorString::is_valid_str("1"));
    assert!(BitVectorString::is_valid_str("01010101010111001000001"));
    assert!(BitVectorString::is_valid_str("10_01"));
    assert!(!BitVectorString::is_valid_str(""));
    assert!(!BitVectorString::is_valid_str("_"));
    assert!(!BitVectorString::is_valid_str(" 0"));
    assert!(!BitVectorString::is_valid_str("012"));
    assert!(!BitVectorString::is_valid_str("1 0"));
}

#[test]
fn fuzzing_test() {
    let samples = 10000;

    for _ in 0..samples {
        let s = format!("{:b}", rand::random::<u128>());
        let bvs = BitVectorString::new(&s);
        let bv = BitVectorBuilder::from_str(bvs).build();

        let chs: Vec<char> = s.chars().collect();
        let mut ranks: Vec<u64> = Vec::with_capacity(chs.len());
        let mut acc: u64 = 0;
        for &c in &chs {
            if c == '1' {
                acc += 1;
            }
            ranks.push(acc);
        }
        let ones: Vec<u64> = chs
            .iter()
            .enumerate()
            .filter(|&(_, &c)| c == '1')
            .map(|(i, _)| i as u64)
            .collect();

        for i in 0..chs.len() {
            assert_eq!(
                bv.access(i as u64),
                chs[i] == '1',
                "bit vec = {}, i={}",
                s,
                i
            );
            assert_eq!(bv.rank(i as u64), ranks[i], "bit vec = {}, i={}", s, i);

            let num = i as u64;
            let expected = if num == 0 {
                None
            } else {
                ones.get((num - 1) as usize).copied()
            };
            assert_eq!(bv.select(num), expected, "bit vec = {}, num={}", s, num);
        }
    }
}
