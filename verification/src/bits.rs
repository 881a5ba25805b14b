//! Spec-level theory of bit sequences: counting set and clear bits, and the
//! value of a bit sequence read as a big-endian binary numeral.

use vstd::prelude::*;

verus! {

/// Number of `true` elements of `s`.
pub open spec fn count_ones(s: Seq<bool>) -> nat
    decreases s.len(),
{
    if s.len() == 0 {
        0
    } else {
        count_ones(s.drop_last()) + if s.last() {
            1nat
        } else {
            0nat
        }
    }
}

/// Number of `false` elements of `s`.
pub open spec fn count_zeros(s: Seq<bool>) -> nat
    decreases s.len(),
{
    if s.len() == 0 {
        0
    } else {
        count_zeros(s.drop_last()) + if s.last() {
            0nat
        } else {
            1nat
        }
    }
}

pub proof fn lemma_count_ones_le_len(s: Seq<bool>)
    ensures
        count_ones(s) <= s.len(),
    decreases s.len(),
{
    if s.len() > 0 {
        lemma_count_ones_le_len(s.drop_last());
    }
}

/// Together every position is either set or clear, so the two counts
/// partition the length.
pub proof fn lemma_count_ones_zeros(s: Seq<bool>)
    ensures
        count_ones(s) + count_zeros(s) == s.len(),
    decreases s.len(),
{
    if s.len() > 0 {
        lemma_count_ones_zeros(s.drop_last());
    }
}

pub proof fn lemma_count_ones_push(s: Seq<bool>, b: bool)
    ensures
        count_ones(s.push(b)) == count_ones(s) + if b {
            1nat
        } else {
            0nat
        },
{
    assert(s.push(b).drop_last() =~= s);
}

pub proof fn lemma_count_ones_concat(a: Seq<bool>, b: Seq<bool>)
    ensures
        count_ones(a + b) == count_ones(a) + count_ones(b),
    decreases b.len(),
{
    if b.len() == 0 {
        assert(a + b =~= a);
    } else {
        lemma_count_ones_concat(a, b.drop_last());
        assert((a + b).drop_last() =~= a + b.drop_last());
        assert((a + b).last() == b.last());
    }
}

/// Counting a prefix one element longer adds the bit at the boundary.
pub proof fn lemma_count_ones_take_step(s: Seq<bool>, i: int)
    requires
        0 <= i < s.len(),
    ensures
        count_ones(s.take(i + 1)) == count_ones(s.take(i)) + if s[i] {
            1nat
        } else {
            0nat
        },
{
    assert(s.take(i + 1).drop_last() =~= s.take(i));
    assert(s.take(i + 1).last() == s[i]);
}

pub proof fn lemma_count_zeros_take_step(s: Seq<bool>, i: int)
    requires
        0 <= i < s.len(),
    ensures
        count_zeros(s.take(i + 1)) == count_zeros(s.take(i)) + if s[i] {
            0nat
        } else {
            1nat
        },
{
    assert(s.take(i + 1).drop_last() =~= s.take(i));
    assert(s.take(i + 1).last() == s[i]);
}

pub proof fn lemma_count_ones_take_monotone(s: Seq<bool>, i: int, j: int)
    requires
        0 <= i <= j <= s.len(),
    ensures
        count_ones(s.take(i)) <= count_ones(s.take(j)),
    decreases j - i,
{
    if i < j {
        lemma_count_ones_take_monotone(s, i, j - 1);
        lemma_count_ones_take_step(s, j - 1);
    }
}

pub proof fn lemma_count_zeros_take_monotone(s: Seq<bool>, i: int, j: int)
    requires
        0 <= i <= j <= s.len(),
    ensures
        count_zeros(s.take(i)) <= count_zeros(s.take(j)),
    decreases j - i,
{
    if i < j {
        lemma_count_zeros_take_monotone(s, i, j - 1);
        lemma_count_zeros_take_step(s, j - 1);
    }
}

/// Counting over `[x, z)` splits at any midpoint `y`.
pub proof fn lemma_count_ones_subrange_split(s: Seq<bool>, x: int, y: int, z: int)
    requires
        0 <= x <= y <= z <= s.len(),
    ensures
        count_ones(s.subrange(x, z)) == count_ones(s.subrange(x, y)) + count_ones(
            s.subrange(y, z),
        ),
{
    assert(s.subrange(x, z) =~= s.subrange(x, y) + s.subrange(y, z));
    lemma_count_ones_concat(s.subrange(x, y), s.subrange(y, z));
}

/// A sequence read as a big-endian binary numeral: the first element is the
/// most significant bit.
pub open spec fn bits_val(s: Seq<bool>) -> nat
    decreases s.len(),
{
    if s.len() == 0 {
        0
    } else {
        2 * bits_val(s.drop_last()) + if s.last() {
            1nat
        } else {
            0nat
        }
    }
}

/// Number of set bits in the binary representation of `v`.
pub open spec fn pop_int(v: nat) -> nat
    decreases v,
{
    if v == 0 {
        0
    } else {
        pop_int(v / 2) + v % 2
    }
}

/// A value below `2^w` has at most `w` set bits.
pub proof fn lemma_pop_int_le(v: nat, w: nat)
    requires
        v < vstd::arithmetic::power2::pow2(w),
    ensures
        pop_int(v) <= w,
    decreases w,
{
    vstd::arithmetic::power2::lemma2_to64();
    if v > 0 {
        assert(w >= 1);
        vstd::arithmetic::power2::lemma_pow2_unfold(w);
        vstd::arithmetic::div_mod::lemma_fundamental_div_mod(v as int, 2);
        lemma_pop_int_le(v / 2, (w - 1) as nat);
    }
}

pub proof fn lemma_bits_val_bound(s: Seq<bool>)
    ensures
        bits_val(s) < vstd::arithmetic::power2::pow2(s.len()),
    decreases s.len(),
{
    if s.len() == 0 {
        vstd::arithmetic::power2::lemma2_to64();
    } else {
        vstd::arithmetic::power2::lemma_pow2_unfold(s.len());
        lemma_bits_val_bound(s.drop_last());
    }
}

/// The popcount of the numeral value of `s` is the number of set bits of `s`.
pub proof fn lemma_pop_int_bits_val(s: Seq<bool>)
    ensures
        pop_int(bits_val(s)) == count_ones(s),
    decreases s.len(),
{
    if s.len() > 0 {
        let a = bits_val(s.drop_last());
        let b: nat = if s.last() {
            1nat
        } else {
            0nat
        };
        assert((2 * a + b) / 2 == a && (2 * a + b) % 2 == b) by (nonlinear_arith)
            requires
                b < 2,
        ;
        lemma_pop_int_bits_val(s.drop_last());
        if 2 * a + b == 0 {
            assert(count_ones(s) == 0);
        }
    }
}

/// Truncating the low bits of the numeral divides its value: keeping the
/// first `m` elements of `s` is integer division by `2^(len - m)`.
pub proof fn lemma_bits_val_take(s: Seq<bool>, m: int)
    requires
        0 <= m <= s.len(),
    ensures
        bits_val(s.take(m)) == bits_val(s) / vstd::arithmetic::power2::pow2((s.len() - m) as nat),
    decreases s.len() - m,
{
    if m == s.len() {
        assert(s.take(m) =~= s);
        vstd::arithmetic::power2::lemma2_to64();
        assert(bits_val(s) / 1 == bits_val(s));
    } else {
        let dl = s.drop_last();
        assert(s.take(m) =~= dl.take(m));
        lemma_bits_val_take(dl, m);
        let a = bits_val(dl);
        let b: nat = if s.last() {
            1nat
        } else {
            0nat
        };
        let e = (s.len() - 1 - m) as nat;
        let p = vstd::arithmetic::power2::pow2(e);
        vstd::arithmetic::power2::lemma_pow2_adds(e, 1);
        vstd::arithmetic::power2::lemma2_to64();
        vstd::arithmetic::power2::lemma_pow2_pos(e);
        // bits_val(s) = 2a + b; dividing by 2^(e+1) = dividing by 2 then by 2^e.
        assert((2 * a + b) / 2 == a) by (nonlinear_arith)
            requires
                b < 2,
        ;
        vstd::arithmetic::div_mod::lemma_div_denominator((2 * a + b) as int, 2, p as int);
        assert(bits_val(s) as int / (2 * p) as int == a as int / p as int);
    }
}

/// Bits beyond a wholly clear tail do not contribute to the count.
pub proof fn lemma_count_ones_false_tail(s: Seq<bool>, m: int)
    requires
        0 <= m <= s.len(),
        forall|j: int| m <= j < s.len() ==> !s[j],
    ensures
        count_ones(s) == count_ones(s.take(m)),
    decreases s.len() - m,
{
    if m == s.len() {
        assert(s.take(m) =~= s);
    } else {
        lemma_count_ones_take_step(s, s.len() - 1);
        assert(s.take(s.len() as int) =~= s);
        lemma_count_ones_false_tail(s.take(s.len() - 1), m);
        assert(s.take(s.len() - 1).take(m) =~= s.take(m));
    }
}

pub proof fn lemma_bits_val_concat(a: Seq<bool>, b: Seq<bool>)
    ensures
        bits_val(a + b) == bits_val(a) * vstd::arithmetic::power2::pow2(b.len()) + bits_val(b),
    decreases b.len(),
{
    if b.len() == 0 {
        assert(a + b =~= a);
        vstd::arithmetic::power2::lemma2_to64();
        assert(bits_val(a + b) == bits_val(a));
        assert(bits_val(a) * vstd::arithmetic::power2::pow2(b.len()) == bits_val(a));
    } else {
        lemma_bits_val_concat(a, b.drop_last());
        assert((a + b).drop_last() =~= a + b.drop_last());
        assert((a + b).last() == b.last());
        let p = vstd::arithmetic::power2::pow2((b.len() - 1) as nat);
        vstd::arithmetic::power2::lemma_pow2_adds((b.len() - 1) as nat, 1);
        vstd::arithmetic::power2::lemma2_to64();
        let x = bits_val(a);
        let lastbit: nat = if b.last() {
            1nat
        } else {
            0nat
        };
        assert(vstd::arithmetic::power2::pow2(b.len()) == p * 2);
        assert(bits_val(a + b) == 2 * bits_val(a + b.drop_last()) + lastbit);
        assert(bits_val(b) == 2 * bits_val(b.drop_last()) + lastbit);
        assert(2 * (x * p) == x * (p * 2)) by (nonlinear_arith);
        assert(bits_val(a + b) == 2 * (x * p + bits_val(b.drop_last())) + lastbit);
        assert(bits_val(a + b) == x * (p * 2) + (2 * bits_val(b.drop_last()) + lastbit));
    }
}

/// A wholly clear sequence has numeral value zero.
pub proof fn lemma_bits_val_zero(s: Seq<bool>)
    requires
        forall|j: int| 0 <= j < s.len() ==> !s[j],
    ensures
        bits_val(s) == 0,
    decreases s.len(),
{
    if s.len() > 0 {
        lemma_bits_val_zero(s.drop_last());
    }
}

/// Bit `k` of a byte, counting from the most significant end: `bit_at(b, 0)`
/// is the `0x80` bit.
pub open spec fn bit_at(b: u8, k: int) -> bool
    recommends
        0 <= k < 8,
{
    (b >> ((7 - k) as u8)) & 1u8 == 1u8
}

/// The eight bits of a byte, most significant first.
pub open spec fn byte_bits(b: u8) -> Seq<bool> {
    Seq::new(8, |k: int| bit_at(b, k))
}

/// Every bit of the zero byte is clear.
pub proof fn lemma_zero_byte_bits()
    ensures
        forall|k: int| 0 <= k < 8 ==> !bit_at(0u8, k),
{
    assert(forall|x: u8| x < 8 ==> ((0u8 >> x) & 1u8) != 1u8) by (bit_vector);
    assert forall|k: int| 0 <= k < 8 implies !bit_at(0u8, k) by {
        assert(((7 - k) as u8) < 8);
    }
}

/// Setting one bit by OR: bit `j` of `b | (1 << (7 - k))` is set exactly when
/// `j == k` or bit `j` of `b` already was.
pub proof fn lemma_byte_or_bit(b: u8, k: u8, j: u8)
    by (bit_vector)
    requires
        k < 8,
        j < 8,
    ensures
        (((b | (1u8 << ((7 - k) as u8))) >> ((7 - j) as u8)) & 1u8 == 1u8) == (j == k || ((b >> ((
        7 - j) as u8)) & 1u8 == 1u8)),
{
}

/// Clearing all but the first `keep` bits of a byte: bit `k` of
/// `(b >> (8 - keep)) << (8 - keep)` is bit `k` of `b` when `k < keep`, and
/// clear otherwise.
pub proof fn lemma_byte_mask_bit(b: u8, keep: u8, k: u8)
    by (bit_vector)
    requires
        1 <= keep < 8,
        k < 8,
    ensures
        ((((b >> ((8 - keep) as u8)) << ((8 - keep) as u8)) >> ((7 - k) as u8)) & 1u8 == 1u8) == (k
            < keep && ((b >> ((7 - k) as u8)) & 1u8 == 1u8)),
{
}

/// Merging two adjacent bytes at offset `a`: bit `k` of
/// `(b1 << a) | (b2 >> (8 - a))` is bit `a + k` of `b1` while that fits, and
/// bit `a + k - 8` of `b2` past it.
pub proof fn lemma_byte_merge_bit(b1: u8, b2: u8, a: u8, k: u8)
    by (bit_vector)
    requires
        1 <= a < 8,
        k < 8,
    ensures
        ((((b1 << a) | (b2 >> ((8 - a) as u8))) >> ((7 - k) as u8)) & 1u8 == 1u8) == (if a + k < 8 {
            (b1 >> ((7 - a - k) as u8)) & 1u8 == 1u8
        } else {
            (b2 >> ((15 - a - k) as u8)) & 1u8 == 1u8
        }),
{
}

/// Reading a byte's bits back as a numeral recovers the byte.
pub proof fn lemma_byte_bits_val(b: u8)
    ensures
        bits_val(byte_bits(b)) == b,
{
    let s = byte_bits(b);
    reveal_with_fuel(bits_val, 9);
    assert(s.drop_last() =~= Seq::new(7, |k: int| bit_at(b, k)));
    assert(s.drop_last().drop_last() =~= Seq::new(6, |k: int| bit_at(b, k)));
    assert(s.drop_last().drop_last().drop_last() =~= Seq::new(5, |k: int| bit_at(b, k)));
    assert(s.drop_last().drop_last().drop_last().drop_last() =~= Seq::new(
        4,
        |k: int| bit_at(b, k),
    ));
    assert(s.drop_last().drop_last().drop_last().drop_last().drop_last() =~= Seq::new(
        3,
        |k: int| bit_at(b, k),
    ));
    assert(s.drop_last().drop_last().drop_last().drop_last().drop_last().drop_last() =~= Seq::new(
        2,
        |k: int| bit_at(b, k),
    ));
    assert(s.drop_last().drop_last().drop_last().drop_last().drop_last().drop_last().drop_last()
        =~= Seq::new(1, |k: int| bit_at(b, k)));
    assert(s.drop_last().drop_last().drop_last().drop_last().drop_last().drop_last().drop_last()
        .drop_last() =~= Seq::new(0, |k: int| bit_at(b, k)));
    let b0: nat = if bit_at(b, 0) {
        1nat
    } else {
        0nat
    };
    let b1: nat = if bit_at(b, 1) {
        1nat
    } else {
        0nat
    };
    let b2: nat = if bit_at(b, 2) {
        1nat
    } else {
        0nat
    };
    let b3: nat = if bit_at(b, 3) {
        1nat
    } else {
        0nat
    };
    let b4: nat = if bit_at(b, 4) {
        1nat
    } else {
        0nat
    };
    let b5: nat = if bit_at(b, 5) {
        1nat
    } else {
        0nat
    };
    let b6: nat = if bit_at(b, 6) {
        1nat
    } else {
        0nat
    };
    let b7: nat = if bit_at(b, 7) {
        1nat
    } else {
        0nat
    };
    assert(bits_val(s) == 128 * b0 + 64 * b1 + 32 * b2 + 16 * b3 + 8 * b4 + 4 * b5 + 2 * b6 + b7);
    assert(128 * (if (b >> 7u8) & 1u8 == 1u8 {
        1nat
    } else {
        0nat
    }) + 64 * (if (b >> 6u8) & 1u8 == 1u8 {
        1nat
    } else {
        0nat
    }) + 32 * (if (b >> 5u8) & 1u8 == 1u8 {
        1nat
    } else {
        0nat
    }) + 16 * (if (b >> 4u8) & 1u8 == 1u8 {
        1nat
    } else {
        0nat
    }) + 8 * (if (b >> 3u8) & 1u8 == 1u8 {
        1nat
    } else {
        0nat
    }) + 4 * (if (b >> 2u8) & 1u8 == 1u8 {
        1nat
    } else {
        0nat
    }) + 2 * (if (b >> 1u8) & 1u8 == 1u8 {
        1nat
    } else {
        0nat
    }) + (if (b >> 0u8) & 1u8 == 1u8 {
        1nat
    } else {
        0nat
    }) == b) by (bit_vector);
}

} // verus!
