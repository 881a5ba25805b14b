//! Packed storage of raw bits: eight bits per byte, most significant bit
//! first, with a partially filled final byte whose meaningful width is
//! recorded separately.

use vstd::prelude::*;
use vstd::string::*;

use crate::bit_string::{
    count_bit_symbols, is_bit_string_char, lemma_strip_len_le, lemma_strip_take_le,
    lemma_strip_take_step, str_bits, strip_separators, valid_bit_string, BitVectorString,
};
use crate::bits::{
    bit_at, bits_val, byte_bits, count_ones, lemma_bits_val_concat, lemma_bits_val_zero,
    lemma_byte_bits_val, lemma_byte_mask_bit, lemma_byte_merge_bit, lemma_byte_or_bit,
    lemma_count_ones_false_tail, lemma_count_ones_le_len,
    lemma_count_ones_subrange_split, lemma_count_ones_take_step, lemma_zero_byte_bits,
};

verus! {

/// Bit vector of arbitrary length in `[1, 2^64)`, packed into bytes.
///
/// The final byte may be only partially meaningful; `last_byte_len` records
/// how many of its bits (from the most significant end) belong to the vector.
/// The remaining padding bits are kept clear so that whole-byte popcounts
/// agree with the vector's contents.
#[derive(PartialEq, Eq, Debug)]
pub struct RawBitVector {
    byte_vec: Vec<u8>,
    last_byte_len: u8,
}

impl View for RawBitVector {
    type V = Seq<bool>;

    closed spec fn view(&self) -> Seq<bool> {
        Seq::new(
            ((self.byte_vec.len() - 1) * 8 + self.last_byte_len) as nat,
            |i: int| bit_at(self.byte_vec[i / 8], i % 8),
        )
    }
}

impl RawBitVector {
    /// Structural invariant: at least one byte, a meaningful final-byte width
    /// in `[1, 8]`, a total length that fits in `u64`, and clear padding bits
    /// in the final byte.
    pub closed spec fn wf(&self) -> bool {
        &&& self.byte_vec.len() >= 1
        &&& 1 <= self.last_byte_len <= 8
        &&& (self.byte_vec.len() - 1) * 8 + self.last_byte_len <= u64::MAX
        &&& forall|k: int|
            self.last_byte_len <= k < 8 ==> !(#[trigger] bit_at(
                self.byte_vec[self.byte_vec.len() - 1],
                k,
            ))
    }

    /// Makes an all-zero bit vector of `length` bits.
    pub fn from_length(length: u64) -> (r: RawBitVector)
        requires
            0 < length,
            length <= usize::MAX as u64,
        ensures
            r.wf(),
            r@.len() == length,
            forall|i: int| 0 <= i < length ==> !r@[i],
    {
        let q: u64 = length / 8;
        let rem: u64 = length % 8;
        let (n_bytes, last_byte_len): (u64, u8) = if rem == 0 {
            (q, 8u8)
        } else {
            (q + 1, rem as u8)
        };
        proof {
            vstd::arithmetic::div_mod::lemma_fundamental_div_mod(length as int, 8);
        }
        let mut byte_vec: Vec<u8> = Vec::new();
        let mut m: u64 = 0;
        while m < n_bytes
            invariant
                m <= n_bytes,
                n_bytes <= length,
                byte_vec.len() == m,
                forall|t: int| 0 <= t < m ==> byte_vec[t] == 0u8,
            decreases n_bytes - m,
        {
            byte_vec.push(0u8);
            m = m + 1;
        }
        let r = RawBitVector { byte_vec, last_byte_len };
        proof {
            lemma_zero_byte_bits();
            assert forall|i: int| 0 <= i < r@.len() implies !r@[i] by {
                vstd::arithmetic::div_mod::lemma_fundamental_div_mod(i, 8);
            }
        }
        r
    }

    /// Makes a bit vector from a validated bit-string representation:
    /// bit `i` is set exactly when the `i`-th bit symbol is `'1'`.
    pub fn from_str(bit_vector_str: &BitVectorString) -> (r: RawBitVector)
        requires
            bit_vector_str.wf(),
        ensures
            r.wf(),
            r@ == str_bits(bit_vector_str@),
    {
        let text: &str = bit_vector_str.str();
        let len: usize = text.unicode_len();
        let n_bits: u64 = count_bit_symbols(text);
        proof {
            bit_vector_str.lemma_view_bits();
            lemma_strip_len_le(text@);
            assert(text@.take(len as int) =~= text@);
        }
        let mut rbv = RawBitVector::from_length(n_bits);
        let mut i: usize = 0;
        let mut p: u64 = 0;
        proof {
            assert(text@.take(0) =~= Seq::<char>::empty());
        }
        while i < len
            invariant
                rbv.wf(),
                valid_bit_string(text@),
                i <= len,
                len == text@.len(),
                rbv@.len() == n_bits,
                n_bits == strip_separators(text@).len(),
                p == strip_separators(text@.take(i as int)).len(),
                forall|t: int|
                    0 <= t < p ==> rbv@[t] == (strip_separators(text@.take(i as int))[t] == '1'),
                forall|t: int| p <= t < n_bits ==> !rbv@[t],
            decreases len - i,
        {
            proof {
                lemma_strip_take_step(text@, i as int);
                lemma_strip_take_le(text@, i as int + 1, len as int);
                assert(text@.take(len as int) =~= text@);
                assert(is_bit_string_char(text@[i as int]));
            }
            let c = text.get_char(i);
            if c == '1' {
                rbv.set_bit(p);
                p = p + 1;
            } else if c == '0' {
                p = p + 1;
            }
            i = i + 1;
        }
        proof {
            assert(text@.take(len as int) =~= text@);
            assert(rbv@ =~= str_bits(bit_vector_str@));
        }
        rbv
    }

    /// Number of bits held.
    pub fn length(&self) -> (r: u64)
        requires
            self.wf(),
        ensures
            r == self@.len(),
    {
        (self.byte_vec.len() as u64 - 1) * 8 + (self.last_byte_len as u64)
    }

    /// Returns bit `i`.
    pub fn access(&self, i: u64) -> (r: bool)
        requires
            self.wf(),
            i < self@.len(),
        ensures
            r == self@[i as int],
    {
        proof {
            vstd::arithmetic::div_mod::lemma_fundamental_div_mod(i as int, 8);
        }
        let byte: u8 = self.byte_vec[(i / 8) as usize];
        let k: u8 = (i % 8) as u8;
        ((byte >> (7 - k)) & 1) == 1
    }

    /// Sets bit `i` to 1; every other bit keeps its value.
    pub fn set_bit(&mut self, i: u64)
        requires
            old(self).wf(),
            i < old(self)@.len(),
        ensures
            final(self).wf(),
            final(self)@ == old(self)@.update(i as int, true),
    {
        proof {
            vstd::arithmetic::div_mod::lemma_fundamental_div_mod(i as int, 8);
        }
        let idx: usize = (i / 8) as usize;
        let k: u8 = (i % 8) as u8;
        let byte: u8 = self.byte_vec[idx];
        let new_byte: u8 = byte | (1 << (7 - k));
        self.byte_vec[idx] = new_byte;
        proof {
            assert forall|j: int| 0 <= j < 8 implies bit_at(new_byte, j) == (j == k as int
                || bit_at(byte, j)) by {
                lemma_byte_or_bit(byte, k, j as u8);
            }
            assert forall|t: int| 0 <= t < self@.len() implies self@[t] == old(self)@.update(
                i as int,
                true,
            )[t] by {
                vstd::arithmetic::div_mod::lemma_fundamental_div_mod(t, 8);
                if t / 8 == i as int / 8 && t != i as int {
                    assert(t % 8 != i as int % 8);
                }
            }
            assert(self@ =~= old(self)@.update(i as int, true));
        }
    }

    /// The bits of the vector read as a big-endian numeral, left-aligned in a
    /// 32-bit word: the first bit becomes the `1 << 31` place.
    pub fn as_u32(&self) -> (r: u32)
        requires
            self.wf(),
            self@.len() <= 32,
        ensures
            r == bits_val(self@) * vstd::arithmetic::power2::pow2((32 - self@.len()) as nat),
    {
        let b0: u8 = self.byte_vec[0];
        let b1: u8 = if self.byte_vec.len() >= 2 {
            self.byte_vec[1]
        } else {
            0
        };
        let b2: u8 = if self.byte_vec.len() >= 3 {
            self.byte_vec[2]
        } else {
            0
        };
        let b3: u8 = if self.byte_vec.len() >= 4 {
            self.byte_vec[3]
        } else {
            0
        };
        let r: u32 = (b0 as u32) * 0x100_0000 + (b1 as u32) * 0x1_0000 + (b2 as u32) * 0x100 + (
        b3 as u32);
        proof {
            let full = byte_bits(b0) + byte_bits(b1) + byte_bits(b2) + byte_bits(b3);
            lemma_byte_bits_val(b0);
            lemma_byte_bits_val(b1);
            lemma_byte_bits_val(b2);
            lemma_byte_bits_val(b3);
            lemma_bits_val_concat(byte_bits(b0), byte_bits(b1));
            lemma_bits_val_concat(byte_bits(b0) + byte_bits(b1), byte_bits(b2));
            lemma_bits_val_concat(byte_bits(b0) + byte_bits(b1) + byte_bits(b2), byte_bits(b3));
            vstd::arithmetic::power2::lemma2_to64();
            let p = vstd::arithmetic::power2::pow2(8);
            let x01 = bits_val(byte_bits(b0) + byte_bits(b1));
            let x012 = bits_val(byte_bits(b0) + byte_bits(b1) + byte_bits(b2));
            assert(bits_val(full) == (b0 as nat) * 0x100_0000 + (b1 as nat) * 0x1_0000 + (
            b2 as nat) * 0x100 + (b3 as nat)) by (nonlinear_arith)
                requires
                    x01 == bits_val(byte_bits(b0)) * p + bits_val(byte_bits(b1)),
                    x012 == x01 * p + bits_val(byte_bits(b2)),
                    bits_val(full) == x012 * p + bits_val(byte_bits(b3)),
                    p == 256,
                    bits_val(byte_bits(b0)) == b0,
                    bits_val(byte_bits(b1)) == b1,
                    bits_val(byte_bits(b2)) == b2,
                    bits_val(byte_bits(b3)) == b3,
            ;
            assert(bits_val(full) == r);
            let len = self@.len() as int;
            assert(full.take(len) =~= self@) by {
                assert forall|t: int| 0 <= t < len implies full[t] == self@[t] by {
                    vstd::arithmetic::div_mod::lemma_fundamental_div_mod(t, 8);
                }
            }
            lemma_zero_byte_bits();
            assert(forall|j: int| len <= j < 32 ==> !full[j]) by {
                assert forall|j: int| len <= j < 32 implies !full[j] by {
                    vstd::arithmetic::div_mod::lemma_fundamental_div_mod(j, 8);
                }
            }
            assert(full =~= full.take(len) + full.skip(len));
            lemma_bits_val_concat(full.take(len), full.skip(len));
            lemma_bits_val_zero(full.skip(len));
        }
        r
    }

    /// Makes a new vector holding bits `[i, i + size)` of `self`, re-indexed
    /// from 0.
    ///
    /// Works a byte at a time: each output byte merges at most two adjacent
    /// input bytes (the second may be the zero-padded virtual byte past the
    /// stored data), then the bits past the end of the window are cleared.
    pub fn copy_sub(&self, i: u64, size: u64) -> (r: RawBitVector)
        requires
            self.wf(),
            0 < size,
            i + size <= self@.len(),
        ensures
            r.wf(),
            r@ == self@.subrange(i as int, (i + size) as int),
    {
        let a: u8 = (i % 8) as u8;
        let q: u64 = size / 8;
        let rem: u64 = size % 8;
        let (n_out, last_byte_len): (u64, u8) = if rem == 0 {
            (q, 8u8)
        } else {
            (q + 1, rem as u8)
        };
        proof {
            vstd::arithmetic::div_mod::lemma_fundamental_div_mod(size as int, 8);
            vstd::arithmetic::div_mod::lemma_fundamental_div_mod(i as int, 8);
        }
        let mut sub: Vec<u8> = Vec::new();
        let mut m: u64 = 0;
        while m < n_out
            invariant
                self.wf(),
                0 < size,
                i + size <= self@.len(),
                a == i % 8,
                8 * n_out - 8 < size <= 8 * n_out,
                m <= n_out,
                sub.len() == m,
                forall|mm: int, kk: int|
                    0 <= mm < m && 0 <= kk < 8 ==> (#[trigger] bit_at(sub[mm], kk)) == (8 * mm + kk
                        < size && self@[i + 8 * mm + kk]),
            decreases n_out - m,
        {
            let j: u64 = i + 8 * m;
            let ghost jb: int = i as int / 8 + m as int;
            proof {
                vstd::arithmetic::div_mod::lemma_fundamental_div_mod_converse(
                    j as int,
                    8,
                    jb,
                    a as int,
                );
                assert(8 * jb + a < self@.len());
            }
            let idx: usize = (j / 8) as usize;
            let byte1: u8 = self.byte_vec[idx];
            let byte2: u8 = if idx + 1 < self.byte_vec.len() {
                self.byte_vec[idx + 1]
            } else {
                0u8
            };
            let merged: u8 = if a == 0 {
                byte1
            } else {
                (byte1 << a) | (byte2 >> (8 - a))
            };
            let keep: u8 = if size - 8 * m >= 8 {
                8u8
            } else {
                (size - 8 * m) as u8
            };
            let out: u8 = if keep == 8 {
                merged
            } else {
                (merged >> (8 - keep)) << (8 - keep)
            };
            proof {
                let v = self@;
                let ii = i as int;
                let mi = m as int;
                let ai = a as int;
                assert forall|kk: int| 0 <= kk < 8 implies bit_at(out, kk) == (8 * mi + kk < size
                    && v[ii + 8 * mi + kk]) by {
                    let k8 = kk as u8;
                    if keep < 8 {
                        lemma_byte_mask_bit(merged, keep, k8);
                        assert(bit_at(out, kk) == (kk < keep && bit_at(merged, kk)));
                    } else {
                        assert(bit_at(out, kk) == bit_at(merged, kk));
                    }
                    if 8 * mi + kk < size {
                        assert(kk < keep);
                        let t = j as int + kk;
                        assert(t < v.len());
                        if ai + kk < 8 {
                            vstd::arithmetic::div_mod::lemma_fundamental_div_mod_converse(
                                t,
                                8,
                                jb,
                                ai + kk,
                            );
                            assert(v[t] == bit_at(self.byte_vec[jb], ai + kk));
                            if a == 0 {
                                assert(bit_at(merged, kk) == v[t]);
                            } else {
                                lemma_byte_merge_bit(byte1, byte2, a, k8);
                                assert(bit_at(merged, kk) == bit_at(byte1, ai + kk));
                            }
                        } else {
                            vstd::arithmetic::div_mod::lemma_fundamental_div_mod_converse(
                                t,
                                8,
                                jb + 1,
                                ai + kk - 8,
                            );
                            assert(8 * (jb + 1) <= t < v.len());
                            assert(jb + 1 < self.byte_vec.len());
                            assert(v[t] == bit_at(self.byte_vec[jb + 1], ai + kk - 8));
                            lemma_byte_merge_bit(byte1, byte2, a, k8);
                            assert(bit_at(merged, kk) == bit_at(byte2, ai + kk - 8));
                        }
                        assert(bit_at(out, kk) == v[ii + 8 * mi + kk]);
                    } else {
                        assert(keep < 8 && kk >= keep);
                        assert(!bit_at(out, kk));
                    }
                }
            }
            sub.push(out);
            m = m + 1;
        }
        let r = RawBitVector { byte_vec: sub, last_byte_len };
        proof {
            assert(r@.len() == size);
            assert forall|t: int| 0 <= t < size implies r@[t] == self@[i + t] by {
                vstd::arithmetic::div_mod::lemma_fundamental_div_mod(t, 8);
                assert(bit_at(sub[t / 8], t % 8) == (8 * (t / 8) + (t % 8) < size && self@[i as int
                    + 8 * (t / 8) + (t % 8)]));
            }
            assert(r@ =~= self@.subrange(i as int, (i + size) as int));
            assert forall|k: int| last_byte_len <= k < 8 implies !(#[trigger] bit_at(
                sub[sub.len() - 1],
                k,
            )) by {
                assert(8 * (sub.len() - 1) + k >= size);
            }
        }
        r
    }

    /// Total number of 1-bits.
    pub fn popcount(&self) -> (r: u64)
        requires
            self.wf(),
        ensures
            r == count_ones(self@),
    {
        let n_bytes: usize = self.byte_vec.len();
        let mut acc: u64 = 0;
        let mut m: usize = 0;
        proof {
            assert(self@.take(0) =~= Seq::<bool>::empty());
        }
        while m < n_bytes
            invariant
                self.wf(),
                m <= n_bytes,
                n_bytes == self.byte_vec.len(),
                m < n_bytes ==> acc == count_ones(self@.take(8 * m)),
                m == n_bytes ==> acc == count_ones(self@),
                acc <= self@.len(),
            decreases n_bytes - m,
        {
            let b = byte_popcount(self.byte_vec[m]);
            proof {
                let v = self@;
                let lo = 8 * m as int;
                let hi = if m == n_bytes - 1 {
                    v.len() as int
                } else {
                    8 * (m + 1) as int
                };
                assert(lo <= hi <= v.len());
                lemma_count_ones_le_len(v);
                lemma_count_ones_subrange_split(v, 0, lo, hi);
                assert(v.subrange(0, lo) =~= v.take(lo));
                assert(v.subrange(0, hi) =~= v.take(hi));
                if m == n_bytes - 1 {
                    // The final byte contributes only its meaningful prefix;
                    // the padding bits are clear.
                    let bb = byte_bits(self.byte_vec[m as int]);
                    lemma_count_ones_false_tail(bb, self.last_byte_len as int);
                    assert(v.subrange(lo, hi) =~= bb.take(self.last_byte_len as int)) by {
                        assert forall|j: int| 0 <= j < hi - lo implies v.subrange(lo, hi)[j]
                            == bb[j] by {
                            vstd::arithmetic::div_mod::lemma_fundamental_div_mod(lo + j, 8);
                        }
                    }
                    assert(v.take(hi) =~= v);
                } else {
                    let bb = byte_bits(self.byte_vec[m as int]);
                    assert(v.subrange(lo, hi) =~= bb) by {
                        assert forall|j: int| 0 <= j < 8 implies v.subrange(lo, hi)[j] == bb[j] by {
                            vstd::arithmetic::div_mod::lemma_fundamental_div_mod(lo + j, 8);
                        }
                    }
                }
                lemma_count_ones_le_len(v.take(hi));
            }
            acc = acc + (b as u64);
            m = m + 1;
        }
        acc
    }
}

/// Number of 1-bits in a single byte.
fn byte_popcount(b: u8) -> (r: u8)
    ensures
        r == count_ones(byte_bits(b)),
        r <= 8,
{
    let mut cnt: u8 = 0;
    let mut k: u8 = 0;
    proof {
        assert(byte_bits(b).take(0) =~= Seq::<bool>::empty());
    }
    while k < 8
        invariant
            k <= 8,
            cnt <= k,
            cnt == count_ones(byte_bits(b).take(k as int)),
        decreases 8 - k,
    {
        proof {
            lemma_count_ones_take_step(byte_bits(b), k as int);
        }
        if (b >> (7 - k)) & 1 == 1 {
            cnt = cnt + 1;
        }
        k = k + 1;
    }
    proof {
        assert(byte_bits(b).take(8) =~= byte_bits(b));
    }
    cnt
}

} // verus!
