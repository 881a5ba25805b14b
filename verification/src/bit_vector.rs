//! Succinct indexable bit vector: constant-time `access` and `rank` and
//! logarithmic `select`, backed by a two-level index of cumulative popcounts
//! (chunks of blocks) over the packed raw bits.

use vstd::prelude::*;

use crate::bits::{
    bits_val, count_ones, count_zeros, lemma_bits_val_bound, lemma_bits_val_take, lemma_count_ones_le_len,
    lemma_count_ones_subrange_split, lemma_count_ones_take_monotone, lemma_count_ones_take_step,
    lemma_count_ones_zeros, lemma_count_zeros_take_monotone, lemma_count_zeros_take_step,
    lemma_pop_int_bits_val,
};
use crate::bit_string::{str_bits, BitVectorString};
use crate::popcount_table::PopcountTable;
use crate::raw_bit_vector::RawBitVector;

verus! {

/// Floor of the base-2 logarithm; 0 for inputs below 2.
pub open spec fn floor_log2(n: nat) -> nat
    decreases n,
{
    if n < 2 {
        0
    } else {
        1 + floor_log2(n / 2)
    }
}

/// Nominal chunk width for a vector of `n` bits: `(log2 n)^2`, at least 1.
pub open spec fn spec_chunk_size(n: nat) -> int {
    let lg = floor_log2(n) as int;
    if lg * lg == 0 {
        1
    } else {
        lg * lg
    }
}

/// Nominal block width for a vector of `n` bits: `(log2 n) / 2`, at least 1.
pub open spec fn spec_block_size(n: nat) -> int {
    let lg = floor_log2(n) as int;
    if lg / 2 == 0 {
        1
    } else {
        lg / 2
    }
}

/// Number of blocks a whole chunk holds: `ceil(cs / bs)`.
pub open spec fn blocks_per_chunk(cs: int, bs: int) -> int {
    (cs + bs - 1) / bs
}

/// Number of chunks covering `n` bits: `ceil(n / cs)`.
pub open spec fn n_chunks_of(n: int, cs: int) -> int {
    (n + cs - 1) / cs
}

/// End position (exclusive) of chunk `c`: the nominal boundary, clamped to
/// the vector's length.
pub open spec fn chunk_end_at(n: int, cs: int, c: int) -> int {
    if (c + 1) * cs <= n {
        (c + 1) * cs
    } else {
        n
    }
}

/// End position (exclusive) of block `j` within chunk `c`, clamped to the
/// chunk's end.
pub open spec fn block_end_at(n: int, cs: int, bs: int, c: int, j: int) -> int {
    let e = c * cs + (j + 1) * bs;
    if e <= chunk_end_at(n, cs, c) {
        e
    } else {
        chunk_end_at(n, cs, c)
    }
}

/// Cumulative popcount recorded for chunk `c`: all set bits up to its end.
pub open spec fn chunk_sum_at(bits: Seq<bool>, n: int, cs: int, c: int) -> nat {
    count_ones(bits.take(chunk_end_at(n, cs, c)))
}

/// Cumulative popcount recorded for block `j` of chunk `c`, relative to the
/// chunk's start.
pub open spec fn block_sum_at(bits: Seq<bool>, n: int, cs: int, bs: int, c: int, j: int) -> nat {
    count_ones(bits.subrange(c * cs, block_end_at(n, cs, bs, c, j)))
}

/// The block array records block `j` of chunk `c`: the entry exists and
/// holds the block's cumulative popcount.
pub open spec fn block_entry_ok(
    blocks: Seq<u16>,
    bits: Seq<bool>,
    n: int,
    cs: int,
    bs: int,
    c: int,
    j: int,
) -> bool {
    let bpc = blocks_per_chunk(cs, bs);
    &&& 0 <= c * bpc + j < blocks.len()
    &&& blocks[c * bpc + j] == block_sum_at(bits, n, cs, bs, c, j)
}

/// Position `p` holds the `k`-th 1-bit (1-based): the bit is set and exactly
/// `k - 1` set bits precede it.
pub open spec fn is_kth_one(s: Seq<bool>, k: nat, p: int) -> bool {
    &&& 0 <= p < s.len()
    &&& s[p]
    &&& count_ones(s.take(p)) + 1 == k
}

/// Position `p` holds the `k`-th 0-bit (1-based).
pub open spec fn is_kth_zero(s: Seq<bool>, k: nat, p: int) -> bool {
    &&& 0 <= p < s.len()
    &&& !s[p]
    &&& count_zeros(s.take(p)) + 1 == k
}

/// Floor of the base-2 logarithm of `n`.
pub fn log2(n: u64) -> (r: u8)
    requires
        1 <= n,
    ensures
        r == floor_log2(n as nat),
        r <= 63,
{
    let mut e: u8 = 0;
    let mut m: u64 = n;
    proof {
        vstd::arithmetic::power2::lemma2_to64();
        assert(vstd::arithmetic::power2::pow2(0) * (n as nat) <= n as nat) by (nonlinear_arith)
            requires
                vstd::arithmetic::power2::pow2(0) == 1,
        ;
    }
    while m >= 2
        invariant
            1 <= m,
            e <= 63,
            floor_log2(n as nat) == e + floor_log2(m as nat),
            vstd::arithmetic::power2::pow2(e as nat) * m <= n,
        decreases m,
    {
        proof {
            let p = vstd::arithmetic::power2::pow2(e as nat);
            vstd::arithmetic::power2::lemma_pow2_adds(e as nat, 1);
            vstd::arithmetic::power2::lemma2_to64();
            vstd::arithmetic::power2::lemma2_to64_rest();
            assert(p * 2 * (m / 2) <= p * m) by (nonlinear_arith)
                requires
                    2 <= m,
                    0 < p,
            ;
            vstd::arithmetic::power2::lemma_pow2_pos(e as nat);
            // e stays below 64: 2^(e+1) <= n < 2^64.
            assert(p * 2 <= p * m) by (nonlinear_arith)
                requires
                    2 <= m,
                    0 < p,
            ;
            if e >= 63 {
                assert(vstd::arithmetic::power2::pow2(64) <= n);
                assert(false);
            }
        }
        m = m / 2;
        e = e + 1;
    }
    e
}

/// Chunk width for a vector of `n` bits.
pub fn chunk_size(n: u64) -> (r: u16)
    requires
        1 <= n,
    ensures
        r as int == spec_chunk_size(n as nat),
        1 <= r <= 3969,
{
    let lg: u8 = log2(n);
    proof {
        assert((lg as int) * (lg as int) <= 3969) by (nonlinear_arith)
            requires
                lg <= 63,
        ;
    }
    let sz: u16 = (lg as u16) * (lg as u16);
    if sz == 0 {
        1
    } else {
        sz
    }
}

/// Block width for a vector of `n` bits.
pub fn block_size(n: u64) -> (r: u8)
    requires
        1 <= n,
    ensures
        r as int == spec_block_size(n as nat),
        1 <= r <= 31,
        r as int <= spec_chunk_size(n as nat),
{
    let lg: u8 = log2(n);
    let sz: u8 = lg / 2;
    proof {
        if lg >= 1 {
            assert(lg as int * lg as int >= lg as int) by (nonlinear_arith)
                requires
                    lg >= 1,
            ;
        }
    }
    if sz == 0 {
        1
    } else {
        sz
    }
}

/// Succinct bit vector of length `N` in `[1, 2^64)`.
///
/// Owns the packed raw bits plus the two-level index: `chunks[c]` is the
/// popcount of every bit up to the end of chunk `c`, and `blocks` holds, for
/// each block, the popcount from its chunk's start up to the block's end.
/// A shared popcount table, sized to the block width, finishes `rank`
/// lookups inside a block in constant time.
pub struct BitVector {
    n: u64,
    cs: u16,
    bs: u8,
    rbv: RawBitVector,
    chunks: Vec<u64>,
    blocks: Vec<u16>,
    popcount_table: PopcountTable,
}

impl View for BitVector {
    type V = Seq<bool>;

    closed spec fn view(&self) -> Seq<bool> {
        self.rbv@
    }
}

impl BitVector {
    /// Structural invariant: the raw bits are well formed, the recorded
    /// length matches, and both index levels hold exactly the cumulative
    /// popcounts their definitions demand.
    pub closed spec fn wf(&self) -> bool {
        let n = self.n as int;
        let cs = spec_chunk_size(self.n as nat);
        let bs = spec_block_size(self.n as nat);
        let bpc = blocks_per_chunk(cs, bs);
        &&& self.rbv.wf()
        &&& self.n == self.rbv@.len()
        &&& self.n >= 1
        &&& self.cs as int == cs
        &&& self.bs as int == bs
        &&& 1 <= self.bs <= 31
        &&& self.bs as int <= self.cs as int
        &&& self.cs <= 3969
        &&& self.popcount_table.wf()
        &&& self.popcount_table.width() as int == bs
        &&& self.chunks.len() == n_chunks_of(n, cs)
        &&& forall|c: int|
            0 <= c < self.chunks.len() ==> (#[trigger] self.chunks@[c]) == chunk_sum_at(
                self.rbv@,
                n,
                cs,
                c,
            )
        &&& forall|c: int, j: int|
            0 <= c && 0 <= j && c * cs + j * bs < chunk_end_at(n, cs, c)
                ==> #[trigger] block_entry_ok(self.blocks@, self.rbv@, n, cs, bs, c, j)
    }

    /// Number of bits held.
    pub fn length(&self) -> (r: u64)
        requires
            self.wf(),
        ensures
            r == self@.len(),
    {
        self.n
    }

    /// Chunk width this vector was indexed with.
    pub fn chunk_size(&self) -> (r: u16)
        requires
            self.wf(),
        ensures
            r as int == spec_chunk_size(self@.len()),
    {
        self.cs
    }

    /// Block width this vector was indexed with.
    pub fn block_size(&self) -> (r: u8)
        requires
            self.wf(),
        ensures
            r as int == spec_block_size(self@.len()),
    {
        self.bs
    }

    /// Returns bit `i` of the vector.
    pub fn access(&self, i: u64) -> (r: bool)
        requires
            self.wf(),
            i < self@.len(),
        ensures
            r == self@[i as int],
    {
        self.rbv.access(i)
    }

    /// Number of 1-bits in positions `[0, i]`.
    ///
    /// Three constant-time lookups: the cumulative popcount of the chunks
    /// before `i`'s chunk, the cumulative popcount of the blocks before
    /// `i`'s block within the chunk, and a popcount-table lookup for the
    /// partial block up to and including `i`.
    #[verifier::rlimit(60)]
    pub fn rank(&self, i: u64) -> (r: u64)
        requires
            self.wf(),
            i < self@.len(),
        ensures
            r == count_ones(self@.take(i as int + 1)),
    {
        let n: u64 = self.n;
        let cs: u64 = self.cs as u64;
        let bs: u64 = self.bs as u64;
        let bpc: u64 = (cs + bs - 1) / bs;
        let ghost v = self@;
        let ghost ni = n as int;
        let ghost csi = cs as int;
        let ghost bsi = bs as int;
        proof {
            vstd::arithmetic::div_mod::lemma_fundamental_div_mod(i as int, csi);
            vstd::arithmetic::div_mod::lemma_mod_bound(i as int, csi);
            vstd::arithmetic::mul::lemma_mul_is_commutative(i as int / csi, csi);
        }
        let i_chunk: u64 = i / cs;
        let chunk_start: u64 = i_chunk * cs;
        proof {
            vstd::arithmetic::div_mod::lemma_fundamental_div_mod(i as int - chunk_start, bsi);
            vstd::arithmetic::div_mod::lemma_mod_bound(i as int - chunk_start, bsi);
            vstd::arithmetic::mul::lemma_mul_is_commutative(
                (i as int - chunk_start) / bsi,
                bsi,
            );
        }
        let j: u64 = (i - chunk_start) / bs;
        let block_start: u64 = chunk_start + j * bs;
        let chunk_end: u64 = if n - chunk_start >= cs {
            chunk_start + cs
        } else {
            n
        };
        let ghost ci = i_chunk as int;
        let ghost ji = j as int;
        proof {
            assert((ci + 1) * csi == ci * csi + csi) by (nonlinear_arith);
            assert(chunk_end == chunk_end_at(ni, csi, ci));
            assert((ji + 1) * bsi == ji * bsi + bsi) by (nonlinear_arith);
            assert((ji - 1) * bsi + bsi == ji * bsi) by (nonlinear_arith);
            assert(i < block_start + bs);
            assert(block_start <= i < chunk_end);
        }
        let block_len: u64 = if chunk_end - block_start >= bs {
            bs
        } else {
            chunk_end - block_start
        };
        // Popcount of every chunk strictly before i's chunk.
        let chunk_rank: u64 = if i_chunk == 0 {
            0
        } else {
            proof {
                // ceil(n / cs) > i / cs, so the previous chunk is recorded.
                vstd::arithmetic::mul::lemma_mul_is_commutative(ci + 1, csi);
                vstd::arithmetic::div_mod::lemma_div_is_ordered(
                    csi * (ci + 1),
                    ni + csi - 1,
                    csi,
                );
                vstd::arithmetic::div_mod::lemma_div_multiples_vanish(ci + 1, csi);
                assert(ci - 1 < self.chunks.len());
                assert(chunk_end_at(ni, csi, ci - 1) == chunk_start);
                assert(self.chunks@[ci - 1] == chunk_sum_at(v, ni, csi, ci - 1));
                assert(chunk_sum_at(v, ni, csi, ci - 1) == count_ones(v.take(chunk_start as int)));
            }
            self.chunks[(i_chunk - 1) as usize]
        };
        proof {
            if i_chunk == 0 {
                assert(ci * csi == 0) by (nonlinear_arith)
                    requires
                        ci == 0,
                ;
                assert(v.take(0) =~= Seq::<bool>::empty());
            }
            assert(v.take(chunk_start as int) =~= v.subrange(0, chunk_start as int));
            assert(chunk_rank == count_ones(v.subrange(0, chunk_start as int)));
        }
        // Popcount of the blocks of this chunk strictly before i's block.
        let block_rank: u16 = if j == 0 {
            0
        } else {
            proof {
                assert(ci * csi + (ji - 1) * bsi < chunk_end_at(ni, csi, ci)) by (nonlinear_arith)
                    requires
                        (ji - 1) * bsi + bsi == ji * bsi,
                        ci * csi + ji * bsi <= i as int,
                        (i as int) < chunk_end_at(ni, csi, ci),
                        bsi > 0,
                ;
                assert(bpc as int == blocks_per_chunk(csi, bsi));
                assert(block_entry_ok(self.blocks@, v, ni, csi, bsi, ci, ji - 1));
                assert(0 <= ci * (bpc as int) + (ji - 1) < self.blocks.len() as int);
                assert(block_end_at(ni, csi, bsi, ci, ji - 1) == block_start);
            }
            self.blocks[(i_chunk * bpc + j - 1) as usize]
        };
        proof {
            if j == 0 {
                assert(ji * bsi == 0) by (nonlinear_arith)
                    requires
                        ji == 0,
                ;
                assert(block_start == chunk_start);
                assert(v.subrange(chunk_start as int, chunk_start as int) =~= Seq::<
                    bool,
                >::empty());
            }
            assert(block_rank == count_ones(v.subrange(chunk_start as int, block_start as int)));
        }
        // Popcount of the partial block [block_start, i] via the table.
        let w = self.rbv.copy_sub(block_start, block_len);
        let word: u32 = w.as_u32();
        let used: u64 = i + 1 - block_start;
        let pattern: u64 = (word >> (32 - used as u32)) as u64;
        proof {
            let a = bits_val(w@);
            let e1 = (32 - block_len) as nat;
            let e2 = (block_len - used) as nat;
            vstd::arithmetic::power2::lemma_pow2_pos(e1);
            vstd::arithmetic::power2::lemma_pow2_pos(e2);
            vstd::arithmetic::power2::lemma_pow2_adds(e1, e2);
            vstd::bits::lemma_u32_shr_is_div(word, (32 - used) as u32);
            vstd::arithmetic::div_mod::lemma_div_denominator(
                word as int,
                vstd::arithmetic::power2::pow2(e1) as int,
                vstd::arithmetic::power2::pow2(e2) as int,
            );
            vstd::arithmetic::div_mod::lemma_div_multiples_vanish(
                a as int,
                vstd::arithmetic::power2::pow2(e1) as int,
            );
            assert(a * vstd::arithmetic::power2::pow2(e1) == vstd::arithmetic::power2::pow2(e1)
                * a) by (nonlinear_arith);
            lemma_bits_val_take(w@, used as int);
            assert(pattern == bits_val(w@.take(used as int)));
            lemma_bits_val_bound(w@.take(used as int));
            if (used as nat) < self.popcount_table.width() as nat {
                vstd::arithmetic::power2::lemma_pow2_strictly_increases(
                    used as nat,
                    self.popcount_table.width() as nat,
                );
            }
        }
        let tail: u64 = self.popcount_table.popcount(pattern);
        proof {
            lemma_pop_int_bits_val(w@.take(used as int));
            assert(w@.take(used as int) =~= v.subrange(block_start as int, i as int + 1));
            assert(v.take(i as int + 1) =~= v.subrange(0, i as int + 1));
            assert(v.take(chunk_start as int) =~= v.subrange(0, chunk_start as int));
            lemma_count_ones_subrange_split(v, 0, chunk_start as int, i as int + 1);
            lemma_count_ones_subrange_split(v, chunk_start as int, block_start as int, i as int + 1);
            lemma_count_ones_le_len(v.take(i as int + 1));
            assert(chunk_rank == count_ones(v.subrange(0, chunk_start as int)));
            assert(block_rank == count_ones(v.subrange(chunk_start as int, block_start as int)));
            assert(tail == count_ones(v.subrange(block_start as int, i as int + 1)));
        }
        chunk_rank + (block_rank as u64) + tail
    }

    /// Number of 0-bits in positions `[0, i]`: the complement `i + 1 - rank(i)`.
    pub fn rank0(&self, i: u64) -> (r: u64)
        requires
            self.wf(),
            i < self@.len(),
        ensures
            r == count_zeros(self@.take(i as int + 1)),
            r == i + 1 - count_ones(self@.take(i as int + 1)),
    {
        proof {
            lemma_count_ones_zeros(self@.take(i as int + 1));
            lemma_count_ones_le_len(self@.take(i as int + 1));
        }
        i + 1 - self.rank(i)
    }

    /// Index of the `k`-th 1-bit (1-based), or `None` when `k` is 0 or the
    /// vector holds fewer than `k` set bits.
    ///
    /// Binary search for the least position whose rank reaches `k`; each
    /// probe is a constant-time `rank`, so the search is logarithmic.
    pub fn select(&self, k: u64) -> (r: Option<u64>)
        requires
            self.wf(),
        ensures
            match r {
                Some(p) => is_kth_one(self@, k as nat, p as int),
                None => !(1 <= k <= count_ones(self@)),
            },
    {
        proof {
            assert(self@.take(self@.len() as int) =~= self@);
            assert(self@.take(0) =~= Seq::<bool>::empty());
        }
        if k == 0 {
            return None;
        }
        let n: u64 = self.n;
        let total: u64 = self.rank(n - 1);
        if k > total {
            return None;
        }
        let mut lo: u64 = 0;
        let mut hi: u64 = n - 1;
        while lo < hi
            invariant
                self.wf(),
                n == self@.len(),
                lo <= hi < n,
                1 <= k,
                count_ones(self@.take(hi as int + 1)) >= k,
                count_ones(self@.take(lo as int)) < k,
            decreases hi - lo,
        {
            let mid: u64 = lo + (hi - lo) / 2;
            if self.rank(mid) >= k {
                hi = mid;
            } else {
                lo = mid + 1;
            }
        }
        proof {
            lemma_count_ones_take_step(self@, lo as int);
        }
        Some(lo)
    }

    /// Index of the `k`-th 0-bit (1-based), or `None` when `k` is 0 or the
    /// vector holds fewer than `k` clear bits.
    pub fn select0(&self, k: u64) -> (r: Option<u64>)
        requires
            self.wf(),
        ensures
            match r {
                Some(p) => is_kth_zero(self@, k as nat, p as int),
                None => !(1 <= k <= count_zeros(self@)),
            },
    {
        proof {
            assert(self@.take(self@.len() as int) =~= self@);
            assert(self@.take(0) =~= Seq::<bool>::empty());
        }
        if k == 0 {
            return None;
        }
        let n: u64 = self.n;
        let total0: u64 = self.rank0(n - 1);
        if k > total0 {
            return None;
        }
        let mut lo: u64 = 0;
        let mut hi: u64 = n - 1;
        while lo < hi
            invariant
                self.wf(),
                n == self@.len(),
                lo <= hi < n,
                1 <= k,
                count_zeros(self@.take(hi as int + 1)) >= k,
                count_zeros(self@.take(lo as int)) < k,
            decreases hi - lo,
        {
            let mid: u64 = lo + (hi - lo) / 2;
            if self.rank0(mid) >= k {
                hi = mid;
            } else {
                lo = mid + 1;
            }
        }
        proof {
            lemma_count_zeros_take_step(self@, lo as int);
        }
        Some(lo)
    }
}

/// Some position among the first `q` recorded ones equals `x`.
spec fn in_prefix(s: Seq<u64>, q: int, x: u64) -> bool {
    exists|w: int| 0 <= w < q && s[w] == x
}

proof fn lemma_in_prefix_step(s: Seq<u64>, q: int, x: u64)
    requires
        0 <= q < s.len(),
    ensures
        in_prefix(s, q + 1, x) == (in_prefix(s, q, x) || s[q] == x),
{
    if in_prefix(s, q + 1, x) {
        let w = choose|w: int| 0 <= w < q + 1 && s[w] == x;
        if w < q {
            assert(in_prefix(s, q, x));
        } else {
            assert(s[q] == x);
        }
    }
    if s[q] == x {
        assert(0 <= q < q + 1 && s[q] == x);
        assert(in_prefix(s, q + 1, x));
    }
    if in_prefix(s, q, x) {
        let w = choose|w: int| 0 <= w < q && s[w] == x;
        assert(0 <= w < q + 1 && s[w] == x);
        assert(in_prefix(s, q + 1, x));
    }
}

proof fn lemma_in_prefix_is_contains(s: Seq<u64>, x: u64)
    ensures
        in_prefix(s, s.len() as int, x) == s.contains(x),
{
    if in_prefix(s, s.len() as int, x) {
        let w = choose|w: int| 0 <= w < s.len() && s[w] == x;
        assert(s[w] == x);
        assert(s.contains(x));
    }
    if s.contains(x) {
        let w = choose|w: int| 0 <= w < s.len() && s[w] == x;
        assert(in_prefix(s, s.len() as int, x));
    }
}

/// Input a builder starts from: a zero-filled length, or a validated bit
/// string.
enum BitVectorSeed {
    Length(u64),
    Str(BitVectorString),
}

/// Builder of `BitVector`: holds a seed and the positions recorded by
/// `set_bit`, and materializes the vector with its two-level index in one
/// pass over the bits.
///
/// `build` does not consume the builder, so building twice from the same
/// state yields equivalent vectors.
pub struct BitVectorBuilder {
    seed: BitVectorSeed,
    bits_set: Vec<u64>,
}

impl BitVectorBuilder {
    /// Length of the vector the builder will produce.
    pub closed spec fn seed_len(&self) -> nat {
        match self.seed {
            BitVectorSeed::Length(n) => n as nat,
            BitVectorSeed::Str(s) => s@.len(),
        }
    }

    /// Bit `t` of the seed, before any recorded `set_bit` is applied.
    pub closed spec fn seed_bit(&self, t: int) -> bool {
        match self.seed {
            BitVectorSeed::Length(_) => false,
            BitVectorSeed::Str(s) => str_bits(s@)[t],
        }
    }

    /// The positions recorded by `set_bit`, in order.
    pub closed spec fn sets(&self) -> Seq<u64> {
        self.bits_set@
    }

    /// Structural invariant: a string seed is validated.
    pub closed spec fn wf(&self) -> bool {
        match self.seed {
            BitVectorSeed::Length(_) => true,
            BitVectorSeed::Str(s) => s.wf(),
        }
    }

    /// The bit sequence `build` produces: the seed with every recorded
    /// position set.
    pub open spec fn target(&self) -> Seq<bool> {
        Seq::new(
            self.seed_len(),
            |t: int| self.seed_bit(t) || self.sets().contains(t as u64),
        )
    }

    /// Starts from an all-zero vector of `length` bits.
    pub fn from_length(length: u64) -> (r: BitVectorBuilder)
        ensures
            r.wf(),
            r.seed_len() == length,
            r.sets() == Seq::<u64>::empty(),
            forall|t: int| !(#[trigger] r.seed_bit(t)),
    {
        BitVectorBuilder { seed: BitVectorSeed::Length(length), bits_set: Vec::new() }
    }

    /// Starts from the bits a validated bit string denotes.
    pub fn from_str(bit_vector_str: BitVectorString) -> (r: BitVectorBuilder)
        requires
            bit_vector_str.wf(),
        ensures
            r.wf(),
            r.seed_len() == bit_vector_str@.len(),
            r.sets() == Seq::<u64>::empty(),
            forall|t: int|
                0 <= t < r.seed_len() ==> (#[trigger] r.seed_bit(t)) == (bit_vector_str@[t]
                    == '1'),
    {
        BitVectorBuilder { seed: BitVectorSeed::Str(bit_vector_str), bits_set: Vec::new() }
    }

    /// Records position `i` for setting at build time. Duplicates are
    /// harmless; an out-of-range position is refused by `build`.
    pub fn set_bit(self, i: u64) -> (r: BitVectorBuilder)
        ensures
            r.wf() == self.wf(),
            r.seed_len() == self.seed_len(),
            forall|t: int| (#[trigger] r.seed_bit(t)) == self.seed_bit(t),
            r.sets() == self.sets().push(i),
    {
        let mut bits_set = self.bits_set;
        bits_set.push(i);
        BitVectorBuilder { seed: self.seed, bits_set }
    }

    /// Materializes the raw bits from the seed, applies every recorded
    /// `set_bit`, then walks the vector once, a block-sized window at a
    /// time, to compute the per-chunk and per-block cumulative popcounts,
    /// and sizes the popcount table to the block width.
    #[verifier::rlimit(100)]
    pub fn build(&self) -> (bv: BitVector)
        requires
            self.wf(),
            0 < self.seed_len(),
            self.seed_len() <= usize::MAX as nat,
            forall|q: int| 0 <= q < self.sets().len() ==> self.sets()[q] < self.seed_len(),
    ensures
            bv.wf(),
            bv@ == self.target(),
    {
        let mut rbv: RawBitVector = match &self.seed {
            BitVectorSeed::Length(n) => RawBitVector::from_length(*n),
            BitVectorSeed::Str(bvs) => RawBitVector::from_str(bvs),
        };
        let mut q: usize = 0;
        while q < self.bits_set.len()
            invariant
                rbv.wf(),
                q <= self.bits_set.len(),
                self.bits_set@ == self.sets(),
                rbv@.len() == self.seed_len(),
                rbv@.len() <= u64::MAX,
                forall|t: int| 0 <= t < self.sets().len() ==> self.sets()[t] < self.seed_len(),
                forall|t: int|
                    0 <= t < rbv@.len() ==> rbv@[t] == (self.seed_bit(t) || in_prefix(
                        self.sets(),
                        q as int,
                        t as u64,
                    )),
            decreases self.bits_set.len() - q,
        {
            let i = self.bits_set[q];
            let ghost q0 = q as int;
            let ghost pre = rbv@;
            rbv.set_bit(i);
            q = q + 1;
            proof {
                assert forall|t: int| 0 <= t < rbv@.len() implies rbv@[t] == (self.seed_bit(t)
                    || in_prefix(self.sets(), q as int, t as u64)) by {
                    assert(pre[t] == (self.seed_bit(t) || in_prefix(self.sets(), q0, t as u64)));
                    lemma_in_prefix_step(self.sets(), q0, t as u64);
                    assert(self.sets()[q0] == i);
                    assert(q as int == q0 + 1);
                    assert(in_prefix(self.sets(), q as int, t as u64) == in_prefix(
                        self.sets(),
                        q0 + 1,
                        t as u64,
                    ));
                    if t == i {
                        assert(rbv@[t]);
                        assert(in_prefix(self.sets(), q0 + 1, t as u64));
                    } else {
                        assert(rbv@[t] == pre[t]);
                    }
                }
            }
        }
        proof {
            assert forall|t: int| 0 <= t < rbv@.len() implies rbv@[t] == self.target()[t] by {
                assert(rbv@[t] == (self.seed_bit(t) || in_prefix(self.sets(), q as int, t as u64)));
                assert(q as int == self.sets().len());
                assert(in_prefix(self.sets(), q as int, t as u64) == in_prefix(
                    self.sets(),
                    self.sets().len() as int,
                    t as u64,
                ));
                lemma_in_prefix_is_contains(self.sets(), t as u64);
            }
            assert(rbv@ =~= self.target());
        }
        let n: u64 = rbv.length();
        let cs16: u16 = chunk_size(n);
        let bs8: u8 = block_size(n);
        let (chunks, blocks) = build_index(&rbv, cs16 as u64, bs8 as u64);
        let popcount_table = PopcountTable::new(bs8);
        let bv = BitVector { n, cs: cs16, bs: bs8, rbv, chunks, blocks, popcount_table };
        proof {
            assert(bv@ =~= self.target());
        }
        bv
    }
}

/// Select inverts rank: at the position of the `k`-th set bit, the bit reads
/// 1 and the rank up to and including it is exactly `k`.
pub proof fn lemma_select_inverse(s: Seq<bool>, k: nat, p: int)
    requires
        is_kth_one(s, k, p),
    ensures
        s[p],
        count_ones(s.take(p + 1)) == k,
{
    lemma_count_ones_take_step(s, p);
}

/// The clear-bit counterpart: at the position of the `k`-th clear bit, the
/// bit reads 0 and the count of clear bits up to and including it is `k`.
pub proof fn lemma_select0_inverse(s: Seq<bool>, k: nat, p: int)
    requires
        is_kth_zero(s, k, p),
    ensures
        !s[p],
        count_zeros(s.take(p + 1)) == k,
{
    lemma_count_zeros_take_step(s, p);
}

/// Duality of the two ranks: over any prefix, the clear bits are the length
/// minus the set bits, so `rank0(i) == i + 1 - rank(i)`.
pub proof fn lemma_rank0_duality(s: Seq<bool>, i: int)
    requires
        0 <= i < s.len(),
    ensures
        count_zeros(s.take(i + 1)) == i + 1 - count_ones(s.take(i + 1)),
{
    lemma_count_ones_zeros(s.take(i + 1));
}

/// The `k`-th set bit sits at one position only.
pub proof fn lemma_kth_one_unique(s: Seq<bool>, k: nat, p1: int, p2: int)
    requires
        is_kth_one(s, k, p1),
        is_kth_one(s, k, p2),
    ensures
        p1 == p2,
{
    if p1 < p2 {
        lemma_count_ones_take_step(s, p1);
        lemma_count_ones_take_monotone(s, p1 + 1, p2);
    }
    if p2 < p1 {
        lemma_count_ones_take_step(s, p2);
        lemma_count_ones_take_monotone(s, p2 + 1, p1);
    }
}

/// The `k`-th clear bit sits at one position only.
pub proof fn lemma_kth_zero_unique(s: Seq<bool>, k: nat, p1: int, p2: int)
    requires
        is_kth_zero(s, k, p1),
        is_kth_zero(s, k, p2),
    ensures
        p1 == p2,
{
    if p1 < p2 {
        lemma_count_zeros_take_step(s, p1);
        lemma_count_zeros_take_monotone(s, p1 + 1, p2);
    }
    if p2 < p1 {
        lemma_count_zeros_take_step(s, p2);
        lemma_count_zeros_take_monotone(s, p2 + 1, p1);
    }
}

/// Rank at the final position counts every set bit of the vector.
pub proof fn lemma_rank_full(s: Seq<bool>)
    requires
        s.len() >= 1,
    ensures
        count_ones(s.take(s.len() as int)) == count_ones(s),
{
    assert(s.take(s.len() as int) =~= s);
}

/// Walks the raw bits once, a block-sized window at a time, and returns the
/// chunk-level and block-level cumulative popcount arrays.
#[verifier::rlimit(100)]
fn build_index(rbv: &RawBitVector, cs: u64, bs: u64) -> (r: (Vec<u64>, Vec<u16>))
    requires
        rbv.wf(),
        1 <= rbv@.len(),
        cs as int == spec_chunk_size(rbv@.len()),
        bs as int == spec_block_size(rbv@.len()),
        1 <= bs <= cs <= 3969,
    ensures
        ({
            let ni = rbv@.len() as int;
            let csi = cs as int;
            let bsi = bs as int;
            let bpci = blocks_per_chunk(csi, bsi);
            &&& r.0.len() == n_chunks_of(ni, csi)
            &&& forall|c: int|
                0 <= c < r.0.len() ==> (#[trigger] r.0@[c]) == chunk_sum_at(rbv@, ni, csi, c)
            &&& forall|c: int, j: int|
                0 <= c && 0 <= j && c * csi + j * bsi < chunk_end_at(ni, csi, c)
                    ==> #[trigger] block_entry_ok(r.1@, rbv@, ni, csi, bsi, c, j)
        }),
{
    let n: u64 = rbv.length();
    let bpc: u64 = (cs + bs - 1) / bs;
    let ghost ni = n as int;
    let ghost csi = cs as int;
    let ghost bsi = bs as int;
    let ghost bpci = bpc as int;
    proof {
        vstd::arithmetic::div_mod::lemma_fundamental_div_mod(ni, csi);
        vstd::arithmetic::div_mod::lemma_mod_bound(ni, csi);
        if ni % csi != 0 {
            assert(ni / csi + 1 <= ni) by (nonlinear_arith)
                requires
                    csi >= 1,
                    ni >= 1,
                    ni % csi != 0,
                    ni == csi * (ni / csi) + ni % csi,
                    0 <= ni % csi < csi,
            ;
        }
    }
    let n_chunks: u64 = n / cs + if n % cs == 0 {
        0
    } else {
        1
    };
    proof {
        vstd::arithmetic::div_mod::lemma_fundamental_div_mod(ni + csi - 1, csi);
        vstd::arithmetic::div_mod::lemma_mod_bound(ni + csi - 1, csi);
        // The two ways of writing ceil(n / cs) agree.
        if ni % csi == 0 {
            assert(ni + csi - 1 == (ni / csi) * csi + (csi - 1)) by (nonlinear_arith)
                requires
                    ni == csi * (ni / csi) + ni % csi,
                    ni % csi == 0,
            ;
            vstd::arithmetic::div_mod::lemma_fundamental_div_mod_converse(
                ni + csi - 1,
                csi,
                ni / csi,
                csi - 1,
            );
        } else {
            assert(ni + csi - 1 == (ni / csi + 1) * csi + (ni % csi - 1)) by (nonlinear_arith)
                requires
                    ni == csi * (ni / csi) + ni % csi,
            ;
            vstd::arithmetic::div_mod::lemma_fundamental_div_mod_converse(
                ni + csi - 1,
                csi,
                ni / csi + 1,
                ni % csi - 1,
            );
        }
        assert(n_chunks == n_chunks_of(ni, csi));
        // ceil bounds: (n_chunks - 1) * cs < n <= n_chunks * cs.
        assert((n_chunks - 1) * csi < ni && ni <= n_chunks as int * csi) by (nonlinear_arith)
            requires
                csi > 0,
                ni == csi * (ni / csi) + ni % csi,
                0 <= ni % csi < csi,
                n_chunks == ni / csi + if ni % csi == 0 {
                    0int
                } else {
                    1int
                },
                ni >= 1,
        ;
        // ceil bounds for blocks in a chunk: (bpc - 1) * bs < cs <= bpc * bs.
        vstd::arithmetic::div_mod::lemma_fundamental_div_mod(csi + bsi - 1, bsi);
        vstd::arithmetic::div_mod::lemma_mod_bound(csi + bsi - 1, bsi);
        assert((bpci - 1) * bsi < csi && csi <= bpci * bsi) by (nonlinear_arith)
            requires
                bsi > 0,
                csi + bsi - 1 == bsi * ((csi + bsi - 1) / bsi) + (csi + bsi - 1) % bsi,
                0 <= (csi + bsi - 1) % bsi < bsi,
                bpci == (csi + bsi - 1) / bsi,
        ;
    }
    let mut chunks: Vec<u64> = Vec::new();
    let mut blocks: Vec<u16> = Vec::new();
    let mut total: u64 = 0;
    let mut c: u64 = 0;
    proof {
        assert(0 * csi == 0 && 0 * bpci == 0) by (nonlinear_arith);
        assert(rbv@.take(0) =~= Seq::<bool>::empty());
    }
    while c < n_chunks
        invariant
            rbv.wf(),
            n == rbv@.len(),
            1 <= n,
            ni == n,
            csi == cs,
            bsi == bs,
            bpci == bpc,
            1 <= bsi <= csi <= 3969,
            bpci == blocks_per_chunk(csi, bsi),
            (bpci - 1) * bsi < csi <= bpci * bsi,
            n_chunks == n_chunks_of(ni, csi),
            (n_chunks - 1) * csi < ni <= n_chunks as int * csi,
            c <= n_chunks,
            chunks.len() == c,
            total <= n,
            c < n_chunks ==> c * csi < ni && total == count_ones(rbv@.take(c as int * csi)),
            c == n_chunks ==> total == count_ones(rbv@),
            forall|cc: int|
                0 <= cc < c ==> (#[trigger] chunks@[cc]) == chunk_sum_at(rbv@, ni, csi, cc),
            c < n_chunks ==> blocks.len() == c * bpci,
            forall|cc: int, j: int|
                0 <= cc < c && 0 <= j && cc * csi + j * bsi < chunk_end_at(ni, csi, cc)
                    ==> #[trigger] block_entry_ok(blocks@, rbv@, ni, csi, bsi, cc, j),
        decreases n_chunks - c,
    {
        let ghost ci = c as int;
        proof {
            assert(ci * csi + csi == (ci + 1) * csi) by (nonlinear_arith);
        }
        let chunk_start: u64 = c * cs;
        let chunk_end: u64 = if n - chunk_start >= cs {
            chunk_start + cs
        } else {
            n
        };
        proof {
            assert(chunk_end == chunk_end_at(ni, csi, ci));
        }
        let mut pos: u64 = chunk_start;
        let mut in_chunk: u16 = 0;
        proof {
            assert(0 * bsi == 0) by (nonlinear_arith);
            assert(rbv@.subrange(chunk_start as int, chunk_start as int) =~= Seq::<bool>::empty());
        }
        while pos < chunk_end
            invariant
                rbv.wf(),
                n == rbv@.len(),
                ni == n,
                csi == cs,
                bsi == bs,
                bpci == bpc,
                bpci == blocks_per_chunk(csi, bsi),
                1 <= bsi <= csi <= 3969,
                (bpci - 1) * bsi < csi <= bpci * bsi,
                ci == c,
                chunk_start == ci * csi,
                chunk_start as int <= ni,
                chunk_end == chunk_end_at(ni, csi, ci),
                chunk_start <= pos <= chunk_end,
                chunk_end as int - chunk_start as int <= csi,
                chunk_end <= n,
                blocks.len() >= ci * bpci,
                blocks.len() - ci * bpci <= bpci,
                pos == (if chunk_start as int + (blocks.len() - ci * bpci) * bsi
                    <= chunk_end as int {
                    chunk_start as int + (blocks.len() - ci * bpci) * bsi
                } else {
                    chunk_end as int
                }),
                in_chunk == count_ones(rbv@.subrange(chunk_start as int, pos as int)),
                in_chunk as int <= pos - chunk_start,
                forall|cc: int, j: int|
                    0 <= cc < ci && 0 <= j && cc * csi + j * bsi < chunk_end_at(ni, csi, cc)
                        ==> #[trigger] block_entry_ok(blocks@, rbv@, ni, csi, bsi, cc, j),
                forall|j: int|
                    0 <= j < blocks.len() - ci * bpci ==> #[trigger] block_entry_ok(
                        blocks@,
                        rbv@,
                        ni,
                        csi,
                        bsi,
                        ci,
                        j,
                    ),
            decreases chunk_end - pos,
        {
            let ghost jj = blocks.len() - ci * bpci;
            let bsz: u64 = if chunk_end - pos >= bs {
                bs
            } else {
                chunk_end - pos
            };
            proof {
                assert(jj * bsi + bsi == (jj + 1) * bsi) by (nonlinear_arith);
                assert(jj < bpci) by (nonlinear_arith)
                    requires
                        0 <= jj,
                        bsi >= 1,
                        chunk_start as int + jj * bsi < chunk_end as int,
                        chunk_end as int - chunk_start as int <= csi,
                        csi <= bpci * bsi,
                ;
            }
            let w = rbv.copy_sub(pos, bsz);
            let pc: u64 = w.popcount();
            proof {
                lemma_count_ones_le_len(w@);
                lemma_count_ones_subrange_split(
                    rbv@,
                    chunk_start as int,
                    pos as int,
                    pos as int + bsz as int,
                );
                assert(w@ =~= rbv@.subrange(pos as int, pos as int + bsz as int));
                assert(block_end_at(ni, csi, bsi, ci, jj) == pos + bsz);
            }
            in_chunk = in_chunk + (pc as u16);
            let ghost old_blocks = blocks@;
            blocks.push(in_chunk);
            pos = pos + bsz;
            proof {
                assert(blocks.len() - ci * bpci == jj + 1);
                let bpcs = blocks_per_chunk(csi, bsi);
                assert forall|j: int| 0 <= j < jj + 1 implies #[trigger] block_entry_ok(
                    blocks@,
                    rbv@,
                    ni,
                    csi,
                    bsi,
                    ci,
                    j,
                ) by {
                    if j < jj {
                        assert(block_entry_ok(old_blocks, rbv@, ni, csi, bsi, ci, j));
                        assert(0 <= ci * bpcs + j < old_blocks.len());
                        assert(blocks@[ci * bpcs + j] == old_blocks[ci * bpcs + j]);
                    } else {
                        assert(old_blocks.len() == ci * bpcs + jj);
                        assert(blocks@[ci * bpcs + jj] == in_chunk);
                        assert(in_chunk == block_sum_at(rbv@, ni, csi, bsi, ci, jj));
                    }
                }
                assert forall|cc: int, j: int|
                    0 <= cc < ci && 0 <= j && cc * csi + j * bsi < chunk_end_at(ni, csi, cc)
                    implies #[trigger] block_entry_ok(blocks@, rbv@, ni, csi, bsi, cc, j) by {
                    assert(block_entry_ok(old_blocks, rbv@, ni, csi, bsi, cc, j));
                    assert(0 <= cc * bpcs + j < old_blocks.len());
                    assert(blocks@[cc * bpcs + j] == old_blocks[cc * bpcs + j]);
                }
            }
        }
        proof {
            // A full chunk holds exactly bpc blocks, so the next chunk's
            // blocks land right after this chunk's.
            let jj = blocks.len() - ci * bpci;
            assert(chunk_start as int + jj * bsi >= chunk_end as int);
            if ci + 1 < n_chunks as int {
                assert((ci + 1) * csi <= (n_chunks - 1) * csi) by (nonlinear_arith)
                    requires
                        ci + 1 <= n_chunks as int - 1,
                        csi >= 0,
                ;
                assert(chunk_end as int - chunk_start as int == csi);
                assert(jj == bpci) by (nonlinear_arith)
                    requires
                        0 <= jj <= bpci,
                        bsi >= 1,
                        jj * bsi >= csi,
                        (bpci - 1) * bsi < csi,
                ;
                assert(blocks.len() == (ci + 1) * bpci) by (nonlinear_arith)
                    requires
                        blocks.len() - ci * bpci == bpci,
                ;
            }
            // Every block of this chunk is below the count reached.
            assert forall|j: int|
                0 <= j && ci * csi + j * bsi < chunk_end_at(ni, csi, ci)
                implies #[trigger] block_entry_ok(blocks@, rbv@, ni, csi, bsi, ci, j) by {
                assert(j < jj) by (nonlinear_arith)
                    requires
                        0 <= j,
                        bsi >= 1,
                        chunk_start as int + j * bsi < chunk_end as int,
                        chunk_start as int + jj * bsi >= chunk_end as int,
                        chunk_start == ci * csi,
                ;
            }
            lemma_count_ones_subrange_split(rbv@, 0, chunk_start as int, chunk_end as int);
            assert(rbv@.subrange(0, chunk_start as int) =~= rbv@.take(chunk_start as int));
            assert(rbv@.subrange(0, chunk_end as int) =~= rbv@.take(chunk_end as int));
            lemma_count_ones_le_len(rbv@.take(chunk_end as int));
        }
        total = total + (in_chunk as u64);
        chunks.push(total);
        c = c + 1;
        proof {
            assert(chunks@[ci] == chunk_sum_at(rbv@, ni, csi, ci));
            if (c as int) < n_chunks as int {
                assert(c as int * csi < ni) by (nonlinear_arith)
                    requires
                        (n_chunks - 1) * csi < ni,
                        c as int <= n_chunks as int - 1,
                        csi >= 1,
                        c >= 0,
                ;
                assert((ci + 1) * csi <= ni);
                assert(rbv@.take(c as int * csi) =~= rbv@.take(chunk_end_at(ni, csi, ci)));
            } else {
                assert(chunk_end_at(ni, csi, ci) == ni);
                assert(rbv@.take(ni) =~= rbv@);
            }
        }
    }
    proof {
        assert forall|cc: int, j: int|
            0 <= cc && 0 <= j && cc * csi + j * bsi < chunk_end_at(ni, csi, cc)
            implies #[trigger] block_entry_ok(blocks@, rbv@, ni, csi, bsi, cc, j) by {
            assert(cc * csi < ni);
            assert(cc < n_chunks as int) by (nonlinear_arith)
                requires
                    cc * csi < ni,
                    ni <= n_chunks as int * csi,
                    csi >= 1,
                    cc >= 0,
            ;
        }
    }
    (chunks, blocks)
}

} // verus!
