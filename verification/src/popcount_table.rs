//! Precomputed population counts: a table mapping every bit pattern of a
//! fixed width to its number of set bits, for constant-time intra-block rank.

use vstd::prelude::*;

use crate::bits::{lemma_pop_int_le, pop_int};

verus! {

/// Table of the popcount of every integer in `[0, 2^width)`.
///
/// The table depends only on the width, so one table can serve every bit
/// vector built with the same block size.
pub struct PopcountTable {
    width: u8,
    table: Vec<u8>,
}

impl PopcountTable {
    /// The table's bit width.
    pub closed spec fn width(&self) -> u8 {
        self.width
    }

    /// Structural invariant: one entry for every pattern of `width` bits,
    /// each holding that pattern's popcount.
    pub closed spec fn wf(&self) -> bool {
        &&& 1 <= self.width <= 31
        &&& self.table.len() == vstd::arithmetic::power2::pow2(self.width as nat)
        &&& forall|v: int| 0 <= v < self.table.len() ==> self.table[v] == pop_int(v as nat)
    }

    /// Builds the table for patterns of `width` bits, by the recurrence
    /// `popcount(v) == popcount(v / 2) + v % 2`.
    pub fn new(width: u8) -> (r: PopcountTable)
        requires
            1 <= width <= 31,
        ensures
            r.wf(),
            r.width() == width,
    {
        proof {
            vstd::bits::lemma_usize_pow2_no_overflow(width as nat);
            vstd::bits::lemma_usize_shl_is_mul(1usize, width as usize);
        }
        let size: usize = 1usize << (width as usize);
        let mut table: Vec<u8> = Vec::new();
        let mut v: usize = 0;
        while v < size
            invariant
                v <= size,
                size == vstd::arithmetic::power2::pow2(width as nat),
                width <= 31,
                table.len() == v,
                forall|q: int| 0 <= q < v ==> table[q] == pop_int(q as nat),
            decreases size - v,
        {
            proof {
                lemma_pop_int_le(v as nat, width as nat);
                if v > 0 {
                    vstd::arithmetic::div_mod::lemma_fundamental_div_mod(v as int, 2);
                }
            }
            if v == 0 {
                table.push(0);
            } else {
                let e: u8 = table[v / 2] + (v % 2) as u8;
                table.push(e);
            }
            v = v + 1;
        }
        PopcountTable { width, table }
    }

    /// Looks up the popcount of `pattern` in constant time.
    pub fn popcount(&self, pattern: u64) -> (r: u64)
        requires
            self.wf(),
            pattern < vstd::arithmetic::power2::pow2(self.width() as nat),
        ensures
            r == pop_int(pattern as nat),
    {
        self.table[pattern as usize] as u64
    }
}

} // verus!
