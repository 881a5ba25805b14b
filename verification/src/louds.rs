//! LOUDS (Level-Order Unary Degree Sequence) tree encoding: a validated bit
//! string interpreted as a bit vector, with tree navigation derived from
//! `rank`, `rank0`, `select` and `select0` — no pointer structure at all.

use vstd::prelude::*;
use vstd::string::*;

use crate::bit_string::{
    lemma_strip_take_le, lemma_strip_take_prefix, lemma_strip_take_step, str_bits,
    strip_separators, valid_bit_string, BitVectorString,
};
use crate::bit_vector::{is_kth_one, is_kth_zero, BitVector, BitVectorBuilder};
use crate::bits::{
    count_ones, count_zeros, lemma_count_ones_take_step, lemma_count_ones_zeros,
    lemma_count_zeros_take_step,
};

verus! {

/// A valid LOUDS bit string: it starts with `10` (the virtual root's edge
/// and terminator), no prefix holds more than one `0` over its `1`s, and in
/// full the `0`s outnumber the `1`s by exactly one — each node contributes
/// one terminating `0`, and every node but the root stems from one `1`.
pub open spec fn valid_lbs(s: Seq<bool>) -> bool {
    &&& s.len() >= 2
    &&& s[0]
    &&& !s[1]
    &&& forall|t: int|
        0 <= t <= s.len() ==> count_zeros(#[trigger] s.take(t)) <= count_ones(s.take(t)) + 1
    &&& count_zeros(s) == count_ones(s) + 1
}

/// 1-based node identifier in level order; the root is node 1.
#[derive(Clone, Copy, PartialEq, Eq, Structural, Debug)]
pub struct LoudsNodeNum {
    value: u64,
}

impl View for LoudsNodeNum {
    type V = u64;

    closed spec fn view(&self) -> u64 {
        self.value
    }
}

impl LoudsNodeNum {
    pub fn new(value: u64) -> (r: LoudsNodeNum)
        ensures
            r@ == value,
    {
        LoudsNodeNum { value }
    }

    pub fn value(&self) -> (r: u64)
        ensures
            r == self@,
    {
        self.value
    }
}

/// 0-based bit position within the LOUDS bit string.
#[derive(Clone, Copy, PartialEq, Eq, Structural, Debug)]
pub struct LoudsIndex {
    value: u64,
}

impl View for LoudsIndex {
    type V = u64;

    closed spec fn view(&self) -> u64 {
        self.value
    }
}

impl LoudsIndex {
    pub fn new(value: u64) -> (r: LoudsIndex)
        ensures
            r@ == value,
    {
        LoudsIndex { value }
    }

    pub fn value(&self) -> (r: u64)
        ensures
            r == self@,
    {
        self.value
    }
}

/// Textual representation of a LOUDS bit string, validated to hold bit
/// symbols (with `'_'` separators allowed for readability).
pub struct LoudsBitString {
    bvs: BitVectorString,
}

impl View for LoudsBitString {
    type V = Seq<char>;

    closed spec fn view(&self) -> Seq<char> {
        self.bvs@
    }
}

impl LoudsBitString {
    pub closed spec fn wf(&self) -> bool {
        self.bvs.wf()
    }

    /// Wraps a valid bit-string literal; the structural LOUDS conditions are
    /// checked at build time.
    pub fn new(s: &str) -> (r: LoudsBitString)
        requires
            valid_bit_string(s@),
        ensures
            r.wf(),
            r@ == strip_separators(s@),
    {
        LoudsBitString { bvs: BitVectorString::new(s) }
    }
}

/// Builder of `Louds`: wraps the bit-vector builder over the LBS.
pub struct LoudsBuilder {
    bv_builder: BitVectorBuilder,
}

impl LoudsBuilder {
    /// The LOUDS bit string the builder will turn into a bit vector.
    pub closed spec fn bits(&self) -> Seq<bool> {
        self.bv_builder.target()
    }

    pub closed spec fn wf(&self) -> bool {
        &&& self.bv_builder.wf()
        &&& self.bv_builder.sets() == Seq::<u64>::empty()
    }

    /// Takes the LOUDS bit string this tree is encoded by; the structural
    /// conditions are checked by `build`.
    pub fn from_bit_string(bs: LoudsBitString) -> (r: LoudsBuilder)
        requires
            bs.wf(),
        ensures
            r.wf(),
            r.bits() == str_bits(bs@),
    {
        let bvs = bs.bvs;
        let bv_builder = BitVectorBuilder::from_str(bvs);
        let r = LoudsBuilder { bv_builder };
        proof {
            assert(r.bits() =~= str_bits(bs@));
        }
        r
    }

    /// Checks the structural conditions of a LOUDS bit string:
    /// a `10` start, the prefix inequality, and the final count equality.
    pub fn validate_lbs(bs: &LoudsBitString) -> (r: bool)
        requires
            bs.wf(),
        ensures
            r == valid_lbs(str_bits(bs@)),
    {
        let text: &str = bs.bvs.str();
        let len: usize = text.unicode_len();
        let ghost stripped = strip_separators(text@);
        let ghost b = str_bits(bs@);
        let mut i: usize = 0;
        let mut p: u64 = 0;
        let mut cnt0: u64 = 0;
        let mut cnt1: u64 = 0;
        let mut ok: bool = true;
        proof {
            crate::bit_string::lemma_strip_len_le(text@);
            assert(text@.take(0) =~= Seq::<char>::empty());
            assert(b.take(0) =~= Seq::<bool>::empty());
        }
        while i < len
            invariant
                bs.wf(),
                valid_bit_string(text@),
                stripped == strip_separators(text@),
                stripped == bs@,
                b == str_bits(bs@),
                b.len() == stripped.len(),
                i <= len,
                len == text@.len(),
                stripped.len() <= len,
                p == strip_separators(text@.take(i as int)).len(),
                p <= stripped.len(),
                cnt1 == count_ones(b.take(p as int)),
                cnt0 == count_zeros(b.take(p as int)),
                cnt0 + cnt1 == p,
                ok == ((forall|t: int|
                    0 <= t <= p ==> count_zeros(#[trigger] b.take(t)) <= count_ones(b.take(t))
                        + 1) && (p >= 1 ==> b[0]) && (p >= 2 ==> !b[1])),
            decreases len - i,
        {
            proof {
                lemma_strip_take_step(text@, i as int);
                lemma_strip_take_le(text@, i as int + 1, len as int);
                assert(text@.take(len as int) =~= text@);
                lemma_strip_take_prefix(text@, i as int);
                lemma_strip_take_prefix(text@, i as int + 1);
            }
            let c = text.get_char(i);
            if c == '0' || c == '1' {
                proof {
                    // The new bit symbol stands at position p of the
                    // stripped string.
                    assert(strip_separators(text@.take(i as int + 1)) =~= strip_separators(
                        text@.take(i as int),
                    ) + seq![c]);
                    assert(strip_separators(text@.take(i as int + 1)).len() == p + 1);
                    assert(strip_separators(text@.take(i as int + 1))[p as int] == c);
                    assert(strip_separators(text@.take(i as int + 1)) =~= stripped.take(
                        p as int + 1,
                    ));
                    assert(stripped.take(p as int + 1)[p as int] == c);
                    assert(stripped[p as int] == c);
                    assert(b[p as int] == (c == '1'));
                    lemma_count_ones_take_step(b, p as int);
                    lemma_count_zeros_take_step(b, p as int);
                }
                let ghost old_ok = ok;
                if c == '1' {
                    cnt1 = cnt1 + 1;
                    if p == 1 {
                        ok = false;
                    }
                } else {
                    cnt0 = cnt0 + 1;
                    if p == 0 {
                        ok = false;
                    }
                }
                if cnt0 > cnt1 && cnt0 - cnt1 > 1 {
                    ok = false;
                }
                proof {
                    assert forall|t: int| 0 <= t <= p + 1 && old_ok && (count_zeros(
                        b.take(p as int + 1),
                    ) <= count_ones(b.take(p as int + 1)) + 1) implies count_zeros(
                        #[trigger] b.take(t),
                    ) <= count_ones(b.take(t)) + 1 by {
                        if t <= p {
                            assert(count_zeros(b.take(t)) <= count_ones(b.take(t)) + 1);
                        }
                    }
                    if !old_ok {
                        assert(!ok);
                    }
                }
                p = p + 1;
            }
            i = i + 1;
        }
        proof {
            assert(text@.take(len as int) =~= text@);
            assert(p == stripped.len());
            assert(b.take(p as int) =~= b);
        }
        // The final count equality, phrased by difference so the comparison
        // cannot overflow at the type's edge.
        ok && p >= 2 && cnt0 > cnt1 && cnt0 - cnt1 == 1
    }

    /// Materializes the LOUDS bit string into a bit vector with its index.
    pub fn build(&self) -> (r: Louds)
        requires
            self.wf(),
            valid_lbs(self.bits()),
            self.bits().len() <= usize::MAX as nat,
        ensures
            r.wf(),
            r@ == self.bits(),
    {
        let bv = self.bv_builder.build();
        Louds { lbs: bv }
    }
}

/// Entry `t` of a child listing is the `t`-th position of the run of 1-bits
/// that starts right after position `z`.
pub open spec fn child_entry_ok(children: Seq<LoudsIndex>, s: Seq<bool>, z: int, t: int) -> bool {
    &&& children[t]@ == z + 1 + t
    &&& s[z + 1 + t]
}

/// LOUDS tree: a bit vector over the LOUDS bit string, navigated with
/// `rank`/`select` arithmetic.
pub struct Louds {
    lbs: BitVector,
}

impl View for Louds {
    type V = Seq<bool>;

    closed spec fn view(&self) -> Seq<bool> {
        self.lbs@
    }
}

impl Louds {
    /// The wrapped bit vector is well formed and its bits form a valid
    /// LOUDS bit string.
    pub closed spec fn wf(&self) -> bool {
        &&& self.lbs.wf()
        &&& valid_lbs(self.lbs@)
    }

    /// Position of the bit that gave rise to node `node_num`: the
    /// `node_num`-th 1-bit of the LBS.
    pub fn node_num_to_index(&self, node_num: LoudsNodeNum) -> (r: LoudsIndex)
        requires
            self.wf(),
            1 <= node_num@ <= count_ones(self@),
        ensures
            is_kth_one(self@, node_num@ as nat, r@ as int),
    {
        let r = self.lbs.select(node_num.value());
        match r {
            Some(index) => LoudsIndex::new(index),
            None => vstd::pervasive::unreached(),
        }
    }

    /// Node whose incoming-edge bit sits at `index`: the rank of that 1-bit.
    pub fn index_to_node_num(&self, index: LoudsIndex) -> (r: LoudsNodeNum)
        requires
            self.wf(),
            index@ < self@.len(),
            self@[index@ as int],
        ensures
            r@ == count_ones(self@.take(index@ as int + 1)),
            is_kth_one(self@, r@ as nat, index@ as int),
    {
        let node_num = self.lbs.rank(index.value());
        proof {
            lemma_count_ones_take_step(self@, index@ as int);
        }
        LoudsNodeNum::new(node_num)
    }

    /// Parent of the node whose incoming-edge bit sits at `index`: the
    /// number of node terminators before `index` names the parent's node
    /// number, and is `rank0(index)`.
    pub fn child_to_parent(&self, index: LoudsIndex) -> (r: LoudsNodeNum)
        requires
            self.wf(),
            index@ < self@.len(),
            self@[index@ as int],
        ensures
            r@ == count_zeros(self@.take(index@ as int + 1)),
    {
        let node_num = self.lbs.rank0(index.value());
        LoudsNodeNum::new(node_num)
    }

    /// Indices of the children of node `node_num`: the maximal run of
    /// consecutive 1-bits right after the node's terminating 0-bit (its
    /// `node_num`-th 0-bit). An empty result means a leaf.
    pub fn parent_to_children(&self, node_num: LoudsNodeNum) -> (r: Vec<LoudsIndex>)
        requires
            self.wf(),
            1 <= node_num@ <= count_ones(self@),
        ensures
            exists|z: int|
                {
                    &&& #[trigger] is_kth_zero(self@, node_num@ as nat, z)
                    &&& z + 1 + r.len() <= self@.len()
                    &&& forall|t: int|
                        0 <= t < r.len() ==> #[trigger] child_entry_ok(r@, self@, z, t)
                    &&& z + 1 + r.len() == self@.len() || !self@[z + 1 + r.len()]
                },
    {
        proof {
            lemma_count_ones_zeros(self@);
        }
        let sr = self.lbs.select0(node_num.value());
        let z: u64 = match sr {
            Some(z) => z,
            None => vstd::pervasive::unreached(),
        };
        let n: u64 = self.lbs.length();
        let mut children: Vec<LoudsIndex> = Vec::new();
        let mut idx: u64 = z + 1;
        while idx < n && self.lbs.access(idx)
            invariant
                self.wf(),
                n == self@.len(),
                z < n,
                is_kth_zero(self@, node_num@ as nat, z as int),
                idx == z + 1 + children.len(),
                idx <= n,
                forall|t: int|
                    0 <= t < children.len() ==> #[trigger] child_entry_ok(
                        children@,
                        self@,
                        z as int,
                        t,
                    ),
            decreases n - idx,
        {
            let ghost old_children = children@;
            children.push(LoudsIndex::new(idx));
            idx = idx + 1;
            proof {
                assert forall|t: int| 0 <= t < children.len() implies #[trigger] child_entry_ok(
                    children@,
                    self@,
                    z as int,
                    t,
                ) by {
                    if t < children.len() - 1 {
                        assert(child_entry_ok(old_children, self@, z as int, t));
                        assert(children[t] == old_children[t]);
                    } else {
                        assert(t == children.len() - 1);
                        assert(children[t]@ == idx - 1);
                        assert(self@[z + 1 + t]);
                    }
                }
            }
        }
        children
    }
}

} // verus!
