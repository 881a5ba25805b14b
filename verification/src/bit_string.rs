//! Validated textual representation of a bit vector: a string over `'0'` and
//! `'1'`, with `'_'` accepted as an ignored separator for readability.

use vstd::prelude::*;
use vstd::string::*;

verus! {

/// A bit symbol.
pub open spec fn is_bit_char(c: char) -> bool {
    c == '0' || c == '1'
}

/// A character the validator accepts: a bit symbol or the `'_'` separator.
pub open spec fn is_bit_string_char(c: char) -> bool {
    is_bit_char(c) || c == '_'
}

/// The bit symbols of `s` with every `'_'` separator removed.
pub open spec fn strip_separators(s: Seq<char>) -> Seq<char>
    decreases s.len(),
{
    if s.len() == 0 {
        Seq::empty()
    } else {
        strip_separators(s.drop_last()) + if s.last() == '_' {
            Seq::empty()
        } else {
            seq![s.last()]
        }
    }
}

/// A valid bit-string literal: every character is `'0'`, `'1'` or `'_'`, and
/// at least one bit symbol remains once the separators are removed.
pub open spec fn valid_bit_string(s: Seq<char>) -> bool {
    &&& forall|i: int| 0 <= i < s.len() ==> is_bit_string_char(#[trigger] s[i])
    &&& strip_separators(s).len() > 0
}

/// The bits a separator-free character sequence denotes: `'1'` maps to set.
pub open spec fn str_bits(s: Seq<char>) -> Seq<bool> {
    Seq::new(s.len(), |i: int| s[i] == '1')
}

/// Growing the prefix by one character appends that character to the
/// stripped form, unless it is a separator.
pub proof fn lemma_strip_take_step(s: Seq<char>, i: int)
    requires
        0 <= i < s.len(),
    ensures
        strip_separators(s.take(i + 1)) == strip_separators(s.take(i)) + if s[i] == '_' {
            Seq::<char>::empty()
        } else {
            seq![s[i]]
        },
{
    assert(s.take(i + 1).drop_last() =~= s.take(i));
    assert(s.take(i + 1).last() == s[i]);
}

pub proof fn lemma_strip_take_le(s: Seq<char>, i: int, j: int)
    requires
        0 <= i <= j <= s.len(),
    ensures
        strip_separators(s.take(i)).len() <= strip_separators(s.take(j)).len(),
    decreases j - i,
{
    if i < j {
        lemma_strip_take_le(s, i, j - 1);
        lemma_strip_take_step(s, j - 1);
    }
}

/// The stripped form of a prefix of `s` is the matching prefix of the
/// stripped form of `s`.
pub proof fn lemma_strip_take_prefix(s: Seq<char>, i: int)
    requires
        0 <= i <= s.len(),
    ensures
        strip_separators(s.take(i)) == strip_separators(s).take(
            strip_separators(s.take(i)).len() as int,
        ),
    decreases s.len() - i,
{
    if i == s.len() {
        assert(s.take(i) =~= s);
        assert(strip_separators(s).take(strip_separators(s).len() as int) =~= strip_separators(s));
    } else {
        lemma_strip_take_prefix(s, i + 1);
        lemma_strip_take_step(s, i);
        lemma_strip_take_le(s, i + 1, s.len() as int);
        assert(s.take(s.len() as int) =~= s);
        let p = strip_separators(s.take(i)).len() as int;
        let p1 = strip_separators(s.take(i + 1)).len() as int;
        assert(strip_separators(s.take(i)) =~= strip_separators(s.take(i + 1)).take(p));
        assert(strip_separators(s.take(i + 1)).take(p) =~= strip_separators(s).take(p1).take(p));
        assert(strip_separators(s).take(p1).take(p) =~= strip_separators(s).take(p));
    }
}

/// Reading the bits of a slice is slicing the bits: the bit denotation
/// commutes with taking a subrange of the characters.
pub proof fn lemma_str_bits_subrange(s: Seq<char>, i: int, j: int)
    requires
        0 <= i <= j <= s.len(),
    ensures
        str_bits(s).subrange(i, j) == str_bits(s.subrange(i, j)),
{
    assert(str_bits(s).subrange(i, j) =~= str_bits(s.subrange(i, j)));
}

/// Number of `'1'` symbols in `s`.
pub open spec fn count_one_chars(s: Seq<char>) -> nat
    decreases s.len(),
{
    if s.len() == 0 {
        0
    } else {
        count_one_chars(s.drop_last()) + if s.last() == '1' {
            1nat
        } else {
            0nat
        }
    }
}

/// The set bits a character sequence denotes are exactly its `'1'` symbols.
pub proof fn lemma_count_ones_str_bits(s: Seq<char>)
    ensures
        crate::bits::count_ones(str_bits(s)) == count_one_chars(s),
    decreases s.len(),
{
    if s.len() > 0 {
        lemma_count_ones_str_bits(s.drop_last());
        assert(str_bits(s).drop_last() =~= str_bits(s.drop_last()));
        assert(str_bits(s).last() == (s.last() == '1'));
    }
}

/// Access and rank agree with the source text: bit `i` of the denoted bit
/// sequence reads the `i`-th symbol, and the popcount of the prefix through
/// `i` counts the `'1'` symbols of that prefix.
pub proof fn lemma_access_rank_consistency(s: Seq<char>, i: int)
    requires
        0 <= i < s.len(),
    ensures
        str_bits(s)[i] == (s[i] == '1'),
        crate::bits::count_ones(str_bits(s).take(i + 1)) == count_one_chars(s.take(i + 1)),
{
    assert(str_bits(s).take(i + 1) =~= str_bits(s.take(i + 1)));
    lemma_count_ones_str_bits(s.take(i + 1));
}

pub proof fn lemma_strip_len_le(s: Seq<char>)
    ensures
        strip_separators(s).len() <= s.len(),
    decreases s.len(),
{
    if s.len() > 0 {
        lemma_strip_len_le(s.drop_last());
    }
}

/// Validated string representation of a bit vector.
///
/// Holds the text as given; its abstract value (the view) is the sequence of
/// bit symbols with the separators removed.
pub struct BitVectorString {
    s: String,
}

impl View for BitVectorString {
    type V = Seq<char>;

    closed spec fn view(&self) -> Seq<char> {
        strip_separators(self.s@)
    }
}

impl BitVectorString {
    /// The stored text is a valid bit-string literal, so the view is
    /// non-empty and made of bit symbols only.
    pub closed spec fn wf(&self) -> bool {
        valid_bit_string(self.s@)
    }

    /// Checks whether `s` is a valid bit-string literal: only `'0'`, `'1'`
    /// and `'_'`, with at least one bit symbol.
    pub fn is_valid_str(s: &str) -> (r: bool)
        ensures
            r == valid_bit_string(s@),
    {
        let len: usize = s.unicode_len();
        let mut i: usize = 0;
        let mut bit_count: usize = 0;
        let mut ok: bool = true;
        proof {
            assert(s@.take(0) =~= Seq::<char>::empty());
        }
        while i < len
            invariant
                i <= len,
                len == s@.len(),
                bit_count <= i,
                ok == (forall|j: int| 0 <= j < i ==> is_bit_string_char(#[trigger] s@[j])),
                bit_count == strip_separators(s@.take(i as int)).len(),
            decreases len - i,
        {
            proof {
                lemma_strip_take_step(s@, i as int);
            }
            let c = s.get_char(i);
            if c != '_' {
                bit_count = bit_count + 1;
            }
            if !(c == '0' || c == '1' || c == '_') {
                ok = false;
            }
            i = i + 1;
        }
        proof {
            assert(s@.take(len as int) =~= s@);
        }
        ok && bit_count > 0
    }

    /// Wraps a valid bit-string literal.
    pub fn new(s: &str) -> (r: BitVectorString)
        requires
            valid_bit_string(s@),
        ensures
            r.wf(),
            r@ == strip_separators(s@),
    {
        BitVectorString { s: s.to_owned() }
    }

    /// The stored text.
    pub fn str(&self) -> (r: &str)
        ensures
            self.wf() ==> valid_bit_string(r@),
            strip_separators(r@) == self@,
    {
        self.s.as_str()
    }

    /// Every bit symbol of a well-formed value, with the separators gone.
    pub proof fn lemma_view_bits(&self)
        requires
            self.wf(),
        ensures
            self@.len() > 0,
            forall|i: int| 0 <= i < self@.len() ==> is_bit_char(#[trigger] self@[i]),
    {
        lemma_strip_all_bits(self.s@);
    }
}

/// Number of bit symbols of `text`, that is, its length once the `'_'`
/// separators are removed.
pub fn count_bit_symbols(text: &str) -> (r: u64)
    ensures
        r == strip_separators(text@).len(),
{
    let len: usize = text.unicode_len();
    let mut i: usize = 0;
    let mut cnt: u64 = 0;
    proof {
        assert(text@.take(0) =~= Seq::<char>::empty());
    }
    while i < len
        invariant
            i <= len,
            len == text@.len(),
            cnt <= i,
            cnt == strip_separators(text@.take(i as int)).len(),
        decreases len - i,
    {
        proof {
            lemma_strip_take_step(text@, i as int);
        }
        let c = text.get_char(i);
        if c != '_' {
            cnt = cnt + 1;
        }
        i = i + 1;
    }
    proof {
        assert(text@.take(len as int) =~= text@);
    }
    cnt
}

/// The stripped form of a string of accepted characters holds bit symbols
/// only.
pub proof fn lemma_strip_all_bits(s: Seq<char>)
    requires
        forall|i: int| 0 <= i < s.len() ==> is_bit_string_char(#[trigger] s[i]),
    ensures
        forall|i: int|
            0 <= i < strip_separators(s).len() ==> is_bit_char(#[trigger] strip_separators(s)[i]),
    decreases s.len(),
{
    if s.len() > 0 {
        let dl = s.drop_last();
        assert(forall|i: int| 0 <= i < dl.len() ==> is_bit_string_char(#[trigger] dl[i]));
        lemma_strip_all_bits(dl);
        assert forall|i: int| 0 <= i < strip_separators(s).len() implies is_bit_char(
            #[trigger] strip_separators(s)[i],
        ) by {
            if s.last() == '_' {
                assert(strip_separators(s) =~= strip_separators(dl));
            } else {
                assert(is_bit_string_char(s[s.len() - 1]));
                if i < strip_separators(dl).len() {
                    assert(strip_separators(s)[i] == strip_separators(dl)[i]);
                } else {
                    assert(strip_separators(s)[i] == s.last());
                }
            }
        }
    }
}

} // verus!
