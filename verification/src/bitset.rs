use vstd::prelude::*;

verus! {

/// Whether bit `b` (counted from the least significant end) of `word` is set.
pub open spec fn word_bit(word: u64, b: int) -> bool {
    (word >> (b as u64)) & 1 != 0
}

proof fn lemma_or_bit(w: u64, b: u64, k: u64)
    requires
        b < 64,
        k < 64,
    ensures
        ((w | (1u64 << b)) >> k) & 1 != 0 <==> (k == b || (w >> k) & 1 != 0),
{
    assert(((w | (1u64 << b)) >> k) & 1 != 0 <==> (k == b || (w >> k) & 1 != 0)) by (bit_vector)
        requires
            b < 64,
            k < 64,
    ;
}

proof fn lemma_and_not_bit(w: u64, b: u64, k: u64)
    requires
        b < 64,
        k < 64,
    ensures
        ((w & !(1u64 << b)) >> k) & 1 != 0 <==> (k != b && (w >> k) & 1 != 0),
{
    assert(((w & !(1u64 << b)) >> k) & 1 != 0 <==> (k != b && (w >> k) & 1 != 0)) by (bit_vector)
        requires
            b < 64,
            k < 64,
    ;
}

proof fn lemma_zero_bits(k: u64)
    requires
        k < 64,
    ensures
        (0u64 >> k) & 1 == 0,
{
    assert((0u64 >> k) & 1 == 0) by (bit_vector);
}

/// A fixed-size set of bits packed into 64-bit words.
pub struct BitSet {
    data: Vec<u64>,
}

impl BitSet {
    /// The bits, one boolean per index; the length is a multiple of 64.
    pub closed spec fn view(&self) -> Seq<bool> {
        Seq::new((self.data@.len() * 64) as nat, |i: int| word_bit(self.data@[i / 64], i % 64))
    }

    /// Creates a set of `size` bits, all cleared. The capacity is `size`
    /// rounded up to the next multiple of 64.
    pub fn new(size: usize) -> (s: Self)
        ensures
            s@.len() == (size as int + 63) / 64 * 64,
            forall|i: int| 0 <= i < s@.len() ==> !#[trigger] s@[i],
    {
        let words: usize = size / 64 + if size % 64 == 0 { 0 } else { 1 };
        let mut data: Vec<u64> = Vec::new();
        let mut k: usize = 0;
        while k < words
            invariant
                k <= words,
                data@.len() == k,
                forall|j: int| 0 <= j < k ==> data@[j] == 0,
            decreases words - k,
        {
            data.push(0);
            k = k + 1;
        }
        let s = BitSet { data };
        assert forall|i: int| 0 <= i < s@.len() implies !#[trigger] s@[i] by {
            lemma_zero_bits((i % 64) as u64);
        }
        s
    }

    /// Returns whether the bit at `idx` is set.
    pub fn get(&self, idx: usize) -> (b: bool)
        requires
            idx < self@.len(),
        ensures
            b == self@[idx as int],
    {
        (self.data[idx / 64] >> ((idx % 64) as u64)) & 1 != 0
    }

    /// Sets the bit at `idx` to `value`; every other bit keeps its value.
    pub fn set(&mut self, idx: usize, value: bool)
        requires
            idx < old(self)@.len(),
        ensures
            final(self)@ == old(self)@.update(idx as int, value),
    {
        let w = idx / 64;
        let b = (idx % 64) as u64;
        let old_word = self.data[w];
        let new_word = if value { old_word | (1u64 << b) } else { old_word & !(1u64 << b) };
        self.data.set(w, new_word);
        proof {
            let ghost o = old(self)@.update(idx as int, value);
            assert forall|i: int| 0 <= i < self@.len() implies #[trigger] self@[i] == o[i] by {
                if i / 64 == w as int {
                    if value {
                        lemma_or_bit(old_word, b, (i % 64) as u64);
                    } else {
                        lemma_and_not_bit(old_word, b, (i % 64) as u64);
                    }
                }
            }
            assert(self@ =~= o);
        }
    }

    /// Clears the bit at `idx`; every other bit keeps its value.
    pub fn clear(&mut self, idx: usize)
        requires
            idx < old(self)@.len(),
        ensures
            final(self)@ == old(self)@.update(idx as int, false),
    {
        self.set(idx, false);
    }
}

} // verus!
