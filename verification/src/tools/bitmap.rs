use vstd::prelude::*;

verus! {

/// Bits per word.
pub const VALUE_LEN: u64 = 64;

/// Whether the bit at `offset`, counted from the low end, is set in `word`.
pub open spec fn word_bit(word: u64, offset: u64) -> bool {
    word & (1u64 << offset) != 0
}

proof fn lemma_word_set(word: u64, offset: u64, other: u64)
    requires
        offset < 64,
        other < 64,
    ensures
        word_bit(word | (1u64 << offset), other) == (other == offset || word_bit(word, other)),
{
    assert((word | (1u64 << offset)) & (1u64 << other) != 0 <==> (other == offset || word & (1u64
        << other) != 0)) by (bit_vector)
        requires
            offset < 64,
            other < 64,
    ;
}

proof fn lemma_word_clear(word: u64, offset: u64, other: u64)
    requires
        offset < 64,
        other < 64,
    ensures
        (1u64 << offset) <= u64::MAX,
        word_bit(word & ((u64::MAX - (1u64 << offset)) as u64), other) == (other != offset
            && word_bit(word, other)),
{
    assert((word & ((0xffff_ffff_ffff_ffffu64 - (1u64 << offset)) as u64)) & (1u64 << other) != 0
        <==> (other != offset && word & (1u64 << other) != 0)) by (bit_vector)
        requires
            offset < 64,
            other < 64,
    ;
}

proof fn lemma_word_empty(offset: u64)
    requires
        offset < 64,
    ensures
        !word_bit(0, offset),
{
    assert(0u64 & (1u64 << offset) == 0) by (bit_vector);
}

proof fn lemma_word_full(offset: u64)
    requires
        offset < 64,
    ensures
        word_bit(u64::MAX, offset),
{
    assert(0xffff_ffff_ffff_ffffu64 & (1u64 << offset) != 0) by (bit_vector)
        requires
            offset < 64,
    ;
}

/// A fixed number of bits, packed into 64-bit words. Bit 0 is the high bit
/// of word 0.
#[derive(Debug)]
pub struct BitMap {
    size: u64,
    data: Vec<u64>,
}

impl View for BitMap {
    type V = Seq<bool>;

    /// The bits, by index.
    closed spec fn view(&self) -> Seq<bool> {
        Seq::new(self.size as nat, |i: int| Self::packed_bit(self.data@, i))
    }
}

impl BitMap {
    /// The bit with index `i` of a map packed into `words`.
    pub open spec fn packed_bit(words: Seq<u64>, i: int) -> bool {
        word_bit(words[i / 64], (63 - i % 64) as u64)
    }

    /// The packed words.
    pub closed spec fn spec_words(&self) -> Seq<u64> {
        self.data@
    }

    /// The words hold one more than `size / 64` entries.
    pub closed spec fn wf(&self) -> bool {
        self.data@.len() == self.size / VALUE_LEN + 1
    }

    /// The word `word` with the bit at `offset`, counted from the low end,
    /// set to `value`.
    pub open spec fn word_with(word: u64, offset: u64, value: bool) -> u64 {
        if value {
            word | (1u64 << offset)
        } else {
            word & ((u64::MAX - (1u64 << offset)) as u64)
        }
    }

    /// A map of `size` clear bits.
    pub fn new(size: u64) -> (map: BitMap)
        requires
            size / VALUE_LEN + 1 <= usize::MAX,
        ensures
            map.wf(),
            map@ == Seq::new(size as nat, |i: int| false),
            map.spec_words() == Seq::new((size / VALUE_LEN + 1) as nat, |i: int| 0u64),
    {
        let vec_len: u64 = size / VALUE_LEN + 1;
        let data: Vec<u64> = vec![0u64; vec_len as usize];
        let map = BitMap { size, data };
        proof {
            assert forall|i: int| 0 <= i < size implies !Self::packed_bit(map.data@, i) by {
                lemma_word_empty((63 - i % 64) as u64);
            }
            assert(map@ =~= Seq::new(size as nat, |i: int| false));
            assert(map.data@ =~= Seq::new((size / VALUE_LEN + 1) as nat, |i: int| 0u64));
        }
        map
    }

    /// The number of bits.
    pub fn size(&self) -> (size: u64)
        ensures
            size == self@.len(),
    {
        self.size
    }

    /// The packed words: bit `i` is bit `63 - i % 64` of word `i / 64`.
    pub fn words(&self) -> (words: &Vec<u64>)
        requires
            self.wf(),
        ensures
            words@ == self.spec_words(),
            words@.len() == self@.len() / 64 + 1,
            forall|i: int| 0 <= i < self@.len() ==> self@[i] == Self::packed_bit(words@, i),
    {
        &self.data
    }

    /// Sets bit `index` to `value`.
    pub fn set(&mut self, index: u64, value: bool)
        requires
            old(self).wf(),
            index < old(self)@.len(),
        ensures
            final(self).wf(),
            final(self)@ == old(self)@.update(index as int, value),
            index / 64 < old(self).spec_words().len(),
            final(self).spec_words() == old(self).spec_words().update(
                index as int / 64,
                Self::word_with(
                    old(self).spec_words()[index as int / 64],
                    (63 - index % 64) as u64,
                    value,
                ),
            ),
    {
        assert(index / 64 < self.data.len());
        let pos: usize = (index / VALUE_LEN) as usize;
        let offset: u64 = VALUE_LEN - index % VALUE_LEN - 1;
        let v: u64 = self.data[pos];
        let ghost before = self.data@;
        proof {
            lemma_word_clear(v, offset, offset);
        }
        if value {
            let mask: u64 = 1u64 << offset;
            self.data.set(pos, v | mask);
        } else {
            let mask: u64 = u64::MAX - (1u64 << offset);
            self.data.set(pos, v & mask);
        }
        proof {
            assert forall|i: int| 0 <= i < self.size implies Self::packed_bit(self.data@, i) == (if i
                == index {
                value
            } else {
                Self::packed_bit(before, i)
            }) by {
                if i / 64 == pos as int {
                    lemma_word_set(v, offset, (63 - i % 64) as u64);
                    lemma_word_clear(v, offset, (63 - i % 64) as u64);
                }
            }
            assert(self@ =~= old(self)@.update(index as int, value));
        }
    }

    /// Bit `index`.
    pub fn get(&self, index: u64) -> (value: bool)
        requires
            self.wf(),
            index < self@.len(),
        ensures
            value == self@[index as int],
    {
        assert(index / 64 < self.data.len());
        let pos: usize = (index / VALUE_LEN) as usize;
        let offset: u64 = VALUE_LEN - index % VALUE_LEN - 1;
        let v: u64 = self.data[pos];
        let mask: u64 = 1u64 << offset;
        (v & mask) != 0
    }

    /// The lowest index whose bit is clear, if there is one.
    pub fn first_false_value(&self) -> (found: Option<u64>)
        requires
            self.wf(),
        ensures
            match found {
                Some(i) => i < self@.len() && !self@[i as int] && forall|j: int|
                    0 <= j < i ==> self@[j],
                None => forall|j: int| 0 <= j < self@.len() ==> self@[j],
            },
    {
        let mut base: u64 = 0;
        while base < self.size
            invariant
                self.wf(),
                base % 64 == 0,
                forall|j: int| 0 <= j < base && j < self.size ==> self@[j],
            decreases self.size - base,
        {
            assert(base / 64 < self.data.len());
            let word: u64 = self.data[(base / VALUE_LEN) as usize];
            let end: u64 = if self.size - base < VALUE_LEN {
                self.size
            } else {
                base + VALUE_LEN
            };
            if word != u64::MAX {
                let mut i: u64 = base;
                while i < end
                    invariant
                        self.wf(),
                        base % 64 == 0,
                        base <= i <= end,
                        end <= self.size,
                        end <= base + 64,
                        forall|j: int| 0 <= j < i ==> self@[j],
                    decreases end - i,
                {
                    if !self.get(i) {
                        return Some(i);
                    }
                    i = i + 1;
                }
            } else {
                assert forall|j: int| base <= j < end implies self@[j] by {
                    lemma_word_full((63 - j % 64) as u64);
                }
            }
            if end == self.size {
                return None;
            }
            base = end;
        }
        None
    }
}

} // verus!
