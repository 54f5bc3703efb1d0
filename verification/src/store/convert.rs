//! Stores from bytes, and what stores can be turned into.
use vstd::prelude::*;
use vstd::std_specs::bits::*;

use crate::array_store::ArrayStore;
use crate::iter::BitmapIter;
use crate::model;
use crate::model::{BITMAP_BYTES, BITMAP_LENGTH};
use crate::store::BitmapStore;
use crate::word;

verus! {

impl BitmapStore {
    /// A store from bytes, the first of which is byte `byte_offset` of the bitmap; in each byte the
    /// least significant bit stands for the least value. `bits_set` is the number of set bits.
    pub fn from_lsb0_bytes_unchecked(bytes: &[u8], byte_offset: usize, bits_set: u64) -> (r: Self)
        requires
            byte_offset + bytes@.len() <= BITMAP_BYTES,
            bits_set == model::byte_set(bytes@, byte_offset as int).len(),
        ensures
            r.wf(),
            r@ == model::byte_set(bytes@, byte_offset as int),
            bits_set == 0 ==> r.cached_words() == (0int, 0int),
    {
        broadcast use word::group_word_bits;

        let mut bits: Box<[u64; BITMAP_LENGTH]> = Box::new([0; BITMAP_LENGTH]);
        for i in 0..bytes.len()
            invariant
                byte_offset + bytes@.len() <= BITMAP_BYTES,
                forall|x: u16| #[trigger]
                    model::word_set(bits@).contains(x) == (byte_offset <= x as int / 8
                        < byte_offset + i && word::has_bit(
                        bytes@[x as int / 8 - byte_offset] as u64,
                        x as int % 8,
                    )),
        {
            broadcast use word::group_word_bits;

            let at: usize = byte_offset + i;
            let word_index: usize = at / 8;
            let shift: usize = 8 * (at % 8);
            let byte = bytes[i] as u64;
            let ghost before = bits@;
            bits[word_index] = bits[word_index] | (byte << shift);
            assert forall|x: u16| #[trigger]
                model::word_set(bits@).contains(x) == (byte_offset <= x as int / 8 < byte_offset + i
                    + 1 && word::has_bit(
                    bytes@[x as int / 8 - byte_offset] as u64,
                    x as int % 8,
                )) by {
                let old_member = model::word_set(before).contains(x);
                if x as int / 64 == word_index {
                    let q = x as int % 64 - shift;
                    if word::has_bit(byte, q) {
                        word::lemma_byte_bits(bytes@[i as int], q);
                    }
                    if x as int / 8 == at {
                        assert(q == x as int % 8);
                    }
                }
            }
        }
        assert(model::word_set(bits@) =~= model::byte_set(bytes@, byte_offset as int));
        Self::from_unchecked(bits_set, bits)
    }

    /// The members in ascending order.
    pub fn to_array_store(&self) -> (r: ArrayStore)
        requires
            self.wf(),
        ensures
            r.wf(),
            r@.to_set() == self@,
    {
        proof {
            model::lemma_len_bound(self@);
        }
        let mut vec: Vec<u16> = Vec::with_capacity(self.len as usize);
        proof {
            model::lemma_count_ends(self@);
            assert(vec@.to_set() =~= model::between(self@, 0, 0));
        }
        for index in 0..BITMAP_LENGTH
            invariant
                model::is_ascending(vec@),
                vec@.to_set() =~= model::between(self@, 0, 64 * index),
        {
            broadcast use word::group_word_bits;

            let ghost w = self.bits@[index as int];
            let mut bit = self.bits[index];
            let ghost mut p: int = 0;
            while bit != 0
                invariant
                    index < BITMAP_LENGTH,
                    w == self.bits@[index as int],
                    0 <= p <= 64,
                    model::is_ascending(vec@),
                    vec@.to_set() =~= model::between(self@, 0, 64 * index + p),
                    forall|i: int| #[trigger]
                        word::has_bit(bit, i) == (word::has_bit(w, i) && p <= i),
                decreases 64 - p,
            {
                broadcast use word::group_word_bits;

                let ghost t = u64_trailing_zeros(bit) as int;
                proof {
                    word::lemma_lowest_bit(bit);
                    word::lemma_clear_lowest(bit);
                }
                let value = (bit.trailing_zeros() + 64 * index as u32) as u16;
                let ghost old_values = vec@;
                vec.push(value);
                bit = bit & (bit - 1);
                proof {
                    assert(value as int / 64 == index && value as int % 64 == t);
                    assert forall|i: int| 0 <= i < old_values.len() implies old_values[i]
                        < value by {
                        assert(old_values.to_set().contains(old_values[i]));
                    }
                    let done = model::between(self@, 0, 64 * index + p);
                    let more = model::between(self@, 0, 64 * index + t + 1);
                    assert forall|x: u16| vec@.to_set().contains(x) == more.contains(x) by {
                        assert(old_values.to_set().contains(x) == done.contains(x));
                        assert(vec@[old_values.len() as int] == value);
                        if old_values.contains(x) {
                            let j = choose|j: int| 0 <= j < old_values.len() && old_values[j] == x;
                            assert(vec@[j] == x);
                        }
                        if 64 * index + p <= x < 64 * index + t {
                            assert(!word::has_bit(bit, x as int % 64));
                        }
                    }
                    p = t + 1;
                }
            }
            proof {
                let done = model::between(self@, 0, 64 * index + p);
                let more = model::between(self@, 0, 64 * (index + 1));
                assert forall|x: u16| done.contains(x) == more.contains(x) by {
                    if 64 * index + p <= x < 64 * (index + 1) {
                        assert(!word::has_bit(bit, x as int % 64));
                    }
                }
            }
        }
        ArrayStore::from_vec_unchecked(vec)
    }

    /// A cursor over the members.
    pub fn iter(&self) -> (r: BitmapIter<&[u64; BITMAP_LENGTH]>)
        ensures
            r.wf(),
            r@ == self@,
    {
        BitmapIter::new(&*self.bits)
    }

    /// A cursor over the members that owns the words.
    pub fn into_iter(self) -> (r: BitmapIter<Box<[u64; BITMAP_LENGTH]>>)
        ensures
            r.wf(),
            r@ == self@,
    {
        BitmapIter::new(self.bits)
    }
}

} // verus!
