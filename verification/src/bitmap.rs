//! The bitmap: one bit for each block of the store, and the allocation of
//! free blocks from the lowest index up.

use vstd::prelude::*;
use crate::error::Error;
use crate::memory::{zeros, Memory};
use crate::serde::{deserialize_bytes, Blank, Deserialize, Serialize};

verus! {

/// Whether a block is taken.
#[derive(Clone, Copy, PartialEq, Eq, Debug)]
pub enum BitState {
    Occupied,
    Free,
}

/// Whether bit `k` of `byte` is set, bit 0 being the lowest.
pub open spec fn bit_of(byte: u8, k: int) -> bool {
    (byte >> (k as u8)) & 1u8 == 1u8
}

/// The bits of a sequence of bytes, the lowest bit of the first byte first.
pub open spec fn bits_of(bytes: Seq<u8>) -> Seq<bool> {
    Seq::new(8 * bytes.len(), |i: int| bit_of(bytes[i / 8], i % 8))
}

/// Whether `i` is the lowest index at which `bits` holds `false`.
pub open spec fn is_first_free(bits: Seq<bool>, i: int) -> bool {
    &&& 0 <= i < bits.len()
    &&& !bits[i]
    &&& forall|j: int| 0 <= j < i ==> bits[j]
}

/// Whether `bits` holds `true` at every index.
pub open spec fn is_full(bits: Seq<bool>) -> bool {
    forall|j: int| 0 <= j < bits.len() ==> bits[j]
}

/// The lowest index at which `bits` holds `false`, where there is one.
pub open spec fn first_free(bits: Seq<bool>) -> int {
    choose|i: int| is_first_free(bits, i)
}

/// The indices that `k` allocations in a row take from `bits`, each taking
/// the lowest free index that the ones before it left.
pub open spec fn allocations(bits: Seq<bool>, k: nat) -> Seq<int>
    decreases k,
{
    if k == 0 {
        Seq::empty()
    } else {
        seq![first_free(bits)] + allocations(bits.update(first_free(bits), true), (k - 1) as nat)
    }
}

/// What `k` allocations in a row leave of `bits`.
pub open spec fn after_allocations(bits: Seq<bool>, k: nat) -> Seq<bool>
    decreases k,
{
    if k == 0 {
        bits
    } else {
        after_allocations(bits.update(first_free(bits), true), (k - 1) as nat)
    }
}

/// The number of indices at which `bits` holds `false`.
pub open spec fn free_count(bits: Seq<bool>) -> nat
    decreases bits.len(),
{
    if bits.len() == 0 {
        0
    } else {
        free_count(bits.drop_last()) + if bits.last() {
            0nat
        } else {
            1nat
        }
    }
}

/// At most one index is the lowest free one.
pub proof fn lemma_first_free_unique(bits: Seq<bool>, i: int)
    requires
        is_first_free(bits, i),
    ensures
        first_free(bits) == i,
{
    let f = first_free(bits);
    assert(is_first_free(bits, f));
    if f < i {
        assert(bits[f]);
    } else if i < f {
        assert(bits[i]);
    }
}

/// Bits that are not full have a lowest free index.
pub proof fn lemma_first_free_exists(bits: Seq<bool>)
    requires
        !is_full(bits),
    ensures
        is_first_free(bits, first_free(bits)),
{
    let j = choose|j: int| 0 <= j < bits.len() && !bits[j];
    lemma_first_free_below(bits, j);
}

proof fn lemma_first_free_below(bits: Seq<bool>, j: int)
    requires
        0 <= j < bits.len(),
        !bits[j],
    ensures
        is_first_free(bits, first_free(bits)),
    decreases j,
{
    if forall|k: int| 0 <= k < j ==> bits[k] {
        assert(is_first_free(bits, j));
    } else {
        let k = choose|k: int| 0 <= k < j && !bits[k];
        lemma_first_free_below(bits, k);
    }
}

/// Bits with a free index are not full.
pub proof fn lemma_free_count_positive(bits: Seq<bool>)
    requires
        free_count(bits) > 0,
    ensures
        !is_full(bits),
    decreases bits.len(),
{
    if bits.len() > 0 {
        if bits.last() {
            lemma_free_count_positive(bits.drop_last());
            let j = choose|j: int| 0 <= j < bits.drop_last().len() && !bits.drop_last()[j];
            assert(!bits[j]);
        } else {
            assert(!bits[bits.len() - 1]);
        }
    }
}

/// Taking a free index leaves one free index fewer.
pub proof fn lemma_free_count_update(bits: Seq<bool>, i: int)
    requires
        0 <= i < bits.len(),
        !bits[i],
    ensures
        free_count(bits.update(i, true)) + 1 == free_count(bits),
    decreases bits.len(),
{
    let after = bits.update(i, true);
    if i == bits.len() - 1 {
        assert(after.drop_last() =~= bits.drop_last());
    } else {
        assert(after.drop_last() =~= bits.drop_last().update(i, true));
        lemma_free_count_update(bits.drop_last(), i);
    }
}

/// Allocations in a row take the free indices from the lowest up: where
/// `bits` has `k` free indices or more, the indices that `k` allocations
/// take were all free in `bits`, they ascend strictly, and no free index of
/// `bits` below the last of them is left out.
pub proof fn lemma_allocations_ascend(bits: Seq<bool>, k: nat)
    requires
        free_count(bits) >= k,
    ensures
        allocations(bits, k).len() == k,
        forall|j: int|
            0 <= j < k ==> 0 <= #[trigger] allocations(bits, k)[j] < bits.len() && !bits[allocations(
                bits,
                k,
            )[j]],
        forall|i: int, j: int|
            0 <= i < j < k ==> allocations(bits, k)[i] < allocations(bits, k)[j],
        forall|i: int|
            k > 0 && 0 <= i <= allocations(bits, k)[k - 1] && i < bits.len() && !#[trigger] bits[i]
                ==> exists|j: int| 0 <= j < k && allocations(bits, k)[j] == i,
    decreases k,
{
    if k > 0 {
        lemma_free_count_positive(bits);
        lemma_first_free_exists(bits);
        let first = first_free(bits);
        let rest_bits = bits.update(first, true);
        let rest = allocations(rest_bits, (k - 1) as nat);
        let all = allocations(bits, k);
        lemma_free_count_update(bits, first);
        lemma_allocations_ascend(rest_bits, (k - 1) as nat);
        assert(all =~= seq![first] + rest);
        assert forall|j: int| 0 <= j < k implies 0 <= #[trigger] all[j] < bits.len() && !bits[all[j]]
            && (j > 0 ==> all[j] > first) by {
            if j > 0 {
                assert(all[j] == rest[j - 1]);
                assert(!rest_bits[rest[j - 1]]);
                if rest[j - 1] < first {
                    assert(bits[rest[j - 1]]);
                }
            }
        }
        assert forall|i: int, j: int| 0 <= i < j < k implies all[i] < all[j] by {
            if i > 0 {
                assert(all[i] == rest[i - 1] && all[j] == rest[j - 1]);
            } else {
                assert(all[j] > first);
            }
        }
        assert forall|i: int|
            0 <= i <= all[k - 1] && i < bits.len() && !#[trigger] bits[i] implies exists|j: int|
            0 <= j < k && all[j] == i by {
            if i == first {
                assert(all[0] == i);
            } else {
                assert(!rest_bits[i]);
                if k == 1 {
                    assert(i < first);
                    assert(bits[i]);
                } else {
                    assert(all[k - 1] == rest[k - 2]);
                    let j = choose|j: int| 0 <= j < k - 1 && rest[j] == i;
                    assert(all[j + 1] == i);
                }
            }
        }
    }
}

/// Bits with a free index count it.
pub proof fn lemma_free_index_counts(bits: Seq<bool>, i: int)
    requires
        0 <= i < bits.len(),
        !bits[i],
    ensures
        free_count(bits) > 0,
    decreases bits.len(),
{
    if i < bits.len() - 1 {
        lemma_free_index_counts(bits.drop_last(), i);
    }
}

/// Full bits have no free index.
pub proof fn lemma_full_free_count(bits: Seq<bool>)
    requires
        is_full(bits),
    ensures
        free_count(bits) == 0,
    decreases bits.len(),
{
    if bits.len() > 0 {
        assert(bits[bits.len() - 1]);
        assert forall|j: int| 0 <= j < bits.drop_last().len() implies bits.drop_last()[j] by {
            assert(bits[j]);
        }
        lemma_full_free_count(bits.drop_last());
    }
}

/// One allocation more takes the lowest index that the ones before it left
/// free: where `bits` has more than `k` free indices, `k + 1` allocations
/// are `k` allocations and one more after them.
pub proof fn lemma_allocations_step(bits: Seq<bool>, k: nat)
    requires
        free_count(bits) > k,
    ensures
        free_count(after_allocations(bits, k)) == free_count(bits) - k,
        after_allocations(bits, k).len() == bits.len(),
        is_first_free(after_allocations(bits, k), first_free(after_allocations(bits, k))),
        allocations(bits, k + 1) == allocations(bits, k).push(
            first_free(after_allocations(bits, k)),
        ),
        after_allocations(bits, k + 1) == after_allocations(bits, k).update(
            first_free(after_allocations(bits, k)),
            true,
        ),
    decreases k,
{
    lemma_free_count_positive(bits);
    lemma_first_free_exists(bits);
    if k > 0 {
        let first = first_free(bits);
        let rest = bits.update(first, true);
        lemma_free_count_update(bits, first);
        lemma_allocations_step(rest, (k - 1) as nat);
        assert(allocations(bits, k + 1) =~= seq![first] + allocations(rest, k));
        assert(allocations(bits, k) =~= seq![first] + allocations(rest, (k - 1) as nat));
        assert(allocations(bits, k + 1) =~= allocations(bits, k).push(
            first_free(after_allocations(bits, k)),
        ));
    } else {
        assert(allocations(bits, 1) =~= seq![first_free(bits)] + allocations(
            bits.update(first_free(bits), true),
            0,
        ));
        assert(allocations(bits, 1) =~= allocations(bits, 0).push(first_free(bits)));
        assert(after_allocations(bits, 1) == after_allocations(
            bits.update(first_free(bits), true),
            0,
        ));
    }
}

/// Allocations in a row can be split: `a + b` allocations are `a`
/// allocations and then `b` more from what those left.
pub proof fn lemma_allocations_compose(bits: Seq<bool>, a: nat, b: nat)
    requires
        free_count(bits) >= a + b,
    ensures
        allocations(bits, a + b) == allocations(bits, a) + allocations(
            after_allocations(bits, a),
            b,
        ),
        after_allocations(bits, a + b) == after_allocations(after_allocations(bits, a), b),
    decreases a,
{
    if a > 0 {
        lemma_free_count_positive(bits);
        lemma_first_free_exists(bits);
        let first = first_free(bits);
        let rest = bits.update(first, true);
        lemma_free_count_update(bits, first);
        lemma_allocations_compose(rest, (a - 1) as nat, b);
        assert(allocations(bits, a + b) == seq![first] + allocations(rest, (a + b - 1) as nat));
        assert(allocations(bits, a + b) =~= allocations(bits, a) + allocations(
            after_allocations(bits, a),
            b,
        ));
    } else {
        assert(allocations(bits, a + b) =~= allocations(bits, a) + allocations(
            after_allocations(bits, a),
            b,
        ));
    }
}

/// Allocations only take: what was taken stays taken, and the length stays.
pub proof fn lemma_allocations_keep(bits: Seq<bool>, k: nat)
    requires
        free_count(bits) >= k,
    ensures
        after_allocations(bits, k).len() == bits.len(),
        free_count(after_allocations(bits, k)) == free_count(bits) - k,
        forall|i: int| 0 <= i < bits.len() && bits[i] ==> #[trigger] after_allocations(bits, k)[i],
    decreases k,
{
    if k > 0 {
        lemma_free_count_positive(bits);
        lemma_first_free_exists(bits);
        let first = first_free(bits);
        lemma_free_count_update(bits, first);
        lemma_allocations_keep(bits.update(first, true), (k - 1) as nat);
    }
}

/// What allocations take is taken afterwards.
pub proof fn lemma_allocations_taken(bits: Seq<bool>, k: nat)
    requires
        free_count(bits) >= k,
    ensures
        allocations(bits, k).len() == k,
        forall|j: int|
            0 <= j < k ==> 0 <= #[trigger] allocations(bits, k)[j] < bits.len()
                && after_allocations(bits, k)[allocations(bits, k)[j]],
    decreases k,
{
    if k > 0 {
        lemma_free_count_positive(bits);
        lemma_first_free_exists(bits);
        let first = first_free(bits);
        let rest = bits.update(first, true);
        lemma_free_count_update(bits, first);
        lemma_allocations_taken(rest, (k - 1) as nat);
        lemma_allocations_keep(rest, (k - 1) as nat);
        let all = allocations(bits, k);
        assert(all =~= seq![first] + allocations(rest, (k - 1) as nat));
        assert forall|j: int| 0 <= j < k implies 0 <= #[trigger] all[j] < bits.len()
            && after_allocations(bits, k)[all[j]] by {
            if j > 0 {
                assert(all[j] == allocations(rest, (k - 1) as nat)[j - 1]);
            } else {
                assert(rest[first]);
            }
        }
    }
}

proof fn lemma_set_bit(b: u8, k: u8, j: u8)
    requires
        k < 8,
        j < 8,
    ensures
        bit_of(b | (1u8 << k), j as int) == (j == k || bit_of(b, j as int)),
{
    assert(((b | (1u8 << k)) >> j) & 1u8 == 1u8 <==> (j == k || (b >> j) & 1u8 == 1u8))
        by (bit_vector)
        requires
            k < 8,
            j < 8,
    ;
}

proof fn lemma_clear_bit(b: u8, k: u8, j: u8)
    requires
        k < 8,
        j < 8,
    ensures
        bit_of(b & !(1u8 << k), j as int) == (j != k && bit_of(b, j as int)),
{
    assert(((b & !(1u8 << k)) >> j) & 1u8 == 1u8 <==> (j != k && (b >> j) & 1u8 == 1u8))
        by (bit_vector)
        requires
            k < 8,
            j < 8,
    ;
}

proof fn lemma_zero_bits(j: u8)
    requires
        j < 8,
    ensures
        !bit_of(0u8, j as int),
{
    assert(((0u8 >> j) & 1u8) == 0u8) by (bit_vector)
        requires
            j < 8,
    ;
}

/// Bytes of value zero hold no bit that is set: eight free bits for each.
pub proof fn lemma_zeros_free(n: int)
    requires
        n >= 0,
    ensures
        bits_of(zeros(n)).len() == 8 * n,
        is_empty_map(bits_of(zeros(n))),
{
    assert forall|i: int| 0 <= i < bits_of(zeros(n)).len() implies !bits_of(zeros(n))[i] by {
        lemma_zero_bits((i % 8) as u8);
    }
}

/// The record of which blocks of a store are taken: one bit for each block.
pub struct Bitmap {
    map: Vec<u8>,
}

impl Clone for Bitmap {
    fn clone(&self) -> (copy: Self)
        ensures
            copy.bytes() == self.bytes(),
    {
        proof {
            use_type_invariant(self);
        }
        let map = self.map.clone();
        proof {
            assert(map@ =~= self.map@);
        }
        Bitmap { map }
    }
}

impl Default for Bitmap {
    /// A bitmap without bits.
    fn default() -> (bitmap: Self)
        ensures
            bitmap.bytes() == Seq::<u8>::empty(),
    {
        Bitmap { map: Vec::new() }
    }
}

impl DeepView for Bitmap {
    type V = Seq<u8>;

    /// The bytes that hold the bits.
    open spec fn deep_view(&self) -> Seq<u8> {
        self.bytes()
    }
}

impl Serialize for Bitmap {
    open spec fn encodable(&self) -> bool {
        true
    }

    /// The bytes that hold the bits, with nothing before them.
    open spec fn encoding(&self) -> Seq<u8> {
        self.bytes()
    }

    fn serialize(&self, w: &mut Vec<u8>) -> (r: Result<usize, Error>) {
        self.map.as_slice().serialize(w)
    }
}

impl Deserialize for Bitmap {
    /// As many bytes as the bitmap has, with nothing before them.
    open spec fn decode(before: Seq<u8>, input: Seq<u8>) -> Option<(Seq<u8>, nat)> {
        if input.len() >= before.len() {
            Some((input.take(before.len() as int), before.len()))
        } else {
            None
        }
    }

    fn deserialize(&mut self, r: &[u8]) -> (res: Result<usize, Error>) {
        proof {
            use_type_invariant(&*self);
        }
        let mut map: Vec<u8> = Vec::new();
        core::mem::swap(&mut map, &mut self.map);
        let res = deserialize_bytes(map.as_mut_slice(), r);
        core::mem::swap(&mut map, &mut self.map);
        res
    }
}

impl Blank for Bitmap {
    open spec fn blank() -> Seq<u8> {
        Seq::empty()
    }

    proof fn default_is_blank(d: Self) {
        assert(call_ensures(Bitmap::default, (), d) ==> d.bytes() == Seq::<u8>::empty());
    }
}

/// A bitmap is read back from the bytes it is written as: reading a bitmap
/// of as many bytes from the encoding of `bitmap`, whatever follows it, gives
/// the bytes of `bitmap` and takes the encoding's length.
pub proof fn lemma_bitmap_round_trip(bitmap: &Bitmap, before: Seq<u8>, rest: Seq<u8>)
    requires
        before.len() == bitmap.bytes().len(),
    ensures
        Bitmap::decode(before, bitmap.encoding() + rest) == Some(
            (bitmap.deep_view(), bitmap.encoding().len()),
        ),
{
    assert((bitmap.bytes() + rest).take(before.len() as int) =~= bitmap.bytes());
}

impl View for Bitmap {
    type V = Seq<bool>;

    /// The bits of the map: the bit at index `i` says whether block `i` is taken.
    open spec fn view(&self) -> Seq<bool> {
        bits_of(self.bytes())
    }
}

impl Bitmap {
    #[verifier::type_invariant]
    spec fn indexable(self) -> bool {
        8 * self.map@.len() <= usize::MAX
    }

    /// The bytes that hold the bits, eight to each byte.
    pub closed spec fn bytes(&self) -> Seq<u8> {
        self.map@
    }

    /// The number of bytes in the bitmap of a store of type `M`: one bit for
    /// each block the store can hold, rounded up to whole bytes.
    pub open spec fn len_for<M: Memory>() -> int {
        (M::MAX_SIZE / 512 + 7) / 8
    }

    /// A bitmap for a store of type `M`, with every block free.
    pub fn new<M: Memory>() -> (bitmap: Self)
        ensures
            bitmap.bytes() == zeros(Self::len_for::<M>()),
            is_empty_map(bitmap@),
    {
        let bitmap = Self { map: vec![0u8; Self::len_for_memory_impl::<M>()] };
        proof {
            assert(bitmap.map@ =~= zeros(Self::len_for::<M>()));
            lemma_zeros_free(Self::len_for::<M>());
        }
        bitmap
    }

    /// The number of bytes in the bitmap of a store of type `M`.
    pub fn len_for_memory_impl<M: Memory>() -> (len: usize)
        ensures
            len == Self::len_for::<M>(),
    {
        (M::MAX_SIZE / crate::block::Block::SIZE + 7) / 8
    }

    /// Marks block `index` as taken.
    pub fn occupy(&mut self, index: usize)
        requires
            index < old(self)@.len(),
        ensures
            final(self)@ == old(self)@.update(index as int, true),
    {
        proof {
            use_type_invariant(&*self);
        }
        let byte_offset = index / 8;
        let bit_offset = (index % 8) as u8;
        let ghost before = self.map@;
        let byte = self.map[byte_offset];
        self.map[byte_offset] = byte | (1u8 << bit_offset);
        proof {
            assert forall|i: int| 0 <= i < self@.len() implies self@[i] == bits_of(before).update(
                index as int,
                true,
            )[i] by {
                if i / 8 == byte_offset {
                    lemma_set_bit(byte, bit_offset, (i % 8) as u8);
                }
            }
            assert(self@ =~= bits_of(before).update(index as int, true));
        }
    }

    /// Marks block `index` as free.
    pub fn free(&mut self, index: usize)
        requires
            index < old(self)@.len(),
        ensures
            final(self)@ == old(self)@.update(index as int, false),
    {
        proof {
            use_type_invariant(&*self);
        }
        let byte_offset = index / 8;
        let bit_offset = (index % 8) as u8;
        let ghost before = self.map@;
        let byte = self.map[byte_offset];
        self.map[byte_offset] = byte & !(1u8 << bit_offset);
        proof {
            assert forall|i: int| 0 <= i < self@.len() implies self@[i] == bits_of(before).update(
                index as int,
                false,
            )[i] by {
                if i / 8 == byte_offset {
                    lemma_clear_bit(byte, bit_offset, (i % 8) as u8);
                }
            }
            assert(self@ =~= bits_of(before).update(index as int, false));
        }
    }

    /// The number of bytes in the bitmap.
    pub fn len(&self) -> (len: usize)
        ensures
            len == self.bytes().len(),
            8 * len == self@.len(),
            8 * len <= usize::MAX,
    {
        proof {
            use_type_invariant(self);
        }
        self.map.len()
    }

    /// The state of block `index`.
    pub fn get(&self, index: usize) -> (state: BitState)
        requires
            index < self@.len(),
        ensures
            state == state_of(self@[index as int]),
    {
        let byte_offset = index / 8;
        let bit_offset = (index % 8) as u8;
        if (self.map[byte_offset] >> bit_offset) & 1u8 == 1u8 {
            BitState::Occupied
        } else {
            BitState::Free
        }
    }

    /// A cursor over the states of the blocks, from block 0 on.
    pub fn iter(&self) -> (it: BitStateIterator<'_>)
        ensures
            it.position() == 0,
            it.bitmap() == self,
    {
        BitStateIterator { map: self, byte_offset: 0, bit_offset: 0 }
    }

    /// Takes the free block of the lowest index and returns that index, or
    /// returns `None` where every block is taken.
    pub fn occupy_next(&mut self) -> (next: Option<usize>)
        ensures
            match next {
                Some(i) => is_first_free(old(self)@, i as int) && final(self)@ == old(self)@.update(
                    i as int,
                    true,
                ),
                None => is_full(old(self)@) && final(self)@ == old(self)@,
            },
    {
        proof {
            use_type_invariant(&*self);
        }
        let mut result: Option<usize> = None;
        let mut it = self.iter();
        let mut i: usize = 0;
        loop
            invariant_except_break
                it.position() == i,
                result is None,
            invariant
                it.bitmap() == *self,
                i <= self@.len() <= usize::MAX,
                forall|j: int| 0 <= j < i ==> self@[j],
            ensures
                match result {
                    Some(k) => is_first_free(self@, k as int),
                    None => is_full(self@),
                },
            decreases self@.len() - i,
        {
            match it.next() {
                None => {
                    break ;
                },
                Some(BitState::Free) => {
                    result = Some(i);
                    break ;
                },
                Some(BitState::Occupied) => {
                    i = i + 1;
                },
            }
        }
        if let Some(i) = result {
            self.occupy(i);
        }
        result
    }
}

/// `Occupied` for a set bit, `Free` for a clear one.
pub open spec fn state_of(bit: bool) -> BitState {
    if bit {
        BitState::Occupied
    } else {
        BitState::Free
    }
}

/// Whether `bits` holds `false` at every index.
pub open spec fn is_empty_map(bits: Seq<bool>) -> bool {
    forall|j: int| 0 <= j < bits.len() ==> !bits[j]
}

impl core::ops::Index<usize> for Bitmap {
    type Output = BitState;

    /// The state of block `index`.
    fn index(&self, index: usize) -> (state: &BitState)
        ensures
            *state == state_of(self@[index as int]),
    {
        match self.get(index) {
            BitState::Occupied => &BitState::Occupied,
            BitState::Free => &BitState::Free,
        }
    }
}

impl vstd::std_specs::core::IndexSpecImpl<usize> for Bitmap {
    open spec fn index_req(&self, index: &usize) -> bool {
        *index < self@.len()
    }
}

/// A cursor over the states of the blocks of a bitmap.
pub struct BitStateIterator<'a> {
    map: &'a Bitmap,
    byte_offset: usize,
    bit_offset: usize,
}

impl<'a> BitStateIterator<'a> {
    #[verifier::type_invariant]
    spec fn in_byte(self) -> bool {
        self.bit_offset < 8
    }

    /// The bitmap the cursor walks.
    pub closed spec fn bitmap(&self) -> &Bitmap {
        self.map
    }

    /// The index of the block whose state comes next.
    pub closed spec fn position(&self) -> int {
        self.byte_offset * 8 + self.bit_offset
    }

    /// The state of the block at the cursor, which then moves on by one, or
    /// `None` where no block is left.
    pub fn next(&mut self) -> (state: Option<BitState>)
        ensures
            final(self).bitmap() == old(self).bitmap(),
            old(self).position() >= 0,
            match state {
                Some(s) => {
                    &&& old(self).position() < old(self).bitmap()@.len()
                    &&& s == state_of(old(self).bitmap()@[old(self).position()])
                    &&& final(self).position() == old(self).position() + 1
                },
                None => {
                    &&& old(self).position() >= old(self).bitmap()@.len()
                    &&& final(self).position() == old(self).position()
                },
            },
    {
        proof {
            use_type_invariant(&*self);
        }
        if self.byte_offset >= self.map.len() {
            return None;
        }
        let state = if (self.map.map[self.byte_offset] >> (self.bit_offset as u8)) & 1u8 == 1u8 {
            BitState::Occupied
        } else {
            BitState::Free
        };
        if self.bit_offset + 1 >= 8 {
            self.bit_offset = 0;
            self.byte_offset = self.byte_offset + 1;
        } else {
            self.bit_offset = self.bit_offset + 1;
        }
        Some(state)
    }
}

} // verus!
