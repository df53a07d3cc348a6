//! A keyed bloom filter over 32-byte items (spent tags). The filter's bit array
//! lives in a file; the functions here compute on its contents.
use crate::codec::{le_bytes, le_encode};
use crate::keyed_hash::{digest_values, values_of, KeyedDigest, KeyedHasher};
use vstd::prelude::*;

verus! {

/// Number of bits in the filter.
pub const FILE_SIZE: u64 = 4_000_000;

/// Number of bytes in the filter (`FILE_SIZE / 8`).
pub const FILE_BYTES: usize = 500_000;

/// Number of hash positions per item.
pub const HASHES: u32 = 6;

/// Byte of the filter that holds the bit for hash value `h`.
pub open spec fn byte_index(h: u64) -> int {
    ((h % FILE_SIZE) / 8) as int
}

/// Mask of the bit for hash value `h` within its byte.
pub open spec fn bit_mask(h: u64) -> u8 {
    1u8 << ((h % FILE_SIZE) % 8) as u8
}

/// Whether the bit for hash value `h` is set in `filter`.
pub open spec fn bit_is_set(filter: Seq<u8>, h: u64) -> bool {
    filter[byte_index(h)] & bit_mask(h) != 0
}

/// `filter` with the bit for hash value `h` set.
pub open spec fn set_bit(filter: Seq<u8>, h: u64) -> Seq<u8> {
    filter.update(byte_index(h), filter[byte_index(h)] | bit_mask(h))
}

/// `filter` with the bits for all of `hs` set, in order.
pub open spec fn with_bits_set(filter: Seq<u8>, hs: Seq<u64>) -> Seq<u8>
    decreases hs.len(),
{
    if hs.len() == 0 {
        filter
    } else {
        set_bit(with_bits_set(filter, hs.drop_last()), hs.last())
    }
}

/// Whether every bit for `hs` is set in `filter`.
pub open spec fn all_bits_set(filter: Seq<u8>, hs: Seq<u64>) -> bool {
    forall|i: int| 0 <= i < hs.len() ==> #[trigger] bit_is_set(filter, hs[i])
}

proof fn lemma_mask_facts(b: u8, c: u8, k: u8, j: u8)
    requires
        k < 8,
        j < 8,
    ensures
        (b | (1u8 << k)) & (1u8 << k) != 0,
        (c & (1u8 << j)) != 0 ==> ((c | (1u8 << k)) & (1u8 << j)) != 0,
        (0u8 & (1u8 << k)) == 0,
{
    assert((b | (1u8 << k)) & (1u8 << k) != 0) by (bit_vector)
        requires
            k < 8,
    ;
    assert((c & (1u8 << j)) != 0 ==> ((c | (1u8 << k)) & (1u8 << j)) != 0) by (bit_vector)
        requires
            k < 8,
            j < 8,
    ;
    assert((0u8 & (1u8 << k)) == 0) by (bit_vector);
}

proof fn lemma_index_in_range(h: u64)
    ensures
        0 <= byte_index(h) < FILE_BYTES,
        (h % FILE_SIZE) % 8 < 8,
{
}

/// Setting a bit keeps every bit that was set, and keeps the length.
proof fn lemma_set_bit_keeps(filter: Seq<u8>, h: u64, g: u64)
    requires
        filter.len() == FILE_BYTES,
    ensures
        set_bit(filter, h).len() == FILE_BYTES,
        bit_is_set(set_bit(filter, h), h),
        bit_is_set(filter, g) ==> bit_is_set(set_bit(filter, h), g),
{
    lemma_index_in_range(h);
    lemma_index_in_range(g);
    let k = ((h % FILE_SIZE) % 8) as u8;
    let j = ((g % FILE_SIZE) % 8) as u8;
    lemma_mask_facts(filter[byte_index(h)], filter[byte_index(g)], k, j);
}

proof fn lemma_with_bits_set_len(filter: Seq<u8>, hs: Seq<u64>)
    requires
        filter.len() == FILE_BYTES,
    ensures
        with_bits_set(filter, hs).len() == FILE_BYTES,
    decreases hs.len(),
{
    if hs.len() > 0 {
        lemma_with_bits_set_len(filter, hs.drop_last());
        lemma_set_bit_keeps(with_bits_set(filter, hs.drop_last()), hs.last(), hs.last());
    }
}

/// Law: setting bits never clears a bit: whatever was a member stays a member.
pub proof fn law_insert_keeps_members(filter: Seq<u8>, hs: Seq<u64>, gs: Seq<u64>)
    requires
        filter.len() == FILE_BYTES,
        all_bits_set(filter, gs),
    ensures
        all_bits_set(with_bits_set(filter, hs), gs),
        with_bits_set(filter, hs).len() == FILE_BYTES,
    decreases hs.len(),
{
    lemma_with_bits_set_len(filter, hs);
    if hs.len() > 0 {
        law_insert_keeps_members(filter, hs.drop_last(), gs);
        let f = with_bits_set(filter, hs.drop_last());
        assert forall|i: int| 0 <= i < gs.len() implies #[trigger] bit_is_set(
            with_bits_set(filter, hs),
            gs[i],
        ) by {
            lemma_set_bit_keeps(f, hs.last(), gs[i]);
        }
    }
}

/// Law: after the bits for `hs` are set, all of them test as set (no false negatives).
pub proof fn law_contains_after_insert(filter: Seq<u8>, hs: Seq<u64>)
    requires
        filter.len() == FILE_BYTES,
    ensures
        all_bits_set(with_bits_set(filter, hs), hs),
    decreases hs.len(),
{
    lemma_with_bits_set_len(filter, hs);
    if hs.len() > 0 {
        let init = hs.drop_last();
        law_contains_after_insert(filter, init);
        let f = with_bits_set(filter, init);
        lemma_with_bits_set_len(filter, init);
        assert forall|i: int| 0 <= i < hs.len() implies #[trigger] bit_is_set(
            with_bits_set(filter, hs),
            hs[i],
        ) by {
            lemma_set_bit_keeps(f, hs.last(), hs[i]);
            if i < hs.len() - 1 {
                assert(init[i] == hs[i]);
                assert(bit_is_set(f, init[i]));
            }
        }
    }
}

/// Law: a freshly initialised (all-zero) filter holds no item.
pub proof fn law_empty_holds_nothing(filter: Seq<u8>, hs: Seq<u64>)
    requires
        filter.len() == FILE_BYTES,
        forall|i: int| 0 <= i < filter.len() ==> filter[i] == 0,
        hs.len() > 0,
    ensures
        !all_bits_set(filter, hs),
{
    let h = hs[0];
    lemma_index_in_range(h);
    lemma_mask_facts(0, 0, ((h % FILE_SIZE) % 8) as u8, 0);
    assert(!bit_is_set(filter, hs[0]));
}

/// The byte offset and bit mask in the filter for hash value `h`.
pub fn locate(h: u64) -> (r: (usize, u8))
    ensures
        r.0 == byte_index(h),
        r.1 == bit_mask(h),
        r.0 < FILE_BYTES,
{
    let h = h % FILE_SIZE;
    let off: usize = (h / 8) as usize;
    let shift: u8 = (h % 8) as u8;
    (off, 1u8 << shift)
}

/// Sets the bits for every hash value in `hs`.
pub fn insert_at(filter: &mut Vec<u8>, hs: &Vec<u64>)
    requires
        old(filter)@.len() == FILE_BYTES,
    ensures
        final(filter)@ == with_bits_set(old(filter)@, hs@),
        final(filter)@.len() == FILE_BYTES,
{
    let mut i: usize = 0;
    while i < hs.len()
        invariant
            i <= hs@.len(),
            filter@ == with_bits_set(old(filter)@, hs@.take(i as int)),
            filter@.len() == FILE_BYTES,
        decreases hs@.len() - i,
    {
        let (off, delta) = locate(hs[i]);
        let byte: u8 = filter[off] | delta;
        proof {
            lemma_set_bit_keeps(filter@, hs@[i as int], hs@[i as int]);
            assert(hs@.take(i + 1).drop_last() =~= hs@.take(i as int));
        }
        filter.set(off, byte);
        i = i + 1;
    }
    proof {
        assert(hs@.take(hs@.len() as int) =~= hs@);
    }
}

/// Whether every bit for the hash values `hs` is set.
pub fn contains_at(filter: &Vec<u8>, hs: &Vec<u64>) -> (r: bool)
    requires
        filter@.len() == FILE_BYTES,
    ensures
        r == all_bits_set(filter@, hs@),
{
    let mut i: usize = 0;
    while i < hs.len()
        invariant
            i <= hs@.len(),
            filter@.len() == FILE_BYTES,
            forall|j: int| 0 <= j < i ==> #[trigger] bit_is_set(filter@, hs@[j]),
        decreases hs@.len() - i,
    {
        let (off, delta) = locate(hs[i]);
        if (filter[off] & delta) == 0u8 {
            assert(!bit_is_set(filter@, hs@[i as int]));
            return false;
        }
        i = i + 1;
    }
    true
}

/// Contents of a freshly initialised filter: every bit clear.
pub fn initial_contents() -> (r: Vec<u8>)
    ensures
        r@.len() == FILE_BYTES,
        forall|i: int| 0 <= i < FILE_BYTES ==> r@[i] == 0,
{
    let mut r: Vec<u8> = Vec::new();
    while r.len() < FILE_BYTES
        invariant
            r@.len() <= FILE_BYTES,
            forall|i: int| 0 <= i < r@.len() ==> r@[i] == 0,
        decreases FILE_BYTES - r@.len(),
    {
        r.push(0u8);
    }
    r
}

/// The counters the filter's hasher absorbs up to digest `n - 1`: the 4
/// little-endian bytes of `0`, then of `1`, ..., then of `n - 1`.
pub open spec fn counter_bytes(n: nat) -> Seq<u8>
    decreases n,
{
    if n == 0 {
        Seq::empty()
    } else {
        counter_bytes((n - 1) as nat) + le_encode((n - 1) as nat, 4)
    }
}

/// `ds` are the digests of `item` under `keys`: digest `i` is that of the hasher
/// keyed `keys` after it absorbed `item` and then the counters `0..=i`.
pub open spec fn item_digests(keys: (u128, u128), item: Seq<u8>, ds: Seq<KeyedDigest>) -> bool {
    &&& ds.len() == HASHES
    &&& forall|i: int|
        0 <= i < HASHES ==> (#[trigger] ds[i]).source() == (keys, item + counter_bytes((i + 1) as nat))
}

/// A bloom filter keyed by two 128-bit keys.
#[derive(Clone)]
pub struct BloomFile {
    key1: u128,
    key2: u128,
}

impl BloomFile {
    /// The two keys the filter was made with.
    pub closed spec fn keys(&self) -> (u128, u128) {
        (self.key1, self.key2)
    }

    pub fn from_keys(key1: u128, key2: u128) -> (b: BloomFile)
        ensures
            b.keys() == (key1, key2),
    {
        BloomFile { key1, key2 }
    }

    pub fn get_keys(&self) -> (k: [u128; 2])
        ensures
            k@ == seq![self.keys().0, self.keys().1],
    {
        [self.key1, self.key2]
    }

    /// The `HASHES` hash digests of `item`: the hasher keyed with the filter's keys
    /// absorbs the item, then, for each counter `i` in `0..HASHES`, the 4
    /// little-endian bytes of `i`, and yields its digest after each counter.
    pub fn get_hashes(&self, item: &[u8; 32]) -> (ds: Vec<KeyedDigest>)
        ensures
            item_digests(self.keys(), item@, ds@),
    {
        let mut h = KeyedHasher::new_with_keys(self.key1, self.key2);
        h.write(item.as_slice());
        let mut out: Vec<KeyedDigest> = Vec::new();
        let mut i: u32 = 0;
        while i < HASHES
            invariant
                i <= HASHES,
                out@.len() == i,
                h.keys() == self.keys(),
                h.absorbed() == item@ + counter_bytes(i as nat),
                forall|k: int|
                    0 <= k < i ==> (#[trigger] out@[k]).source() == (
                        self.keys(),
                        item@ + counter_bytes((k + 1) as nat),
                    ),
            decreases HASHES - i,
        {
            let counter = le_bytes(i as u128, 4);
            h.write(counter.as_slice());
            proof {
                assert(counter_bytes((i + 1) as nat) == counter_bytes(i as nat) + le_encode(i as nat, 4));
                assert(item@ + counter_bytes(i as nat) + le_encode(i as nat, 4) =~= item@
                    + counter_bytes((i + 1) as nat));
            }
            out.push(h.finish());
            i = i + 1;
        }
        out
    }

    /// Inserts `item` into the filter whose bytes are `filter`; returns the digests
    /// whose bits it set.
    pub fn insert(&self, filter: &mut Vec<u8>, item: &[u8; 32]) -> (ds: Vec<KeyedDigest>)
        requires
            old(filter)@.len() == FILE_BYTES,
        ensures
            item_digests(self.keys(), item@, ds@),
            final(filter)@ == with_bits_set(old(filter)@, digest_values(ds@)),
            final(filter)@.len() == FILE_BYTES,
    {
        let ds = self.get_hashes(item);
        let hs = values_of(&ds);
        insert_at(filter, &hs);
        ds
    }

    /// Whether `item` may be in the filter whose bytes are `filter`, with the
    /// digests whose bits were tested.
    pub fn contains(&self, filter: &Vec<u8>, item: &[u8; 32]) -> (r: (bool, Vec<KeyedDigest>))
        requires
            filter@.len() == FILE_BYTES,
        ensures
            item_digests(self.keys(), item@, r.1@),
            r.0 == all_bits_set(filter@, digest_values(r.1@)),
    {
        let ds = self.get_hashes(item);
        let hs = values_of(&ds);
        (contains_at(filter, &hs), ds)
    }
}

/// The number of hash functions a filter uses, given the rounded estimate
/// `bits / items * ln 2`: at least 2 and at most 200.
pub fn clamp_num_hashes(estimate: u32) -> (k: u32)
    ensures
        k == if estimate < 2 {
            2
        } else if estimate > 200 {
            200
        } else {
            estimate
        },
{
    let at_least: u32 = if estimate > 2 {
        estimate
    } else {
        2
    };
    if at_least < 200 {
        at_least
    } else {
        200
    }
}

} // verus!
