use ahash::AHasher;
use std::hash::Hasher;
use vstd::prelude::*;

verus! {

/// `ahash::AHasher`, carried as an opaque hasher state.
#[verifier::external_type_specification]
#[verifier::external_body]
pub struct ExAHasher(AHasher);

/// Calls `ahash::AHasher::new_with_keys`. The hasher's output depends on the
/// build target (hardware AES or the fallback), so nothing is claimed of it.
#[verifier::external_body]
pub(crate) fn ahasher_new_with_keys(key1: u128, key2: u128) -> (h: AHasher) {
    AHasher::new_with_keys(key1, key2)
}

/// Calls `<AHasher as Hasher>::write`, which absorbs `bytes` into the state.
#[verifier::external_body]
pub(crate) fn ahasher_write(h: &mut AHasher, bytes: &[u8]) {
    h.write(bytes)
}

/// Calls `<AHasher as Hasher>::finish`; any `u64` may come back.
#[verifier::external_body]
pub(crate) fn ahasher_finish(h: &AHasher) -> (r: u64) {
    h.finish()
}

/// `<AHasher as Clone>::clone` copies the hasher state; nothing is claimed of it.
pub assume_specification[ <ahash::AHasher as core::clone::Clone>::clone ](h: &AHasher) -> AHasher;



/// A keyed hasher together with its keys and every byte it has absorbed. Only the
/// methods below touch the hasher, so the record always matches the hasher's
/// history.
pub struct KeyedHasher {
    h: AHasher,
    keys: Ghost<(u128, u128)>,
    absorbed: Ghost<Seq<u8>>,
}

/// A digest together with the keys and the input of the hasher it was finished
/// from. Only `KeyedHasher::finish` makes one.
pub struct KeyedDigest {
    value: u64,
    source: Ghost<((u128, u128), Seq<u8>)>,
}

impl KeyedDigest {
    /// The digest's value.
    pub closed spec fn val(&self) -> u64 {
        self.value
    }

    /// The keys and the absorbed bytes of the hasher the digest came from.
    pub closed spec fn source(&self) -> ((u128, u128), Seq<u8>) {
        self.source@
    }

    pub fn value(&self) -> (v: u64)
        ensures
            v == self.val(),
    {
        self.value
    }
}

/// The values of digests.
pub open spec fn digest_values(ds: Seq<KeyedDigest>) -> Seq<u64> {
    ds.map_values(|d: KeyedDigest| d.val())
}

/// The values of the digests, in order.
pub fn values_of(ds: &Vec<KeyedDigest>) -> (v: Vec<u64>)
    ensures
        v@ == digest_values(ds@),
{
    let mut v: Vec<u64> = Vec::new();
    let mut i: usize = 0;
    while i < ds.len()
        invariant
            i <= ds@.len(),
            v@ == digest_values(ds@.take(i as int)),
        decreases ds@.len() - i,
    {
        v.push(ds[i].value());
        proof {
            assert(digest_values(ds@.take(i + 1)) =~= digest_values(ds@.take(i as int)).push(ds@[i as int].val()));
        }
        i = i + 1;
    }
    assert(ds@.take(ds@.len() as int) =~= ds@);
    v
}

impl KeyedHasher {
    /// The keys the hasher was made with.
    pub closed spec fn keys(&self) -> (u128, u128) {
        self.keys@
    }

    /// The bytes the hasher has absorbed, in order.
    pub closed spec fn absorbed(&self) -> Seq<u8> {
        self.absorbed@
    }

    pub fn new_with_keys(key1: u128, key2: u128) -> (s: KeyedHasher)
        ensures
            s.keys() == (key1, key2),
            s.absorbed() == Seq::<u8>::empty(),
    {
        KeyedHasher {
            h: ahasher_new_with_keys(key1, key2),
            keys: Ghost((key1, key2)),
            absorbed: Ghost(Seq::empty()),
        }
    }

    pub fn write(&mut self, bytes: &[u8])
        ensures
            final(self).keys() == old(self).keys(),
            final(self).absorbed() == old(self).absorbed() + bytes@,
    {
        ahasher_write(&mut self.h, bytes);
        self.absorbed = Ghost(self.absorbed@ + bytes@);
    }

    /// A copy of the hasher in its present state.
    pub fn duplicate(&self) -> (s: KeyedHasher)
        ensures
            s.keys() == self.keys(),
            s.absorbed() == self.absorbed(),
    {
        KeyedHasher { h: self.h.clone(), keys: self.keys, absorbed: self.absorbed }
    }

    /// The digest of what the hasher has absorbed.
    pub fn finish(&self) -> (d: KeyedDigest)
        ensures
            d.source() == (self.keys(), self.absorbed()),
    {
        KeyedDigest { value: ahasher_finish(&self.h), source: Ghost((self.keys@, self.absorbed@)) }
    }
}

} // verus!
