//! Validator bookkeeping: committee selection by stake, and the signature records.
use crate::codec::le_bytes;
use crate::codec::{le_decode, le_encode};
use crate::curve::{
    point_add, point_add_spec, point_compress, point_decompress, point_identity,
    scalar_sub, point_mul, point_mul_spec,
    point_valid, point_view, times, compressed_bytes, compressed_view, group_order, lemma_reduced_roundtrip, reduced, scalar_add,
    scalar_bytes, scalar_from_bits, scalar_from_wide, scalar_mul, scalar_value, scalar_view,
    scalar_zero, lemma_reduced_top_byte,
};
use crate::keyed_hash::{digest_values, values_of, KeyedDigest, KeyedHasher};
use crate::sha::{sha3_512, sha3_512_spec};
use curve25519_dalek::ristretto::{CompressedRistretto, RistrettoPoint};
use curve25519_dalek::scalar::Scalar;
use std::collections::VecDeque;
use vstd::prelude::*;

verus! {

pub const NUMBER_OF_VALIDATORS: usize = 3;

pub const SIGNING_CUTOFF: usize = 2 * NUMBER_OF_VALIDATORS / 3;

pub const QUEUE_LENGTH: usize = 10;

pub const REPLACERATE: usize = 2;

pub const BLOCK_KEYWORD: [u8; 6] = [107, 105, 109, 98, 101, 114];

pub const PUNISHMENT_FRACTION: u64 = 1000;

// ---------------------------------------------------------------------------
// Signature records.

/// A Schnorr signature `(c, r)` by the staker at position `pk` of the staker table.
#[derive(Clone, Copy, Debug)]
pub struct Signature {
    pub c: Scalar,
    pub r: Scalar,
    pub pk: u64,
}

/// A Schnorr signature `(c, r)` by the validator at position `pk` of a validator pool.
#[derive(Clone, Copy, Debug)]
pub struct ValidatorSignature {
    pub c: Scalar,
    pub r: Scalar,
    pub pk: u8,
}

impl ValidatorSignature {
    /// The same signature with the pool position replaced by the staker it names.
    pub fn to_signature(&self, validator_pool: &Vec<u64>) -> (s: Signature)
        requires
            (self.pk as int) < validator_pool@.len(),
        ensures
            s.c == self.c,
            s.r == self.r,
            s.pk == validator_pool@[self.pk as int],
    {
        Signature { c: self.c, r: self.r, pk: validator_pool[self.pk as usize] }
    }
}

/// `(c, r)` are the scalar bytes of a signature made with the random scalar `a`
/// and the key `k`: `c` is the reduced value `cv`, and `r` is `a - cv · k` modulo
/// the group order.
pub open spec fn own_signature(a: nat, k: nat, cv: nat, c: Seq<u8>, r: Seq<u8>) -> bool {
    &&& a < group_order()
    &&& k < group_order()
    &&& cv < group_order()
    &&& c == le_encode(cv, 32)
    &&& r == le_encode(((a - cv * k) % (group_order() as int)) as nat, 32)
}

/// `(a - c·k mod l) + (c·k mod l)` is `a` modulo `l`, for `a` below `l`.
proof fn lemma_sign_arith(a: nat, k: nat, cv: nat)
    requires
        a < group_order(),
    ensures
        ((((a - cv * k) % (group_order() as int)) as nat) + (cv * k) % group_order()) % group_order() == a,
{
    let l = group_order() as int;
    let ck = (cv * k) as int;
    vstd::arithmetic::div_mod::lemma_add_mod_noop(a - ck, ck, l);
    vstd::arithmetic::div_mod::lemma_mod_twice(a - ck, l);
    vstd::arithmetic::div_mod::lemma_small_mod(a, group_order());
    assert((a - ck) + ck == a);
    assert(((a - ck) % l + ck % l) % l == (a as int) % l);
    assert(((a - ck) % l) % l == (a - ck) % l) by {
        vstd::arithmetic::div_mod::lemma_mod_twice(a - ck, l);
    }
}

impl Signature {
    /// The same signature with the staker replaced by its first position in the pool
    /// (kept to its low 8 bits).
    pub fn to_validator_signature(&self, validator_pool: &Vec<u64>) -> (v: ValidatorSignature)
        requires
            validator_pool@.contains(self.pk),
        ensures
            v.c == self.c,
            v.r == self.r,
            v.pk == (first_index(validator_pool@, self.pk) as u8),
            0 <= first_index(validator_pool@, self.pk) < validator_pool@.len(),
            validator_pool@[first_index(validator_pool@, self.pk)] == self.pk,
            forall|k: int| 0 <= k < first_index(validator_pool@, self.pk) ==> validator_pool@[k] != self.pk,
    {
        let mut i: usize = 0;
        while i < validator_pool.len()
            invariant
                i <= validator_pool@.len(),
                validator_pool@.contains(self.pk),
                forall|k: int| 0 <= k < i ==> validator_pool@[k] != self.pk,
            decreases validator_pool@.len() - i,
        {
            if validator_pool[i] == self.pk {
                proof {
                    lemma_first_index(validator_pool@, self.pk, i as int);
                }
                return ValidatorSignature { c: self.c, r: self.r, pk: i as u8 };
            }
            i = i + 1;
        }
        proof {
            let k = choose|k: int| 0 <= k < validator_pool@.len() && validator_pool@[k] == self.pk;
            assert(validator_pool@[k] != self.pk);
        }
        ValidatorSignature { c: self.c, r: self.r, pk: 0 }
    }
}

/// The scalar of the SHA3-512 digest of a message's bytes (`Scalar::from_hash`).
pub fn hash_to_scalar(message: &Vec<u8>) -> (s: Scalar)
    ensures
        scalar_view(s) == le_encode(hash_scalar(message@), 32),
        scalar_value(s) == hash_scalar(message@),
{
    let h = sha3_512(message.as_slice());
    let s = scalar_from_wide(h.as_slice());
    proof {
        lemma_reduced_roundtrip(le_decode(h@) % group_order());
    }
    s
}

// ---------------------------------------------------------------------------
// Signed messages: the challenge's 32 bytes, the response's 32 bytes, the
// signer's 8 little-endian position bytes, then the message.

/// The byte form of a message signed by `sig`.
pub open spec fn signed_bytes(sig: Signature, message: Seq<u8>) -> Seq<u8> {
    scalar_view(sig.c) + scalar_view(sig.r) + le_encode(sig.pk as nat, 8) + message
}

/// The bytes with the top bit of byte 31 cleared, as `Scalar::from_bits` keeps them.
pub open spec fn low_bits(b: Seq<u8>) -> Seq<u8> {
    b.update(31, b[31] & 0x7f)
}

/// Frames a message with its signature.
pub fn frame_signed_message(sig: &Signature, message: &Vec<u8>) -> (out: Vec<u8>)
    ensures
        out@ == signed_bytes(*sig, message@),
{
    let mut out: Vec<u8> = Vec::new();
    let cb = scalar_bytes(&sig.c);
    append_bytes(&mut out, &cb);
    let rb = scalar_bytes(&sig.r);
    append_bytes(&mut out, &rb);
    let pb = crate::codec::le_bytes(sig.pk as u128, 8);
    append_bytes(&mut out, pb.as_slice());
    append_bytes(&mut out, message.as_slice());
    out
}

/// Takes the signature off the front of a signed message, leaving the message.
pub fn take_signature(signed_message: &mut Vec<u8>) -> (sig: Signature)
    requires
        old(signed_message)@.len() >= 72,
    ensures
        scalar_view(sig.c) == low_bits(old(signed_message)@.subrange(0, 32)),
        scalar_view(sig.r) == low_bits(old(signed_message)@.subrange(32, 64)),
        sig.pk == le_decode(old(signed_message)@.subrange(64, 72)),
        final(signed_message)@ == old(signed_message)@.skip(72),
{
    let ghost b = signed_message@;
    let mut cb = [0u8; 32];
    let mut rb = [0u8; 32];
    let mut i: usize = 0;
    while i < 32
        invariant
            i <= 32,
            signed_message@ == b,
            b.len() >= 72,
            cb@.len() == 32,
            rb@.len() == 32,
            forall|k: int| 0 <= k < i ==> cb@[k] == b[k] && rb@[k] == b[32 + k],
        decreases 32 - i,
    {
        cb[i] = signed_message[i];
        rb[i] = signed_message[32 + i];
        i = i + 1;
    }
    assert(cb@ =~= b.subrange(0, 32));
    assert(rb@ =~= b.subrange(32, 64));
    proof {
        crate::codec::lemma_pow256_values();
        crate::codec::lemma_le_decode_bound(b.subrange(64, 72));
    }
    let pk: u64 = crate::codec::le_value(signed_message.as_slice(), 64, 8) as u64;
    let mut rest: Vec<u8> = Vec::new();
    let mut k: usize = 72;
    while k < signed_message.len()
        invariant
            72 <= k <= b.len(),
            signed_message@ == b,
            rest@ == b.subrange(72, k as int),
        decreases b.len() - k,
    {
        rest.push(signed_message[k]);
        proof {
            assert(rest@ =~= b.subrange(72, k + 1));
        }
        k = k + 1;
    }
    assert(rest@ =~= b.skip(72));
    *signed_message = rest;
    Signature { c: scalar_from_bits(cb), r: scalar_from_bits(rb), pk }
}

// ---------------------------------------------------------------------------
// Checking signatures.

/// Why a signature could not be checked.
#[derive(Clone, Copy, Debug, PartialEq, Eq, Structural)]
pub enum SignatureError {
    /// The signer's key in the staker table is not the encoding of a point.
    BadKey,
}

/// The commitment a signature check hashes: the encoding of `r·G + c·P`, for the
/// scalar bytes `r` and `c`, the generator encoding `g` and the key encoding `key`.
pub open spec fn commitment(r: Seq<u8>, c: Seq<u8>, g: Seq<u8>, key: Seq<u8>) -> Seq<u8> {
    point_add_spec(point_mul_spec(r, g), point_mul_spec(c, key))
}

/// The signature `(c, r)` holds on `message` for the key `key` and generator `g`:
/// `c` is the scalar of the SHA3-512 digest of the message followed by the
/// commitment.
pub open spec fn signature_holds(c: Seq<u8>, r: Seq<u8>, message: Seq<u8>, g: Seq<u8>, key: Seq<u8>) -> bool {
    c == le_encode(hash_scalar(message + commitment(r, c, g, key)), 32)
}

/// The outcome of checking the signature `(c, r)` by the staker at `pk` on
/// `message`: `Ok(false)` when `pk` names no staker, `Err(BadKey)` when its key is
/// not a point, and otherwise whether the signature holds.
pub open spec fn check_outcome(
    c: Seq<u8>,
    r: Seq<u8>,
    pk: u64,
    message: Seq<u8>,
    stk: Seq<(CompressedRistretto, u64)>,
    g: Seq<u8>,
) -> Result<bool, SignatureError> {
    if pk as int >= stk.len() {
        Ok(false)
    } else if !point_valid(compressed_view(stk[pk as int].0)) {
        Err(SignatureError::BadKey)
    } else {
        Ok(signature_holds(c, r, message, g, compressed_view(stk[pk as int].0)))
    }
}

fn same_bytes32(a: &[u8; 32], b: &[u8; 32]) -> (r: bool)
    ensures
        r == (a@ == b@),
{
    let mut i: usize = 0;
    while i < 32
        invariant
            i <= 32,
            a@.len() == 32,
            b@.len() == 32,
            forall|k: int| 0 <= k < i ==> a@[k] == b@[k],
        decreases 32 - i,
    {
        if a[i] != b[i] {
            return false;
        }
        i = i + 1;
    }
    assert(a@ =~= b@);
    true
}

impl Signature {
    /// Checks the signature on the bytes `message` (what the signer hashed before
    /// the commitment) against the staker table, with the generator `g`.
    pub fn verify(
        &self,
        message: &Vec<u8>,
        stkstate: &Vec<(CompressedRistretto, u64)>,
        g: &RistrettoPoint,
    ) -> (res: Result<bool, SignatureError>)
        requires
            scalar_view(self.r)[31] <= 127,
            scalar_view(self.c)[31] <= 127,
        ensures
            res == check_outcome(
                scalar_view(self.c),
                scalar_view(self.r),
                self.pk,
                message@,
                stkstate@,
                point_view(*g),
            ),
            forall|a: nat, k: nat, cv: nat|
                #![trigger own_signature(a, k, cv, scalar_view(self.c), scalar_view(self.r))]
                own_signature(a, k, cv, scalar_view(self.c), scalar_view(self.r)) && (self.pk as int)
                    < stkstate@.len() && compressed_view(stkstate@[self.pk as int].0) == times(k, point_view(*g))
                    ==> res == Ok::<bool, SignatureError>(
                    scalar_view(self.c) == le_encode(hash_scalar(message@ + times(a, point_view(*g))), 32),
                ),
    {
        if self.pk >= stkstate.len() as u64 {
            return Ok(false);
        }
        let a = point_mul(&self.r, g);
        let key = &stkstate[self.pk as usize].0;
        let p = match point_decompress(key) {
            Some(p) => p,
            None => {
                return Err(SignatureError::BadKey);
            },
        };
        let b = point_mul(&self.c, &p);
        let sum = point_add(&a, &b);
        proof {
            let gv = point_view(*g);
            let l = group_order() as int;
            assert forall|av: nat, k: nat, cv: nat|
                #![trigger own_signature(av, k, cv, scalar_view(self.c), scalar_view(self.r))]
                own_signature(av, k, cv, scalar_view(self.c), scalar_view(self.r))
                    && compressed_view(stkstate@[self.pk as int].0) == times(k, gv)
                implies point_view(sum) == times(av, gv) by {
                let rv = ((av - cv * k) % l) as nat;
                lemma_reduced_roundtrip(cv);
                assert(scalar_value(self.c) == cv);
                assert(point_view(a) == times(rv, gv));
                assert(point_view(p) == times(k, gv));
                assert(point_view(b) == times((cv * k) % group_order(), gv));
                let ck = (cv * k) % group_order();
                assert(point_view(sum) == times((rv + ck) % group_order(), gv));
                lemma_sign_arith(av, k, cv);
            }
        }
        let cm = point_compress(&sum);
        let cmb = compressed_bytes(&cm);
        let mut m: Vec<u8> = Vec::new();
        append_bytes(&mut m, message.as_slice());
        append_bytes(&mut m, &cmb);
        let h = hash_to_scalar(&m);
        let hb = scalar_bytes(&h);
        let cb = scalar_bytes(&self.c);
        Ok(same_bytes32(&cb, &hb))
    }
}

/// The outcome of receiving the signed message `b` (signature first, then the
/// message), hashing `suffix` after the message: `None` when the signer is not a
/// staker or the signature fails, `Some(pk)` when it holds, `Err(BadKey)` when the
/// signer's key is not a point.
pub open spec fn receive_outcome(
    b: Seq<u8>,
    suffix: Seq<u8>,
    stk: Seq<(CompressedRistretto, u64)>,
    g: Seq<u8>,
) -> Result<Option<u64>, SignatureError> {
    let pk = le_decode(b.subrange(64, 72)) as u64;
    match check_outcome(
        low_bits(b.subrange(0, 32)),
        low_bits(b.subrange(32, 64)),
        pk,
        b.skip(72) + suffix,
        stk,
        g,
    ) {
        Ok(true) => Ok(Some(pk)),
        Ok(false) => Ok(None),
        Err(e) => Err(e),
    }
}

proof fn lemma_low_bits_low(b: Seq<u8>)
    requires
        b.len() == 32,
    ensures
        low_bits(b)[31] <= 127,
{
    let x = b[31];
    assert(x & 0x7f <= 127) by (bit_vector);
}

/// A reduced scalar's bytes have the top bit of their last byte clear, so
/// `low_bits` keeps them.
proof fn lemma_low_bits_reduced(v: nat)
    requires
        v < group_order(),
    ensures
        low_bits(le_encode(v, 32)) == le_encode(v, 32),
{
    lemma_reduced_top_byte(v);
    let e = le_encode(v, 32);
    let x = e[31];
    assert(x <= 127);
    assert(x & 0x7f == x) by (bit_vector)
        requires
            x <= 127,
    ;
    assert(low_bits(e) =~= e);
}

/// The parts of a message signed with `a` by `k`: the challenge, the response,
/// the position and the message, as taking the signature off reads them.
proof fn lemma_signed_parts(a: nat, k: nat, hashed: Seq<u8>, g: Seq<u8>, p: u64, m: Seq<u8>)
    requires
        a < group_order(),
        k < group_order(),
    ensures
        ({
            let b = signed_with(a, k, hashed, g, p, m);
            let cv = hash_scalar(hashed + times(a, g));
            let rv = ((a - cv * k) % (group_order() as int)) as nat;
            &&& b.len() >= 72
            &&& low_bits(b.subrange(0, 32)) == le_encode(cv, 32)
            &&& low_bits(b.subrange(32, 64)) == le_encode(rv, 32)
            &&& le_decode(b.subrange(64, 72)) == p
            &&& b.skip(72) == m
            &&& own_signature(a, k, cv, le_encode(cv, 32), le_encode(rv, 32))
        }),
{
    let b = signed_with(a, k, hashed, g, p, m);
    let cv = hash_scalar(hashed + times(a, g));
    let l = group_order() as int;
    let rv = ((a - cv * k) % l) as nat;
    assert(cv < group_order());
    assert(0 <= (a - cv * k) % l < l) by {
        vstd::arithmetic::div_mod::lemma_mod_bound(a - cv * k, l);
    }
    crate::curve::lemma_reduced_roundtrip(cv);
    crate::curve::lemma_reduced_roundtrip(rv);
    crate::codec::lemma_pow256_values();
    crate::codec::lemma_le_roundtrip(p as nat, 8);
    lemma_low_bits_reduced(cv);
    lemma_low_bits_reduced(rv);
    assert(b.subrange(0, 32) =~= le_encode(cv, 32));
    assert(b.subrange(32, 64) =~= le_encode(rv, 32));
    assert(b.subrange(64, 72) =~= le_encode(p as nat, 8));
    assert(b.skip(72) =~= m);
}

/// Takes the signature off the front of a signed message and checks it on the
/// message that is left. A message that `sign_message` signed with the key whose
/// public point the staker table holds at the signer's position comes back as
/// `Ok(Some(position))`, with the message left in place.
pub fn recieve_signed_message(
    signed_message: &mut Vec<u8>,
    stkstate: &Vec<(CompressedRistretto, u64)>,
    g: &RistrettoPoint,
) -> (res: Result<Option<u64>, SignatureError>)
    requires
        old(signed_message)@.len() >= 72,
    ensures
        final(signed_message)@ == old(signed_message)@.skip(72),
        res == receive_outcome(old(signed_message)@, Seq::empty(), stkstate@, point_view(*g)),
        forall|a: nat, k: nat, p: u64, m: Seq<u8>|
            old(signed_message)@ == #[trigger] signed_with(a, k, m, point_view(*g), p, m) && a < group_order()
                && k < group_order() && (p as int) < stkstate@.len() && compressed_view(stkstate@[p as int].0)
                == times(k, point_view(*g)) ==> res == Ok::<Option<u64>, SignatureError>(Some(p))
                && final(signed_message)@ == m,
{
    let ghost b = signed_message@;
    let sig = take_signature(signed_message);
    proof {
        lemma_low_bits_low(b.subrange(0, 32));
        lemma_low_bits_low(b.subrange(32, 64));
        assert(signed_message@ + Seq::<u8>::empty() =~= signed_message@);
    }
    let v = sig.verify(signed_message, stkstate, g);
    let res = match v {
        Ok(true) => Ok(Some(sig.pk)),
        Ok(false) => Ok(None),
        Err(e) => Err(e),
    };
    proof {
        let gv = point_view(*g);
        assert forall|a: nat, k: nat, p: u64, m: Seq<u8>|
            b == #[trigger] signed_with(a, k, m, gv, p, m) && a < group_order() && k < group_order() && (p as int)
                < stkstate@.len() && compressed_view(stkstate@[p as int].0) == times(k, gv) implies res
                == Ok::<Option<u64>, SignatureError>(Some(p)) && signed_message@ == m by {
            lemma_signed_parts(a, k, m, gv, p, m);
            let cv = hash_scalar(m + times(a, gv));
            assert(own_signature(a, k, cv, scalar_view(sig.c), scalar_view(sig.r)));
            assert(sig.pk == p);
            assert(signed_message@ == m);
        }
    }
    res
}

/// Takes the signature off the front of a message signed for height `bnum` and
/// checks it on the message that is left followed by the height's 8
/// little-endian bytes; a message shorter than a signature gives `None`. A
/// message that `sign_message_nonced` signed for the same height comes back as
/// `Ok(Some(position))` when the staker table holds the signer's public point
/// there.
pub fn recieve_signed_message_nonced(
    signed_message: &mut Vec<u8>,
    stkstate: &Vec<(CompressedRistretto, u64)>,
    bnum: u64,
    g: &RistrettoPoint,
) -> (res: Result<Option<u64>, SignatureError>)
    ensures
        old(signed_message)@.len() < 72 ==> res == Ok::<Option<u64>, SignatureError>(None)
            && final(signed_message)@ == old(signed_message)@,
        old(signed_message)@.len() >= 72 ==> final(signed_message)@ == old(signed_message)@.skip(72)
            && res == receive_outcome(
            old(signed_message)@,
            le_encode(bnum as nat, 8),
            stkstate@,
            point_view(*g),
        ),
        forall|a: nat, k: nat, p: u64, m: Seq<u8>|
            old(signed_message)@ == #[trigger] signed_with(a, k, m + le_encode(bnum as nat, 8), point_view(*g), p, m)
                && a < group_order() && k < group_order() && (p as int) < stkstate@.len() && compressed_view(
                stkstate@[p as int].0,
            ) == times(k, point_view(*g)) ==> res == Ok::<Option<u64>, SignatureError>(Some(p))
                && final(signed_message)@ == m,
{
    if signed_message.len() < 72 {
        proof {
            let gv = point_view(*g);
            assert forall|a: nat, k: nat, p: u64, m: Seq<u8>|
                signed_message@ == #[trigger] signed_with(a, k, m + le_encode(bnum as nat, 8), gv, p, m)
                    && a < group_order() && k < group_order() implies false by {
                lemma_signed_parts(a, k, m + le_encode(bnum as nat, 8), gv, p, m);
            }
        }
        return Ok(None);
    }
    let ghost b = signed_message@;
    let sig = take_signature(signed_message);
    proof {
        lemma_low_bits_low(b.subrange(0, 32));
        lemma_low_bits_low(b.subrange(32, 64));
    }
    let mut m: Vec<u8> = Vec::new();
    append_bytes(&mut m, signed_message.as_slice());
    let nb = le_bytes(bnum as u128, 8);
    append_bytes(&mut m, nb.as_slice());
    let v = sig.verify(&m, stkstate, g);
    let res = match v {
        Ok(true) => Ok(Some(sig.pk)),
        Ok(false) => Ok(None),
        Err(e) => Err(e),
    };
    proof {
        let gv = point_view(*g);
        assert forall|a: nat, k: nat, p: u64, mm: Seq<u8>|
            b == #[trigger] signed_with(a, k, mm + le_encode(bnum as nat, 8), gv, p, mm) && a < group_order()
                && k < group_order() && (p as int) < stkstate@.len() && compressed_view(stkstate@[p as int].0)
                == times(k, gv) implies res == Ok::<Option<u64>, SignatureError>(Some(p)) && signed_message@
                == mm by {
            lemma_signed_parts(a, k, mm + le_encode(bnum as nat, 8), gv, p, mm);
            let cv = hash_scalar(mm + le_encode(bnum as nat, 8) + times(a, gv));
            assert(own_signature(a, k, cv, scalar_view(sig.c), scalar_view(sig.r)));
            assert(sig.pk == p);
            assert(signed_message@ == mm);
            assert(m@ == mm + le_encode(bnum as nat, 8));
        }
    }
    res
}

/// The bytes of a message signed with the random scalar `a` by the key `key`:
/// `c` is the scalar of the digest of `hashed` followed by the encoding of `a·G`,
/// `r = a - c·key` modulo the group order, then the signer's position and the
/// message.
pub open spec fn signed_with(
    a: nat,
    key: nat,
    hashed: Seq<u8>,
    g: Seq<u8>,
    location: u64,
    message: Seq<u8>,
) -> Seq<u8> {
    let c = hash_scalar(hashed + point_mul_spec(le_encode(a, 32), g));
    le_encode(c, 32) + le_encode(((a - c * key) % (group_order() as int)) as nat, 32) + le_encode(
        location as nat,
        8,
    ) + message
}

/// Signs `hashed` with `key` and a fresh random scalar, and frames `message`
/// with the signature.
fn sign_framed(key: &Scalar, hashed: &Vec<u8>, message: &Vec<u8>, location: u64, g: &RistrettoPoint) -> (out: Vec<u8>)
    requires
        reduced(*key),
    ensures
        out@.len() == message@.len() + 72,
        exists|a: nat|
            a < group_order() && out@ == #[trigger] signed_with(
                a,
                scalar_value(*key),
                hashed@,
                point_view(*g),
                location,
                message@,
            ),
{
    let mut rng = crate::ringmaker::thread_rng();
    let wide = crate::ringmaker::random_bytes64(&mut rng);
    let a = scalar_from_wide(wide.as_slice());
    proof {
        lemma_reduced_roundtrip(le_decode(wide@) % group_order());
        lemma_reduced_top_byte(scalar_value(a));
    }
    let pa = point_mul(&a, g);
    let cm = point_compress(&pa);
    let cmb = compressed_bytes(&cm);
    let mut m: Vec<u8> = Vec::new();
    append_bytes(&mut m, hashed.as_slice());
    append_bytes(&mut m, &cmb);
    let c = hash_to_scalar(&m);
    proof {
        lemma_reduced_roundtrip(hash_scalar(m@));
    }
    let ck = scalar_mul(c, *key);
    proof {
        lemma_reduced_roundtrip((scalar_value(c) * scalar_value(*key)) % group_order());
    }
    let r = scalar_sub(a, ck);
    let cb = scalar_bytes(&c);
    let rb = scalar_bytes(&r);
    let mut out: Vec<u8> = Vec::new();
    append_bytes(&mut out, &cb);
    append_bytes(&mut out, &rb);
    let lb = le_bytes(location as u128, 8);
    append_bytes(&mut out, lb.as_slice());
    append_bytes(&mut out, message.as_slice());
    proof {
        crate::codec::lemma_le_encode_len(location as nat, 8);
        let l = group_order() as int;
        let av = scalar_value(a) as int;
        let ckv = (scalar_value(c) * scalar_value(*key)) as int;
        vstd::arithmetic::div_mod::lemma_sub_mod_noop(av, ckv, l);
        vstd::arithmetic::div_mod::lemma_small_mod(scalar_value(a), group_order());
        assert(scalar_view(a) == le_encode(scalar_value(a), 32));
        assert(out@ == signed_with(
            scalar_value(a),
            scalar_value(*key),
            hashed@,
            point_view(*g),
            location,
            message@,
        ));
    }
    out
}

/// Signs `message` with `key` for the staker at `location`: the signature, the
/// position, then the message.
pub fn sign_message(key: &Scalar, message: &Vec<u8>, location: u64, g: &RistrettoPoint) -> (out: Vec<u8>)
    requires
        reduced(*key),
    ensures
        out@.len() == message@.len() + 72,
        exists|a: nat|
            a < group_order() && out@ == #[trigger] signed_with(
                a,
                scalar_value(*key),
                message@,
                point_view(*g),
                location,
                message@,
            ),
{
    sign_framed(key, message, message, location, g)
}

/// Signs `message` for height `bnum` (the hash covers the message followed by
/// the height's 8 little-endian bytes).
pub fn sign_message_nonced(key: &Scalar, message: &Vec<u8>, location: u64, bnum: u64, g: &RistrettoPoint) -> (out: Vec<u8>)
    requires
        reduced(*key),
    ensures
        out@.len() == message@.len() + 72,
        exists|a: nat|
            a < group_order() && out@ == #[trigger] signed_with(
                a,
                scalar_value(*key),
                message@ + le_encode(bnum as nat, 8),
                point_view(*g),
                location,
                message@,
            ),
{
    let mut hashed: Vec<u8> = Vec::new();
    append_bytes(&mut hashed, message.as_slice());
    let nb = le_bytes(bnum as u128, 8);
    append_bytes(&mut hashed, nb.as_slice());
    sign_framed(key, &hashed, message, location, g)
}

/// Taking the signature off a framed message gives back the message and, for
/// scalars whose top bit is clear (every reduced scalar), the signature.
pub proof fn law_signed_message_roundtrip(sig: Signature, message: Seq<u8>)
    requires
        scalar_view(sig.c).len() == 32,
        scalar_view(sig.r).len() == 32,
        scalar_view(sig.c)[31] < 0x80,
        scalar_view(sig.r)[31] < 0x80,
    ensures
        signed_bytes(sig, message).len() >= 72,
        low_bits(signed_bytes(sig, message).subrange(0, 32)) == scalar_view(sig.c),
        low_bits(signed_bytes(sig, message).subrange(32, 64)) == scalar_view(sig.r),
        le_decode(signed_bytes(sig, message).subrange(64, 72)) == sig.pk,
        signed_bytes(sig, message).skip(72) == message,
{
    let b = signed_bytes(sig, message);
    crate::codec::lemma_pow256_values();
    crate::codec::lemma_le_roundtrip(sig.pk as nat, 8);
    let c = scalar_view(sig.c);
    let r = scalar_view(sig.r);
    assert(b.subrange(0, 32) =~= c);
    assert(b.subrange(32, 64) =~= r);
    assert(b.subrange(64, 72) =~= le_encode(sig.pk as nat, 8));
    assert(b.skip(72) =~= message);
    let cl = c[31];
    let rl = r[31];
    assert(cl & 0x7f == cl) by (bit_vector)
        requires
            cl < 0x80,
    ;
    assert(rl & 0x7f == rl) by (bit_vector)
        requires
            rl < 0x80,
    ;
    assert(low_bits(c) =~= c);
    assert(low_bits(r) =~= r);
}

// ---------------------------------------------------------------------------
// Group signatures on empty blocks.

/// A group Schnorr signature `(x, y)` over the committee members other than those
/// whose pool positions are listed in `pk`.
#[derive(Clone, Debug)]
pub struct MultiSignature {
    pub x: CompressedRistretto,
    pub y: Scalar,
    pub pk: Vec<u8>,
}

/// The scalar `Scalar::from_hash` makes of the SHA3-512 digest of `b`.
pub open spec fn hash_scalar(b: Seq<u8>) -> nat {
    le_decode(sha3_512_spec(b)) % group_order()
}

/// The sum of scalar values, reduced modulo the group order.
pub open spec fn scalar_sum(y: Seq<Scalar>) -> nat
    decreases y.len(),
{
    if y.len() == 0 {
        0
    } else {
        (scalar_sum(y.drop_last()) + scalar_value(y.last())) % group_order()
    }
}

pub(crate) fn append_bytes(out: &mut Vec<u8>, b: &[u8])
    ensures
        final(out)@ == old(out)@ + b@,
{
    let ghost start = out@;
    let mut i: usize = 0;
    while i < b.len()
        invariant
            i <= b@.len(),
            out@ == start + b@.take(i as int),
        decreases b@.len() - i,
    {
        out.push(b[i]);
        proof {
            assert(b@.take(i + 1) =~= b@.take(i as int).push(b@[i as int]));
            assert(out@ =~= start + b@.take(i + 1));
        }
        i = i + 1;
    }
    assert(b@.take(b@.len() as int) =~= b@);
}

/// The encodings of the keys in `who`, each once, in the order they first occur.
pub open spec fn distinct_keys(who: Seq<CompressedRistretto>) -> Seq<Seq<u8>>
    decreases who.len(),
{
    if who.len() == 0 {
        Seq::empty()
    } else {
        let u = distinct_keys(who.drop_last());
        if u.contains(compressed_view(who.last())) {
            u
        } else {
            u.push(compressed_view(who.last()))
        }
    }
}

/// The encoding of the sum of the points encoded by `ps`, added in order from the
/// neutral point.
pub open spec fn point_sum(ps: Seq<Seq<u8>>) -> Seq<u8>
    decreases ps.len(),
{
    if ps.len() == 0 {
        Seq::new(32, |i: int| 0u8)
    } else {
        point_add_spec(point_sum(ps.drop_last()), ps.last())
    }
}

/// The outcome of checking the group signature `(yt, xt)` on `message` by the keys
/// `who` with generator `g`: `Err(BadKey)` when `xt` or one of the keys is not a
/// point, and otherwise whether `yt·G == X + e·(sum of the distinct keys)` with
/// `e` the scalar of the digest of the message followed by `xt`.
pub open spec fn group_outcome(
    yt: Seq<u8>,
    xt: Seq<u8>,
    message: Seq<u8>,
    who: Seq<CompressedRistretto>,
    g: Seq<u8>,
) -> Result<bool, SignatureError> {
    let keys = distinct_keys(who);
    if !point_valid(xt) || exists|k: int| 0 <= k < keys.len() && !point_valid(#[trigger] keys[k]) {
        Err(SignatureError::BadKey)
    } else {
        Ok(point_mul_spec(yt, g) == point_add_spec(
            xt,
            point_mul_spec(le_encode(hash_scalar(message + xt), 32), point_sum(keys)),
        ))
    }
}

/// The encodings of points.
pub open spec fn points_view(x: Seq<RistrettoPoint>) -> Seq<Seq<u8>> {
    x.map_values(|p: RistrettoPoint| point_view(p))
}

/// The sum of the numbers modulo the group order, added in order.
pub open spec fn mod_sum(xs: Seq<nat>) -> nat
    decreases xs.len(),
{
    if xs.len() == 0 {
        0
    } else {
        (mod_sum(xs.drop_last()) + xs.last()) % group_order()
    }
}

/// The point encodings `ps` are the multiples `xs[i] · G` of the point encoded by
/// `g`, with each `xs[i]` below the group order.
pub open spec fn multiples(ps: Seq<Seq<u8>>, xs: Seq<nat>, g: Seq<u8>) -> bool {
    &&& ps.len() == xs.len()
    &&& point_valid(g)
    &&& forall|i: int| 0 <= i < xs.len() ==> #[trigger] xs[i] < group_order() && ps[i] == times(xs[i], g)
}

/// `(yt, xt)` is the group signature on `message` of the signers with keys
/// `ks` (the distinct keys of `who`, in order, are `ks[i] · G`), nonce sum `rv`
/// (`xt = rv · G`) and share sum `yv = rv + e · (sum of ks)` modulo the order,
/// with `e` the scalar of the digest of the message followed by `xt`.
pub open spec fn group_signed(
    ks: Seq<nat>,
    rv: nat,
    yv: nat,
    yt: Seq<u8>,
    xt: Seq<u8>,
    message: Seq<u8>,
    who: Seq<CompressedRistretto>,
    g: Seq<u8>,
) -> bool {
    &&& multiples(distinct_keys(who), ks, g)
    &&& rv < group_order()
    &&& xt == times(rv, g)
    &&& yt == le_encode(yv, 32)
    &&& yv == (rv + hash_scalar(message + xt) * mod_sum(ks)) % group_order()
}

proof fn lemma_mod_sum_bound(xs: Seq<nat>)
    ensures
        mod_sum(xs) < group_order(),
    decreases xs.len(),
{
    if xs.len() > 0 {
        lemma_mod_sum_bound(xs.drop_last());
    }
}

proof fn lemma_distinct_push(who: Seq<CompressedRistretto>, c: CompressedRistretto)
    ensures
        distinct_keys(who.push(c)) == (if distinct_keys(who).contains(compressed_view(c)) {
            distinct_keys(who)
        } else {
            distinct_keys(who).push(compressed_view(c))
        }),
{
    assert(who.push(c).drop_last() =~= who);
}

/// The distinct keys of a prefix are a prefix of the distinct keys.
proof fn lemma_distinct_prefix(who: Seq<CompressedRistretto>, i: int)
    requires
        0 <= i <= who.len(),
    ensures
        distinct_keys(who.take(i)).len() <= distinct_keys(who).len(),
        forall|k: int|
            0 <= k < distinct_keys(who.take(i)).len() ==> distinct_keys(who)[k] == #[trigger] distinct_keys(
                who.take(i),
            )[k],
    decreases who.len() - i,
{
    if i < who.len() {
        lemma_distinct_prefix(who, i + 1);
        assert(who.take(i + 1) =~= who.take(i).push(who[i]));
        lemma_distinct_push(who.take(i), who[i]);
        let a = distinct_keys(who.take(i));
        let b = distinct_keys(who.take(i + 1));
        assert forall|k: int| 0 <= k < a.len() implies distinct_keys(who)[k] == #[trigger] a[k] by {
            assert(a[k] == b[k]);
        }
    } else {
        assert(who.take(i) =~= who);
    }
}

impl MultiSignature {
    /// A member's share of a group signature: with the nonce scalar
    /// `r = H(nonce || key)` and the challenge `e = H(message || xt)`, the share
    /// is `e * key + r` modulo the group order.
    pub fn try_get_y(key: &Scalar, nonce: &u64, message: &Vec<u8>, xt: &CompressedRistretto) -> (y: Scalar)
        requires
            reduced(*key),
        ensures
            scalar_value(y) == (hash_scalar(message@ + compressed_view(*xt)) * scalar_value(*key)
                + hash_scalar(le_encode(*nonce as nat, 8) + scalar_view(*key))) % group_order(),
            reduced(y),
    {
        let mut s: Vec<u8> = crate::codec::le_bytes(*nonce as u128, 8);
        let kb = scalar_bytes(key);
        append_bytes(&mut s, &kb);
        let h = sha3_512(s.as_slice());
        let r = scalar_from_wide(h.as_slice());
        let mut m: Vec<u8> = Vec::new();
        append_bytes(&mut m, message.as_slice());
        let xb = compressed_bytes(xt);
        append_bytes(&mut m, &xb);
        let h2 = sha3_512(m.as_slice());
        let e = scalar_from_wide(h2.as_slice());
        proof {
            lemma_reduced_roundtrip(le_decode(h@) % group_order());
            lemma_reduced_roundtrip(le_decode(h2@) % group_order());
        }
        let ek = scalar_mul(e, *key);
        proof {
            lemma_reduced_roundtrip((scalar_value(e) * scalar_value(*key)) % group_order());
        }
        let y = scalar_add(ek, r);
        proof {
            lemma_reduced_roundtrip((scalar_value(ek) + scalar_value(r)) % group_order());
            let l = group_order() as int;
            vstd::arithmetic::div_mod::lemma_add_mod_noop(
                (scalar_value(e) * scalar_value(*key)) as int,
                scalar_value(r) as int,
                l,
            );
            vstd::arithmetic::div_mod::lemma_small_mod(scalar_value(r), group_order());
        }
        y
    }

    /// The group point a member contributes at height `nonce`: `r·G`, with `r`
    /// the scalar of the digest of the nonce's 8 little-endian bytes followed by
    /// the key's bytes.
    pub fn gen_group_x(key: &Scalar, nonce: &u64, g: &RistrettoPoint) -> (x: CompressedRistretto)
        ensures
            compressed_view(x) == point_mul_spec(
                le_encode(hash_scalar(le_encode(*nonce as nat, 8) + scalar_view(*key)), 32),
                point_view(*g),
            ),
    {
        let mut s: Vec<u8> = crate::codec::le_bytes(*nonce as u128, 8);
        let kb = scalar_bytes(key);
        append_bytes(&mut s, &kb);
        let r = hash_to_scalar(&s);
        proof {
            lemma_reduced_top_byte(hash_scalar(s@));
        }
        let p = point_mul(&r, g);
        point_compress(&p)
    }

    /// The sum of the members' group points, compressed.
    pub fn sum_group_x(x: &Vec<RistrettoPoint>) -> (t: CompressedRistretto)
        ensures
            compressed_view(t) == point_sum(points_view(x@)),
            forall|rs: Seq<nat>, gb: Seq<u8>|
                #[trigger] multiples(points_view(x@), rs, gb)
                    ==> compressed_view(t) == times(mod_sum(rs), gb),
    {
        let ghost xs = points_view(x@);
        let mut sum = point_identity();
        let mut i: usize = 0;
        proof {
            assert forall|rs: Seq<nat>, gb: Seq<u8>| #[trigger] multiples(xs, rs, gb) implies point_view(sum)
                == times(mod_sum(rs.take(0)), gb) by {
                assert(rs.take(0) =~= Seq::<nat>::empty());
            }
        }
        while i < x.len()
            invariant
                i <= x@.len(),
                xs == points_view(x@),
                point_view(sum) == point_sum(points_view(x@.take(i as int))),
                forall|rs: Seq<nat>, gb: Seq<u8>|
                    #[trigger] multiples(xs, rs, gb) ==> point_view(sum) == times(mod_sum(rs.take(i as int)), gb),
            decreases x@.len() - i,
        {
            let ghost before = points_view(x@.take(i as int));
            let ghost old_sum = point_view(sum);
            sum = point_add(&sum, &x[i]);
            proof {
                let after = points_view(x@.take(i + 1));
                assert(after.drop_last() =~= before);
                assert(after.last() == point_view(x@[i as int]));
                assert forall|rs: Seq<nat>, gb: Seq<u8>| #[trigger] multiples(xs, rs, gb) implies point_view(sum)
                    == times(mod_sum(rs.take(i + 1)), gb) by {
                    lemma_mod_sum_bound(rs.take(i as int));
                    assert(rs[i as int] < group_order() && xs[i as int] == times(rs[i as int], gb));
                    assert(old_sum == times(mod_sum(rs.take(i as int)), gb));
                    assert(rs.take(i + 1).drop_last() =~= rs.take(i as int));
                    assert(rs.take(i + 1).last() == rs[i as int]);
                }
            }
            i = i + 1;
        }
        proof {
            assert forall|rs: Seq<nat>, gb: Seq<u8>| #[trigger] multiples(xs, rs, gb) implies point_view(sum)
                == times(mod_sum(rs), gb) by {
                assert(rs.take(x@.len() as int) =~= rs);
            }
        }
        assert(x@.take(x@.len() as int) =~= x@);
        point_compress(&sum)
    }

    /// Checks a group signature `(yt, xt)` on `message` by the keys `who`, with the
    /// generator `g`. A group signature made by the signers listed in `who` is
    /// answered `Ok(true)`.
    pub fn verify_group(
        yt: &Scalar,
        xt: &CompressedRistretto,
        message: &Vec<u8>,
        who: &Vec<CompressedRistretto>,
        g: &RistrettoPoint,
    ) -> (res: Result<bool, SignatureError>)
        requires
            scalar_view(*yt)[31] <= 127,
        ensures
            res == group_outcome(scalar_view(*yt), compressed_view(*xt), message@, who@, point_view(*g)),
            forall|ks: Seq<nat>, rv: nat, yv: nat|
                #[trigger] group_signed(ks, rv, yv, scalar_view(*yt), compressed_view(*xt), message@, who@, point_view(*g))
                    ==> res == Ok::<bool, SignatureError>(true),
    {
        let ghost gv = point_view(*g);
        let mut m: Vec<u8> = Vec::new();
        append_bytes(&mut m, message.as_slice());
        let xb = compressed_bytes(xt);
        append_bytes(&mut m, &xb);
        let e = hash_to_scalar(&m);
        proof {
            lemma_reduced_top_byte(hash_scalar(m@));
        }
        let left = point_mul(yt, g);
        let mut seen: Vec<[u8; 32]> = Vec::new();
        let mut sum = point_identity();
        let mut i: usize = 0;
        proof {
            assert(who@.take(0) =~= Seq::<CompressedRistretto>::empty());
            assert forall|ks: Seq<nat>| #[trigger] multiples(distinct_keys(who@), ks, gv) implies point_view(sum)
                == times(mod_sum(ks.take(0)), gv) by {
                assert(ks.take(0) =~= Seq::<nat>::empty());
            }
        }
        while i < who.len()
            invariant
                i <= who@.len(),
                gv == point_view(*g),
                point_valid(gv),
                forall|x: nat| x < group_order() ==> point_valid(#[trigger] times(x, gv)),
                seen@.len() == distinct_keys(who@.take(i as int)).len(),
                forall|k: int| 0 <= k < seen@.len() ==> (#[trigger] seen@[k])@ == distinct_keys(who@.take(i as int))[k],
                forall|k: int| 0 <= k < seen@.len() ==> point_valid(#[trigger] distinct_keys(who@.take(i as int))[k]),
                point_view(sum) == point_sum(distinct_keys(who@.take(i as int))),
                forall|ks: Seq<nat>|
                    #[trigger] multiples(distinct_keys(who@), ks, gv) ==> point_view(sum) == times(
                        mod_sum(ks.take(seen@.len() as int)),
                        gv,
                    ),
            decreases who@.len() - i,
        {
            let ghost u = distinct_keys(who@.take(i as int));
            let c = who[i];
            let cb = compressed_bytes(&c);
            proof {
                assert(who@.take(i + 1) =~= who@.take(i as int).push(c));
                lemma_distinct_push(who@.take(i as int), c);
            }
            let mut found = false;
            let mut k: usize = 0;
            while k < seen.len()
                invariant
                    k <= seen@.len(),
                    seen@.len() == u.len(),
                    forall|q: int| 0 <= q < seen@.len() ==> (#[trigger] seen@[q])@ == u[q],
                    cb@ == compressed_view(c),
                    found == exists|q: int| 0 <= q < k && u[q] == compressed_view(c),
                decreases seen@.len() - k,
            {
                if same_bytes32(&seen[k], &cb) {
                    found = true;
                }
                k = k + 1;
            }
            proof {
                if found {
                    let q = choose|q: int| 0 <= q < seen@.len() && u[q] == compressed_view(c);
                    assert(u.contains(compressed_view(c)));
                } else {
                    assert(!u.contains(compressed_view(c)));
                }
            }
            if !found {
                let p = match point_decompress(&c) {
                    Some(p) => p,
                    None => {
                        proof {
                            let keys = distinct_keys(who@);
                            lemma_distinct_prefix(who@, i + 1);
                            assert(distinct_keys(who@.take(i + 1)) == u.push(compressed_view(c)));
                            assert(distinct_keys(who@.take(i + 1))[u.len() as int] == compressed_view(c));
                            assert(keys[u.len() as int] == compressed_view(c));
                            assert(u.len() < keys.len());
                            let j = u.len() as int;
                            assert forall|ks: Seq<nat>, rv: nat, yv: nat|
                                #[trigger] group_signed(ks, rv, yv, scalar_view(*yt), compressed_view(*xt), message@, who@, gv)
                                implies false by {
                                assert(ks[j] < group_order() && keys[j] == times(ks[j], gv));
                                assert(point_valid(times(ks[j], gv)));
                            }
                        }
                        return Err(SignatureError::BadKey);
                    },
                };
                let ghost before = seen@;
                let ghost old_sum = point_view(sum);
                seen.push(cb);
                sum = point_add(&sum, &p);
                proof {
                    let u2 = u.push(compressed_view(c));
                    assert(u2.drop_last() =~= u);
                    lemma_distinct_prefix(who@, i + 1);
                    assert(distinct_keys(who@.take(i + 1)) == u2);
                    let j = u.len() as int;
                    assert(u2[j] == compressed_view(c));
                    assert forall|ks: Seq<nat>| #[trigger] multiples(distinct_keys(who@), ks, gv) implies point_view(sum)
                        == times(mod_sum(ks.take(j + 1)), gv) by {
                        assert(distinct_keys(who@)[j] == u2[j]);
                        assert(ks[j] < group_order() && distinct_keys(who@)[j] == times(ks[j], gv));
                        lemma_mod_sum_bound(ks.take(j));
                        assert(old_sum == times(mod_sum(ks.take(j)), gv));
                        assert(point_view(p) == times(ks[j], gv));
                        assert(ks.take(j + 1).drop_last() =~= ks.take(j));
                        assert(ks.take(j + 1).last() == ks[j]);
                    }
                    assert forall|q: int| 0 <= q < seen@.len() implies (#[trigger] seen@[q])@ == u2[q] by {
                        if q < before.len() {
                            assert(seen@[q] == before[q]);
                        }
                    }
                }
            }
            i = i + 1;
        }
        proof {
            assert(who@.take(who@.len() as int) =~= who@);
        }
        let x = match point_decompress(xt) {
            Some(x) => x,
            None => {
                return Err(SignatureError::BadKey);
            },
        };
        let es = point_mul(&e, &sum);
        let right = point_add(&x, &es);
        let lc = point_compress(&left);
        let rc = point_compress(&right);
        let lb = compressed_bytes(&lc);
        let rb = compressed_bytes(&rc);
        proof {
            assert(m@ == message@ + compressed_view(*xt));
            assert forall|ks: Seq<nat>, rv: nat, yv: nat|
                #[trigger] group_signed(ks, rv, yv, scalar_view(*yt), compressed_view(*xt), message@, who@, gv)
                implies point_view(left) == point_view(right) by {
                let l = group_order() as int;
                let ev = hash_scalar(m@);
                let ms = mod_sum(ks);
                lemma_mod_sum_bound(ks);
                assert(ks.take(ks.len() as int) =~= ks);
                assert(point_view(sum) == times(ms, gv));
                lemma_reduced_roundtrip(ev);
                assert(scalar_value(e) == ev);
                assert(point_view(es) == times((ev * ms) % group_order(), gv));
                assert(point_view(x) == times(rv, gv));
                assert(point_view(right) == times((rv + (ev * ms) % group_order()) % group_order(), gv));
                vstd::arithmetic::div_mod::lemma_add_mod_noop(rv as int, (ev * ms) as int, l);
                vstd::arithmetic::div_mod::lemma_small_mod(rv, group_order());
                vstd::arithmetic::div_mod::lemma_mod_twice((ev * ms) as int, l);
                assert((rv + (ev * ms) % group_order()) % group_order() == (rv + ev * ms) % group_order());
            }
        }
        Ok(same_bytes32(&lb, &rb))
    }

    /// The sum of the members' shares, reduced modulo the group order.
    pub fn sum_group_y(y: &Vec<Scalar>) -> (t: Scalar)
        requires
            forall|i: int| 0 <= i < y@.len() ==> reduced(#[trigger] y@[i]),
        ensures
            scalar_value(t) == scalar_sum(y@),
            scalar_view(t) == le_encode(scalar_sum(y@), 32),
            reduced(t),
    {
        let mut t = scalar_zero();
        proof {
            lemma_reduced_roundtrip(0);
            assert(y@.take(0) =~= Seq::<Scalar>::empty());
        }
        let mut i: usize = 0;
        while i < y.len()
            invariant
                i <= y@.len(),
                forall|k: int| 0 <= k < y@.len() ==> reduced(#[trigger] y@[k]),
                scalar_value(t) == scalar_sum(y@.take(i as int)),
                scalar_view(t) == le_encode(scalar_sum(y@.take(i as int)), 32),
                reduced(t),
            decreases y@.len() - i,
        {
            proof {
                assert(y@.take(i + 1).drop_last() =~= y@.take(i as int));
                assert(y@.take(i + 1).last() == y@[i as int]);
                assert(reduced(y@[i as int]));
                if i > 0 {
                    assert(scalar_sum(y@.take(i as int)) < group_order());
                }
            }
            t = scalar_add(t, y[i]);
            proof {
                lemma_reduced_roundtrip((scalar_sum(y@.take(i as int)) + scalar_value(y@[i as int])) % group_order());
            }
            i = i + 1;
        }
        assert(y@.take(y@.len() as int) =~= y@);
        t
    }
}

/// The scalar from which a member with `key` draws its group point at height
/// `nonce`: the digest of the height's 8 little-endian bytes followed by the key.
pub open spec fn nonce_scalar(key: Scalar, nonce: u64) -> nat {
    hash_scalar(le_encode(nonce as nat, 8) + scalar_view(key))
}

/// Shares `e·k + r` summed modulo the order are the summed `r` plus `e` times
/// the summed `k`.
proof fn lemma_share_sum(ys: Seq<Scalar>, ks: Seq<nat>, rs: Seq<nat>, e: nat)
    requires
        ys.len() == ks.len(),
        ys.len() == rs.len(),
        forall|i: int| 0 <= i < ys.len() ==> scalar_value(#[trigger] ys[i]) == (e * ks[i] + rs[i]) % group_order(),
    ensures
        scalar_sum(ys) == (mod_sum(rs) + e * mod_sum(ks)) % group_order(),
    decreases ys.len(),
{
    if ys.len() > 0 {
        let n = ys.len() - 1;
        let (ys1, ks1, rs1) = (ys.drop_last(), ks.drop_last(), rs.drop_last());
        assert forall|i: int| 0 <= i < ys1.len() implies scalar_value(#[trigger] ys1[i]) == (e * ks1[i] + rs1[i])
            % group_order() by {
            assert(ys1[i] == ys[i] && ks1[i] == ks[i] && rs1[i] == rs[i]);
        }
        lemma_share_sum(ys1, ks1, rs1, e);
        let l = group_order() as int;
        let big_r = mod_sum(rs1) as int;
        let big_k = mod_sum(ks1) as int;
        let k = ks[n] as int;
        let r = rs[n] as int;
        let ei = e as int;
        assert(scalar_value(ys[n]) == (ei * k + r) % l);
        vstd::arithmetic::div_mod::lemma_add_mod_noop(big_r + ei * big_k, ei * k + r, l);
        vstd::arithmetic::div_mod::lemma_add_mod_noop_right(ei * ((big_k + k) % l), big_r + r, l);
        vstd::arithmetic::div_mod::lemma_add_mod_noop_right(big_r + r, ei * ((big_k + k) % l), l);
        vstd::arithmetic::div_mod::lemma_add_mod_noop_right(big_r + r, ei * (big_k + k), l);
        vstd::arithmetic::div_mod::lemma_mul_mod_noop_right(ei, big_k + k, l);
        assert(ei * (big_k + k) == ei * big_k + ei * k) by (nonlinear_arith);
        assert(scalar_sum(ys) == ((big_r + ei * big_k) % l + (ei * k + r) % l) % l);
        assert(mod_sum(rs) == (big_r + r) % l);
        assert(mod_sum(ks) == (big_k + k) % l);
        let t = ei * ((big_k + k) % l);
        assert(((big_r + r) % l + t) % l == (big_r + r + t) % l);
        assert((big_r + r + t) % l == (big_r + r + ei * (big_k + k)) % l);
        assert(scalar_sum(ys) == (big_r + ei * big_k + (ei * k + r)) % l);
        assert(e * mod_sum(ks) == t);
        assert(big_r + ei * big_k + (ei * k + r) == big_r + r + ei * (big_k + k));
        assert((big_r + ei * big_k + (ei * k + r)) % l == (big_r + r + ei * (big_k + k)) % l);
        assert((mod_sum(rs) + e * mod_sum(ks)) % group_order() == ((big_r + r) % l + t) % l);
    } else {
        assert(mod_sum(ks) == 0 && mod_sum(rs) == 0);
        assert(e * mod_sum(ks) == 0);
    }
}

/// Keys that are pairwise different are each their own first occurrence.
proof fn lemma_distinct_keys_all(who: Seq<CompressedRistretto>)
    requires
        forall|i: int, j: int|
            #![trigger who[i], who[j]]
            0 <= i < j < who.len() ==> compressed_view(who[i]) != compressed_view(who[j]),
    ensures
        distinct_keys(who) == who.map_values(|c: CompressedRistretto| compressed_view(c)),
    decreases who.len(),
{
    if who.len() > 0 {
        let w = who.drop_last();
        assert forall|i: int, j: int|
            #![trigger w[i], w[j]]
            0 <= i < j < w.len() implies compressed_view(w[i]) != compressed_view(w[j]) by {
            assert(w[i] == who[i] && w[j] == who[j]);
        }
        lemma_distinct_keys_all(w);
        let u = distinct_keys(w);
        let last = who.len() - 1;
        if u.contains(compressed_view(who.last())) {
            let q = choose|q: int| 0 <= q < u.len() && u[q] == compressed_view(who.last());
            assert(w[q] == who[q]);
            assert(compressed_view(who[q]) != compressed_view(who[last]));
        }
        assert(distinct_keys(who) =~= who.map_values(|c: CompressedRistretto| compressed_view(c)));
    }
}

/// Taking out the element at `j` and adding it back last leaves the sum modulo
/// the order unchanged.
proof fn lemma_mod_sum_remove(xs: Seq<nat>, j: int)
    requires
        0 <= j < xs.len(),
    ensures
        mod_sum(xs) == (mod_sum(xs.remove(j)) + xs[j]) % group_order(),
    decreases xs.len(),
{
    let l = group_order() as int;
    let n = xs.len() - 1;
    if j == n {
        assert(xs.remove(j) =~= xs.drop_last());
    } else {
        let d = xs.drop_last();
        lemma_mod_sum_remove(d, j);
        assert(xs.remove(j).drop_last() =~= d.remove(j));
        assert(xs.remove(j).last() == xs[n]);
        let m = mod_sum(d.remove(j)) as int;
        let a = xs[j] as int;
        let z = xs[n] as int;
        vstd::arithmetic::div_mod::lemma_add_mod_noop_right(z, m + a, l);
        vstd::arithmetic::div_mod::lemma_add_mod_noop_right(a, m + z, l);
        assert(mod_sum(xs) == ((m + a) % l + z) % l);
        assert(mod_sum(xs.remove(j)) == (m + z) % l);
        assert(((m + a) % l + z) % l == (m + a + z) % l);
        assert(((m + z) % l + a) % l == (m + z + a) % l);
    }
}

/// Keys listed in another order sum to the same value modulo the order.
proof fn lemma_key_sum_reordered(a: Seq<Scalar>, b: Seq<Scalar>)
    requires
        a.to_multiset() == b.to_multiset(),
    ensures
        mod_sum(a.map_values(|k: Scalar| scalar_value(k))) == mod_sum(b.map_values(|k: Scalar| scalar_value(k))),
    decreases a.len(),
{
    broadcast use vstd::seq_lib::group_to_multiset_ensures, vstd::multiset::group_multiset_axioms;

    let f = |k: Scalar| scalar_value(k);
    if a.len() == 0 {
        assert(a.to_multiset().len() == 0 && b.to_multiset().len() == b.len());
        assert(b.len() == 0);
        assert(a.map_values(f) =~= Seq::<nat>::empty());
        assert(b.map_values(f) =~= Seq::<nat>::empty());
    } else {
        let x = a.last();
        let a1 = a.drop_last();
        assert(a1.push(x) =~= a);
        assert(a.to_multiset() == a1.to_multiset().insert(x));
        assert(b.to_multiset().count(x) > 0);
        assert(b.contains(x));
        let j = choose|j: int| 0 <= j < b.len() && b[j] == x;
        let b1 = b.remove(j);
        assert(b1.to_multiset() == b.to_multiset().remove(x));
        assert(a1.to_multiset() =~= b1.to_multiset());
        lemma_key_sum_reordered(a1, b1);
        assert(a.map_values(f).drop_last() =~= a1.map_values(f));
        assert(b.map_values(f).remove(j) =~= b1.map_values(f));
        lemma_mod_sum_remove(b.map_values(f), j);
    }
}

/// A group signature passes the group check for its own signers. Let each member
/// hold a reduced 32-byte key `keys[i]`; let `xt` be `(sum of the nonce scalars) · G`,
/// which is what `sum_group_x` makes of the members' points from `gen_group_x`;
/// let `ys` be the members' shares for `xt`, as `try_get_y` makes them; and let
/// `who` list the public keys `signers[i] · G` of the same members, in any order
/// (`signers` holds the members' keys in that order), each once. Then the summed
/// shares with `xt` are a group signature of those keys, which `verify_group`
/// answers with `Ok(true)`.
pub proof fn law_group_signature_verifies(
    keys: Seq<Scalar>,
    nonce: u64,
    message: Seq<u8>,
    g: Seq<u8>,
    xt: Seq<u8>,
    ys: Seq<Scalar>,
    signers: Seq<Scalar>,
    who: Seq<CompressedRistretto>,
)
    requires
        point_valid(g),
        forall|i: int| 0 <= i < keys.len() ==> scalar_view(#[trigger] keys[i]).len() == 32 && reduced(keys[i]),
        xt == times(mod_sum(keys.map_values(|k: Scalar| nonce_scalar(k, nonce))), g),
        ys.len() == keys.len(),
        forall|i: int|
            0 <= i < ys.len() ==> scalar_value(#[trigger] ys[i]) == (hash_scalar(message + xt) * scalar_value(keys[i])
                + nonce_scalar(keys[i], nonce)) % group_order(),
        signers.to_multiset() == keys.to_multiset(),
        who.len() == signers.len(),
        forall|i: int|
            0 <= i < who.len() ==> compressed_view(#[trigger] who[i]) == point_mul_spec(scalar_view(signers[i]), g),
        forall|i: int, j: int|
            #![trigger who[i], who[j]]
            0 <= i < j < who.len() ==> compressed_view(who[i]) != compressed_view(who[j]),
    ensures
        group_signed(
            signers.map_values(|k: Scalar| scalar_value(k)),
            mod_sum(keys.map_values(|k: Scalar| nonce_scalar(k, nonce))),
            scalar_sum(ys),
            le_encode(scalar_sum(ys), 32),
            xt,
            message,
            who,
            g,
        ),
{
    broadcast use vstd::seq_lib::group_to_multiset_ensures;

    let ks = keys.map_values(|k: Scalar| scalar_value(k));
    let ws = signers.map_values(|k: Scalar| scalar_value(k));
    let rs = keys.map_values(|k: Scalar| nonce_scalar(k, nonce));
    let e = hash_scalar(message + xt);
    lemma_distinct_keys_all(who);
    let dk = distinct_keys(who);
    assert forall|i: int| 0 <= i < ws.len() implies #[trigger] ws[i] < group_order() && dk[i] == times(ws[i], g) by {
        let s = signers[i];
        assert(signers.to_multiset().count(s) > 0);
        assert(keys.to_multiset().count(s) > 0);
        assert(keys.contains(s));
        let q = choose|q: int| 0 <= q < keys.len() && keys[q] == s;
        assert(scalar_view(keys[q]).len() == 32 && reduced(keys[q]));
        crate::codec::lemma_le_decode_encode(scalar_view(s));
        assert(dk[i] == compressed_view(who[i]));
    }
    assert(multiples(dk, ws, g));
    assert forall|i: int| 0 <= i < ys.len() implies scalar_value(#[trigger] ys[i]) == (e * ks[i] + rs[i])
        % group_order() by {
        assert(ks[i] == scalar_value(keys[i]) && rs[i] == nonce_scalar(keys[i], nonce));
    }
    lemma_share_sum(ys, ks, rs, e);
    lemma_key_sum_reordered(keys, signers);
    lemma_mod_sum_bound(rs);
    assert(mod_sum(rs) + e * mod_sum(ks) == e * mod_sum(ks) + mod_sum(rs));
}

/// The first position at which `x` occurs in `s` (or `s.len()` when it does not).
pub open spec fn first_index(s: Seq<u64>, x: u64) -> int
    decreases s.len(),
{
    if s.len() == 0 {
        0
    } else if s[0] == x {
        0
    } else {
        1 + first_index(s.drop_first(), x)
    }
}

proof fn lemma_first_index(s: Seq<u64>, x: u64, i: int)
    requires
        0 <= i < s.len(),
        s[i] == x,
        forall|k: int| 0 <= k < i ==> s[k] != x,
    ensures
        first_index(s, x) == i,
    decreases i,
{
    if i > 0 {
        assert(s.drop_first()[i - 1] == x);
        lemma_first_index(s.drop_first(), x, i - 1);
    }
}

// ---------------------------------------------------------------------------
// Committee selection.

/// Sum of the first `n` stakes.
pub open spec fn stake_prefix(y: Seq<u64>, n: int) -> int
    decreases n,
{
    if n <= 0 {
        0
    } else {
        stake_prefix(y, n - 1) + y[n - 1]
    }
}

pub open spec fn total_stake(y: Seq<u64>) -> int {
    stake_prefix(y, y.len() as int)
}

/// The first staker from position `i` on whose cumulative stake reaches `target`,
/// or 0 when none does.
pub open spec fn first_reaching(y: Seq<u64>, target: int, i: int) -> int
    decreases y.len() - i,
{
    if i < 0 || i >= y.len() {
        0
    } else if target <= stake_prefix(y, i + 1) {
        i
    } else {
        first_reaching(y, target, i + 1)
    }
}

/// The staker that draw `c` selects: the first whose cumulative stake reaches
/// `c % total`.
pub open spec fn stake_pick(y: Seq<u64>, c: u64) -> int {
    first_reaching(y, (c as int) % total_stake(y), 0)
}

/// The stakes of a staker table.
pub open spec fn stakes(stkstate: Seq<(CompressedRistretto, u64)>) -> Seq<u64> {
    stkstate.map_values(|e: (CompressedRistretto, u64)| e.1)
}

proof fn lemma_prefix_bounds(y: Seq<u64>, n: int)
    requires
        0 <= n <= y.len(),
    ensures
        0 <= stake_prefix(y, n) <= n * 0xffff_ffff_ffff_ffff,
        forall|m: int| 0 <= m <= n ==> stake_prefix(y, m) <= stake_prefix(y, n),
    decreases n,
{
    if n > 0 {
        lemma_prefix_bounds(y, n - 1);
    }
}

proof fn lemma_first_reaching_skip(y: Seq<u64>, target: int, i: int)
    requires
        0 <= i <= y.len(),
        forall|k: int| 0 <= k < i ==> target > #[trigger] stake_prefix(y, k + 1),
    ensures
        first_reaching(y, target, 0) == first_reaching(y, target, i),
    decreases i,
{
    if i > 0 {
        lemma_first_reaching_skip(y, target, i - 1);
    }
}

/// The staker that draw `c` selects among `y`.
pub fn stake_winner(y: &Vec<u64>, c: u64) -> (w: usize)
    requires
        total_stake(y@) > 0,
    ensures
        w == stake_pick(y@, c),
        w < y@.len(),
{
    let ghost n = y@.len() as int;
    proof {
        lemma_prefix_bounds(y@, n);
    }
    let mut tot: u128 = 0;
    let mut i: usize = 0;
    while i < y.len()
        invariant
            i <= y@.len(),
            n == y@.len(),
            tot == stake_prefix(y@, i as int),
            stake_prefix(y@, n) <= n * 0xffff_ffff_ffff_ffff,
            forall|m: int| 0 <= m <= n ==> stake_prefix(y@, m) <= stake_prefix(y@, n),
        decreases y@.len() - i,
    {
        tot = tot + y[i] as u128;
        i = i + 1;
    }
    let ghost target = (c as int) % total_stake(y@);
    let m: u128 = (c as u128) % tot;
    proof {
        vstd::arithmetic::div_mod::lemma_mod_decreases(c as nat, tot as nat);
        assert(m == target);
    }
    let mut staker: i128 = m as i128;
    let mut w: usize = 0;
    let mut i: usize = 0;
    while i < y.len()
        invariant
            i <= y@.len(),
            n == y@.len(),
            tot == total_stake(y@),
            target == (c as int) % total_stake(y@),
            staker == target - stake_prefix(y@, i as int),
            0 <= staker <= target <= c,
            0 <= target < total_stake(y@),
            forall|k: int| 0 <= k < i ==> target > #[trigger] stake_prefix(y@, k + 1),
            w == 0,
        decreases y@.len() - i,
    {
        staker = staker - y[i] as i128;
        if staker <= 0 {
            proof {
                lemma_first_reaching_skip(y@, target, i as int);
            }
            return i;
        }
        i = i + 1;
    }
    proof {
        if n > 0 {
            assert(target > stake_prefix(y@, (n - 1) + 1));
        }
    }
    w
}

/// Queue, exit queue and committee after one selection round with winner draws
/// `wd` and loser draws `ld`: each winner draw appends the staker it picks to the
/// queue, each loser draw appends a committee seat to the exit queue; the first
/// `REPLACERATE` of each queue are taken off, and each taken seat gets the
/// matching taken staker.
pub open spec fn selection_outcome(
    queue: Seq<usize>,
    exitqueue: Seq<usize>,
    comittee: Seq<usize>,
    y: Seq<u64>,
    wd: Seq<u64>,
    ld: Seq<u64>,
) -> (Seq<usize>, Seq<usize>, Seq<usize>) {
    let q = queue + seq![stake_pick(y, wd[0]) as usize, stake_pick(y, wd[1]) as usize];
    let e = exitqueue + seq![(ld[0] % (NUMBER_OF_VALIDATORS as u64)) as usize, (ld[1] % (NUMBER_OF_VALIDATORS as u64)) as usize];
    (q.skip(2), e.skip(2), comittee.update(e[0] as int, q[0]).update(e[1] as int, q[1]))
}

/// The exit queue with the seats drawn by `ld` appended: its first
/// `REPLACERATE` entries are the seats the round replaces.
pub open spec fn drawn_seats(exitqueue: Seq<usize>, ld: Seq<u64>) -> Seq<usize> {
    exitqueue + seq![
        (ld[0] % (NUMBER_OF_VALIDATORS as u64)) as usize,
        (ld[1] % (NUMBER_OF_VALIDATORS as u64)) as usize,
    ]
}

/// One committee selection round, given the winner and loser draws.
pub fn apply_selection(
    wd: &Vec<u64>,
    ld: &Vec<u64>,
    queue: &mut VecDeque<usize>,
    exitqueue: &mut VecDeque<usize>,
    comittee: &mut Vec<usize>,
    y: &Vec<u64>,
)
    requires
        wd@.len() == REPLACERATE,
        ld@.len() == REPLACERATE,
        total_stake(y@) > 0,
        forall|k: int|
            0 <= k < REPLACERATE ==> (#[trigger] drawn_seats(old(exitqueue)@, ld@)[k] as int) < old(
                comittee,
            )@.len(),
    ensures
        (final(queue)@, final(exitqueue)@, final(comittee)@) == selection_outcome(
            old(queue)@,
            old(exitqueue)@,
            old(comittee)@,
            y@,
            wd@,
            ld@,
        ),
{
    let w0 = stake_winner(y, wd[0]);
    let w1 = stake_winner(y, wd[1]);
    queue.push_back(w0);
    queue.push_back(w1);
    let a0 = queue.pop_front().unwrap();
    let a1 = queue.pop_front().unwrap();
    let l0 = (ld[0] % (NUMBER_OF_VALIDATORS as u64)) as usize;
    let l1 = (ld[1] % (NUMBER_OF_VALIDATORS as u64)) as usize;
    exitqueue.push_back(l0);
    exitqueue.push_back(l1);
    let b0 = exitqueue.pop_front().unwrap();
    let b1 = exitqueue.pop_front().unwrap();
    proof {
        let q = old(queue)@ + seq![w0, w1];
        let e = old(exitqueue)@ + seq![l0, l1];
        assert(queue@ =~= q.skip(2));
        assert(exitqueue@ =~= e.skip(2));
        assert(a0 == q[0] && a1 == q[1]);
        assert(b0 == e[0] && b1 == e[1]);
        assert(e =~= drawn_seats(old(exitqueue)@, ld@));
        assert((drawn_seats(old(exitqueue)@, ld@)[0] as int) < old(comittee)@.len());
        assert((drawn_seats(old(exitqueue)@, ld@)[1] as int) < old(comittee)@.len());
    }
    comittee.set(b0, a0);
    comittee.set(b1, a1);
}

/// The input the selection hasher absorbs for draw `x`: the block, the 8
/// little-endian bytes of the height, then the 8 little-endian bytes of `x`.
pub open spec fn draw_input(block: Seq<u8>, bnum: u64, x: nat) -> Seq<u8> {
    block + le_encode(bnum as nat, 8) + le_encode(x, 8)
}

/// `ds` are the `REPLACERATE` draws of the hasher keyed `(key1, shard)`: draw `x`
/// is its digest of `draw_input(block, bnum, x)`.
pub open spec fn draws_from(ds: Seq<KeyedDigest>, key1: u128, shard: u128, block: Seq<u8>, bnum: u64) -> bool {
    &&& ds.len() == REPLACERATE
    &&& forall|x: int|
        0 <= x < REPLACERATE ==> (#[trigger] ds[x]).source() == (
            (key1, shard),
            draw_input(block, bnum, x as nat),
        )
}

/// Draws `REPLACERATE` values from the hasher keyed `(key1, shard)` after it has
/// absorbed `block` and the little-endian bytes of `bnum`: draw `x` is the digest
/// after the 8 little-endian bytes of `x`, each from a fresh copy of that state.
fn draw(key1: u128, shard: u128, block: &Vec<u8>, bnum: u64) -> (d: Vec<KeyedDigest>)
    ensures
        draws_from(d@, key1, shard, block@, bnum),
{
    let mut s = KeyedHasher::new_with_keys(key1, shard);
    s.write(block.as_slice());
    let bn = le_bytes(bnum as u128, 8);
    s.write(bn.as_slice());
    let mut out: Vec<KeyedDigest> = Vec::new();
    let mut x: usize = 0;
    while x < REPLACERATE
        invariant
            x <= REPLACERATE,
            out@.len() == x,
            s.keys() == (key1, shard),
            s.absorbed() == block@ + le_encode(bnum as nat, 8),
            forall|k: int|
                0 <= k < x ==> (#[trigger] out@[k]).source() == (
                    (key1, shard),
                    draw_input(block@, bnum, k as nat),
                ),
        decreases REPLACERATE - x,
    {
        let mut t = s.duplicate();
        let xb = le_bytes(x as u128, 8);
        t.write(xb.as_slice());
        out.push(t.finish());
        x = x + 1;
    }
    out
}

/// Every seat the round replaces names a committee seat: the exit queue's first
/// `REPLACERATE` entries, and, where the exit queue is shorter than that, the drawn
/// seats (below `NUMBER_OF_VALIDATORS`).
pub open spec fn seats_in_range(exitqueue: Seq<usize>, comittee: Seq<usize>) -> bool {
    &&& forall|i: int|
        0 <= i < exitqueue.len() && i < REPLACERATE ==> #[trigger] exitqueue[i] < comittee.len()
    &&& exitqueue.len() < REPLACERATE ==> comittee.len() >= NUMBER_OF_VALIDATORS
}

/// Replaces `REPLACERATE` committee seats: winners are drawn by stake with the
/// hasher keyed `(0, shard)`, seats by the hasher keyed `(1, shard)`, both over
/// `block` and `bnum`.
pub fn select_stakers(
    block: &Vec<u8>,
    bnum: &u64,
    shard: &u128,
    queue: &mut VecDeque<usize>,
    exitqueue: &mut VecDeque<usize>,
    comittee: &mut Vec<usize>,
    stkstate: &Vec<(CompressedRistretto, u64)>,
) -> (d: (Vec<KeyedDigest>, Vec<KeyedDigest>))
    requires
        total_stake(stakes(stkstate@)) > 0,
        seats_in_range(old(exitqueue)@, old(comittee)@),
    ensures
        draws_from(d.0@, 0, *shard, block@, *bnum),
        draws_from(d.1@, 1, *shard, block@, *bnum),
        (final(queue)@, final(exitqueue)@, final(comittee)@) == selection_outcome(
            old(queue)@,
            old(exitqueue)@,
            old(comittee)@,
            stakes(stkstate@),
            digest_values(d.0@),
            digest_values(d.1@),
        ),
{
    let mut y: Vec<u64> = Vec::new();
    let mut i: usize = 0;
    while i < stkstate.len()
        invariant
            i <= stkstate@.len(),
            y@ =~= stakes(stkstate@).take(i as int),
        decreases stkstate@.len() - i,
    {
        y.push(stkstate[i].1);
        i = i + 1;
    }
    assert(y@ =~= stakes(stkstate@));
    let wdg = draw(0, *shard, block, *bnum);
    let ldg = draw(1, *shard, block, *bnum);
    let wd = values_of(&wdg);
    let ld = values_of(&ldg);
    proof {
        assert forall|k: int| 0 <= k < REPLACERATE implies (#[trigger] drawn_seats(exitqueue@, ld@)[k] as int)
            < comittee@.len() by {
            if k < exitqueue@.len() {
                assert(drawn_seats(exitqueue@, ld@)[k] == exitqueue@[k]);
            } else {
                assert(drawn_seats(exitqueue@, ld@)[k] < NUMBER_OF_VALIDATORS);
            }
        }
    }
    apply_selection(&wd, &ld, queue, exitqueue, comittee, &y);
    (wdg, ldg)
}

} // verus!
