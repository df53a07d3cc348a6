//! Random alphanumeric passwords for new wallets, and the key seed derived from
//! a player's three passwords.
use crate::codec::le_encode;
use crate::curve::{scalar_bytes, scalar_from_wide};
use crate::sha::sha3_512;
use crate::validation::hash_scalar;
use vstd::prelude::*;
use vstd::utf8::encode_utf8;

verus! {

/// `getrandom::Error`, carried as an opaque value.
#[verifier::external_type_specification]
#[verifier::external_body]
pub struct ExGetrandomError(getrandom::Error);

/// Calls `getrandom::getrandom`, which fills `dest` from the system's source of
/// randomness; the bytes it writes are not known, only the length is kept.
#[verifier::external_body]
fn fill_random(dest: &mut Vec<u8>) -> (r: Result<(), getrandom::Error>)
    ensures
        final(dest)@.len() == old(dest)@.len(),
{
    getrandom::getrandom(dest.as_mut_slice())
}

/// Calls `String::push`.
#[verifier::external_body]
fn string_push(s: &mut String, c: char)
    ensures
        final(s)@ == old(s)@.push(c),
{
    s.push(c)
}

/// The system's source of randomness failed.
#[derive(Clone, Copy, Debug, PartialEq, Eq, Structural)]
pub enum RandomnessError {
    Unavailable,
}

/// Number of characters in a password.
pub const PSWRD_LEN: usize = 20;

/// Number of random bytes drawn per attempt.
pub const PSWRD_DRAW: usize = 40;

/// The bytes of `s` below 248 (so that reducing them modulo 62 is unbiased), in order.
pub open spec fn usable_bytes(s: Seq<u8>) -> Seq<u8>
    decreases s.len(),
{
    if s.len() == 0 {
        s
    } else if s.last() < 248 {
        usable_bytes(s.drop_last()).push(s.last())
    } else {
        usable_bytes(s.drop_last())
    }
}

/// The character a usable byte maps to: `x % 62` indexes `0-9`, `A-Z`, `a-z`.
pub open spec fn pswrd_char(x: u8) -> char {
    let c = (x % 62) + 48;
    let c = if c > 57 {
        c + 7
    } else {
        c
    };
    let c = if c > 90 {
        c + 6
    } else {
        c
    };
    c as char
}

pub open spec fn is_alphanumeric(c: char) -> bool {
    ('0' <= c <= '9') || ('A' <= c <= 'Z') || ('a' <= c <= 'z')
}

fn pswrd_char_exec(x: u8) -> (c: char)
    ensures
        c == pswrd_char(x),
        is_alphanumeric(c),
{
    let mut v: u8 = x % 62;
    v = v + 48;
    if v > 57 {
        v = v + 7;
    }
    if v > 90 {
        v = v + 6;
    }
    v as char
}

/// A password from the random bytes `bytes`: the first `PSWRD_LEN` usable bytes,
/// each mapped to an alphanumeric character; `None` when there are too few.
pub fn pswrd_from_bytes(bytes: &Vec<u8>) -> (r: Option<String>)
    ensures
        r is Some <==> usable_bytes(bytes@).len() >= PSWRD_LEN,
        r matches Some(s) ==> s@ == usable_bytes(bytes@).take(PSWRD_LEN as int).map_values(
            |x: u8| pswrd_char(x),
        ),
{
    let mut kept: Vec<u8> = Vec::new();
    let mut i: usize = 0;
    while i < bytes.len() && kept.len() < PSWRD_LEN
        invariant
            i <= bytes@.len(),
            kept@.len() <= PSWRD_LEN,
            kept@.len() <= usable_bytes(bytes@.take(i as int)).len(),
            kept@ == usable_bytes(bytes@.take(i as int)).take(kept@.len() as int),
            kept@.len() < PSWRD_LEN ==> kept@ == usable_bytes(bytes@.take(i as int)),
        decreases bytes@.len() - i,
    {
        assert(bytes@.take(i + 1).drop_last() =~= bytes@.take(i as int));
        if bytes[i] < 248 {
            kept.push(bytes[i]);
        }
        i = i + 1;
    }
    proof {
        lemma_usable_prefix(bytes@, i as int);
        if i == bytes@.len() {
            assert(bytes@.take(i as int) =~= bytes@);
        }
    }
    if kept.len() < PSWRD_LEN {
        return None;
    }
    assert(kept@ =~= usable_bytes(bytes@).take(PSWRD_LEN as int)) by {
        assert forall|k: int| 0 <= k < PSWRD_LEN implies kept@[k] == usable_bytes(bytes@)[k] by {
            assert(kept@[k] == usable_bytes(bytes@.take(i as int))[k]);
        }
    }
    let mut s = String::new();
    let mut k: usize = 0;
    while k < kept.len()
        invariant
            k <= kept@.len(),
            kept@ == usable_bytes(bytes@).take(PSWRD_LEN as int),
            usable_bytes(bytes@).len() >= PSWRD_LEN,
            s@ == kept@.take(k as int).map_values(|x: u8| pswrd_char(x)),
        decreases kept@.len() - k,
    {
        let c = pswrd_char_exec(kept[k]);
        string_push(&mut s, c);
        proof {
            assert(kept@.take(k + 1).map_values(|x: u8| pswrd_char(x)) =~= kept@.take(
                k as int,
            ).map_values(|x: u8| pswrd_char(x)).push(c));
        }
        k = k + 1;
    }
    proof {
        assert(kept@.take(kept@.len() as int) =~= kept@);
    }
    Some(s)
}

/// The usable bytes of a prefix are a prefix of the usable bytes.
proof fn lemma_usable_prefix(s: Seq<u8>, i: int)
    requires
        0 <= i <= s.len(),
    ensures
        usable_bytes(s.take(i)).len() <= usable_bytes(s).len(),
        forall|k: int|
            0 <= k < usable_bytes(s.take(i)).len() ==> usable_bytes(s.take(i))[k] == usable_bytes(
                s,
            )[k],
    decreases s.len() - i,
{
    if i < s.len() {
        lemma_usable_prefix(s, i + 1);
        assert(s.take(i + 1).drop_last() =~= s.take(i));
    } else {
        assert(s.take(i) =~= s);
    }
}

/// The password made of the bytes `b`, as `pswrd_from_bytes` makes it: the first
/// `PSWRD_LEN` usable bytes mapped to characters, or `None` when there are too few.
pub open spec fn pswrd_of(b: Seq<u8>) -> Option<Seq<char>> {
    if usable_bytes(b).len() >= PSWRD_LEN {
        Some(usable_bytes(b).take(PSWRD_LEN as int).map_values(|x: u8| pswrd_char(x)))
    } else {
        None
    }
}

/// The view of an optional password.
pub open spec fn pswrd_view(o: Option<String>) -> Option<Seq<char>> {
    match o {
        Some(s) => Some(s@),
        None => None,
    }
}

/// One attempt at a random password: draws `PSWRD_DRAW` random bytes and makes a
/// password of them; `Ok(None)` when too few of them were usable, and
/// `Err(Unavailable)` when the system's source of randomness failed.
pub fn random_pswrd_attempt() -> (r: Result<Option<String>, RandomnessError>)
    ensures
        r matches Ok(o) ==> exists|b: Seq<u8>|
            b.len() == PSWRD_DRAW && pswrd_view(o) == #[trigger] pswrd_of(b),
        r matches Ok(Some(s)) ==> s@.len() == PSWRD_LEN && forall|k: int|
            0 <= k < PSWRD_LEN ==> is_alphanumeric(#[trigger] s@[k]),
{
    let mut chars: Vec<u8> = Vec::new();
    while chars.len() < PSWRD_DRAW
        invariant
            chars@.len() <= PSWRD_DRAW,
        decreases PSWRD_DRAW - chars@.len(),
    {
        chars.push(0u8);
    }
    match fill_random(&mut chars) {
        Ok(()) => {},
        Err(_) => {
            return Err(RandomnessError::Unavailable);
        },
    }
    let r = pswrd_from_bytes(&chars);
    proof {
        assert(pswrd_view(r) == pswrd_of(chars@));
        if r is Some {
            let s = r->0;
            assert forall|k: int| 0 <= k < PSWRD_LEN implies is_alphanumeric(#[trigger] s@[k]) by {
                lemma_pswrd_char_alphanumeric(usable_bytes(chars@)[k]);
            }
        }
    }
    Ok(r)
}

/// How many attempts `random_pswrd` makes before it gives up.
pub const PSWRD_ATTEMPTS: u64 = 0xffff_ffff_ffff_ffff;

/// A random password: attempts are made until one has enough usable bytes (at most
/// `PSWRD_ATTEMPTS` of them); `Ok(None)` only when every attempt fell short, and
/// `Err(Unavailable)` as soon as the system's source of randomness fails.
pub fn random_pswrd() -> (r: Result<Option<String>, RandomnessError>)
    ensures
        r matches Ok(Some(s)) ==> exists|b: Seq<u8>|
            b.len() == PSWRD_DRAW && Some(s@) == #[trigger] pswrd_of(b),
        r matches Ok(Some(s)) ==> s@.len() == PSWRD_LEN && forall|k: int|
            0 <= k < PSWRD_LEN ==> is_alphanumeric(#[trigger] s@[k]),
{
    let mut tries: u64 = 0;
    while tries < PSWRD_ATTEMPTS
        decreases PSWRD_ATTEMPTS - tries,
    {
        match random_pswrd_attempt() {
            Ok(Some(p)) => {
                return Ok(Some(p));
            },
            Ok(None) => {},
            Err(e) => {
                return Err(e);
            },
        }
        tries = tries + 1;
    }
    Ok(None)
}

/// Law: every password character is an ASCII digit or letter.
pub proof fn lemma_pswrd_char_alphanumeric(x: u8)
    ensures
        is_alphanumeric(pswrd_char(x)),
{
}


/// The key seed of a player: the scalar of the SHA3-512 digest of the UTF-8 bytes
/// of `b`, then `a`, then `c`, as 32 little-endian bytes.
pub fn get_pswrd(a: &String, b: &String, c: &String) -> (seed: Vec<u8>)
    ensures
        seed@ == le_encode(hash_scalar(encode_utf8(b@) + encode_utf8(a@) + encode_utf8(c@)), 32),
{
    let mut m: Vec<u8> = Vec::new();
    push_str_bytes(&mut m, b);
    push_str_bytes(&mut m, a);
    push_str_bytes(&mut m, c);
    let h = sha3_512(m.as_slice());
    let s = scalar_from_wide(h.as_slice());
    let sb = scalar_bytes(&s);
    let mut seed: Vec<u8> = Vec::new();
    let mut i: usize = 0;
    while i < 32
        invariant
            i <= 32,
            sb@.len() == 32,
            seed@ == sb@.take(i as int),
        decreases 32 - i,
    {
        seed.push(sb[i]);
        proof {
            assert(sb@.take(i + 1) =~= sb@.take(i as int).push(sb@[i as int]));
        }
        i = i + 1;
    }
    assert(sb@.take(32) =~= sb@);
    seed
}

fn push_str_bytes(out: &mut Vec<u8>, s: &String)
    ensures
        final(out)@ == old(out)@ + encode_utf8(s@),
{
    let bytes = s.as_str().as_bytes();
    let ghost start = out@;
    let mut i: usize = 0;
    while i < bytes.len()
        invariant
            i <= bytes@.len(),
            out@ == start + bytes@.take(i as int),
        decreases bytes@.len() - i,
    {
        out.push(bytes[i]);
        proof {
            assert(bytes@.take(i + 1) =~= bytes@.take(i as int).push(bytes@[i as int]));
            assert(out@ =~= start + bytes@.take(i + 1));
        }
        i = i + 1;
    }
    assert(bytes@.take(bytes@.len() as int) =~= bytes@);
}

} // verus!
