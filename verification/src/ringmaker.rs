//! Ring membership encoded as a polynomial over F_P: a sender hides the history
//! positions it spends among `r` ring slots; anyone can decode the slot positions.
use crate::codec::{le_bytes, le_decode, le_encode, le_value, lemma_pow256_values, pow256};
use crate::poly::{
    coefs_bounded, extend_zeros, horner, new_coefs, reduce_mod, poly_clone, poly_coefs, poly_eval, poly_into_coefs, poly_new,
    poly_prime, poly_sub, trem, trim_zero,
};
use crate::sha::{sha3_512, sha3_512_spec};
use crate::sorting::{dedup_i128, dedup_spec, lemma_dedup_sorted, sort_i128, sorted};
use crate::polyalg::{
    lemma_horner_bounded, lemma_horner_pval, lemma_new_bounded, lemma_new_pval, lemma_new_single,
    lemma_pval_cong, lemma_trim_single, pval,
};
use crate::interpolation::{lemma_mod_sub_cong, ring_polynomial, ring_target};
use rand::rngs::ThreadRng;
use rand::Rng;
use vstd::prelude::*;

verus! {

/// The field prime, a little below 2^63.
pub const P: i128 = 9223372036854775783;

/// The two's-complement value of a 128-bit unsigned number.
pub open spec fn signed_128(v: nat) -> int {
    if v < 0x8000_0000_0000_0000_0000_0000_0000_0000 {
        v as int
    } else {
        v - 0x1_0000_0000_0000_0000_0000_0000_0000_0000
    }
}

/// `hash(t)`: the first 16 bytes of SHA3-512 of `t`'s little-endian bytes, read as
/// a little-endian `i128`.
pub open spec fn hash_spec(t: u32) -> int {
    signed_128(le_decode(sha3_512_spec(le_encode(t as nat, 4)).subrange(0, 16)))
}

/// The field value the ring assigns to slot `x`: `hash(x) as u64 % P`.
pub open spec fn slot_hash(x: int) -> int {
    (((hash_spec(x as u32) as i128) as u64) % (P as u64)) as int
}

pub fn hash(t: &u32) -> (r: i128)
    ensures
        r == hash_spec(*t),
{
    let bytes = le_bytes(*t as u128, 4);
    let d = sha3_512(bytes.as_slice());
    let v: u128 = le_value(d.as_slice(), 0, 16);
    proof {
        assert(d@.subrange(0, 16) =~= sha3_512_spec(le_encode(*t as nat, 4)).subrange(0, 16));
    }
    if v < 0x8000_0000_0000_0000_0000_0000_0000_0000 {
        v as i128
    } else {
        ((v - 0x8000_0000_0000_0000_0000_0000_0000_0000) as i128) + i128::MIN
    }
}

fn slot_hash_exec(x: u16) -> (r: u64)
    ensures
        r == slot_hash(x as int),
        r < P,
{
    let hv = hash(&(x as u32));
    (hv as u64) % (P as u64)
}

/// The hashes of slots `0..r`.
fn slot_hashes(r: u16) -> (h: Vec<u64>)
    ensures
        h@.len() == r,
        forall|k: int| 0 <= k < r ==> #[trigger] h@[k] == slot_hash(k) && h@[k] < P,
{
    let mut h: Vec<u64> = Vec::new();
    let mut x: u16 = 0;
    while x < r
        invariant
            x <= r,
            h@.len() == x,
            forall|k: int| 0 <= k < x ==> #[trigger] h@[k] == slot_hash(k) && h@[k] < P,
        decreases r - x,
    {
        let hx = slot_hash_exec(x);
        h.push(hx);
        x = x + 1;
    }
    h
}

// ---------------------------------------------------------------------------
// The wire format of a ring: ring size (2 bytes), `now` (8 bytes), the polynomial
// coefficients (8 bytes each), all little-endian, then a trailing 0 byte.

/// Whether the bytes have the length of a well-formed ring message.
pub open spec fn ring_well_formed(b: Seq<u8>) -> bool {
    b.len() >= 11 && (b.len() - 11) % 8 == 0
}

pub open spec fn ring_size(b: Seq<u8>) -> nat {
    le_decode(b.subrange(0, 2))
}

pub open spec fn ring_now(b: Seq<u8>) -> nat {
    le_decode(b.subrange(2, 10))
}

pub open spec fn ring_coef_count(b: Seq<u8>) -> nat {
    ((b.len() - 11) / 8) as nat
}

/// The coefficients carried by the message, as the `i128`s they are read into.
pub open spec fn ring_coefs(b: Seq<u8>) -> Seq<i128> {
    Seq::new(ring_coef_count(b), |i: int| le_decode(b.subrange(10 + 8 * i, 18 + 8 * i)) as i128)
}

/// The ring polynomial evaluated at slot `x`.
pub open spec fn ring_eval(b: Seq<u8>, x: int) -> int {
    horner(new_coefs(ring_coefs(b), P), x, P as int)
}

/// `(hash of slot x) - (polynomial at x)`, reduced into `0..P`.
pub open spec fn ring_offset(b: Seq<u8>, x: int) -> int {
    (slot_hash(x) - ring_eval(b, x)) % (P as int)
}

/// The history position that slot `x` decodes to.
pub open spec fn ring_place(b: Seq<u8>, x: int) -> int {
    if ring_offset(b, x) == 0 {
        0
    } else {
        ring_offset(b, x) % (ring_now(b) as int)
    }
}

/// Decoding never divides by zero: with `now == 0` every offset must vanish.
pub open spec fn ring_decodable(b: Seq<u8>) -> bool {
    ring_well_formed(b) && (ring_now(b) == 0 ==> forall|x: int|
        0 <= x < ring_size(b) ==> #[trigger] ring_offset(b, x) == 0)
}

/// `v` is the strictly increasing list of the places of slots `0..ring_size(b)`.
pub open spec fn lists_ring_places(v: Seq<u64>, b: Seq<u8>) -> bool {
    &&& forall|i: int, j: int| 0 <= i < j < v.len() ==> v[i] < v[j]
    &&& forall|y: u64|
        v.contains(y) <==> exists|x: int| 0 <= x < ring_size(b) && ring_place(b, x) == y
}

/// The offset of every slot of a well-formed ring message, in slot order.
fn ring_offsets(recieved: &Vec<u8>) -> (o: Vec<i128>)
    requires
        ring_well_formed(recieved@),
    ensures
        o@.len() == ring_size(recieved@),
        forall|x: int| 0 <= x < o@.len() ==> #[trigger] o@[x] == ring_offset(recieved@, x),
{
    let ghost b = recieved@;
    let n = recieved.len();
    proof {
        lemma_pow256_values();
        crate::codec::lemma_le_decode_bound(b.subrange(0, 2));
    }
    let r: u16 = le_value(recieved.as_slice(), 0, 2) as u16;
    let count: usize = (n - 11) / 8;
    let mut coefficients: Vec<i128> = Vec::new();
    let mut i: usize = 0;
    while i < count
        invariant
            i <= count,
            count == ring_coef_count(b),
            n == b.len(),
            b == recieved@,
            ring_well_formed(b),
            pow256(8) == 0x1_0000_0000_0000_0000,
            coefficients@ =~= ring_coefs(b).take(i as int),
        decreases count - i,
    {
        proof {
            crate::codec::lemma_le_decode_bound(b.subrange(10 + 8 * i, 18 + 8 * i));
        }
        let c: u128 = le_value(recieved.as_slice(), 10 + 8 * i, 8);
        coefficients.push(c as i128);
        i = i + 1;
    }
    assert(coefficients@ =~= ring_coefs(b));
    let poly = poly_new(coefficients, P);
    proof {
        lemma_new_bounded(ring_coefs(b), P);
    }
    let h = slot_hashes(r);
    let mut out: Vec<i128> = Vec::new();
    let mut x: u16 = 0;
    while x < r
        invariant
            x <= r,
            r == ring_size(b),
            b == recieved@,
            h@.len() == r,
            forall|k: int| 0 <= k < r ==> #[trigger] h@[k] == slot_hash(k) && h@[k] < P,
            poly_coefs(poly) == new_coefs(ring_coefs(b), P),
            poly_prime(poly) == P,
            coefs_bounded(poly_coefs(poly), P as int),
            out@.len() == x,
            forall|k: int| 0 <= k < x ==> #[trigger] out@[k] == ring_offset(b, k),
        decreases r - x,
    {
        let e = poly_eval(&poly, x as i128);
        proof {
            lemma_horner_bounded(poly_coefs(poly), x as int, P as int);
        }
        assert(h@[x as int] < P);
        let hv: i128 = h[x as usize] as i128;
        let mut d: i128 = hv - e;
        if d < 0 {
            d = d + P;
        } else if d >= P {
            d = d - P;
        }
        proof {
            let dd = hv - e;
            assert(e == ring_eval(b, x as int));
            assert(hv == slot_hash(x as int));
            if dd < 0 {
                assert(dd + P == dd % (P as int)) by {
                    vstd::arithmetic::div_mod::lemma_fundamental_div_mod_converse(dd, P as int, -1, dd + P);
                }
            } else if dd >= P {
                assert(dd - P == dd % (P as int)) by {
                    vstd::arithmetic::div_mod::lemma_fundamental_div_mod_converse(dd, P as int, 1, dd - P);
                }
            } else {
                assert(dd == dd % (P as int)) by {
                    vstd::arithmetic::div_mod::lemma_fundamental_div_mod_converse(dd, P as int, 0, dd);
                }
            }
            assert(d == ring_offset(b, x as int));
        }
        out.push(d);
        x = x + 1;
    }
    out
}

/// `recieve_ring` for any message: `None` where decoding a message would fail
/// (a message ending in 0 that is not 11 bytes plus 8 per coefficient, or whose
/// `now` is 0 while some slot's offset is not), else `Some` of what
/// `recieve_ring` returns.
pub fn recieve_ring_checked(recieved: &Vec<u8>) -> (res: Option<Result<Vec<u64>, &'static str>>)
    ensures
        res is None <==> (recieved@.len() > 0 && recieved@.last() == 0 && !ring_decodable(recieved@)),
        res matches Some(x) ==> (x is Err <==> (recieved@.len() == 0 || recieved@.last() != 0)),
        res matches Some(Err(e)) ==> e@ == "this is not a regular transaction"@,
        res matches Some(Ok(v)) ==> lists_ring_places(v@, recieved@),
{
    let n = recieved.len();
    if n == 0 || recieved[n - 1] != 0 {
        return Some(recieve_ring(recieved));
    }
    if n < 11 || (n - 11) % 8 != 0 {
        return None;
    }
    let ghost b = recieved@;
    proof {
        lemma_pow256_values();
        crate::codec::lemma_le_decode_bound(b.subrange(2, 10));
    }
    let now: u128 = le_value(recieved.as_slice(), 2, 8);
    assert(now == ring_now(b));
    if now == 0 {
        let offs = ring_offsets(recieved);
        let mut x: usize = 0;
        while x < offs.len()
            invariant
                x <= offs@.len(),
                b == recieved@,
                ring_now(b) == 0,
                b.len() > 0 && b.last() == 0,
                offs@.len() == ring_size(b),
                forall|k: int| 0 <= k < offs@.len() ==> #[trigger] offs@[k] == ring_offset(b, k),
                forall|k: int| 0 <= k < x ==> ring_offset(b, k) == 0,
            decreases offs@.len() - x,
        {
            if offs[x] != 0 {
                assert(ring_offset(b, x as int) != 0);
                assert(ring_now(b) == 0);
                assert(0 <= x < ring_size(b));
                assert(!ring_decodable(b));
                return None;
            }
            x = x + 1;
        }
    }
    Some(recieve_ring(recieved))
}

/// The message carrying ring size `r`, `now` and coefficients `coefs`.
pub fn encode_ring(r: u16, now: u64, coefs: &Vec<u64>) -> (send: Vec<u8>)
    requires
        10 + 8 * coefs@.len() + 1 <= usize::MAX,
    ensures
        ring_well_formed(send@),
        send@.last() == 0,
        ring_size(send@) == r,
        ring_now(send@) == now,
        ring_coef_count(send@) == coefs@.len(),
        forall|i: int| 0 <= i < coefs@.len() ==> #[trigger] ring_coefs(send@)[i] == coefs@[i] as i128,
{
    let mut send: Vec<u8> = Vec::new();
    send.append(&mut le_bytes(r as u128, 2));
    send.append(&mut le_bytes(now as u128, 8));
    proof {
        lemma_pow256_values();
        crate::codec::lemma_le_roundtrip(r as nat, 2);
        crate::codec::lemma_le_roundtrip(now as nat, 8);
        assert(send@.subrange(0, 2) =~= le_encode(r as nat, 2));
        assert(send@.subrange(2, 10) =~= le_encode(now as nat, 8));
    }
    let mut i: usize = 0;
    while i < coefs.len()
        invariant
            i <= coefs@.len(),
            10 + 8 * coefs@.len() + 1 <= usize::MAX,
            send@.len() == 10 + 8 * i,
            le_decode(send@.subrange(0, 2)) == r,
            le_decode(send@.subrange(2, 10)) == now,
            forall|q: int| 0 <= q < i ==> #[trigger] le_decode(send@.subrange(10 + 8 * q, 18 + 8 * q))
                == coefs@[q],
        decreases coefs@.len() - i,
    {
        let ghost before = send@;
        let mut b = le_bytes(coefs[i] as u128, 8);
        proof {
            lemma_pow256_values();
            crate::codec::lemma_le_roundtrip(coefs@[i as int] as nat, 8);
        }
        send.append(&mut b);
        proof {
            assert(send@.subrange(0, 2) =~= before.subrange(0, 2));
            assert(send@.subrange(2, 10) =~= before.subrange(2, 10));
            assert forall|q: int| 0 <= q < i + 1 implies #[trigger] le_decode(
                send@.subrange(10 + 8 * q, 18 + 8 * q),
            ) == coefs@[q] by {
                if q < i {
                    assert(send@.subrange(10 + 8 * q, 18 + 8 * q) =~= before.subrange(
                        10 + 8 * q,
                        18 + 8 * q,
                    ));
                } else {
                    assert(send@.subrange(10 + 8 * q, 18 + 8 * q) =~= le_encode(
                        coefs@[i as int] as nat,
                        8,
                    ));
                }
            }
        }
        i = i + 1;
    }
    let ghost before = send@;
    send.push(0u8);
    proof {
        assert(send@.subrange(0, 2) =~= before.subrange(0, 2));
        assert(send@.subrange(2, 10) =~= before.subrange(2, 10));
        assert(ring_coef_count(send@) == coefs@.len());
        assert forall|q: int| 0 <= q < coefs@.len() implies #[trigger] ring_coefs(send@)[q]
            == coefs@[q] as i128 by {
            assert(send@.subrange(10 + 8 * q, 18 + 8 * q) =~= before.subrange(10 + 8 * q, 18 + 8 * q));
            assert(le_decode(before.subrange(10 + 8 * q, 18 + 8 * q)) == coefs@[q]);
        }
    }
    send
}

/// Decodes a ring message into the sorted, de-duplicated history positions of its
/// slots; a message whose last byte is not 0 is refused.
pub fn recieve_ring(recieved: &Vec<u8>) -> (res: Result<Vec<u64>, &'static str>)
    requires
        recieved@.len() > 0 && recieved@.last() == 0 ==> ring_decodable(recieved@),
    ensures
        res is Err <==> (recieved@.len() == 0 || recieved@.last() != 0),
        res matches Err(e) ==> e@ == "this is not a regular transaction"@,
        res matches Ok(v) ==> lists_ring_places(v@, recieved@),
{
    let n = recieved.len();
    if n == 0 || recieved[n - 1] != 0 {
        return Err("this is not a regular transaction");
    }
    let ghost b = recieved@;
    proof {
        lemma_pow256_values();
        crate::codec::lemma_le_decode_bound(b.subrange(0, 2));
        crate::codec::lemma_le_decode_bound(b.subrange(2, 10));
    }
    let r: u16 = le_value(recieved.as_slice(), 0, 2) as u16;
    let now: u64 = le_value(recieved.as_slice(), 2, 8) as u64;
    let count: usize = (n - 11) / 8;
    let mut coefficients: Vec<i128> = Vec::new();
    let mut i: usize = 0;
    while i < count
        invariant
            i <= count,
            count == ring_coef_count(b),
            n == b.len(),
            b == recieved@,
            ring_well_formed(b),
            pow256(8) == 0x1_0000_0000_0000_0000,
            coefficients@ =~= ring_coefs(b).take(i as int),
        decreases count - i,
    {
        proof {
            crate::codec::lemma_le_decode_bound(b.subrange(10 + 8 * i, 18 + 8 * i));
        }
        let c: u128 = le_value(recieved.as_slice(), 10 + 8 * i, 8);
        coefficients.push(c as i128);
        i = i + 1;
    }
    assert(coefficients@ =~= ring_coefs(b));
    let poly = poly_new(coefficients, P);
    proof {
        lemma_new_bounded(ring_coefs(b), P);
    }
    let h = slot_hashes(r);
    let mut places: Vec<i128> = Vec::new();
    let mut x: u16 = 0;
    while x < r
        invariant
            x <= r,
            r == ring_size(b),
            now == ring_now(b),
            b == recieved@,
            ring_decodable(b),
            h@.len() == r,
            forall|k: int| 0 <= k < r ==> #[trigger] h@[k] == slot_hash(k) && h@[k] < P,
            poly_coefs(poly) == new_coefs(ring_coefs(b), P),
            poly_prime(poly) == P,
            coefs_bounded(poly_coefs(poly), P as int),
            places@.len() == x,
            forall|k: int| 0 <= k < x ==> places@[k] == ring_place(b, k),
        decreases r - x,
    {
        let e = poly_eval(&poly, x as i128);
        proof {
            lemma_horner_bounded(poly_coefs(poly), x as int, P as int);
        }
        let t: i128 = if e < 0 { e + P } else { e };
        assert(h@[x as int] < P);
        let hv: i128 = h[x as usize] as i128;
        proof {
            lemma_new_single(t, P);
            lemma_new_single(hv, P);
            lemma_new_bounded(seq![hv], P);
            lemma_new_bounded(seq![t], P);
        }
        let mut tv: Vec<i128> = Vec::new();
        tv.push(t);
        let mut hvv: Vec<i128> = Vec::new();
        hvv.push(hv);
        assert(tv@ =~= seq![t]);
        assert(hvv@ =~= seq![hv]);
        let y = poly_new(tv, P);
        let a = poly_new(hvv, P);
        let lpos = poly_sub(a, y);
        let lc = poly_into_coefs(poly_clone(&lpos));
        let ghost off = ring_offset(b, x as int);
        assert(off == (hv - t) % (P as int));
        proof {
            let ca = poly_coefs(a);
            let cy = poly_coefs(y);
            if hv != 0 && t != 0 {
                let e = extend_zeros(ca, cy.len());
                assert(e =~= seq![hv]);
                let rr = Seq::new(
                    e.len(),
                    |k: int|
                        if k < cy.len() {
                            reduce_mod(e[k] - cy[k], P as int) as i128
                        } else {
                            e[k]
                        },
                );
                assert(rr =~= seq![(hv - t) as i128]);
                lemma_trim_single((hv - t) as i128);
                assert(poly_coefs(lpos) == trim_zero(rr));
            } else if hv == 0 && t != 0 {
                assert(poly_coefs(lpos) =~= seq![(-t) as i128]);
            }
        }
        if lc.len() > 0 {
            let mut l: i128 = lc[0];
            if l < 0 {
                l = l + P;
            }
            assert(l == off);
            assert(off != 0);
            let p: u64 = (l as u64) % now;
            places.push(p as i128);
        } else {
            assert(off == 0);
            places.push(0);
        }
        x = x + 1;
    }
    let ghost unsorted = places@;
    proof {
        assert forall|k: int| 0 <= k < unsorted.len() implies 0 <= #[trigger] unsorted[k]
            < 0x1_0000_0000_0000_0000 by {
            assert(unsorted[k] == ring_place(b, k));
        }
    }
    sort_i128(&mut places);
    let ghost sorted_places = places@;
    dedup_i128(&mut places);
    proof {
        lemma_dedup_sorted(sorted_places);
        assert forall|q: int| 0 <= q < places@.len() implies 0 <= #[trigger] places@[q]
            < 0x1_0000_0000_0000_0000 by {
            assert(places@.contains(places@[q]));
            assert(sorted_places.contains(places@[q]));
            assert(unsorted.contains(places@[q]));
        }
    }
    let mut out: Vec<u64> = Vec::new();
    let mut k: usize = 0;
    while k < places.len()
        invariant
            k <= places@.len(),
            places@ == dedup_spec(sorted_places),
            out@.len() == k,
            forall|q: int| 0 <= q < k ==> out@[q] == places@[q],
            forall|q: int| 0 <= q < places@.len() ==> 0 <= #[trigger] places@[q] < 0x1_0000_0000_0000_0000,
        decreases places@.len() - k,
    {
        out.push(places[k] as u64);
        k = k + 1;
    }
    proof {
        let d = places@;
        assert forall|i: int, j: int| 0 <= i < j < out@.len() implies out@[i] < out@[j] by {
            assert(d[i] < d[j]);
        }
        assert forall|y: u64| out@.contains(y) <==> exists|x: int|
            0 <= x < ring_size(b) && ring_place(b, x) == y by {
            if out@.contains(y) {
                let q = choose|q: int| 0 <= q < out@.len() && out@[q] == y;
                assert(d.contains(d[q]));
                assert(unsorted.contains(d[q]));
                let x = choose|x: int| 0 <= x < unsorted.len() && unsorted[x] == d[q];
                assert(ring_place(b, x) == y);
            }
            if exists|x: int| 0 <= x < ring_size(b) && ring_place(b, x) == y {
                let x = choose|x: int| 0 <= x < ring_size(b) && ring_place(b, x) == y;
                assert(unsorted[x] == y as i128);
                assert(unsorted.contains(y as i128));
                assert(d.contains(y as i128));
                let q = choose|q: int| 0 <= q < d.len() && d[q] == y as i128;
                assert(out@[q] == y);
            }
        }
    }
    Ok(out)
}


// ---------------------------------------------------------------------------
// Making a ring.

/// `rand::rngs::ThreadRng`, carried as an opaque value.
#[verifier::external_type_specification]
#[verifier::external_body]
pub struct ExThreadRng(ThreadRng);

/// Calls `rand::thread_rng`, the thread-local generator.
#[verifier::external_body]
pub(crate) fn thread_rng() -> ThreadRng {
    rand::thread_rng()
}

/// Calls `Rng::gen_range(0..bound)`: a uniformly drawn number below `bound`
/// (which must not be 0: an empty range panics).
#[verifier::external_body]
fn gen_below(rng: &mut ThreadRng, bound: usize) -> (v: usize)
    requires
        bound > 0,
    ensures
        v < bound,
{
    rng.gen_range(0..bound)
}

/// Calls `RngCore::fill_bytes` on 64 bytes: any bytes, drawn at random.
#[verifier::external_body]
pub(crate) fn random_bytes64(rng: &mut ThreadRng) -> (b: Vec<u8>)
    ensures
        b@.len() == 64,
{
    let mut b = vec![0u8; 64];
    rand::RngCore::fill_bytes(rng, b.as_mut_slice());
    b
}

/// Calls `Rng::gen::<u64>()`: any `u64`, uniformly drawn.
#[verifier::external_body]
fn gen_u64(rng: &mut ThreadRng) -> u64 {
    rng.gen::<u64>()
}

/// The choices a ring is made from: distinct slots `j` below `r` for the `n`
/// positions, and shifts that are multiples of `now` with room for a position below
/// `now` under `P`.
pub open spec fn ring_choices_ok(j: Seq<usize>, shift: Seq<u64>, n: nat, r: u16, now: u64) -> bool {
    &&& j.len() == n
    &&& shift.len() == n
    &&& forall|q: int| 0 <= q < n ==> #[trigger] j[q] < r
    &&& forall|q1: int, q2: int| 0 <= q1 < q2 < n ==> j[q1] != j[q2]
    &&& forall|q: int| 0 <= q < n ==> #[trigger] shift[q] % now == 0 && shift[q] + now <= P
}

/// `b` is a ring message of size `r` at `now`, with at most `s.len()` coefficients in
/// `0..P`, whose slot `j[q]` decodes to the offset `shift[q] + s[q]` (mod `P`).
pub open spec fn ring_encodes(
    b: Seq<u8>,
    s: Seq<usize>,
    r: u16,
    now: u64,
    j: Seq<usize>,
    shift: Seq<u64>,
) -> bool {
    &&& ring_well_formed(b)
    &&& b.last() == 0
    &&& ring_size(b) == r
    &&& ring_now(b) == now
    &&& ring_coef_count(b) <= s.len()
    &&& forall|i: int| 0 <= i < ring_coef_count(b) ==> 0 <= #[trigger] ring_coefs(b)[i] < P
    &&& forall|q: int|
        0 <= q < s.len() ==> #[trigger] ring_offset(b, j[q] as int) == (shift[q] + s[q]) % (P as int)
}

/// `b` hides the positions `s` among `r` slots at `now`, for some admissible choices.
pub open spec fn ring_hides(b: Seq<u8>, s: Seq<usize>, r: u16, now: u64) -> bool {
    exists|j: Seq<usize>, shift: Seq<u64>|
        ring_choices_ok(j, shift, s.len(), r, now) && #[trigger] ring_encodes(b, s, r, now, j, shift)
}

/// The ring message for positions `s` placed at slots `j` with shifts `shift`: the
/// polynomial through `(j[q], hash(j[q]) - (shift[q] + s[q]))` over F_P, with ring
/// size `r` and `now`.
pub fn ring_from_choices(s: &Vec<usize>, r: u16, now: u64, j: &Vec<usize>, shift: &Vec<u64>) -> (send:
    Vec<u8>)
    requires
        s.len() <= r,
        j.len() == s.len(),
        shift.len() == s.len(),
        forall|q: int| 0 <= q < j.len() ==> #[trigger] j@[q] < r,
        forall|q1: int, q2: int| 0 <= q1 < q2 < j.len() ==> j@[q1] != j@[q2],
    ensures
        send@.len() > 0,
        ring_encodes(send@, s@, r, now, j@, shift@),
{
    let h = slot_hashes(r);
    match ring_polynomial(&h, s, j, shift) {
        None => Vec::new(),
        Some(poly) => {
            let ghost cp = poly_coefs(poly);
            let cs = poly_into_coefs(poly);
            let mut coefficients: Vec<u64> = Vec::new();
            let mut i: usize = 0;
            while i < cs.len()
                invariant
                    i <= cs@.len(),
                    cs@ == cp,
                    coefs_bounded(cp, P as int),
                    coefficients@.len() == i,
                    forall|q: int|
                        0 <= q < i ==> #[trigger] coefficients@[q] as int == (if cp[q] < 0 {
                            cp[q] + P
                        } else {
                            cp[q] as int
                        }),
                decreases cs@.len() - i,
            {
                let mut c: i128 = cs[i];
                if c < 0 {
                    c = c + P;
                }
                coefficients.push(c as u64);
                i = i + 1;
            }
            let send = encode_ring(r, now, &coefficients);
            proof {
                let b = send@;
                let pi = P as int;
                let rc = ring_coefs(b);
                assert forall|q: int| 0 <= q < rc.len() implies (rc[q] as int) % pi == (
                cp[q] as int) % pi by {
                    assert(rc[q] == coefficients@[q] as i128);
                    if cp[q] < 0 {
                        vstd::arithmetic::div_mod::lemma_mod_add_multiples_vanish(cp[q] as int, pi);
                    }
                }
                lemma_new_bounded(rc, P);
                assert forall|q: int| 0 <= q < s.len() implies #[trigger] ring_offset(b, j@[q] as int)
                    == (shift@[q] + s@[q]) % pi by {
                    let x = j@[q] as int;
                    lemma_horner_pval(new_coefs(rc, P), x, pi);
                    lemma_new_pval(rc, P, x);
                    lemma_pval_cong(rc, cp, x, pi);
                    assert(h@[x] == slot_hash(x));
                    lemma_mod_sub_cong(
                        slot_hash(x),
                        slot_hash(x),
                        ring_eval(b, x),
                        ring_target(h@, s@, j@, shift@, q),
                        pi,
                    );
                }
                assert forall|i: int| 0 <= i < ring_coef_count(b) implies 0 <= #[trigger] ring_coefs(
                    b,
                )[i] < P by {
                    assert(ring_coefs(b)[i] == coefficients@[i] as i128);
                }
            }
            send
        },
    }
}

/// Makes a ring of `r` slots hiding the history positions `s` (current history
/// length `now`): distinct slots and shifts are drawn at random, then the ring is
/// built from them.
pub fn generate_ring(s: &Vec<usize>, r: &u16, now: &u64) -> (send: Vec<u8>)
    requires
        *r > 0,
        s.len() <= *r,
        s.len() > 0 ==> 0 < *now <= P,
    ensures
        send@.len() > 0,
        ring_hides(send@, s@, *r, *now),
{
    let r: u16 = *r;
    let now: u64 = *now;
    let mut rng = thread_rng();
    let mut pool: Vec<usize> = Vec::new();
    let mut x: usize = 0;
    while x < r as usize
        invariant
            x <= r,
            pool@.len() == x,
            forall|q: int| 0 <= q < x ==> #[trigger] pool@[q] == q,
        decreases r - x,
    {
        pool.push(x);
        x = x + 1;
    }
    let mut j: Vec<usize> = Vec::new();
    while j.len() < s.len()
        invariant
            s.len() <= r,
            j@.len() <= s.len(),
            pool@.len() + j@.len() == r,
            forall|q: int| 0 <= q < pool@.len() ==> #[trigger] pool@[q] < r,
            forall|q: int| 0 <= q < j@.len() ==> #[trigger] j@[q] < r,
            forall|q1: int, q2: int| 0 <= q1 < q2 < pool@.len() ==> pool@[q1] != pool@[q2],
            forall|q1: int, q2: int| 0 <= q1 < q2 < j@.len() ==> j@[q1] != j@[q2],
            forall|q1: int, q2: int|
                0 <= q1 < j@.len() && 0 <= q2 < pool@.len() ==> j@[q1] != pool@[q2],
        decreases s.len() - j@.len(),
    {
        let ghost old_pool = pool@;
        let ghost old_j = j@;
        let k = gen_below(&mut rng, pool.len());
        let a = pool.remove(k);
        j.push(a);
        proof {
            assert forall|q: int| 0 <= q < pool@.len() implies #[trigger] pool@[q] == if q < k {
                old_pool[q]
            } else {
                old_pool[q + 1]
            } by {}
            assert forall|q1: int, q2: int| 0 <= q1 < q2 < pool@.len() implies pool@[q1]
                != pool@[q2] by {
                assert(pool@[q1] == if q1 < k { old_pool[q1] } else { old_pool[q1 + 1] });
                assert(pool@[q2] == if q2 < k { old_pool[q2] } else { old_pool[q2 + 1] });
            }
            assert forall|q1: int, q2: int| 0 <= q1 < q2 < j@.len() implies j@[q1] != j@[q2] by {
                if q2 < old_j.len() {
                    assert(j@[q1] == old_j[q1] && j@[q2] == old_j[q2]);
                } else {
                    assert(j@[q1] == old_j[q1]);
                    assert(j@[q2] == old_pool[k as int]);
                }
            }
            assert forall|q1: int, q2: int|
                0 <= q1 < j@.len() && 0 <= q2 < pool@.len() implies j@[q1] != pool@[q2] by {
                let p2 = if q2 < k { q2 } else { q2 + 1 };
                assert(pool@[q2] == old_pool[p2]);
                if q1 < old_j.len() {
                    assert(j@[q1] == old_j[q1]);
                } else {
                    assert(j@[q1] == old_pool[k as int]);
                    if p2 < k {
                        assert(old_pool[p2] != old_pool[k as int]);
                    } else {
                        assert(old_pool[k as int] != old_pool[p2]);
                    }
                }
            }
        }
    }
    let mut shift: Vec<u64> = Vec::new();
    if s.len() > 0 {
        let bound: u64 = (P as u64) / now;
        proof {
            assert((P as u64) as int == P as int);
            vstd::arithmetic::div_mod::lemma_fundamental_div_mod(P as int, now as int);
            assert(bound == (P as int) / (now as int));
            assert(bound >= 1) by {
                let pm = (P as int) % (now as int);
                assert(0 <= pm < now);
                assert(P as int == now * bound + pm);
                if bound == 0 {
                    assert(now * bound == 0) by (nonlinear_arith)
                        requires
                            bound == 0,
                    ;
                }
            }
            assert(now * bound <= P) by {
                assert((P as int) % (now as int) >= 0);
            }
        }
        while shift.len() < s.len()
            invariant
                0 < now <= P,
                bound == (P as u64) / now,
                now * bound <= P,
                bound >= 1,
                shift@.len() <= s.len(),
                forall|q: int|
                    0 <= q < shift@.len() ==> #[trigger] shift@[q] % now == 0 && shift@[q] + now <= P,
            decreases s.len() - shift@.len(),
        {
            let a = gen_u64(&mut rng);
            let t: u64 = a % bound;
            proof {
                assert(t * now <= (bound - 1) * now) by (nonlinear_arith)
                    requires
                        t <= bound - 1,
                ;
                assert((bound - 1) * now == now * bound - now) by (nonlinear_arith);
            }
            let v: u64 = t * now;
            proof {
                vstd::arithmetic::div_mod::lemma_mod_multiples_basic(t as int, now as int);
            }
            shift.push(v);
        }
    }
    let send = ring_from_choices(s, r, now, &j, &shift);
    proof {
        if send@.len() > 0 {
            assert(ring_choices_ok(j@, shift@, s@.len(), r, now));
            assert(ring_encodes(send@, s@, r, now, j@, shift@));
        }
    }
    send
}

/// Some slot of the ring decodes to the place `y`.
pub open spec fn ring_shows(b: Seq<u8>, y: int) -> bool {
    exists|x: int| 0 <= x < ring_size(b) && #[trigger] ring_place(b, x) == y
}

/// A ring made for positions below `now` gives each of them back: it decodes,
/// every spent position is the place of some slot, so the list `v` that decoding
/// the ring yields holds all of them; every place it lists is below `now`, and it
/// lists at most `r` places.
pub proof fn law_ring_reveals_positions(b: Seq<u8>, s: Seq<usize>, r: u16, now: u64, v: Seq<u64>)
    requires
        ring_hides(b, s, r, now),
        now > 0,
        forall|q: int| 0 <= q < s.len() ==> #[trigger] s[q] < now,
    ensures
        ring_decodable(b),
        b.len() > 0 && b.last() == 0,
        forall|q: int| 0 <= q < s.len() ==> #[trigger] ring_shows(b, s[q] as int),
        lists_ring_places(v, b) ==> {
            &&& forall|q: int| 0 <= q < s.len() ==> v.contains(#[trigger] s[q] as u64)
            &&& forall|k: int| 0 <= k < v.len() ==> #[trigger] v[k] < now
            &&& v.len() <= r
        },
{
    let (j, shift) = choose|j: Seq<usize>, shift: Seq<u64>|
        ring_choices_ok(j, shift, s.len(), r, now) && #[trigger] ring_encodes(b, s, r, now, j, shift);
    assert forall|q: int| 0 <= q < s.len() implies #[trigger] ring_shows(b, s[q] as int) by {
        let x = j[q] as int;
        let off = shift[q] + s[q];
        assert(s[q] < now);
        assert(shift[q] % now == 0 && shift[q] + now <= P);
        vstd::arithmetic::div_mod::lemma_small_mod(off as nat, P as nat);
        assert(ring_offset(b, x) == off);
        if off != 0 {
            let t = shift[q] / now;
            vstd::arithmetic::div_mod::lemma_fundamental_div_mod(shift[q] as int, now as int);
            vstd::arithmetic::div_mod::lemma_mod_multiples_vanish(t as int, s[q] as int, now as int);
            vstd::arithmetic::div_mod::lemma_small_mod(s[q] as nat, now as nat);
        }
        assert(ring_place(b, x) == s[q]);
        assert(0 <= x < ring_size(b));
    }
    if lists_ring_places(v, b) {
        assert forall|q: int| 0 <= q < s.len() implies v.contains(#[trigger] s[q] as u64) by {
            assert(ring_shows(b, s[q] as int));
            let x = choose|x: int| 0 <= x < ring_size(b) && #[trigger] ring_place(b, x) == s[q] as int;
            assert(ring_place(b, x) == (s[q] as u64) as int);
        }
        lemma_places_bounded(b, v);
    }
}

/// The places a ring lists are below its `now`, and there are at most as many as
/// slots.
proof fn lemma_places_bounded(b: Seq<u8>, v: Seq<u64>)
    requires
        ring_now(b) > 0,
        lists_ring_places(v, b),
    ensures
        forall|k: int| 0 <= k < v.len() ==> #[trigger] v[k] < ring_now(b),
        v.len() <= ring_size(b),
{
    let now = ring_now(b) as int;
    let slot = |k: int| choose|x: int| 0 <= x < ring_size(b) && ring_place(b, x) == v[k];
    assert forall|k: int| 0 <= k < v.len() implies #[trigger] v[k] < ring_now(b) && 0 <= slot(k)
        < ring_size(b) && ring_place(b, slot(k)) == v[k] by {
        assert(v.contains(v[k]));
        let x = slot(k);
        if ring_offset(b, x) != 0 {
            vstd::arithmetic::div_mod::lemma_mod_bound(ring_offset(b, x), now);
        }
    }
    let xs = Seq::new(v.len(), |k: int| slot(k));
    assert(xs.no_duplicates()) by {
        assert forall|a: int, c: int| 0 <= a < xs.len() && 0 <= c < xs.len() && a != c implies xs[a]
            != xs[c] by {
            if a < c {
                assert(v[a] < v[c]);
            } else {
                assert(v[c] < v[a]);
            }
        }
    }
    xs.unique_seq_to_set();
    vstd::set_lib::lemma_int_range(0, ring_size(b) as int);
    assert(xs.to_set().subset_of(vstd::set_lib::set_int_range(0, ring_size(b) as int)));
    vstd::set_lib::lemma_len_subset(xs.to_set(), vstd::set_lib::set_int_range(0, ring_size(b) as int));
}

} // verus!
