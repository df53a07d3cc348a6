//! Curve25519 values carried by the chain's records.
use curve25519_dalek::ristretto::{CompressedRistretto, RistrettoPoint};
use curve25519_dalek::scalar::Scalar;
use crate::codec::{le_decode, le_encode};
use vstd::prelude::*;

verus! {

/// `curve25519_dalek::ristretto::CompressedRistretto`, carried as an opaque value.
#[verifier::external_type_specification]
#[verifier::external_body]
pub struct ExCompressedRistretto(CompressedRistretto);

/// `curve25519_dalek::scalar::Scalar`, carried as an opaque value.
#[verifier::external_type_specification]
#[verifier::external_body]
pub struct ExScalar(Scalar);

/// `CompressedRistretto` derives `Copy` and `Clone`: a clone is the same value.
pub assume_specification[ <CompressedRistretto as core::clone::Clone>::clone ](
    c: &CompressedRistretto,
) -> (r: CompressedRistretto)
    ensures
        r == *c,
;

/// `Scalar` derives `Copy` and `Clone`: a clone is the same value.
pub assume_specification[ <Scalar as core::clone::Clone>::clone ](s: &Scalar) -> (r: Scalar)
    ensures
        r == *s,
;

/// The order of the prime-order Ristretto group, `2^252 + 27742317777372353535851937790883648493`.
pub open spec fn group_order() -> nat {
    7237005577332262213973186563042994240857116359379907606001950938285454250989nat
}

/// The 32 bytes a scalar holds.
pub uninterp spec fn scalar_view(s: Scalar) -> Seq<u8>;

/// The integer a scalar's bytes hold, little-endian.
pub open spec fn scalar_value(s: Scalar) -> nat {
    le_decode(scalar_view(s))
}

/// The scalar is reduced: its value is below the group order.
pub open spec fn reduced(s: Scalar) -> bool {
    scalar_value(s) < group_order()
}

/// Calls `Scalar::from_bytes_mod_order_wide`: the 64 bytes are read as a
/// little-endian 512-bit integer and reduced modulo the group order; the scalar
/// holds the result as 32 little-endian bytes.
#[verifier::external_body]
pub(crate) fn scalar_from_wide(wide: &[u8]) -> (r: Scalar)
    requires
        wide@.len() == 64,
    ensures
        scalar_view(r) == le_encode(le_decode(wide@) % group_order(), 32),
{
    let mut input = [0u8; 64];
    input.copy_from_slice(wide);
    Scalar::from_bytes_mod_order_wide(&input)
}

/// Calls `Scalar * Scalar`: for reduced operands, the product modulo the group order.
#[verifier::external_body]
pub(crate) fn scalar_mul(a: Scalar, b: Scalar) -> (r: Scalar)
    requires
        reduced(a),
        reduced(b),
    ensures
        scalar_view(r) == le_encode((scalar_value(a) * scalar_value(b)) % group_order(), 32),
{
    a * b
}

/// Calls `Scalar + Scalar`: the sum reduced modulo the group order.
#[verifier::external_body]
pub(crate) fn scalar_add(a: Scalar, b: Scalar) -> (r: Scalar)
    requires
        reduced(a),
        reduced(b),
    ensures
        scalar_view(r) == le_encode((scalar_value(a) + scalar_value(b)) % group_order(), 32),
{
    a + b
}

/// Calls `Scalar - Scalar`: for reduced operands, the difference modulo the
/// group order (the source reduces both operands, subtracts, and adds the order
/// back on underflow).
#[verifier::external_body]
pub(crate) fn scalar_sub(a: Scalar, b: Scalar) -> (r: Scalar)
    requires
        reduced(a),
        reduced(b),
    ensures
        scalar_view(r) == le_encode(((scalar_value(a) - scalar_value(b)) % (group_order() as int)) as nat, 32),
{
    a - b
}

/// Calls `Scalar::zero`: the scalar 0.
#[verifier::external_body]
pub(crate) fn scalar_zero() -> (r: Scalar)
    ensures
        scalar_view(r) == le_encode(0, 32),
{
    Scalar::zero()
}

/// A reduced scalar's last byte is at most 127.
pub proof fn lemma_reduced_top_byte(x: nat)
    requires
        x < group_order(),
    ensures
        le_encode(x, 32).len() == 32,
        le_encode(x, 32)[31] <= 127,
{
    reveal_with_fuel(crate::codec::pow256, 33);
    assert(group_order() < 128 * crate::codec::pow256(31));
    crate::codec::lemma_le_encode_top(x, 32);
}

/// A value written as 32 little-endian bytes and read back is itself, when reduced.
pub proof fn lemma_reduced_roundtrip(x: nat)
    requires
        x < group_order(),
    ensures
        le_decode(le_encode(x, 32)) == x,
        le_encode(x, 32).len() == 32,
{
    reveal_with_fuel(crate::codec::pow256, 33);
    assert(group_order() < crate::codec::pow256(32));
    crate::codec::lemma_le_roundtrip(x, 32);
}

/// The 32 bytes a compressed point holds.
pub uninterp spec fn compressed_view(c: CompressedRistretto) -> Seq<u8>;

/// Calls `CompressedRistretto::to_bytes`, which copies the encoding out. The type
/// derives `PartialEq` on these bytes: two points are equal exactly when their bytes are.
#[verifier::external_body]
pub(crate) fn compressed_bytes(c: &CompressedRistretto) -> (r: [u8; 32])
    ensures
        r@ == compressed_view(*c),
{
    c.to_bytes()
}

/// Calls `Scalar::to_bytes`, which copies the scalar's bytes out. `Scalar`'s
/// `PartialEq` compares these bytes (in constant time).
#[verifier::external_body]
pub(crate) fn scalar_bytes(s: &Scalar) -> (r: [u8; 32])
    ensures
        r@ == scalar_view(*s),
{
    s.to_bytes()
}

/// Makes a `CompressedRistretto` of 32 bytes (its tuple constructor); the
/// point holds exactly those bytes, and, the type being a plain wrapper of its
/// bytes, it is the only value that holds them.
#[verifier::external_body]
pub(crate) fn compressed_from_bytes(b: [u8; 32]) -> (c: CompressedRistretto)
    ensures
        compressed_view(c) == b@,
        forall|d: CompressedRistretto| #[trigger] compressed_view(d) == b@ ==> d == c,
{
    CompressedRistretto(b)
}

/// Calls `Scalar::from_bits`: the scalar holds the 32 bytes with the top bit of
/// the last byte cleared.
#[verifier::external_body]
pub(crate) fn scalar_from_bits(b: [u8; 32]) -> (s: Scalar)
    ensures
        scalar_view(s) == b@.update(31, b@[31] & 0x7f),
{
    Scalar::from_bits(b)
}

/// `curve25519_dalek::ristretto::RistrettoPoint`, carried as an opaque value.
#[verifier::external_type_specification]
#[verifier::external_body]
pub struct ExRistrettoPoint(RistrettoPoint);

/// The canonical 32-byte encoding of a Ristretto point, as `compress` writes it.
pub uninterp spec fn point_view(p: RistrettoPoint) -> Seq<u8>;

/// Whether 32 bytes are the canonical encoding of a Ristretto point.
pub uninterp spec fn point_valid(b: Seq<u8>) -> bool;

/// The encoding of `s · P` for the scalar bytes `s` and the point encoding `p`.
pub uninterp spec fn point_mul_spec(s: Seq<u8>, p: Seq<u8>) -> Seq<u8>;

/// The encoding of `A + B` for the point encodings `a` and `b`.
pub uninterp spec fn point_add_spec(a: Seq<u8>, b: Seq<u8>) -> Seq<u8>;

/// Calls `RistrettoPoint::compress`: the point's canonical encoding.
#[verifier::external_body]
pub(crate) fn point_compress(p: &RistrettoPoint) -> (c: CompressedRistretto)
    ensures
        compressed_view(c) == point_view(*p),
{
    p.compress()
}

/// Calls `CompressedRistretto::decompress`: `Some` exactly for the canonical
/// encoding of a point (the source checks canonicity and re-encodes nothing
/// else), and that point encodes back to the same bytes.
#[verifier::external_body]
pub(crate) fn point_decompress(c: &CompressedRistretto) -> (r: Option<RistrettoPoint>)
    ensures
        r is Some <==> point_valid(compressed_view(*c)),
        r matches Some(p) ==> point_view(p) == compressed_view(*c),
{
    c.decompress()
}

/// The encoding of `x · P` for the number `x` (below the group order) and the
/// point encoding `g`.
pub open spec fn times(x: nat, g: Seq<u8>) -> Seq<u8> {
    point_mul_spec(le_encode(x, 32), g)
}

/// Calls `Scalar * RistrettoPoint` (variable-base multiplication, which debug-asserts
/// that the scalar's top byte is at most 127). Ristretto is a group of prime
/// order (the group order), and `*` is scalar multiplication in it, so: the
/// product and its base are points; every multiple of the base is a point; and
/// when the base is `x · G` for a point `G`, the product is `(s · x mod order) · G`.
#[verifier::external_body]
pub(crate) fn point_mul(s: &Scalar, p: &RistrettoPoint) -> (q: RistrettoPoint)
    requires
        scalar_view(*s)[31] <= 127,
    ensures
        point_view(q) == point_mul_spec(scalar_view(*s), point_view(*p)),
        point_valid(point_view(q)) && point_valid(point_view(*p)) && forall|x: nat|
            x < group_order() ==> point_valid(#[trigger] times(x, point_view(*p))),
        forall|x: nat, g: Seq<u8>|
            x < group_order() && point_valid(g) && point_view(*p) == #[trigger] times(x, g) ==> point_view(q)
                == times((scalar_value(*s) * x) % group_order(), g),
{
    s * p
}

/// Calls `<RistrettoPoint as Identity>::identity`: the neutral point, which
/// encodes as 32 zero bytes and is `0 · G` for every point `G`.
#[verifier::external_body]
pub(crate) fn point_identity() -> (p: RistrettoPoint)
    ensures
        point_view(p) == Seq::new(32, |i: int| 0u8),
        forall|g: Seq<u8>| point_valid(g) ==> point_view(p) == #[trigger] times(0, g),
{
    <RistrettoPoint as curve25519_dalek::traits::Identity>::identity()
}

/// Calls `RistrettoPoint + RistrettoPoint`, the group operation: when both
/// summands are multiples `x · G` and `y · G` of one point, the sum is
/// `(x + y mod order) · G`.
#[verifier::external_body]
pub(crate) fn point_add(a: &RistrettoPoint, b: &RistrettoPoint) -> (c: RistrettoPoint)
    ensures
        point_view(c) == point_add_spec(point_view(*a), point_view(*b)),
        forall|x: nat, y: nat, g: Seq<u8>|
            x < group_order() && y < group_order() && point_valid(g) && point_view(*a) == #[trigger] times(x, g)
                && point_view(*b) == #[trigger] times(y, g) ==> point_view(c) == times(
                (x + y) % group_order(),
                g,
            ),
{
    a + b
}

} // verus!
