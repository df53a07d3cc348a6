//! Modular inverses through the `modinverse` crate, and the gcd facts they rest on.
use vstd::prelude::*;

verus! {

/// The greatest common divisor by Euclid's recursion.
pub open spec fn gcd(a: nat, b: nat) -> nat
    decreases a,
{
    if a == 0 {
        b
    } else {
        gcd(b % a, a)
    }
}

/// `n` has no divisor `d` with `1 < d < bound`.
pub open spec fn no_divisor_below(n: int, bound: int) -> bool {
    forall|d: int| 1 < d < bound ==> #[trigger] (n % d) != 0
}

/// No `d` with `1 < d < 2^15` times any `q` is `2^63 - 25` (the bit-vector solver
/// checks the products).
#[verifier::rlimit(100)]
proof fn lemma_field_prime_low()
    by (bit_vector)
    ensures
        forall|d: u64, q: u64|
            1 < d && d < 0x8000 && q < 0x8000_0000_0000_0000 ==> #[trigger] (q * d) != 9223372036854775783u64 as int,
{
}

/// No `d` with `2^15 <= d < 2^16` times any `q` is `2^63 - 25`.
#[verifier::rlimit(100)]
proof fn lemma_field_prime_high()
    by (bit_vector)
    ensures
        forall|d: u64, q: u64|
            0x8000 <= d && d < 0x10000 && q < 0x8000_0000_0000_0000 ==> #[trigger] (q * d) != 9223372036854775783u64 as int,
{
}

/// `2^63 - 25` has no divisor below `2^16`.
pub proof fn lemma_field_prime_no_small_divisor()
    ensures
        no_divisor_below(9223372036854775783, 0x10000),
{
    lemma_field_prime_low();
    lemma_field_prime_high();
    assert forall|d: int| 1 < d < 0x10000 implies #[trigger] (9223372036854775783int % d) != 0 by {
        let q = 9223372036854775783int / d;
        if 9223372036854775783int % d == 0 {
            assert(q * d == 9223372036854775783int) by (nonlinear_arith)
                requires
                    d > 0,
                    9223372036854775783int % d == 0,
                    q == 9223372036854775783int / d,
            ;
            assert(0 <= q < 0x8000_0000_0000_0000) by (nonlinear_arith)
                requires
                    d > 1,
                    q * d == 9223372036854775783int,
            ;
            assert((q as u64) * (d as u64) != 9223372036854775783u64 as int);
        }
    }
}

/// The gcd of two numbers, not both zero, is positive and divides both.
pub proof fn lemma_gcd_divides(a: nat, b: nat)
    requires
        a > 0 || b > 0,
    ensures
        gcd(a, b) > 0,
        a % gcd(a, b) == 0,
        b % gcd(a, b) == 0,
    decreases a,
{
    if a == 0 {
        assert(0nat % b == 0) by {
            vstd::arithmetic::div_mod::lemma_small_mod(0, b);
        }
        vstd::arithmetic::div_mod::lemma_mod_self_0(b as int);
    } else {
        let r = b % a;
        lemma_gcd_divides(r, a);
        let g = gcd(r, a);
        let p = a / g;
        let q = r / g;
        vstd::arithmetic::div_mod::lemma_fundamental_div_mod(a as int, g as int);
        vstd::arithmetic::div_mod::lemma_fundamental_div_mod(r as int, g as int);
        vstd::arithmetic::div_mod::lemma_fundamental_div_mod(b as int, a as int);
        assert(b == g * (p * (b / a) + q)) by (nonlinear_arith)
            requires
                a == g * p,
                r == g * q,
                b == a * (b / a) + r,
        ;
        vstd::arithmetic::div_mod::lemma_mod_multiples_basic((p * (b / a) + q) as int, g as int);
        assert((p * (b / a) + q) * g == b) by (nonlinear_arith)
            requires
                b == g * (p * (b / a) + q),
        ;
    }
}

/// A number in `1..m` within `bound` of either end shares no factor with `m`
/// when `m` has no divisor below `bound`.
pub proof fn lemma_gcd_one_near_ends(a: nat, m: nat, bound: nat)
    requires
        0 < a < m,
        a < bound || m - a < bound,
        no_divisor_below(m as int, bound as int),
    ensures
        gcd(a, m) == 1,
{
    lemma_gcd_divides(a, m);
    let g = gcd(a, m);
    if g != 1 {
        assert(g <= a) by {
            if g > a {
                vstd::arithmetic::div_mod::lemma_small_mod(a, g);
            }
        }
        let x = m / g;
        let y = a / g;
        vstd::arithmetic::div_mod::lemma_fundamental_div_mod(m as int, g as int);
        vstd::arithmetic::div_mod::lemma_fundamental_div_mod(a as int, g as int);
        assert(m - a == g * (x - y)) by (nonlinear_arith)
            requires
                m == g * x,
                a == g * y,
        ;
        assert(x - y >= 1) by (nonlinear_arith)
            requires
                m - a == g * (x - y),
                m - a > 0,
                g > 0,
        ;
        assert(g <= m - a) by (nonlinear_arith)
            requires
                m - a == g * (x - y),
                x - y >= 1,
                g > 0,
        ;
        assert((m as int) % (g as int) == 0);
        assert(1 < g < bound);
    }
}

/// Calls `modinverse::modinverse`: it runs the extended Euclidean algorithm on
/// `(a, m)`; when the gcd is 1 it returns the Bezout coefficient of `a` brought into
/// `0..m`, which is the inverse of `a` modulo `m`, and otherwise `None`.
#[verifier::external_body]
pub(crate) fn mod_inverse(a: i128, m: i128) -> (r: Option<i128>)
    requires
        0 < a < m,
        m < 0x8000_0000_0000_0000,
    ensures
        r is Some <==> gcd(a as nat, m as nat) == 1,
        r matches Some(v) ==> 0 <= v < m && (a * v) % (m as int) == 1int % (m as int),
{
    modinverse::modinverse(a, m)
}

} // verus!
