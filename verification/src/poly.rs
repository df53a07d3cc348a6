//! Polynomials over the prime field, as `polynomial_over_finite_prime_field`
//! computes them on `i128` coefficients (lowest degree first).
use polynomial_over_finite_prime_field::PolynomialOverP;
use vstd::prelude::*;

verus! {

/// `PolynomialOverP<T>`, carried as an opaque value.
#[verifier::external_type_specification]
#[verifier::external_body]
#[verifier::reject_recursive_types(T)]
pub struct ExPolynomialOverP<T>(PolynomialOverP<T>);

/// The coefficients a polynomial holds, lowest degree first.
pub uninterp spec fn poly_coefs(p: PolynomialOverP<i128>) -> Seq<i128>;

/// The prime a polynomial was made with.
pub uninterp spec fn poly_prime(p: PolynomialOverP<i128>) -> i128;

/// Rust's `%` on integers (the remainder takes the sign of the dividend), for `m > 0`.
pub open spec fn trem(a: int, m: int) -> int {
    if a >= 0 {
        a % m
    } else {
        -((-a) % m)
    }
}

/// `s` without its trailing zero coefficients.
pub open spec fn trim_zero(s: Seq<i128>) -> Seq<i128>
    decreases s.len(),
{
    if s.len() > 0 && s.last() == 0 {
        trim_zero(s.drop_last())
    } else {
        s
    }
}

/// The crate's `reduce`: one correction by `m` towards zero.
pub open spec fn reduce_mod(a: int, m: int) -> int {
    if a >= m {
        a - m
    } else if a <= -m {
        a + m
    } else {
        a
    }
}

/// `s` padded with zeros up to length `n`.
pub open spec fn extend_zeros(s: Seq<i128>, n: nat) -> Seq<i128> {
    if s.len() < n {
        s + Seq::new((n - s.len()) as nat, |i: int| 0i128)
    } else {
        s
    }
}

/// Coefficients of `PolynomialOverP::new(c, m)`.
pub open spec fn new_coefs(c: Seq<i128>, m: i128) -> Seq<i128> {
    trim_zero(c.map_values(|x: i128| trem(x as int, m as int) as i128))
}

/// Coefficients of `a + b` (both non-zero), as `add_assign_ref` computes them.
pub open spec fn sum_coefs(a: Seq<i128>, b: Seq<i128>, m: i128) -> Seq<i128> {
    let e = extend_zeros(a, b.len());
    let r = Seq::new(
        e.len(),
        |k: int|
            if k < b.len() {
                reduce_mod(e[k] + b[k], m as int) as i128
            } else {
                e[k]
            },
    );
    if a.len() == b.len() {
        trim_zero(r)
    } else {
        r
    }
}

/// Coefficients of `a - b` (both non-zero), as `sub_assign_ref` computes them.
pub open spec fn diff_coefs(a: Seq<i128>, b: Seq<i128>, m: i128) -> Seq<i128> {
    let e = extend_zeros(a, b.len());
    let r = Seq::new(
        e.len(),
        |k: int|
            if k < b.len() {
                reduce_mod(e[k] - b[k], m as int) as i128
            } else {
                e[k]
            },
    );
    if a.len() == b.len() {
        trim_zero(r)
    } else {
        r
    }
}

/// Coefficient `k` of the product accumulator after the first `i` coefficients of
/// `a` were folded in, as `mul_aux` does it.
pub open spec fn prod_coef(a: Seq<i128>, b: Seq<i128>, m: i128, k: int, i: nat) -> int
    decreases i,
{
    if i == 0 {
        0
    } else {
        let prev = prod_coef(a, b, m, k, (i - 1) as nat);
        let l = k - (i - 1);
        if 0 <= l < b.len() {
            trem(a[i - 1] * b[l] + prev, m as int)
        } else {
            prev
        }
    }
}

/// Coefficients of `a * b` (both non-zero), as `mul_impl` computes them.
pub open spec fn product_coefs(a: Seq<i128>, b: Seq<i128>, m: i128) -> Seq<i128> {
    Seq::new((a.len() + b.len() - 1) as nat, |k: int| prod_coef(a, b, m, k, a.len()) as i128)
}

/// The crate's Horner evaluation of coefficients `c` at `x`, modulo `m`.
pub open spec fn horner(c: Seq<i128>, x: int, m: int) -> int
    decreases c.len(),
{
    if c.len() == 0 {
        0
    } else if c.len() == 1 {
        c[0] as int
    } else {
        trem(horner(c.drop_first(), x, m) * x + c[0], m)
    }
}

/// Every coefficient lies strictly between `-m` and `m`.
pub open spec fn coefs_bounded(c: Seq<i128>, m: int) -> bool {
    forall|i: int| 0 <= i < c.len() ==> -m < #[trigger] c[i] < m
}

/// The polynomial is a well-formed element of F_m[x]: its prime is `m` and its
/// coefficients are bounded by it.
pub open spec fn poly_ok(p: PolynomialOverP<i128>, m: i128) -> bool {
    poly_prime(p) == m && coefs_bounded(poly_coefs(p), m as int)
}

/// Calls `PolynomialOverP::new`: each coefficient is reduced with `%` by the prime,
/// then trailing zeros are dropped.
#[verifier::external_body]
pub(crate) fn poly_new(coef: Vec<i128>, prime: i128) -> (p: PolynomialOverP<i128>)
    requires
        prime > 0,
    ensures
        poly_coefs(p) == new_coefs(coef@, prime),
        poly_prime(p) == prime,
{
    PolynomialOverP::<i128>::new(coef, prime)
}

/// Calls `PolynomialOverP::clone` (derived): same coefficients, same prime.
#[verifier::external_body]
pub(crate) fn poly_clone(p: &PolynomialOverP<i128>) -> (r: PolynomialOverP<i128>)
    ensures
        poly_coefs(r) == poly_coefs(*p),
        poly_prime(r) == poly_prime(*p),
{
    p.clone()
}

/// Calls `PolynomialOverP::coefs`, which hands out the coefficient vector.
#[verifier::external_body]
pub(crate) fn poly_into_coefs(p: PolynomialOverP<i128>) -> (c: Vec<i128>)
    ensures
        c@ == poly_coefs(p),
{
    p.coefs()
}

/// Calls `PolynomialOverP::eval` (Horner's method, reducing with `%` at each step).
#[verifier::external_body]
pub(crate) fn poly_eval(p: &PolynomialOverP<i128>, x: i128) -> (r: i128)
    requires
        0 < poly_prime(*p) < 0x8000_0000_0000_0000,
        coefs_bounded(poly_coefs(*p), poly_prime(*p) as int),
        -0x8000_0000_0000_0000 < x < 0x8000_0000_0000_0000,
    ensures
        r == horner(poly_coefs(*p), x as int, poly_prime(*p) as int),
{
    p.eval(&x)
}

/// Calls `PolynomialOverP - PolynomialOverP` (`sub_assign_ref`): a zero left side
/// gives the negated right side (with its prime); a zero right side gives the left;
/// otherwise coefficients are subtracted with one reduction, trimming when both
/// have the same length.
#[verifier::external_body]
pub(crate) fn poly_sub(a: PolynomialOverP<i128>, b: PolynomialOverP<i128>) -> (r: PolynomialOverP<i128>)
    requires
        0 < poly_prime(a) < 0x8000_0000_0000_0000,
        coefs_bounded(poly_coefs(a), poly_prime(a) as int),
        coefs_bounded(poly_coefs(b), poly_prime(a) as int),
    ensures
        poly_coefs(a).len() == 0 ==> poly_coefs(r) == poly_coefs(b).map_values(|v: i128| (-v) as i128)
            && poly_prime(r) == poly_prime(b),
        poly_coefs(a).len() != 0 && poly_coefs(b).len() == 0 ==> poly_coefs(r) == poly_coefs(a)
            && poly_prime(r) == poly_prime(a),
        poly_coefs(a).len() != 0 && poly_coefs(b).len() != 0 ==> poly_coefs(r) == diff_coefs(
            poly_coefs(a),
            poly_coefs(b),
            poly_prime(a),
        ) && poly_prime(r) == poly_prime(a),
{
    a - b
}

/// Calls `PolynomialOverP + PolynomialOverP` (`add_assign_ref`): a zero left side
/// gives the right side (with its prime); a zero right side gives the left;
/// otherwise coefficients are added with one reduction, trimming when both have
/// the same length.
#[verifier::external_body]
pub(crate) fn poly_add(a: PolynomialOverP<i128>, b: PolynomialOverP<i128>) -> (r: PolynomialOverP<i128>)
    requires
        0 < poly_prime(a) < 0x8000_0000_0000_0000,
        coefs_bounded(poly_coefs(a), poly_prime(a) as int),
        coefs_bounded(poly_coefs(b), poly_prime(a) as int),
    ensures
        poly_coefs(a).len() == 0 ==> poly_coefs(r) == poly_coefs(b) && poly_prime(r) == poly_prime(
            b,
        ),
        poly_coefs(a).len() != 0 && poly_coefs(b).len() == 0 ==> poly_coefs(r) == poly_coefs(a)
            && poly_prime(r) == poly_prime(a),
        poly_coefs(a).len() != 0 && poly_coefs(b).len() != 0 ==> poly_coefs(r) == sum_coefs(
            poly_coefs(a),
            poly_coefs(b),
            poly_prime(a),
        ) && poly_prime(r) == poly_prime(a),
{
    a + b
}

/// Calls `PolynomialOverP * PolynomialOverP` (`mul_impl`): a zero factor gives the
/// zero polynomial; otherwise each coefficient accumulates `a[i] * b[k]` with `%`
/// by the prime, in increasing `i`.
#[verifier::external_body]
pub(crate) fn poly_mul(a: PolynomialOverP<i128>, b: PolynomialOverP<i128>) -> (r: PolynomialOverP<i128>)
    requires
        0 < poly_prime(a) < 0x8000_0000_0000_0000,
        coefs_bounded(poly_coefs(a), poly_prime(a) as int),
        coefs_bounded(poly_coefs(b), poly_prime(a) as int),
    ensures
        poly_coefs(a).len() == 0 || poly_coefs(b).len() == 0 ==> poly_coefs(r).len() == 0
            && poly_prime(r) == poly_prime(a),
        poly_coefs(a).len() != 0 && poly_coefs(b).len() != 0 ==> poly_coefs(r) == product_coefs(
            poly_coefs(a),
            poly_coefs(b),
            poly_prime(a),
        ) && poly_prime(r) == poly_prime(a),
{
    a * b
}

} // verus!
