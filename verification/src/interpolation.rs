//! Lagrange interpolation over F_P with the polynomial crate's arithmetic: the
//! polynomial through given points, built term by term as the ring maker does.
use crate::modular::{lemma_field_prime_no_small_divisor, lemma_gcd_one_near_ends, mod_inverse};
use crate::poly::{
    coefs_bounded, diff_coefs, extend_zeros, new_coefs, poly_add, poly_clone, poly_coefs,
    poly_into_coefs, poly_mul, poly_new, poly_ok, poly_prime, poly_sub, reduce_mod, sum_coefs,
    trim_zero,
};
use crate::polyalg::{
    lemma_diff_pval, lemma_neg_pval, lemma_new_bounded, lemma_new_pval, lemma_new_single,
    lemma_product_bounded, lemma_product_pval, lemma_sum_diff_bounded, lemma_sum_pval,
    lemma_trim_prefix, lemma_trim_single, psum, pval, xpow,
};
use crate::ringmaker::P;
use polynomial_over_finite_prime_field::PolynomialOverP;
use vstd::arithmetic::div_mod::{lemma_add_mod_noop, lemma_mul_mod_noop, lemma_sub_mod_noop};
use vstd::prelude::*;

verus! {

/// A one-coefficient sequence is its own value.
pub proof fn lemma_pval_single(c: i128, x: int)
    ensures
        pval(seq![c], x) == c,
{
    reveal_with_fuel(psum, 2);
    reveal_with_fuel(xpow, 1);
}

/// A two-coefficient sequence `[c0, c1]` has value `c0 + c1 x`.
pub proof fn lemma_pval_pair(c0: i128, c1: i128, x: int)
    ensures
        pval(seq![c0, c1], x) == c0 + c1 * x,
{
    reveal_with_fuel(psum, 3);
    reveal_with_fuel(xpow, 2);
    let f = |i: int| seq![c0, c1][i] as int;
    assert(xpow(x, 0) == 1);
    assert(xpow(x, 1) == x * xpow(x, 0));
    assert(psum(f, 1, x) == c0);
}

/// Sums and differences are no longer than the longer operand.
proof fn lemma_sum_diff_len(a: Seq<i128>, b: Seq<i128>, m: i128)
    ensures
        sum_coefs(a, b, m).len() <= if a.len() < b.len() {
            b.len()
        } else {
            a.len()
        },
        diff_coefs(a, b, m).len() <= if a.len() < b.len() {
            b.len()
        } else {
            a.len()
        },
{
    let e = extend_zeros(a, b.len());
    let rs = Seq::new(
        e.len(),
        |k: int|
            if k < b.len() {
                reduce_mod(e[k] + b[k], m as int) as i128
            } else {
                e[k]
            },
    );
    let rd = Seq::new(
        e.len(),
        |k: int|
            if k < b.len() {
                reduce_mod(e[k] - b[k], m as int) as i128
            } else {
                e[k]
            },
    );
    lemma_trim_prefix(rs);
    lemma_trim_prefix(rd);
}

/// Negating bounded coefficients keeps them bounded.
proof fn lemma_neg_bounded(c: Seq<i128>, m: int)
    requires
        0 < m < 0x8000_0000_0000_0000,
        coefs_bounded(c, m),
    ensures
        coefs_bounded(c.map_values(|v: i128| (-v) as i128), m),
        forall|i: int| 0 <= i < c.len() ==> c[i] > i128::MIN,
{
    assert forall|i: int| 0 <= i < c.len() implies c[i] > i128::MIN by {
        assert(-m < c[i]);
    }
}

/// Congruent factors give congruent products and differences.
proof fn lemma_mod_mul_cong(a: int, a2: int, b: int, b2: int, m: int)
    requires
        m > 0,
        a % m == a2 % m,
        b % m == b2 % m,
    ensures
        (a * b) % m == (a2 * b2) % m,
{
    lemma_mul_mod_noop(a, b, m);
    lemma_mul_mod_noop(a2, b2, m);
}

pub proof fn lemma_mod_sub_cong(a: int, a2: int, b: int, b2: int, m: int)
    requires
        m > 0,
        a % m == a2 % m,
        b % m == b2 % m,
    ensures
        (a - b) % m == (a2 - b2) % m,
{
    lemma_sub_mod_noop(a, b, m);
    lemma_sub_mod_noop(a2, b2, m);
}

proof fn lemma_mod_add_cong(a: int, a2: int, b: int, b2: int, m: int)
    requires
        m > 0,
        a % m == a2 % m,
        b % m == b2 % m,
    ensures
        (a + b) % m == (a2 + b2) % m,
{
    lemma_add_mod_noop(a, b, m);
    lemma_add_mod_noop(a2, b2, m);
}

/// The product of the polynomials, through the crate's `*`.
fn mul_mod(a: PolynomialOverP<i128>, b: PolynomialOverP<i128>) -> (r: PolynomialOverP<i128>)
    requires
        poly_ok(a, P),
        poly_ok(b, P),
    ensures
        poly_ok(r, P),
        forall|x: int|
            #[trigger] pval(poly_coefs(r), x) % (P as int) == (pval(poly_coefs(a), x) * pval(
                poly_coefs(b),
                x,
            )) % (P as int),
        poly_coefs(a).len() == 0 || poly_coefs(b).len() == 0 ==> poly_coefs(r).len() == 0,
        poly_coefs(a).len() > 0 && poly_coefs(b).len() > 0 ==> poly_coefs(r).len() == poly_coefs(
            a,
        ).len() + poly_coefs(b).len() - 1,
{
    let ghost ca = poly_coefs(a);
    let ghost cb = poly_coefs(b);
    let r = poly_mul(a, b);
    proof {
        if ca.len() > 0 && cb.len() > 0 {
            lemma_product_bounded(ca, cb, P);
            assert forall|x: int|
                #[trigger] pval(poly_coefs(r), x) % (P as int) == (pval(ca, x) * pval(cb, x)) % (
                P as int) by {
                lemma_product_pval(ca, cb, P, x);
            }
        } else {
            assert forall|x: int|
                #[trigger] pval(poly_coefs(r), x) % (P as int) == (pval(ca, x) * pval(cb, x)) % (
                P as int) by {
                assert(pval(ca, x) == 0 || pval(cb, x) == 0);
            }
        }
    }
    r
}

/// The sum of the polynomials, through the crate's `+`.
fn add_mod(a: PolynomialOverP<i128>, b: PolynomialOverP<i128>) -> (r: PolynomialOverP<i128>)
    requires
        poly_ok(a, P),
        poly_ok(b, P),
    ensures
        poly_ok(r, P),
        forall|x: int|
            #[trigger] pval(poly_coefs(r), x) % (P as int) == (pval(poly_coefs(a), x) + pval(
                poly_coefs(b),
                x,
            )) % (P as int),
        poly_coefs(r).len() <= poly_coefs(a).len() || poly_coefs(r).len() <= poly_coefs(b).len(),
{
    let ghost ca = poly_coefs(a);
    let ghost cb = poly_coefs(b);
    let r = poly_add(a, b);
    proof {
        if ca.len() > 0 && cb.len() > 0 {
            lemma_sum_diff_bounded(ca, cb, P);
            lemma_sum_diff_len(ca, cb, P);
            assert forall|x: int|
                #[trigger] pval(poly_coefs(r), x) % (P as int) == (pval(ca, x) + pval(cb, x)) % (
                P as int) by {
                lemma_sum_pval(ca, cb, P, x);
            }
        }
    }
    r
}

/// The constant polynomial `hv - (shift + pos)`, made as the difference of two
/// one-coefficient polynomials.
fn target_poly(hv: u64, shift: u64, pos: usize) -> (y: PolynomialOverP<i128>)
    requires
        hv < P,
    ensures
        poly_ok(y, P),
        poly_coefs(y).len() <= 1,
        forall|x: int|
            #[trigger] pval(poly_coefs(y), x) % (P as int) == (hv - (shift + pos)) % (P as int),
{
    let mut hc: Vec<i128> = Vec::new();
    hc.push(hv as i128);
    let mut tc: Vec<i128> = Vec::new();
    tc.push(shift as i128 + pos as i128);
    let ghost ts: i128 = (shift + pos) as i128;
    assert(hc@ =~= seq![hv as i128]);
    assert(tc@ =~= seq![ts]);
    let a = poly_new(hc, P);
    let b = poly_new(tc, P);
    let ghost ca = poly_coefs(a);
    let ghost cb = poly_coefs(b);
    proof {
        lemma_new_single(hv as i128, P);
        lemma_new_bounded(seq![hv as i128], P);
        lemma_new_bounded(seq![ts], P);
        lemma_trim_prefix(seq![ts].map_values(|v: i128| crate::poly::trem(v as int, P as int) as i128));
        assert(cb.len() <= 1);
    }
    let y = poly_sub(a, b);
    proof {
        let pi = P as int;
        assert forall|x: int| #[trigger] pval(cb, x) % pi == (ts as int) % pi by {
            lemma_new_pval(seq![ts], P, x);
            lemma_pval_single(ts, x);
        }
        if ca.len() == 0 {
            lemma_neg_bounded(cb, pi);
            assert forall|x: int| #[trigger] pval(poly_coefs(y), x) % pi == (hv - (shift + pos))
                % pi by {
                lemma_neg_pval(cb, x);
                lemma_mod_sub_cong(0, 0, pval(cb, x), ts as int, pi);
            }
        } else {
            assert(ca == seq![hv as i128]);
            if cb.len() == 0 {
                assert forall|x: int| #[trigger] pval(poly_coefs(y), x) % pi == (hv - (shift + pos))
                    % pi by {
                    lemma_pval_single(hv as i128, x);
                    lemma_mod_sub_cong(hv as int, hv as int, 0, ts as int, pi);
                }
            } else {
                lemma_sum_diff_bounded(ca, cb, P);
                lemma_sum_diff_len(ca, cb, P);
                assert forall|x: int| #[trigger] pval(poly_coefs(y), x) % pi == (hv - (shift + pos))
                    % pi by {
                    lemma_diff_pval(ca, cb, P, x);
                    lemma_pval_single(hv as i128, x);
                    lemma_mod_sub_cong(hv as int, hv as int, pval(cb, x), ts as int, pi);
                }
            }
        }
    }
    y
}


/// The polynomial `x`, as `[0, 1]`.
pub open spec fn is_x(p: PolynomialOverP<i128>) -> bool {
    poly_coefs(p) == seq![0i128, 1i128] && poly_prime(p) == P
}

fn make_x() -> (p: PolynomialOverP<i128>)
    ensures
        is_x(p),
{
    let mut c: Vec<i128> = Vec::new();
    c.push(0);
    c.push(1);
    assert(c@ =~= seq![0i128, 1i128]);
    let p = poly_new(c, P);
    proof {
        vstd::arithmetic::div_mod::lemma_small_mod(1, P as nat);
        vstd::arithmetic::div_mod::lemma_small_mod(0, P as nat);
        let m = seq![0i128, 1i128].map_values(|v: i128| crate::poly::trem(v as int, P as int) as i128);
        assert(m =~= seq![0i128, 1i128]);
        reveal_with_fuel(trim_zero, 2);
    }
    p
}

/// The linear factor `x - jm`, as `x` minus the constant `jm`.
fn linear_factor(justx: &PolynomialOverP<i128>, jm: usize) -> (top: PolynomialOverP<i128>)
    requires
        is_x(*justx),
        jm < P,
    ensures
        poly_ok(top, P),
        poly_coefs(top).len() == 2,
        forall|x: int| #[trigger] pval(poly_coefs(top), x) == x - jm,
{
    let mut c: Vec<i128> = Vec::new();
    c.push(jm as i128);
    assert(c@ =~= seq![jm as i128]);
    let t = poly_new(c, P);
    proof {
        lemma_new_single(jm as i128, P);
    }
    let top = poly_sub(poly_clone(justx), t);
    proof {
        let cx = seq![0i128, 1i128];
        if jm == 0 {
            assert forall|x: int| #[trigger] pval(poly_coefs(top), x) == x - jm by {
                lemma_pval_pair(0, 1, x);
            }
        } else {
            let ct = seq![jm as i128];
            let e = extend_zeros(cx, ct.len());
            assert(e =~= cx);
            let rr = Seq::new(
                e.len(),
                |k: int|
                    if k < ct.len() {
                        reduce_mod(e[k] - ct[k], P as int) as i128
                    } else {
                        e[k]
                    },
            );
            assert(rr =~= seq![(-(jm as int)) as i128, 1i128]);
            assert(poly_coefs(top) == rr);
            assert forall|x: int| #[trigger] pval(poly_coefs(top), x) == x - jm by {
                lemma_pval_pair((-(jm as int)) as i128, 1, x);
            }
        }
    }
    top
}

/// The gap `jk - jm` as the crate forms it: `jk + (P - jm)`, one value in `1..P`.
pub open spec fn gap(jk: int, jm: int) -> int {
    if jk > jm {
        jk - jm
    } else {
        P + jk - jm
    }
}

/// The constant polynomial holding the inverse of `jk - jm` modulo `P`. The gap
/// is within `2^16` of 0 or of `P`, and `P` has no divisor below `2^16`, so
/// `modinverse` always finds it.
fn gap_inverse(jk: usize, jm: usize) -> (res: Option<PolynomialOverP<i128>>)
    requires
        jk != jm,
        jk < 0x1_0000,
        jm < 0x1_0000,
    ensures
        res is Some,
        res matches Some(b) ==> poly_ok(b, P) && poly_coefs(b).len() == 1 && forall|x: int|
            (#[trigger] pval(poly_coefs(b), x) * (jk - jm)) % (P as int) == 1,
{
    let mut ck: Vec<i128> = Vec::new();
    ck.push(jk as i128);
    let mut cm: Vec<i128> = Vec::new();
    cm.push(P - jm as i128);
    assert(ck@ =~= seq![jk as i128]);
    assert(cm@ =~= seq![(P - jm) as i128]);
    let a = poly_new(ck, P);
    let b = poly_new(cm, P);
    proof {
        lemma_new_single(jk as i128, P);
        if jm == 0 {
            let m = seq![P].map_values(|v: i128| crate::poly::trem(v as int, P as int) as i128);
            assert(m =~= seq![0i128]);
            lemma_trim_single(0);
        } else {
            lemma_new_single((P - jm) as i128, P);
        }
    }
    let bot = poly_add(a, b);
    let bc = poly_into_coefs(bot);
    proof {
        let g = gap(jk as int, jm as int);
        if jk != 0 && jm != 0 {
            let ca = seq![jk as i128];
            let cb = seq![(P - jm) as i128];
            let e = extend_zeros(ca, cb.len());
            assert(e =~= ca);
            let rr = Seq::new(
                e.len(),
                |k: int|
                    if k < cb.len() {
                        reduce_mod(e[k] + cb[k], P as int) as i128
                    } else {
                        e[k]
                    },
            );
            assert(rr =~= seq![g as i128]);
            lemma_trim_single(g as i128);
        }
        assert(bc@ =~= seq![g as i128]);
    }
    let b0 = bc[0];
    match mod_inverse(b0, P) {
        None => {
            proof {
                lemma_field_prime_no_small_divisor();
                lemma_gcd_one_near_ends(b0 as nat, P as nat, 0x10000);
            }
            None
        },
        Some(v) => {
            proof {
                if v == 0 {
                    assert((b0 * v) % (P as int) == 0);
                }
            }
            let mut cv: Vec<i128> = Vec::new();
            cv.push(v);
            assert(cv@ =~= seq![v]);
            let inv = poly_new(cv, P);
            proof {
                lemma_new_single(v, P);
                let pi = P as int;
                assert forall|x: int| (#[trigger] pval(poly_coefs(inv), x) * (jk - jm)) % pi == 1 by {
                    lemma_pval_single(v, x);
                    assert((b0 as int) % pi == (jk - jm) % pi) by {
                        if jk < jm {
                            vstd::arithmetic::div_mod::lemma_mod_add_multiples_vanish(
                                jk - jm,
                                pi,
                            );
                        }
                    }
                    lemma_mod_mul_cong(v as int, v as int, jk - jm, b0 as int, pi);
                    assert(v * b0 == b0 * v) by (nonlinear_arith);
                }
            }
            Some(inv)
        },
    }
}


/// Multiplying by a factor and then by the inverse of that factor keeps a residue.
proof fn lemma_scale_by_inverse(t: int, t1: int, t2: int, d: int, v: int, yk: int, m: int)
    requires
        m > 0,
        t % m == yk % m,
        t1 % m == (t * d) % m,
        t2 % m == (t1 * v) % m,
        (v * d) % m == 1,
    ensures
        t2 % m == yk % m,
{
    assert(m > 1) by {
        if m == 1 {
            assert((v * d) % m == 0);
        }
    }
    lemma_mod_mul_cong(t1, t * d, v, v, m);
    assert((t * d) * v == t * (v * d)) by (nonlinear_arith);
    vstd::arithmetic::div_mod::lemma_small_mod(1, m as nat);
    lemma_mod_mul_cong(t, yk, v * d, 1, m);
}

/// A product with a factor that vanishes modulo `m` vanishes.
proof fn lemma_product_vanishes(t: int, t1: int, t2: int, d: int, v: int, m: int)
    requires
        m > 0,
        t % m == 0 || d == 0,
        t1 % m == (t * d) % m,
        t2 % m == (t1 * v) % m,
    ensures
        t2 % m == 0,
{
    if d == 0 {
        assert(t * d == 0);
    } else {
        vstd::arithmetic::div_mod::lemma_small_mod(0, m as nat);
        lemma_mod_mul_cong(t, 0, d, d, m);
    }
    vstd::arithmetic::div_mod::lemma_small_mod(0, m as nat);
    lemma_mod_mul_cong(t1, 0, v, v, m);
}

/// The `k`-th Lagrange term: `y` times `(x - j[m]) / (j[k] - j[m])` for every
/// `m` with `j[m] != j[k]`. It keeps the value of `y` at `j[k]` and vanishes at
/// every other point.
fn lagrange_term(
    y: PolynomialOverP<i128>,
    justx: &PolynomialOverP<i128>,
    j: &Vec<usize>,
    k: usize,
) -> (res: Option<PolynomialOverP<i128>>)
    requires
        k < j.len(),
        forall|q: int| 0 <= q < j.len() ==> #[trigger] j@[q] < 0x1_0000,
        forall|q1: int, q2: int| 0 <= q1 < q2 < j.len() ==> j@[q1] != j@[q2],
        is_x(*justx),
        poly_ok(y, P),
    ensures
        res is Some,
        res matches Some(t) ==> (poly_ok(t, P) && poly_coefs(t).len() <= poly_coefs(y).len() + j.len()
            - 1 && pval(poly_coefs(t), j@[k as int] as int) % (P as int) == pval(
            poly_coefs(y),
            j@[k as int] as int,
        ) % (P as int) && forall|q: int|
            0 <= q < j.len() && q != k ==> #[trigger] pval(poly_coefs(t), j@[q] as int) % (P as int)
                == 0),
{
    let ghost yv = pval(poly_coefs(y), j@[k as int] as int);
    let ghost ylen = poly_coefs(y).len();
    let mut term = y;
    let mut m: usize = 0;
    while m < j.len()
        invariant
            k < j.len(),
            m <= j.len(),
            forall|q: int| 0 <= q < j.len() ==> #[trigger] j@[q] < 0x1_0000,
            forall|q1: int, q2: int| 0 <= q1 < q2 < j.len() ==> j@[q1] != j@[q2],
            is_x(*justx),
            poly_ok(term, P),
            poly_coefs(term).len() <= ylen + m - (if k < m {
                1int
            } else {
                0int
            }),
            pval(poly_coefs(term), j@[k as int] as int) % (P as int) == yv % (P as int),
            forall|q: int|
                0 <= q < m && q != k ==> #[trigger] pval(poly_coefs(term), j@[q] as int) % (P as int)
                    == 0,
        decreases j.len() - m,
    {
        if j[k] != j[m] {
            let top = linear_factor(justx, j[m]);
            match gap_inverse(j[k], j[m]) {
                None => {
                    return None;
                },
                Some(inv) => {
                    let ghost ct = poly_coefs(term);
                    let ghost ctop = poly_coefs(top);
                    let t1 = mul_mod(term, top);
                    let ghost c1 = poly_coefs(t1);
                    let ghost ci = poly_coefs(inv);
                    term = mul_mod(t1, inv);
                    proof {
                        let pi = P as int;
                        let jk = j@[k as int] as int;
                        let jm = j@[m as int] as int;
                        let cn = poly_coefs(term);
                        assert(pval(ctop, jk) == jk - jm);
                        lemma_scale_by_inverse(
                            pval(ct, jk),
                            pval(c1, jk),
                            pval(cn, jk),
                            jk - jm,
                            pval(ci, jk),
                            yv,
                            pi,
                        );
                        assert forall|q: int|
                            0 <= q < m + 1 && q != k implies #[trigger] pval(cn, j@[q] as int) % pi
                            == 0 by {
                            let jq = j@[q] as int;
                            assert(pval(ctop, jq) == jq - jm);
                            if q == m {
                                lemma_product_vanishes(
                                    pval(ct, jq),
                                    pval(c1, jq),
                                    pval(cn, jq),
                                    jq - jm,
                                    pval(ci, jq),
                                    pi,
                                );
                            } else {
                                lemma_product_vanishes(
                                    pval(ct, jq),
                                    pval(c1, jq),
                                    pval(cn, jq),
                                    jq - jm,
                                    pval(ci, jq),
                                    pi,
                                );
                            }
                        }
                    }
                },
            }
        } else {
            proof {
                if m != k {
                    if m < k {
                        assert(j@[m as int] != j@[k as int]);
                    } else {
                        assert(j@[k as int] != j@[m as int]);
                    }
                }
            }
        }
        m = m + 1;
    }
    Some(term)
}

/// The value the ring polynomial must take at the `q`-th chosen slot: the slot's
/// hash minus the shifted position.
pub open spec fn ring_target(h: Seq<u64>, s: Seq<usize>, j: Seq<usize>, shift: Seq<u64>, q: int) -> int {
    h[j[q] as int] - (shift[q] + s[q])
}

/// The polynomial through the points `(j[q], h[j[q]] - (shift[q] + s[q]))`, summed
/// from Lagrange terms (always found: every inverse it needs exists).
pub fn ring_polynomial(h: &Vec<u64>, s: &Vec<usize>, j: &Vec<usize>, shift: &Vec<u64>) -> (res:
    Option<PolynomialOverP<i128>>)
    requires
        j.len() == s.len(),
        shift.len() == s.len(),
        h.len() <= 0x1_0000,
        forall|q: int| 0 <= q < j.len() ==> #[trigger] j@[q] < h.len(),
        forall|q1: int, q2: int| 0 <= q1 < q2 < j.len() ==> j@[q1] != j@[q2],
        forall|q: int| 0 <= q < h.len() ==> #[trigger] h@[q] < P,
    ensures
        res is Some,
        res matches Some(p) ==> (poly_ok(p, P) && poly_coefs(p).len() <= s.len() && forall|q: int|
            0 <= q < s.len() ==> #[trigger] pval(poly_coefs(p), j@[q] as int) % (P as int)
                == ring_target(h@, s@, j@, shift@, q) % (P as int)),
{
    let justx = make_x();
    let mut poly = poly_new(Vec::new(), P);
    proof {
        assert(Seq::<i128>::empty().map_values(|v: i128| crate::poly::trem(v as int, P as int) as i128)
            =~= Seq::<i128>::empty());
    }
    let mut i: usize = 0;
    while i < j.len()
        invariant
            i <= j.len(),
            j.len() == s.len(),
            shift.len() == s.len(),
            h.len() <= 0x1_0000,
            forall|q: int| 0 <= q < j.len() ==> #[trigger] j@[q] < h.len(),
            forall|q1: int, q2: int| 0 <= q1 < q2 < j.len() ==> j@[q1] != j@[q2],
            forall|q: int| 0 <= q < h.len() ==> #[trigger] h@[q] < P,
            is_x(justx),
            poly_ok(poly, P),
            poly_coefs(poly).len() <= s.len(),
            forall|q: int|
                0 <= q < j.len() ==> #[trigger] pval(poly_coefs(poly), j@[q] as int) % (P as int)
                    == (if q < i {
                    ring_target(h@, s@, j@, shift@, q)
                } else {
                    0
                }) % (P as int),
        decreases j.len() - i,
    {
        assert(j@[i as int] < h.len());
        let y = target_poly(h[j[i]], shift[i], s[i]);
        let ghost cy = poly_coefs(y);
        proof {
            assert forall|q: int| 0 <= q < j.len() implies #[trigger] j@[q] < 0x1_0000 by {
                assert(j@[q] < h.len());
            }
        }
        match lagrange_term(y, &justx, j, i) {
            None => {
                return None;
            },
            Some(term) => {
                let ghost cp = poly_coefs(poly);
                let ghost ct = poly_coefs(term);
                poly = add_mod(poly, term);
                proof {
                    let pi = P as int;
                    let cn = poly_coefs(poly);
                    vstd::arithmetic::div_mod::lemma_small_mod(0, pi as nat);
                    assert forall|q: int| 0 <= q < j.len() implies #[trigger] pval(cn, j@[q] as int) % pi
                        == (if q < i + 1 {
                        ring_target(h@, s@, j@, shift@, q)
                    } else {
                        0
                    }) % pi by {
                        let jq = j@[q] as int;
                        if q == i {
                            assert(pval(cy, jq) % pi == ring_target(h@, s@, j@, shift@, q) % pi);
                            lemma_mod_add_cong(
                                pval(cp, jq),
                                0,
                                pval(ct, jq),
                                ring_target(h@, s@, j@, shift@, q),
                                pi,
                            );
                        } else if q < i {
                            lemma_mod_add_cong(
                                pval(cp, jq),
                                ring_target(h@, s@, j@, shift@, q),
                                pval(ct, jq),
                                0,
                                pi,
                            );
                        } else {
                            lemma_mod_add_cong(pval(cp, jq), 0, pval(ct, jq), 0, pi);
                        }
                    }
                }
            },
        }
        i = i + 1;
    }
    Some(poly)
}

} // verus!
