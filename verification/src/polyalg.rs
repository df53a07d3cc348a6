//! Evaluation of coefficient sequences as polynomials over the integers, and how
//! the crate's coefficient arithmetic acts on it modulo the prime.
use crate::poly::{
    coefs_bounded, diff_coefs, extend_zeros, horner, new_coefs, prod_coef, product_coefs,
    reduce_mod, sum_coefs, trem, trim_zero,
};
use vstd::arithmetic::div_mod::{
    lemma_add_mod_noop, lemma_fundamental_div_mod, lemma_mod_multiples_vanish, lemma_mul_mod_noop,
    lemma_sub_mod_noop,
};
use vstd::prelude::*;

verus! {

/// `x` to the power `e`.
pub open spec fn xpow(x: int, e: nat) -> int
    decreases e,
{
    if e == 0 {
        1
    } else {
        x * xpow(x, (e - 1) as nat)
    }
}

/// `f(0) + f(1) x + ... + f(n-1) x^(n-1)`.
pub open spec fn psum(f: spec_fn(int) -> int, n: nat, x: int) -> int
    decreases n,
{
    if n == 0 {
        0
    } else {
        psum(f, (n - 1) as nat, x) + f(n - 1) * xpow(x, (n - 1) as nat)
    }
}

/// The polynomial with coefficients `c` (lowest degree first) evaluated at `x`.
pub open spec fn pval(c: Seq<i128>, x: int) -> int {
    psum(|i: int| c[i] as int, c.len(), x)
}

pub proof fn lemma_xpow_adds(x: int, a: nat, b: nat)
    ensures
        xpow(x, a + b) == xpow(x, a) * xpow(x, b),
    decreases a,
{
    if a > 0 {
        lemma_xpow_adds(x, (a - 1) as nat, b);
        assert(xpow(x, a + b) == x * xpow(x, (a - 1 + b) as nat));
        assert(x * (xpow(x, (a - 1) as nat) * xpow(x, b)) == (x * xpow(x, (a - 1) as nat)) * xpow(
            x,
            b,
        )) by (nonlinear_arith);
    }
}

pub proof fn lemma_psum_ext(f: spec_fn(int) -> int, g: spec_fn(int) -> int, n: nat, x: int)
    requires
        forall|i: int| 0 <= i < n ==> #[trigger] f(i) == g(i),
    ensures
        psum(f, n, x) == psum(g, n, x),
    decreases n,
{
    if n > 0 {
        lemma_psum_ext(f, g, (n - 1) as nat, x);
    }
}

/// Terms that agree modulo `m` give sums that agree modulo `m`.
pub proof fn lemma_psum_cong(f: spec_fn(int) -> int, g: spec_fn(int) -> int, n: nat, x: int, m: int)
    requires
        m > 0,
        forall|i: int| 0 <= i < n ==> #[trigger] f(i) % m == g(i) % m,
    ensures
        psum(f, n, x) % m == psum(g, n, x) % m,
    decreases n,
{
    if n > 0 {
        let k = (n - 1) as nat;
        lemma_psum_cong(f, g, k, x, m);
        let p = xpow(x, k);
        lemma_mul_mod_noop(f(k as int), p, m);
        lemma_mul_mod_noop(g(k as int), p, m);
        assert((f(k as int) * p) % m == (g(k as int) * p) % m);
        lemma_add_mod_noop(psum(f, k, x), f(k as int) * p, m);
        lemma_add_mod_noop(psum(g, k, x), g(k as int) * p, m);
    }
}

/// Sums are additive in their terms.
pub proof fn lemma_psum_add(
    f: spec_fn(int) -> int,
    g: spec_fn(int) -> int,
    h: spec_fn(int) -> int,
    n: nat,
    x: int,
)
    requires
        forall|i: int| 0 <= i < n ==> #[trigger] h(i) == f(i) + g(i),
    ensures
        psum(h, n, x) == psum(f, n, x) + psum(g, n, x),
    decreases n,
{
    if n > 0 {
        let k = (n - 1) as nat;
        lemma_psum_add(f, g, h, k, x);
        let p = xpow(x, k);
        assert((f(k as int) + g(k as int)) * p == f(k as int) * p + g(k as int) * p)
            by (nonlinear_arith);
    }
}

/// Sums scale with their terms.
pub proof fn lemma_psum_scale(f: spec_fn(int) -> int, g: spec_fn(int) -> int, c: int, n: nat, x: int)
    requires
        forall|i: int| 0 <= i < n ==> #[trigger] g(i) == c * f(i),
    ensures
        psum(g, n, x) == c * psum(f, n, x),
    decreases n,
{
    if n > 0 {
        let k = (n - 1) as nat;
        lemma_psum_scale(f, g, c, k, x);
        let p = xpow(x, k);
        assert((c * f(k as int)) * p == c * (f(k as int) * p)) by (nonlinear_arith);
        assert(c * psum(f, k, x) + c * (f(k as int) * p) == c * (psum(f, k, x) + f(k as int) * p))
            by (nonlinear_arith);
    }
}

/// Zero terms past `n` do not change the sum.
pub proof fn lemma_psum_zero_tail(f: spec_fn(int) -> int, n: nat, n2: nat, x: int)
    requires
        n <= n2,
        forall|i: int| n <= i < n2 ==> #[trigger] f(i) == 0,
    ensures
        psum(f, n2, x) == psum(f, n, x),
    decreases n2,
{
    if n2 > n {
        lemma_psum_zero_tail(f, n, (n2 - 1) as nat, x);
    }
}

/// A sum of zero terms is zero.
pub proof fn lemma_psum_zero(f: spec_fn(int) -> int, n: nat, x: int)
    requires
        forall|i: int| 0 <= i < n ==> #[trigger] f(i) == 0,
    ensures
        psum(f, n, x) == 0,
{
    lemma_psum_zero_tail(f, 0, n, x);
}

/// Shifting the terms by `s` multiplies the sum by `x^s`.
pub proof fn lemma_psum_shift(f: spec_fn(int) -> int, g: spec_fn(int) -> int, s: nat, lb: nat, x: int)
    requires
        forall|k: int| 0 <= k < s ==> #[trigger] f(k) == 0,
        forall|k: int| s <= k < s + lb ==> #[trigger] f(k) == g(k - s),
    ensures
        psum(f, s + lb, x) == xpow(x, s) * psum(g, lb, x),
    decreases lb,
{
    if lb == 0 {
        lemma_psum_zero(f, s, x);
    } else {
        let l = (lb - 1) as nat;
        lemma_psum_shift(f, g, s, l, x);
        lemma_xpow_adds(x, s, l);
        assert(psum(f, s + lb, x) == psum(f, s + l, x) + f((s + l) as int) * xpow(x, s + l));
        assert(f((s + l) as int) == g(l as int));
        let a = xpow(x, s);
        let b = xpow(x, l);
        assert(a * psum(g, l, x) + g(l as int) * (a * b) == a * (psum(g, l, x) + g(l as int) * b))
            by (nonlinear_arith);
    }
}

/// Factoring the constant term out of a sum.
pub proof fn lemma_psum_first(f: spec_fn(int) -> int, g: spec_fn(int) -> int, n: nat, x: int)
    requires
        forall|i: int| 0 <= i < n ==> #[trigger] g(i) == f(i + 1),
    ensures
        psum(f, n + 1, x) == f(0) + x * psum(g, n, x),
    decreases n,
{
    if n == 0 {
        assert(psum(f, 1, x) == psum(f, 0, x) + f(0) * xpow(x, 0));
        assert(xpow(x, 0) == 1);
    } else {
        let k = (n - 1) as nat;
        lemma_psum_first(f, g, k, x);
        assert(psum(f, n + 1, x) == psum(f, n, x) + f(n as int) * xpow(x, n));
        assert(psum(g, n, x) == psum(g, k, x) + g(k as int) * xpow(x, k));
        assert(xpow(x, n) == x * xpow(x, k));
        assert(g(k as int) == f(n as int));
        assert(f(0) + x * psum(g, k, x) + f(n as int) * (x * xpow(x, k)) == f(0) + x * (psum(g, k, x)
            + g(k as int) * xpow(x, k))) by (nonlinear_arith)
            requires
                g(k as int) == f(n as int),
        ;
    }
}

/// Rust's `%` leaves the residue modulo `m` unchanged.
pub proof fn lemma_trem_cong(a: int, m: int)
    requires
        m > 0,
    ensures
        trem(a, m) % m == a % m,
        -m < trem(a, m) < m,
{
    if a < 0 {
        let q = (-a) % m;
        lemma_fundamental_div_mod(-a, m);
        let d = (-a) / m;
        assert(-a == m * d + q);
        assert(m * (-d) == -(m * d)) by (nonlinear_arith);
        assert(a == m * (-d) + (-q));
        lemma_mod_multiples_vanish(-d, -q, m);
        assert((m * (-d) + (-q)) % m == (-q) % m);
        assert(trem(a, m) == -q);
    } else {
        vstd::arithmetic::div_mod::lemma_mod_twice(a, m);
    }
}

/// `reduce_mod` leaves the residue modulo `m` unchanged.
pub proof fn lemma_reduce_cong(a: int, m: int)
    requires
        m > 0,
    ensures
        reduce_mod(a, m) % m == a % m,
{
    if a >= m {
        lemma_mod_multiples_vanish(1, a - m, m);
    } else if a <= -m {
        lemma_mod_multiples_vanish(-1, a + m, m);
    }
}

/// Trailing zeros do not change the value.
pub proof fn lemma_pval_trim(s: Seq<i128>, x: int)
    ensures
        pval(trim_zero(s), x) == pval(s, x),
    decreases s.len(),
{
    if s.len() > 0 && s.last() == 0 {
        let t = s.drop_last();
        lemma_pval_trim(t, x);
        let fs = |i: int| s[i] as int;
        let ft = |i: int| t[i] as int;
        lemma_psum_ext(fs, ft, t.len(), x);
        assert(pval(s, x) == psum(fs, s.len(), x));
        assert(psum(fs, s.len(), x) == psum(fs, t.len(), x) + fs(t.len() as int) * xpow(x, t.len()));
        assert(fs(t.len() as int) == 0);
        assert(fs(t.len() as int) * xpow(x, t.len()) == 0);
        assert(pval(t, x) == psum(ft, t.len(), x));
        assert(trim_zero(s) == trim_zero(t));
    }
}

/// Padding with zeros does not change the value.
pub proof fn lemma_pval_extend(s: Seq<i128>, n: nat, x: int)
    ensures
        pval(extend_zeros(s, n), x) == pval(s, x),
        extend_zeros(s, n).len() == if s.len() < n {
            n
        } else {
            s.len()
        },
{
    let e = extend_zeros(s, n);
    if s.len() < n {
        lemma_psum_zero_tail(|i: int| e[i] as int, s.len(), e.len(), x);
        lemma_psum_ext(|i: int| e[i] as int, |i: int| s[i] as int, s.len(), x);
    }
}

/// Sequences that agree modulo `m` entrywise have values that agree modulo `m`.
pub proof fn lemma_pval_cong(a: Seq<i128>, b: Seq<i128>, x: int, m: int)
    requires
        m > 0,
        a.len() == b.len(),
        forall|i: int| 0 <= i < a.len() ==> (a[i] as int) % m == (b[i] as int) % m,
    ensures
        pval(a, x) % m == pval(b, x) % m,
{
    lemma_psum_cong(|i: int| a[i] as int, |i: int| b[i] as int, a.len(), x, m);
}

/// The crate's Horner evaluation agrees with the value modulo `m`.
pub proof fn lemma_horner_pval(c: Seq<i128>, x: int, m: int)
    requires
        m > 0,
    ensures
        horner(c, x, m) % m == pval(c, x) % m,
    decreases c.len(),
{
    if c.len() == 1 {
        let f = |i: int| c[i] as int;
        assert(pval(c, x) == psum(f, 1, x));
        assert(psum(f, 1, x) == psum(f, 0, x) + f(0) * xpow(x, 0));
        assert(xpow(x, 0) == 1);
    } else if c.len() == 0 {
        assert(pval(c, x) == 0);
    } else {
        let rest = c.drop_first();
        lemma_horner_pval(rest, x, m);
        let hr = horner(rest, x, m);
        lemma_trem_cong(hr * x + c[0], m);
        lemma_mul_mod_noop(hr, x, m);
        lemma_mul_mod_noop(pval(rest, x), x, m);
        assert((hr * x) % m == (pval(rest, x) * x) % m);
        lemma_add_mod_noop(hr * x, c[0] as int, m);
        lemma_add_mod_noop(pval(rest, x) * x, c[0] as int, m);
        let f = |i: int| c[i] as int;
        let g = |i: int| rest[i] as int;
        lemma_psum_first(f, g, rest.len(), x);
        assert(pval(c, x) == psum(f, rest.len() + 1, x));
        assert(pval(rest, x) == psum(g, rest.len(), x));
        assert(x * pval(rest, x) == pval(rest, x) * x) by (nonlinear_arith);
        assert(horner(c, x, m) == trem(hr * x + c[0], m));
        assert(pval(c, x) == c[0] + pval(rest, x) * x);
    }
}

/// `PolynomialOverP::new` keeps the value modulo the prime.
pub proof fn lemma_new_pval(c: Seq<i128>, m: i128, x: int)
    requires
        m > 0,
    ensures
        pval(new_coefs(c, m), x) % (m as int) == pval(c, x) % (m as int),
{
    let mapped = c.map_values(|v: i128| trem(v as int, m as int) as i128);
    assert forall|i: int| 0 <= i < c.len() implies (mapped[i] as int) % (m as int) == (
    c[i] as int) % (m as int) by {
        lemma_trem_cong(c[i] as int, m as int);
    }
    lemma_pval_cong(mapped, c, x, m as int);
    lemma_pval_trim(mapped, x);
}

/// Negating every coefficient negates the value.
pub proof fn lemma_neg_pval(c: Seq<i128>, x: int)
    requires
        forall|i: int| 0 <= i < c.len() ==> c[i] > i128::MIN,
    ensures
        pval(c.map_values(|v: i128| (-v) as i128), x) == -pval(c, x),
{
    let n = c.map_values(|v: i128| (-v) as i128);
    lemma_psum_scale(|i: int| c[i] as int, |i: int| n[i] as int, -1, c.len(), x);
}

/// The crate's sum of non-zero polynomials adds the values modulo the prime.
pub proof fn lemma_sum_pval(a: Seq<i128>, b: Seq<i128>, m: i128, x: int)
    requires
        m > 0,
        coefs_bounded(a, m as int),
        coefs_bounded(b, m as int),
    ensures
        pval(sum_coefs(a, b, m), x) % (m as int) == (pval(a, x) + pval(b, x)) % (m as int),
{
    let mi = m as int;
    let e = extend_zeros(a, b.len());
    lemma_pval_extend(a, b.len(), x);
    let eb = extend_zeros(b, e.len());
    lemma_pval_extend(b, e.len(), x);
    let r = Seq::new(
        e.len(),
        |k: int|
            if k < b.len() {
                reduce_mod(e[k] + b[k], m as int) as i128
            } else {
                e[k]
            },
    );
    let s = |k: int| e[k] as int + eb[k] as int;
    assert forall|k: int| 0 <= k < e.len() implies -m < #[trigger] e[k] < m by {
        if k < a.len() {
            assert(e[k] == a[k]);
        }
    }
    assert forall|k: int| 0 <= k < e.len() implies (r[k] as int) % mi == s(k) % mi by {
        if k < b.len() {
            lemma_reduce_cong(e[k] + b[k], mi);
        }
    }
    lemma_psum_cong(|k: int| r[k] as int, s, e.len(), x, mi);
    lemma_psum_add(|i: int| e[i] as int, |i: int| eb[i] as int, s, e.len(), x);
    lemma_pval_trim(r, x);
}

/// The crate's difference of non-zero polynomials subtracts the values modulo the prime.
pub proof fn lemma_diff_pval(a: Seq<i128>, b: Seq<i128>, m: i128, x: int)
    requires
        m > 0,
        coefs_bounded(a, m as int),
        coefs_bounded(b, m as int),
    ensures
        pval(diff_coefs(a, b, m), x) % (m as int) == (pval(a, x) - pval(b, x)) % (m as int),
{
    let mi = m as int;
    let e = extend_zeros(a, b.len());
    lemma_pval_extend(a, b.len(), x);
    let eb = extend_zeros(b, e.len());
    lemma_pval_extend(b, e.len(), x);
    let r = Seq::new(
        e.len(),
        |k: int|
            if k < b.len() {
                reduce_mod(e[k] - b[k], m as int) as i128
            } else {
                e[k]
            },
    );
    let s = |k: int| e[k] as int + (-(eb[k] as int));
    assert forall|k: int| 0 <= k < e.len() implies -m < #[trigger] e[k] < m by {
        if k < a.len() {
            assert(e[k] == a[k]);
        }
    }
    assert forall|k: int| 0 <= k < e.len() implies (r[k] as int) % mi == s(k) % mi by {
        if k < b.len() {
            lemma_reduce_cong(e[k] - b[k], mi);
        }
    }
    lemma_psum_cong(|k: int| r[k] as int, s, e.len(), x, mi);
    let neg = |i: int| -(eb[i] as int);
    lemma_psum_scale(|i: int| eb[i] as int, neg, -1, e.len(), x);
    lemma_psum_add(|i: int| e[i] as int, neg, s, e.len(), x);
    lemma_pval_trim(r, x);
}

/// Trimming keeps a prefix.
pub proof fn lemma_trim_prefix(s: Seq<i128>)
    ensures
        trim_zero(s).len() <= s.len(),
        forall|i: int| 0 <= i < trim_zero(s).len() ==> trim_zero(s)[i] == s[i],
    decreases s.len(),
{
    if s.len() > 0 && s.last() == 0 {
        lemma_trim_prefix(s.drop_last());
        assert forall|i: int| 0 <= i < trim_zero(s).len() implies trim_zero(s)[i] == s[i] by {
            assert(s.drop_last()[i] == s[i]);
        }
    }
}

/// Sums and differences keep coefficients strictly between `-m` and `m`.
pub proof fn lemma_sum_diff_bounded(a: Seq<i128>, b: Seq<i128>, m: i128)
    requires
        m > 0,
        coefs_bounded(a, m as int),
        coefs_bounded(b, m as int),
    ensures
        coefs_bounded(sum_coefs(a, b, m), m as int),
        coefs_bounded(diff_coefs(a, b, m), m as int),
{
    let e = extend_zeros(a, b.len());
    assert forall|k: int| 0 <= k < e.len() implies -m < #[trigger] e[k] < m by {
        if k < a.len() {
            assert(e[k] == a[k]);
        }
    }
    let r1 = Seq::new(
        e.len(),
        |k: int|
            if k < b.len() {
                reduce_mod(e[k] + b[k], m as int) as i128
            } else {
                e[k]
            },
    );
    let r2 = Seq::new(
        e.len(),
        |k: int|
            if k < b.len() {
                reduce_mod(e[k] - b[k], m as int) as i128
            } else {
                e[k]
            },
    );
    assert(coefs_bounded(r1, m as int));
    assert(coefs_bounded(r2, m as int));
    lemma_trim_prefix(r1);
    lemma_trim_prefix(r2);
    assert forall|i: int| 0 <= i < trim_zero(r1).len() implies -m < #[trigger] trim_zero(r1)[i]
        < m by {
        assert(trim_zero(r1)[i] == r1[i]);
    }
    assert forall|i: int| 0 <= i < trim_zero(r2).len() implies -m < #[trigger] trim_zero(r2)[i]
        < m by {
        assert(trim_zero(r2)[i] == r2[i]);
    }
}

/// `a[0] b[k] + ... + a[i-1] b[k-i+1]`, the exact `k`-th coefficient of the
/// product of the first `i` coefficients of `a` with `b`.
pub open spec fn conv_sum(a: Seq<i128>, b: Seq<i128>, k: int, i: nat) -> int
    decreases i,
{
    if i == 0 {
        0
    } else {
        conv_sum(a, b, k, (i - 1) as nat) + (if 0 <= k - (i - 1) < b.len() {
            a[i - 1] * b[k - (i - 1)]
        } else {
            0
        })
    }
}

proof fn lemma_prod_coef_cong(a: Seq<i128>, b: Seq<i128>, m: i128, k: int, i: nat)
    requires
        m > 0,
        i <= a.len(),
    ensures
        prod_coef(a, b, m, k, i) % (m as int) == conv_sum(a, b, k, i) % (m as int),
        -m < prod_coef(a, b, m, k, i) < m,
    decreases i,
{
    if i > 0 {
        let mi = m as int;
        lemma_prod_coef_cong(a, b, m, k, (i - 1) as nat);
        let prev = prod_coef(a, b, m, k, (i - 1) as nat);
        let l = k - (i - 1);
        if 0 <= l < b.len() {
            let t = a[i - 1] * b[l];
            lemma_trem_cong(t + prev, mi);
            lemma_add_mod_noop(t, prev, mi);
            lemma_add_mod_noop(t, conv_sum(a, b, k, (i - 1) as nat), mi);
            assert(conv_sum(a, b, k, i) == conv_sum(a, b, k, (i - 1) as nat) + t);
        }
    }
}

/// The exact product of the first `i` coefficients of `a` with `b`, evaluated.
proof fn lemma_conv_partial(a: Seq<i128>, b: Seq<i128>, i: nat, x: int)
    requires
        i <= a.len(),
        b.len() >= 1,
        a.len() >= 1,
    ensures
        psum(|k: int| conv_sum(a, b, k, i), (a.len() + b.len() - 1) as nat, x) == psum(
            |t: int| a[t] as int,
            i,
            x,
        ) * psum(|l: int| b[l] as int, b.len(), x),
    decreases i,
{
    let len = (a.len() + b.len() - 1) as nat;
    let fa = |t: int| a[t] as int;
    let fb = |l: int| b[l] as int;
    let bb = psum(fb, b.len(), x);
    if i == 0 {
        lemma_psum_zero(|k: int| conv_sum(a, b, k, 0), len, x);
    } else {
        let j = (i - 1) as nat;
        lemma_conv_partial(a, b, j, x);
        let cj = |k: int| conv_sum(a, b, k, j);
        let ci = |k: int| conv_sum(a, b, k, i);
        let term = |k: int|
            if 0 <= k - j < b.len() {
                a[j as int] * b[k - j]
            } else {
                0
            };
        lemma_psum_add(cj, term, ci, len, x);
        lemma_psum_zero_tail(term, j + b.len(), len, x);
        let g = |l: int| a[j as int] * b[l];
        lemma_psum_shift(term, g, j, b.len(), x);
        lemma_psum_scale(fb, g, a[j as int] as int, b.len(), x);
        let pj = psum(fa, j, x);
        let xj = xpow(x, j);
        let aj = a[j as int] as int;
        assert(psum(fa, i, x) == pj + aj * xj);
        assert(pj * bb + xj * (aj * bb) == (pj + aj * xj) * bb) by (nonlinear_arith);
    }
}

/// Products keep coefficients strictly between `-m` and `m`.
pub proof fn lemma_product_bounded(a: Seq<i128>, b: Seq<i128>, m: i128)
    requires
        m > 0,
        a.len() >= 1,
        b.len() >= 1,
    ensures
        coefs_bounded(product_coefs(a, b, m), m as int),
{
    let p = product_coefs(a, b, m);
    assert forall|k: int| 0 <= k < p.len() implies -m < #[trigger] p[k] < m by {
        lemma_prod_coef_cong(a, b, m, k, a.len());
    }
}

/// The crate's product of non-zero polynomials multiplies the values modulo the prime.
pub proof fn lemma_product_pval(a: Seq<i128>, b: Seq<i128>, m: i128, x: int)
    requires
        m > 0,
        a.len() >= 1,
        b.len() >= 1,
    ensures
        pval(product_coefs(a, b, m), x) % (m as int) == (pval(a, x) * pval(b, x)) % (m as int),
{
    let mi = m as int;
    let p = product_coefs(a, b, m);
    let len = (a.len() + b.len() - 1) as nat;
    let cs = |k: int| conv_sum(a, b, k, a.len());
    assert forall|k: int| 0 <= k < len implies #[trigger] (p[k] as int) % mi == cs(k) % mi by {
        lemma_prod_coef_cong(a, b, m, k, a.len());
    }
    lemma_psum_cong(|k: int| p[k] as int, cs, len, x, mi);
    lemma_conv_partial(a, b, a.len(), x);
}

pub proof fn lemma_trim_single(v: i128)
    ensures
        trim_zero(seq![v]) == (if v == 0 {
            Seq::<i128>::empty()
        } else {
            seq![v]
        }),
{
    reveal_with_fuel(trim_zero, 2);
    if v == 0 {
        assert(seq![v].drop_last() =~= Seq::<i128>::empty());
    }
}

/// `new` on a single value already in `0..m`.
pub proof fn lemma_new_single(v: i128, m: i128)
    requires
        0 <= v < m,
    ensures
        new_coefs(seq![v], m) == (if v == 0 {
            Seq::<i128>::empty()
        } else {
            seq![v]
        }),
{
    vstd::arithmetic::div_mod::lemma_small_mod(v as nat, m as nat);
    assert(trem(v as int, m as int) == v);
    assert(seq![v].map_values(|x: i128| trem(x as int, m as int) as i128) =~= seq![v]);
    lemma_trim_single(v);
}

/// Coefficients made by `new` lie strictly between `-m` and `m`.
pub proof fn lemma_new_bounded(c: Seq<i128>, m: i128)
    requires
        m > 0,
    ensures
        coefs_bounded(new_coefs(c, m), m as int),
{
    let mapped = c.map_values(|x: i128| trem(x as int, m as int) as i128);
    lemma_trim_prefix(mapped);
    assert forall|i: int| 0 <= i < new_coefs(c, m).len() implies -m < #[trigger] new_coefs(
        c,
        m,
    )[i] < m by {
        assert(new_coefs(c, m)[i] == mapped[i]);
    }
}

/// Horner evaluation of bounded coefficients stays strictly between `-m` and `m`.
pub proof fn lemma_horner_bounded(c: Seq<i128>, x: int, m: int)
    requires
        m > 0,
        coefs_bounded(c, m),
    ensures
        -m < horner(c, x, m) < m,
    decreases c.len(),
{
    if c.len() > 1 {
        assert(coefs_bounded(c.drop_first(), m));
        lemma_horner_bounded(c.drop_first(), x, m);
    } else if c.len() == 1 {
        assert(-m < c[0] < m);
    }
}

} // verus!
