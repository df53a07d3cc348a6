//! Little-endian integer encodings, as `to_le_bytes` / `from_le_bytes` lay them out.
use vstd::prelude::*;

verus! {

/// The `n` low-order bytes of `x`, least significant first.
pub open spec fn le_encode(x: nat, n: nat) -> Seq<u8>
    decreases n,
{
    if n == 0 {
        Seq::empty()
    } else {
        seq![(x % 256) as u8] + le_encode(x / 256, (n - 1) as nat)
    }
}

/// The number whose little-endian bytes are `s`.
pub open spec fn le_decode(s: Seq<u8>) -> nat
    decreases s.len(),
{
    if s.len() == 0 {
        0
    } else {
        s[0] as nat + 256 * le_decode(s.drop_first())
    }
}

pub open spec fn pow256(n: nat) -> nat
    decreases n,
{
    if n == 0 {
        1
    } else {
        256 * pow256((n - 1) as nat)
    }
}

pub proof fn lemma_le_encode_len(x: nat, n: nat)
    ensures
        le_encode(x, n).len() == n,
    decreases n,
{
    if n > 0 {
        lemma_le_encode_len(x / 256, (n - 1) as nat);
    }
}

/// The last of the `n` bytes of a number below `128 · 256^(n-1)` is at most 127.
pub proof fn lemma_le_encode_top(x: nat, n: nat)
    requires
        n >= 1,
        x < 128 * pow256((n - 1) as nat),
    ensures
        le_encode(x, n).len() == n,
        le_encode(x, n)[n - 1] <= 127,
    decreases n,
{
    lemma_le_encode_len(x, n);
    if n == 1 {
        assert(pow256(0) == 1);
        assert(le_encode(x, 1) == seq![(x % 256) as u8] + le_encode(x / 256, 0));
    } else {
        let m = (n - 1) as nat;
        assert(pow256(m) == 256 * pow256((m - 1) as nat));
        assert(x / 256 < 128 * pow256((m - 1) as nat)) by (nonlinear_arith)
            requires
                x < 128 * (256 * pow256((m - 1) as nat)),
        ;
        lemma_le_encode_top(x / 256, m);
        lemma_le_encode_len(x / 256, m);
        assert(le_encode(x, n) == seq![(x % 256) as u8] + le_encode(x / 256, m));
        assert(le_encode(x, n)[n - 1] == le_encode(x / 256, m)[m - 1]);
    }
}

/// Decoding the `n` bytes of `x` gives `x` back when it fits.
pub proof fn lemma_le_roundtrip(x: nat, n: nat)
    requires
        x < pow256(n),
    ensures
        le_decode(le_encode(x, n)) == x,
        le_encode(x, n).len() == n,
    decreases n,
{
    lemma_le_encode_len(x, n);
    if n > 0 {
        assert(x / 256 < pow256((n - 1) as nat));
        lemma_le_roundtrip(x / 256, (n - 1) as nat);
        assert(le_encode(x, n).drop_first() =~= le_encode(x / 256, (n - 1) as nat));
    }
}

pub proof fn lemma_le_decode_bound(s: Seq<u8>)
    ensures
        le_decode(s) < pow256(s.len()),
    decreases s.len(),
{
    if s.len() > 0 {
        lemma_le_decode_bound(s.drop_first());
    }
}

/// Encoding the decoded value of `s` gives `s` back.
pub proof fn lemma_le_decode_encode(s: Seq<u8>)
    ensures
        le_encode(le_decode(s), s.len()) == s,
    decreases s.len(),
{
    if s.len() > 0 {
        lemma_le_decode_encode(s.drop_first());
        let x = le_decode(s);
        assert(x % 256 == s[0] as nat);
        assert(x / 256 == le_decode(s.drop_first()));
        assert(le_encode(x, s.len()) =~= s);
    }
}

pub proof fn lemma_pow256_values()
    ensures
        pow256(2) == 0x1_0000,
        pow256(4) == 0x1_0000_0000,
        pow256(8) == 0x1_0000_0000_0000_0000,
        pow256(16) == 0x1_0000_0000_0000_0000_0000_0000_0000_0000,
{
    reveal_with_fuel(pow256, 17);
}

/// The bytes of `x` as `x.to_le_bytes()` lays them out, for a `width`-byte integer.
pub fn le_bytes(x: u128, width: usize) -> (r: Vec<u8>)
    requires
        width <= 16,
    ensures
        r@ == le_encode(x as nat, width as nat),
{
    let mut r: Vec<u8> = Vec::new();
    let mut rest: u128 = x;
    let mut i: usize = 0;
    while i < width
        invariant
            i <= width,
            r@ + le_encode(rest as nat, (width - i) as nat) == le_encode(x as nat, width as nat),
        decreases width - i,
    {
        let b: u8 = (rest % 256) as u8;
        r.push(b);
        proof {
            let n = (width - i) as nat;
            assert(le_encode(rest as nat, n) == seq![b] + le_encode((rest / 256) as nat, (n - 1) as nat));
            assert(r@ + le_encode((rest / 256) as nat, (n - 1) as nat) =~= (r@.drop_last() + seq![b]) + le_encode((rest / 256) as nat, (n - 1) as nat));
        }
        rest = rest / 256;
        i = i + 1;
    }
    proof {
        assert(le_encode(rest as nat, 0) =~= Seq::<u8>::empty());
        assert(r@ + Seq::<u8>::empty() =~= r@);
    }
    r
}

/// The unsigned value of the little-endian bytes `s[start..start + width]`.
pub fn le_value(s: &[u8], start: usize, width: usize) -> (r: u128)
    requires
        width <= 16,
        start + width <= s@.len(),
    ensures
        r == le_decode(s@.subrange(start as int, start + width)),
{
    let mut acc: u128 = 0;
    let mut i: usize = width;
    proof {
        lemma_pow256_values();
    }
    while i > 0
        invariant
            i <= width <= 16,
            start + width <= s@.len(),
            s@.len() == s.len(),
            acc == le_decode(s@.subrange(start + i, start + width)),
            acc < pow256((width - i) as nat),
            pow256(16) == 0x1_0000_0000_0000_0000_0000_0000_0000_0000,
        decreases i,
    {
        i = i - 1;
        let ghost tail = s@.subrange(start + i + 1, start + width);
        let ghost cur = s@.subrange(start + i, start + width);
        proof {
            assert(cur.drop_first() =~= tail);
            lemma_pow256_mono((width - i - 1) as nat, 15);
            assert(acc < pow256(15));
            assert(pow256(16) == 256 * pow256(15));
        }
        acc = (s[start + i] as u128) + 256 * acc;
    }
    proof {
        assert(s@.subrange(start as int, start + width) =~= s@.subrange(start + 0, start + width));
    }
    acc
}

pub proof fn lemma_pow256_mono(a: nat, b: nat)
    requires
        a <= b,
    ensures
        pow256(a) <= pow256(b),
    decreases b,
{
    if a < b {
        lemma_pow256_mono(a, (b - 1) as nat);
    }
}

} // verus!
