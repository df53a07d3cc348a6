//! The staker table's byte form, as `bincode` lays out a list of
//! `(CompressedRistretto, u64)`: the entry count as 8 little-endian bytes, then
//! each entry as the point's 32 bytes followed by the stake's 8 little-endian bytes.
use crate::codec::{le_bytes, le_decode, le_encode, le_value, lemma_le_decode_bound, lemma_le_roundtrip, lemma_pow256_values, pow256};
use crate::curve::{compressed_bytes, compressed_from_bytes, compressed_view};
use curve25519_dalek::ristretto::CompressedRistretto;
use vstd::prelude::*;

verus! {

/// The bytes of one table entry.
pub open spec fn entry_bytes(e: (CompressedRistretto, u64)) -> Seq<u8> {
    compressed_view(e.0) + le_encode(e.1 as nat, 8)
}

/// The bytes of the entries, one after the other.
pub open spec fn entries_bytes(v: Seq<(CompressedRistretto, u64)>) -> Seq<u8>
    decreases v.len(),
{
    if v.len() == 0 {
        Seq::empty()
    } else {
        entries_bytes(v.drop_last()) + entry_bytes(v.last())
    }
}

/// The byte form of a staker table.
pub open spec fn table_bytes(v: Seq<(CompressedRistretto, u64)>) -> Seq<u8> {
    le_encode(v.len(), 8) + entries_bytes(v)
}

/// The entry count a byte form announces.
pub open spec fn announced(b: Seq<u8>) -> nat {
    le_decode(b.subrange(0, 8))
}

/// The bytes hold the count and that many entries (later bytes are ignored).
pub open spec fn table_readable(b: Seq<u8>) -> bool {
    b.len() >= 8 && 8 + 40 * announced(b) <= b.len()
}

/// Entry `i` of a readable byte form: its point bytes and its stake.
pub open spec fn entry_at(b: Seq<u8>, i: int) -> (Seq<u8>, u64) {
    (b.subrange(8 + 40 * i, 40 + 40 * i), le_decode(b.subrange(40 + 40 * i, 48 + 40 * i)) as u64)
}

proof fn lemma_entries_len(v: Seq<(CompressedRistretto, u64)>)
    requires
        forall|i: int| 0 <= i < v.len() ==> (#[trigger] compressed_view(v[i].0)).len() == 32,
    ensures
        entries_bytes(v).len() == 40 * v.len(),
    decreases v.len(),
{
    if v.len() > 0 {
        lemma_entries_len(v.drop_last());
        crate::codec::lemma_le_encode_len(v.last().1 as nat, 8);
        assert(compressed_view(v[v.len() - 1].0).len() == 32);
    }
}

proof fn lemma_entries_at(v: Seq<(CompressedRistretto, u64)>, i: int)
    requires
        forall|k: int| 0 <= k < v.len() ==> (#[trigger] compressed_view(v[k].0)).len() == 32,
        0 <= i < v.len(),
    ensures
        entries_bytes(v).subrange(40 * i, 40 * i + 40) == entry_bytes(v[i]),
    decreases v.len(),
{
    let rest = v.drop_last();
    lemma_entries_len(rest);
    crate::codec::lemma_le_encode_len(v.last().1 as nat, 8);
    assert(compressed_view(v[v.len() - 1].0).len() == 32);
    if i == v.len() - 1 {
        assert(entries_bytes(v).subrange(40 * i, 40 * i + 40) =~= entry_bytes(v[i]));
    } else {
        lemma_entries_at(rest, i);
        assert(entries_bytes(v).subrange(40 * i, 40 * i + 40) =~= entries_bytes(rest).subrange(40 * i, 40 * i + 40));
    }
}

/// The byte form of the staker table.
pub fn encode_stake_table(v: &Vec<(CompressedRistretto, u64)>) -> (b: Vec<u8>)
    ensures
        b@ == table_bytes(v@),
{
    let mut b = le_bytes(v.len() as u128, 8);
    let ghost head = b@;
    let mut i: usize = 0;
    assert(v@.take(0) =~= Seq::<(CompressedRistretto, u64)>::empty());
    while i < v.len()
        invariant
            i <= v@.len(),
            head == le_encode(v@.len(), 8),
            b@ == head + entries_bytes(v@.take(i as int)),
        decreases v@.len() - i,
    {
        let (c, s) = v[i];
        let cb = compressed_bytes(&c);
        let ghost before = b@;
        let mut k: usize = 0;
        while k < 32
            invariant
                k <= 32,
                cb@.len() == 32,
                b@ == before + cb@.take(k as int),
            decreases 32 - k,
        {
            b.push(cb[k]);
            proof {
                assert(cb@.take(k + 1) =~= cb@.take(k as int).push(cb@[k as int]));
                assert(b@ =~= before + cb@.take(k + 1));
            }
            k = k + 1;
        }
        assert(cb@.take(32) =~= cb@);
        let mut sb = le_bytes(s as u128, 8);
        b.append(&mut sb);
        proof {
            assert(v@.take(i + 1).drop_last() =~= v@.take(i as int));
            assert(v@.take(i + 1).last() == (c, s));
            assert(b@ =~= head + entries_bytes(v@.take(i + 1)));
        }
        i = i + 1;
    }
    assert(v@.take(v@.len() as int) =~= v@);
    b
}

/// Reads a staker table from its byte form; `None` when the bytes are too few
/// for the count they announce. The byte form of a table reads back as that
/// same table.
pub fn decode_stake_table(b: &Vec<u8>) -> (r: Option<Vec<(CompressedRistretto, u64)>>)
    ensures
        r is Some <==> table_readable(b@),
        r matches Some(v) ==> v@.len() == announced(b@) && forall|i: int|
            0 <= i < v@.len() ==> (compressed_view(#[trigger] v@[i].0), v@[i].1) == entry_at(b@, i),
        forall|t: Seq<(CompressedRistretto, u64)>|
            #[trigger] table_bytes(t) == b@ && t.len() < 0x1_0000_0000_0000_0000 && (forall|i: int|
                0 <= i < t.len() ==> (#[trigger] compressed_view(t[i].0)).len() == 32) ==> (r matches Some(w)
                && w@ == t),
{
    if b.len() < 8 {
        proof {
            assert forall|t: Seq<(CompressedRistretto, u64)>|
                #[trigger] table_bytes(t) == b@ && t.len() < 0x1_0000_0000_0000_0000 && (forall|i: int|
                    0 <= i < t.len() ==> (#[trigger] compressed_view(t[i].0)).len() == 32) implies false by {
                law_stake_table_roundtrip(t);
            }
        }
        return None;
    }
    proof {
        lemma_pow256_values();
        lemma_le_decode_bound(b@.subrange(0, 8));
    }
    let n: u64 = le_value(b.as_slice(), 0, 8) as u64;
    let room: usize = (b.len() - 8) / 40;
    if n as u128 > room as u128 {
        assert(8 + 40 * announced(b@) > b@.len()) by (nonlinear_arith)
            requires
                announced(b@) > room,
                room == (b@.len() - 8) / 40,
                b@.len() >= 8,
        ;
        proof {
            assert forall|t: Seq<(CompressedRistretto, u64)>|
                #[trigger] table_bytes(t) == b@ && t.len() < 0x1_0000_0000_0000_0000 && (forall|i: int|
                    0 <= i < t.len() ==> (#[trigger] compressed_view(t[i].0)).len() == 32) implies false by {
                law_stake_table_roundtrip(t);
            }
        }
        return None;
    }
    assert(8 + 40 * announced(b@) <= b@.len()) by (nonlinear_arith)
        requires
            announced(b@) <= room,
            room == (b@.len() - 8) / 40,
            b@.len() >= 8,
    ;
    let count: usize = n as usize;
    let blen: usize = b.len();
    let mut v: Vec<(CompressedRistretto, u64)> = Vec::new();
    let mut i: usize = 0;
    while i < count
        invariant
            i <= count,
            count == announced(b@),
            8 + 40 * count <= b@.len(),
            blen == b@.len(),
            pow256(8) == 0x1_0000_0000_0000_0000,
            v@.len() == i,
            forall|k: int| 0 <= k < i ==> (compressed_view(#[trigger] v@[k].0), v@[k].1) == entry_at(b@, k),
            forall|k: int, d: CompressedRistretto|
                #![trigger v@[k], compressed_view(d)]
                0 <= k < i && compressed_view(d) == compressed_view(v@[k].0) ==> d == v@[k].0,
        decreases count - i,
    {
        assert(48 + 40 * i <= b@.len()) by (nonlinear_arith)
            requires
                i < count,
                8 + 40 * count <= b@.len(),
        ;
        let start: usize = 8 + 40 * i;
        let mut pb = [0u8; 32];
        let mut k: usize = 0;
        while k < 32
            invariant
                k <= 32,
                blen == b@.len(),
                start == 8 + 40 * i,
                start + 40 <= b@.len(),
                pb@.len() == 32,
                forall|q: int| 0 <= q < k ==> pb@[q] == b@[start + q],
            decreases 32 - k,
        {
            pb[k] = b[start + k];
            k = k + 1;
        }
        assert(pb@ =~= b@.subrange(start as int, start + 32));
        let c = compressed_from_bytes(pb);
        proof {
            lemma_le_decode_bound(b@.subrange(start + 32, start + 40));
        }
        let s: u64 = le_value(b.as_slice(), start + 32, 8) as u64;
        let ghost before = v@;
        v.push((c, s));
        proof {
            assert forall|k: int, d: CompressedRistretto|
                #![trigger v@[k], compressed_view(d)]
                0 <= k < i + 1 && compressed_view(d) == compressed_view(v@[k].0) implies d == v@[k].0 by {
                if k < i {
                    assert(v@[k] == before[k]);
                }
            }
        }
        i = i + 1;
    }
    proof {
        assert forall|t: Seq<(CompressedRistretto, u64)>|
            #[trigger] table_bytes(t) == b@ && t.len() < 0x1_0000_0000_0000_0000 && (forall|i: int|
                0 <= i < t.len() ==> (#[trigger] compressed_view(t[i].0)).len() == 32) implies v@ == t by {
            law_stake_table_roundtrip(t);
            assert forall|k: int| 0 <= k < t.len() implies v@[k] == t[k] by {
                assert(entry_at(b@, k) == (compressed_view(t[k].0), t[k].1));
                assert((compressed_view(v@[k].0), v@[k].1) == entry_at(b@, k));
                assert(compressed_view(t[k].0) == compressed_view(v@[k].0));
            }
            assert(v@ =~= t);
        }
    }
    Some(v)
}

/// Reading back the byte form of a table gives the same entries: the same point
/// bytes and the same stakes, in order.
pub proof fn law_stake_table_roundtrip(v: Seq<(CompressedRistretto, u64)>)
    requires
        forall|i: int| 0 <= i < v.len() ==> (#[trigger] compressed_view(v[i].0)).len() == 32,
        v.len() < 0x1_0000_0000_0000_0000,
    ensures
        table_readable(table_bytes(v)),
        announced(table_bytes(v)) == v.len(),
        forall|i: int| 0 <= i < v.len() ==> entry_at(table_bytes(v), i) == (compressed_view(#[trigger] v[i].0), v[i].1),
{
    let b = table_bytes(v);
    lemma_pow256_values();
    lemma_le_roundtrip(v.len(), 8);
    lemma_entries_len(v);
    assert(b.subrange(0, 8) =~= le_encode(v.len(), 8));
    assert forall|i: int| 0 <= i < v.len() implies entry_at(b, i) == (compressed_view(#[trigger] v[i].0), v[i].1) by {
        lemma_entries_at(v, i);
        assert(b.subrange(8 + 40 * i, 48 + 40 * i) =~= entries_bytes(v).subrange(40 * i, 40 * i + 40));
        assert(compressed_view(v[i].0).len() == 32);
        crate::codec::lemma_le_encode_len(v[i].1 as nat, 8);
        assert(b.subrange(8 + 40 * i, 40 + 40 * i) =~= compressed_view(v[i].0));
        assert(b.subrange(40 + 40 * i, 48 + 40 * i) =~= entry_bytes(v[i]).subrange(32, 40));
        assert(entry_bytes(v[i]).subrange(32, 40) =~= le_encode(v[i].1 as nat, 8));
        lemma_le_roundtrip(v[i].1 as nat, 8);
    }
}

} // verus!
