//! Merging the blocks of several shards into one: a shard's transactions join
//! unless they spend a tag already spent in the merge, and a shard whose block
//! still brings more than 63 transactions is counted among the merged shards.
use crate::curve::{compressed_bytes, compressed_view};
use crate::transaction::{PolynomialTransaction, Tag};
use vstd::prelude::*;

verus! {

/// What a shard's block brings to a merge.
pub struct ShardBlock<A, S> {
    pub bnum: u64,
    pub txs: Vec<PolynomialTransaction<A, S>>,
    pub shards: Vec<u16>,
}

/// The byte forms of a transaction's tags.
pub open spec fn tag_views(t: Seq<Tag>) -> Set<Seq<u8>> {
    Set::new(|v: Seq<u8>| exists|k: int| 0 <= k < t.len() && compressed_view(t[k]) == v)
}

/// The byte forms of all tags the transactions spend.
pub open spec fn txs_tags<A, S>(txs: Seq<PolynomialTransaction<A, S>>) -> Set<Seq<u8>>
    decreases txs.len(),
{
    if txs.len() == 0 {
        Set::empty()
    } else {
        txs_tags(txs.drop_last()).union(tag_views(txs.last().tags@))
    }
}

/// A transaction spends none of the tags in `seen`.
pub open spec fn fresh_fn<A, S>(seen: Set<Seq<u8>>) -> spec_fn(PolynomialTransaction<A, S>) -> bool {
    |t: PolynomialTransaction<A, S>| forall|k: int| 0 <= k < t.tags@.len() ==> !seen.contains(compressed_view(#[trigger] t.tags@[k]))
}

/// The merge of `blocks`, in order, into transactions `txs` and shards `shards`;
/// with `bnum` given, blocks of other heights are passed over.
pub open spec fn merged<A, S>(
    txs: Seq<PolynomialTransaction<A, S>>,
    shards: Seq<u16>,
    blocks: Seq<ShardBlock<A, S>>,
    bnum: Option<u64>,
) -> (Seq<PolynomialTransaction<A, S>>, Seq<u16>)
    decreases blocks.len(),
{
    if blocks.len() == 0 {
        (txs, shards)
    } else {
        let b = blocks[0];
        if bnum matches Some(n) && b.bnum != n {
            merged(txs, shards, blocks.drop_first(), bnum)
        } else {
            let kept = b.txs@.filter(fresh_fn(txs_tags(txs)));
            let sh = if kept.len() > 63 {
                shards + b.shards@
            } else {
                shards
            };
            merged(txs + kept, sh, blocks.drop_first(), bnum)
        }
    }
}

proof fn lemma_tags_push<A, S>(txs: Seq<PolynomialTransaction<A, S>>, t: PolynomialTransaction<A, S>)
    ensures
        txs_tags(txs.push(t)) == txs_tags(txs).union(tag_views(t.tags@)),
{
    assert(txs.push(t).drop_last() =~= txs);
}

fn same_tag(a: &[u8; 32], b: &[u8; 32]) -> (r: bool)
    ensures
        r == (a@ == b@),
{
    let mut i: usize = 0;
    while i < 32
        invariant
            i <= 32,
            a@.len() == 32,
            b@.len() == 32,
            forall|k: int| 0 <= k < i ==> a@[k] == b@[k],
        decreases 32 - i,
    {
        if a[i] != b[i] {
            return false;
        }
        i = i + 1;
    }
    assert(a@ =~= b@);
    true
}

/// The byte forms held in a list of tag bytes.
pub open spec fn seen_set(seen: Seq<[u8; 32]>) -> Set<Seq<u8>> {
    Set::new(|v: Seq<u8>| exists|k: int| 0 <= k < seen.len() && seen[k]@ == v)
}

fn is_seen(seen: &Vec<[u8; 32]>, b: &[u8; 32]) -> (r: bool)
    ensures
        r == seen_set(seen@).contains(b@),
{
    let mut i: usize = 0;
    while i < seen.len()
        invariant
            i <= seen@.len(),
            forall|k: int| 0 <= k < i ==> seen@[k]@ != b@,
        decreases seen@.len() - i,
    {
        if same_tag(&seen[i], b) {
            assert(seen@[i as int]@ == b@);
            return true;
        }
        i = i + 1;
    }
    false
}

/// Whether the transaction spends none of the seen tags.
fn is_fresh<A, S>(seen: &Vec<[u8; 32]>, t: &PolynomialTransaction<A, S>) -> (r: bool)
    ensures
        r == fresh_fn::<A, S>(seen_set(seen@))(*t),
{
    let mut k: usize = 0;
    while k < t.tags.len()
        invariant
            k <= t.tags@.len(),
            forall|q: int| 0 <= q < k ==> !seen_set(seen@).contains(compressed_view(#[trigger] t.tags@[q])),
        decreases t.tags@.len() - k,
    {
        let b = compressed_bytes(&t.tags[k]);
        if is_seen(seen, &b) {
            return false;
        }
        k = k + 1;
    }
    true
}

/// Adds a transaction's tags to the seen list.
fn see_tags<A, S>(seen: &mut Vec<[u8; 32]>, t: &PolynomialTransaction<A, S>)
    ensures
        seen_set(final(seen)@) == seen_set(old(seen)@).union(tag_views(t.tags@)),
{
    let ghost start = seen@;
    let mut k: usize = 0;
    while k < t.tags.len()
        invariant
            k <= t.tags@.len(),
            seen_set(seen@) == seen_set(start).union(tag_views(t.tags@.take(k as int))),
        decreases t.tags@.len() - k,
    {
        let b = compressed_bytes(&t.tags[k]);
        let ghost before = seen@;
        seen.push(b);
        proof {
            assert(seen_set(seen@) =~= seen_set(before).insert(b@)) by {
                assert forall|v: Seq<u8>| seen_set(seen@).contains(v) implies seen_set(before).insert(b@).contains(v) by {
                    let q = choose|q: int| 0 <= q < seen@.len() && seen@[q]@ == v;
                    if q < before.len() {
                        assert(before[q]@ == v);
                    }
                }
                assert forall|v: Seq<u8>| seen_set(before).insert(b@).contains(v) implies seen_set(seen@).contains(v) by {
                    if v == b@ {
                        assert(seen@[before.len() as int]@ == v);
                    } else {
                        let q = choose|q: int| 0 <= q < before.len() && before[q]@ == v;
                        assert(seen@[q]@ == v);
                    }
                }
            }
            let tk = t.tags@.take(k + 1);
            assert(tag_views(tk) =~= tag_views(t.tags@.take(k as int)).insert(b@)) by {
                assert forall|v: Seq<u8>| tag_views(tk).contains(v) implies tag_views(t.tags@.take(k as int)).insert(b@).contains(v) by {
                    let q = choose|q: int| 0 <= q < tk.len() && compressed_view(tk[q]) == v;
                    if q < k {
                        assert(t.tags@.take(k as int)[q] == tk[q]);
                    }
                }
                assert forall|v: Seq<u8>| tag_views(t.tags@.take(k as int)).insert(b@).contains(v) implies tag_views(tk).contains(v) by {
                    if v == b@ {
                        assert(compressed_view(tk[k as int]) == v);
                    } else {
                        let q = choose|q: int| 0 <= q < k && compressed_view(t.tags@.take(k as int)[q]) == v;
                        assert(compressed_view(tk[q]) == v);
                    }
                }
            }
            assert(seen_set(seen@) =~= seen_set(start).union(tag_views(tk)));
        }
        k = k + 1;
    }
    assert(t.tags@.take(t.tags@.len() as int) =~= t.tags@);
}

/// Merges the blocks of other shards, in order, into the block of this shard:
/// each block's transactions that spend no tag spent so far join (checked
/// against the tags of everything merged before that block), and the block's
/// shards join when more than 63 of its transactions did. With `bnum` given,
/// blocks of other heights are passed over.
pub fn merge_shard_blocks<A, S>(base: ShardBlock<A, S>, blocks: Vec<ShardBlock<A, S>>, bnum: Option<u64>) -> (r: (
    Vec<PolynomialTransaction<A, S>>,
    Vec<u16>,
))
    ensures
        (r.0@, r.1@) == merged(base.txs@, base.shards@, blocks@, bnum),
        forall|i: int, k: int, u: int, m: int|
            base.txs@.len() <= i < r.0@.len() && 0 <= k < r.0@[i].tags@.len() && 0 <= u < base.txs@.len() && 0
                <= m < base.txs@[u].tags@.len() ==> compressed_view(#[trigger] r.0@[i].tags@[k]) != compressed_view(
                #[trigger] base.txs@[u].tags@[m],
            ),
{
    let ghost goal = merged(base.txs@, base.shards@, blocks@, bnum);
    let ghost base_txs = base.txs@;
    let ghost base_shards = base.shards@;
    let ghost all_blocks = blocks@;
    let mut txs = base.txs;
    let mut shards = base.shards;
    let mut seen: Vec<[u8; 32]> = Vec::new();
    let mut i: usize = 0;
    while i < txs.len()
        invariant
            i <= txs@.len(),
            seen_set(seen@) == txs_tags(txs@.take(i as int)),
        decreases txs@.len() - i,
    {
        proof {
            assert(txs@.take(i + 1) =~= txs@.take(i as int).push(txs@[i as int]));
            lemma_tags_push(txs@.take(i as int), txs@[i as int]);
        }
        see_tags(&mut seen, &txs[i]);
        i = i + 1;
    }
    assert(txs@.take(txs@.len() as int) =~= txs@);
    let mut rest = blocks;
    while rest.len() > 0
        invariant
            seen_set(seen@) == txs_tags(txs@),
            merged(txs@, shards@, rest@, bnum) == goal,
        decreases rest@.len(),
    {
        let ghost r0 = rest@;
        let b = rest.remove(0);
        proof {
            assert(r0[0] == b);
            assert(r0.drop_first() =~= rest@);
        }
        let take = match bnum {
            Some(n) => b.bnum == n,
            None => true,
        };
        if take {
            let ghost before = txs@;
            let ghost seen0 = seen_set(seen@);
            let ghost kept_spec = b.txs@.filter(fresh_fn(txs_tags(before)));
            let mut bt = b.txs;
            let ghost all = bt@;
            let n_all: usize = bt.len();
            let mut kept: Vec<PolynomialTransaction<A, S>> = Vec::new();
            let mut j: usize = 0;
            proof {
                reveal(Seq::filter);
                assert(all.take(0) =~= Seq::<PolynomialTransaction<A, S>>::empty());
            }
            while bt.len() > 0
                invariant
                    n_all == all.len(),
                    j + bt@.len() == all.len(),
                    bt@ == all.skip(j as int),
                    seen_set(seen@) == seen0,
                    seen0 == txs_tags(before),
                    kept@ == all.take(j as int).filter(fresh_fn(seen0)),
                decreases bt@.len(),
            {
                let t = bt.remove(0);
                proof {
                    assert(t == all[j as int]);
                    assert(bt@ =~= all.skip(j + 1));
                    assert(all.take(j + 1) =~= all.take(j as int).push(t));
                    all.take(j as int).lemma_filter_push(t, fresh_fn(seen0));
                }
                if is_fresh(&seen, &t) {
                    kept.push(t);
                }
                j = j + 1;
            }
            assert(all.take(j as int) =~= all);
            let n_kept = kept.len();
            let mut k: usize = 0;
            let ghost kv = kept@;
            while kept.len() > 0
                invariant
                    n_kept == kv.len(),
                    k + kept@.len() == kv.len(),
                    kept@ == kv.skip(k as int),
                    txs@ == before + kv.take(k as int),
                    seen_set(seen@) == txs_tags(txs@),
                decreases kept@.len(),
            {
                let t = kept.remove(0);
                proof {
                    assert(t == kv[k as int]);
                    assert(kept@ =~= kv.skip(k + 1));
                    assert(before + kv.take(k + 1) =~= (before + kv.take(k as int)).push(t));
                    lemma_tags_push(before + kv.take(k as int), t);
                }
                see_tags(&mut seen, &t);
                txs.push(t);
                k = k + 1;
            }
            assert(kv.take(k as int) =~= kv);
            if n_kept > 63 {
                let mut bs = b.shards;
                shards.append(&mut bs);
            }
        }
    }
    proof {
        law_merge_adds_no_spent_tag(base_txs, base_shards, all_blocks, bnum);
        assert(txs@ == merged(base_txs, base_shards, all_blocks, bnum).0);
    }
    (txs, shards)
}


proof fn lemma_tags_grow<A, S>(a: Seq<PolynomialTransaction<A, S>>, b: Seq<PolynomialTransaction<A, S>>)
    ensures
        txs_tags(a).subset_of(txs_tags(a + b)),
    decreases b.len(),
{
    if b.len() == 0 {
        assert(a + b =~= a);
    } else {
        lemma_tags_grow(a, b.drop_last());
        assert((a + b).drop_last() =~= a + b.drop_last());
    }
}

/// A merge keeps this shard's transactions in front, and no transaction it adds
/// spends a tag that one of this shard's transactions spends.
pub proof fn law_merge_respects_base<A, S>(
    txs: Seq<PolynomialTransaction<A, S>>,
    shards: Seq<u16>,
    blocks: Seq<ShardBlock<A, S>>,
    bnum: Option<u64>,
)
    ensures
        merged(txs, shards, blocks, bnum).0.len() >= txs.len(),
        merged(txs, shards, blocks, bnum).0.take(txs.len() as int) == txs,
        forall|i: int, k: int|
            txs.len() <= i < merged(txs, shards, blocks, bnum).0.len() && 0 <= k < merged(txs, shards, blocks, bnum).0[i].tags@.len()
                ==> !txs_tags(txs).contains(compressed_view(#[trigger] merged(txs, shards, blocks, bnum).0[i].tags@[k])),
    decreases blocks.len(),
{
    let r = merged(txs, shards, blocks, bnum).0;
    if blocks.len() == 0 {
        assert(r.take(txs.len() as int) =~= txs);
    } else {
        let b = blocks[0];
        if bnum matches Some(n) && b.bnum != n {
            law_merge_respects_base(txs, shards, blocks.drop_first(), bnum);
        } else {
            let pred = fresh_fn::<A, S>(txs_tags(txs));
            let kept = b.txs@.filter(pred);
            let sh = if kept.len() > 63 {
                shards + b.shards@
            } else {
                shards
            };
            let t2 = txs + kept;
            law_merge_respects_base(t2, sh, blocks.drop_first(), bnum);
            lemma_tags_grow(txs, kept);
            broadcast use vstd::seq_lib::group_filter_ensures;
            assert(r.take(t2.len() as int) =~= t2);
            assert(r.take(txs.len() as int) =~= txs) by {
                assert forall|q: int| 0 <= q < txs.len() implies r[q] == txs[q] by {
                    assert(r.take(t2.len() as int)[q] == t2[q]);
                }
            }
            assert forall|i: int, k: int|
                txs.len() <= i < r.len() && 0 <= k < r[i].tags@.len() implies !txs_tags(txs).contains(
                compressed_view(#[trigger] r[i].tags@[k])) by {
                if i < t2.len() {
                    assert(r.take(t2.len() as int)[i] == t2[i]);
                    assert(t2[i] == kept[i - txs.len()]);
                    assert(pred(kept[i - txs.len()]));
                } else {
                    assert(!txs_tags(t2).contains(compressed_view(r[i].tags@[k])));
                }
            }
        }
    }
}

/// Every tag of every listed transaction is among the tags they spend.
proof fn lemma_txs_tags_has<A, S>(txs: Seq<PolynomialTransaction<A, S>>, u: int, m: int)
    requires
        0 <= u < txs.len(),
        0 <= m < txs[u].tags@.len(),
    ensures
        txs_tags(txs).contains(compressed_view(txs[u].tags@[m])),
    decreases txs.len(),
{
    if u == txs.len() - 1 {
        assert(tag_views(txs.last().tags@).contains(compressed_view(txs[u].tags@[m])));
    } else {
        lemma_txs_tags_has(txs.drop_last(), u, m);
        assert(txs.drop_last()[u] == txs[u]);
    }
}

/// No transaction a merge adds spends any tag, at any position of its tag list,
/// that a transaction of this shard's block spends at any position of its list.
pub proof fn law_merge_adds_no_spent_tag<A, S>(
    txs: Seq<PolynomialTransaction<A, S>>,
    shards: Seq<u16>,
    blocks: Seq<ShardBlock<A, S>>,
    bnum: Option<u64>,
)
    ensures
        forall|i: int, k: int, u: int, m: int|
            txs.len() <= i < merged(txs, shards, blocks, bnum).0.len() && 0 <= k < merged(
                txs,
                shards,
                blocks,
                bnum,
            ).0[i].tags@.len() && 0 <= u < txs.len() && 0 <= m < txs[u].tags@.len() ==> compressed_view(
                #[trigger] merged(txs, shards, blocks, bnum).0[i].tags@[k],
            ) != compressed_view(#[trigger] txs[u].tags@[m]),
{
    law_merge_respects_base(txs, shards, blocks, bnum);
    let r = merged(txs, shards, blocks, bnum).0;
    assert forall|i: int, k: int, u: int, m: int|
        txs.len() <= i < r.len() && 0 <= k < r[i].tags@.len() && 0 <= u < txs.len() && 0 <= m
            < txs[u].tags@.len() implies compressed_view(#[trigger] r[i].tags@[k]) != compressed_view(
        #[trigger] txs[u].tags@[m],
    ) by {
        lemma_txs_tags_has(txs, u, m);
    }
}

/// Merging blocks in two steps, the first `j` of them and then the rest into
/// that result, gives the same as merging them all at once: each block is
/// checked against everything merged before it, earlier blocks' additions
/// included.
pub proof fn law_merge_in_steps<A, S>(
    txs: Seq<PolynomialTransaction<A, S>>,
    shards: Seq<u16>,
    blocks: Seq<ShardBlock<A, S>>,
    bnum: Option<u64>,
    j: int,
)
    requires
        0 <= j <= blocks.len(),
    ensures
        merged(txs, shards, blocks, bnum) == merged(
            merged(txs, shards, blocks.take(j), bnum).0,
            merged(txs, shards, blocks.take(j), bnum).1,
            blocks.skip(j),
            bnum,
        ),
    decreases j,
{
    if j == 0 {
        assert(blocks.take(0) =~= Seq::<ShardBlock<A, S>>::empty());
        assert(blocks.skip(0) =~= blocks);
    } else {
        let b = blocks[0];
        let rest = blocks.drop_first();
        assert(blocks.take(j)[0] == b);
        assert(blocks.take(j).drop_first() =~= rest.take(j - 1));
        assert(blocks.skip(j) =~= rest.skip(j - 1));
        if bnum matches Some(n) && b.bnum != n {
            law_merge_in_steps(txs, shards, rest, bnum, j - 1);
        } else {
            let kept = b.txs@.filter(fresh_fn(txs_tags(txs)));
            let sh = if kept.len() > 63 {
                shards + b.shards@
            } else {
                shards
            };
            law_merge_in_steps(txs + kept, sh, rest, bnum, j - 1);
        }
    }
}

/// No transaction that a later block adds to a merge spends a tag that any
/// transaction merged before that block spends: for blocks split at `j`, what
/// the blocks after `j` add shares no tag with what the first `j` blocks left.
pub proof fn law_later_blocks_add_no_spent_tag<A, S>(
    txs: Seq<PolynomialTransaction<A, S>>,
    shards: Seq<u16>,
    blocks: Seq<ShardBlock<A, S>>,
    bnum: Option<u64>,
    j: int,
)
    requires
        0 <= j <= blocks.len(),
    ensures
        ({
            let before = merged(txs, shards, blocks.take(j), bnum).0;
            let all = merged(txs, shards, blocks, bnum).0;
            &&& all.take(before.len() as int) == before
            &&& forall|i: int, k: int, u: int, m: int|
                before.len() <= i < all.len() && 0 <= k < all[i].tags@.len() && 0 <= u < before.len() && 0 <= m
                    < before[u].tags@.len() ==> compressed_view(#[trigger] all[i].tags@[k]) != compressed_view(
                    #[trigger] before[u].tags@[m],
                )
        }),
{
    let mid = merged(txs, shards, blocks.take(j), bnum);
    law_merge_in_steps(txs, shards, blocks, bnum, j);
    law_merge_respects_base(mid.0, mid.1, blocks.skip(j), bnum);
    law_merge_adds_no_spent_tag(mid.0, mid.1, blocks.skip(j), bnum);
}

} // verus!
