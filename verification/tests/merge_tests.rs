use curve25519_dalek::ristretto::CompressedRistretto;
use kora_core::merge::{merge_shard_blocks, ShardBlock};
use kora_core::transaction::PolynomialTransaction;

fn tx(tags: &[u8], fee: u64) -> PolynomialTransaction<u64, ()> {
    PolynomialTransaction {
        inputs: vec![0],
        outputs: vec![],
        tags: tags.iter().map(|t| CompressedRistretto([*t; 32])).collect(),
        seal: (),
        fee,
    }
}

fn fees(txs: &[PolynomialTransaction<u64, ()>]) -> Vec<u64> {
    txs.iter().map(|t| t.fee).collect()
}

fn blocks() -> (ShardBlock<u64, ()>, Vec<ShardBlock<u64, ()>>) {
    let base = ShardBlock { bnum: 5, txs: vec![tx(&[1], 0)], shards: vec![0] };
    let a = ShardBlock { bnum: 5, txs: vec![tx(&[1], 1), tx(&[2], 2), tx(&[3, 2], 3)], shards: vec![3] };
    let b = ShardBlock { bnum: 4, txs: vec![tx(&[9], 4), tx(&[2], 5)], shards: vec![7] };
    (base, vec![a, b])
}

#[test]
fn merge_drops_clashing_transactions() {
    let (base, others) = blocks();
    let (txs, shards) = merge_shard_blocks(base, others, Some(5));
    assert_eq!(fees(&txs), vec![0, 2, 3]);
    assert_eq!(shards, vec![0]);
    let (base, others) = blocks();
    let (txs, shards) = merge_shard_blocks(base, others, None);
    assert_eq!(fees(&txs), vec![0, 2, 3, 4]);
    assert_eq!(shards, vec![0]);
}

#[test]
fn busy_shards_join_the_merge() {
    let base = ShardBlock { bnum: 1, txs: vec![], shards: vec![2] };
    let busy = ShardBlock { bnum: 1, txs: (0..64u8).map(|i| tx(&[i], i as u64)).collect(), shards: vec![5, 6] };
    let quiet = ShardBlock { bnum: 1, txs: (64..127u8).map(|i| tx(&[i], i as u64)).collect(), shards: vec![8] };
    let (txs, shards) = merge_shard_blocks(base, vec![busy, quiet], Some(1));
    assert_eq!(txs.len(), 127);
    assert_eq!(shards, vec![2, 5, 6]);
}
