use curve25519_dalek::ristretto::CompressedRistretto;
use kora_core::assemble::{choose_block_txs, keep_pending};
use kora_core::bloom::{initial_contents, BloomFile};
use kora_core::transaction::PolynomialTransaction;

fn tx(inputs: Vec<u8>, tags: &[u8]) -> PolynomialTransaction<u64, ()> {
    PolynomialTransaction {
        inputs,
        outputs: vec![],
        tags: tags.iter().map(|t| CompressedRistretto([*t; 32])).collect(),
        seal: (),
        fee: 0,
    }
}

fn stake(place: u64, tags: &[u8]) -> PolynomialTransaction<u64, ()> {
    let mut inputs = place.to_le_bytes().to_vec();
    inputs.push(1);
    tx(inputs, tags)
}

fn block() -> (Vec<PolynomialTransaction<u64, ()>>, Vec<bool>, Vec<bool>) {
    let txs = vec![
        tx(vec![5, 0], &[9]),
        tx(vec![], &[1]),
        tx(vec![7], &[1]),
        tx(vec![7], &[2, 2]),
        tx(vec![7], &[3]),
        stake(3, &[4]),
        stake(3, &[5]),
        stake(4, &[6]),
        stake(4, &[7]),
    ];
    let stake_ok = vec![false, false, false, false, false, true, true, false, true];
    let tx_ok = vec![true, true, true, true, false, false, false, false, false];
    (txs, stake_ok, tx_ok)
}

#[test]
fn block_transactions_are_chosen_by_the_rules() {
    let (txs, stake_ok, tx_ok) = block();
    let b = BloomFile::from_keys(1, 2);
    let f = initial_contents();
    assert_eq!(choose_block_txs(&txs, &stake_ok, &tx_ok, &b, &f).0, vec![1, 5, 8]);
}

#[test]
fn spent_tags_keep_transactions_out() {
    let (txs, stake_ok, tx_ok) = block();
    let b = BloomFile::from_keys(1, 2);
    let mut f = initial_contents();
    b.insert(&mut f, &[1; 32]);
    assert_eq!(choose_block_txs(&txs, &stake_ok, &tx_ok, &b, &f).0, vec![5, 8]);
}

#[test]
fn pending_transactions_are_kept_by_their_checks() {
    let (txs, stake_ok, tx_ok) = block();
    let b = BloomFile::from_keys(1, 2);
    let mut f = initial_contents();
    b.insert(&mut f, &[2; 32]);
    let (kept, digests) = keep_pending(&txs, &stake_ok, &tx_ok, &b, &f);
    // Ordinary transactions 0..3 pass their checks, but 3 spends tag 2, now
    // spent; 4 fails its check; the staker transactions keep by their stake check.
    assert_eq!(kept, vec![0, 1, 2, 5, 6, 8]);
    assert_eq!(digests[3].len(), 2);
    assert_eq!(digests[5].len(), 0);
    let (_, chosen_digests) = choose_block_txs(&txs, &stake_ok, &tx_ok, &b, &f);
    assert_eq!(chosen_digests[0].len(), 1);
}
