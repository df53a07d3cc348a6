use curve25519_dalek::ristretto::CompressedRistretto;
use kora_core::node::{block_name, ChainBooks};
use kora_core::validation::hash_to_scalar;
use std::collections::VecDeque;

fn key(i: u8) -> CompressedRistretto {
    CompressedRistretto([i; 32])
}

fn books() -> ChainBooks {
    ChainBooks {
        stkinfo: (0..6u8).map(|i| (key(i), 10_000)).collect(),
        queue: vec![(0..10).map(|i| i % 6).collect::<VecDeque<usize>>(); 2],
        exitqueue: vec![(0..10).map(|i| i % 3).collect::<VecDeque<usize>>(); 2],
        comittee: vec![vec![0, 1, 2], vec![3, 4, 5]],
        smine: vec![[0, 10_000], [4, 500]],
        votes: vec![5, 6, 7],
        sheight: 6,
        bnum: 10,
        lastbnum: 9,
        headshard: 0,
        lastname: vec![1, 2, 3],
    }
}

#[test]
fn lightning_blocks_are_taken_only_in_order() {
    let b = books();
    assert!(b.takes_lightning(10, &vec![0], &vec![1, 2, 3]));
    assert!(b.takes_lightning(12, &vec![1, 0], &vec![1, 2, 3]));
    assert!(!b.takes_lightning(9, &vec![0], &vec![1, 2, 3]));
    assert!(!b.takes_lightning(10, &vec![], &vec![1, 2, 3]));
    assert!(!b.takes_lightning(10, &vec![0], &vec![1, 2]));
    assert!(!b.takes_lightning(10, &vec![0], &vec![1, 2, 4]));
}

#[test]
fn a_missed_block_pays_the_head_committee_and_rotates() {
    let mut b = books();
    b.skip_empty_block(300);
    let stakes: Vec<u64> = b.stkinfo.iter().map(|x| x.1).collect();
    assert_eq!(stakes, vec![10_100, 10_100, 10_100, 10_000, 10_000, 10_000]);
    assert_eq!(b.smine, vec![[0, 10_100], [4, 500]]);
    // Seats 0 and 1 were about to leave: their votes are cleared.
    assert_eq!(b.votes, vec![0, 0, 7]);
    assert_eq!(b.bnum, 11);
    assert_eq!(b.lastbnum, 9);
    assert!(b.queue.iter().all(|q| q.len() == 10));
    assert!(b.exitqueue.iter().all(|q| q.len() == 10));
    assert!(b.comittee.iter().all(|c| c.len() == 3 && c.iter().all(|&s| s < 6)));
}

#[test]
fn rounds_are_settled_in_full_when_something_moves() {
    let b = books();
    assert!(!b.settles_in_full(0, 0, 0));
    assert!(b.settles_in_full(1, 0, 0));
    assert!(b.settles_in_full(0, 0, 2));
    let mut late = books();
    late.lastbnum = 0;
    late.bnum = 61;
    assert!(late.settles_in_full(0, 0, 0));
}

#[test]
fn a_block_is_named_by_the_scalar_of_its_digest() {
    let m = vec![9u8, 8, 7];
    assert_eq!(block_name(&m), hash_to_scalar(&m).as_bytes().to_vec());
    assert_eq!(block_name(&m).len(), 32);
}
