use curve25519_dalek::ristretto::CompressedRistretto;
use kora_core::leadership::{elect_leader, votes_after_empty, votes_after_signed};
use std::collections::VecDeque;

#[test]
fn votes_follow_signatures() {
    assert_eq!(votes_after_signed(&vec![0, 1, 2], &vec![5, 6, 5], &vec![5, 5, 7]), vec![2, 1, 4]);
    assert_eq!(votes_after_signed(&vec![0, 1], &vec![5, 6, 5], &vec![6]), vec![0, 2]);
    assert_eq!(votes_after_empty(&vec![3, 3, 3], &vec![5, 6, 5], &vec![0, 2]), vec![1, 3, 1]);
}

#[test]
fn leader_is_the_last_best_voted_staying_member() {
    let stkinfo: Vec<(CompressedRistretto, u64)> = (0..7u8).map(|i| (CompressedRistretto([i; 32]), 1)).collect();
    let exitqueue: VecDeque<usize> = vec![0; 10].into_iter().collect();
    let committee = vec![4, 5, 6];
    assert_eq!(elect_leader(&committee, &vec![1, 3, 3], &stkinfo, &exitqueue, &vec![]), 6);
    assert_eq!(
        elect_leader(&committee, &vec![1, 3, 3], &stkinfo, &exitqueue, &vec![CompressedRistretto([6; 32])]),
        5
    );
    assert_eq!(elect_leader(&committee, &vec![9, 3, 3], &stkinfo, &exitqueue, &vec![]), 6);
    let exitqueue: VecDeque<usize> = vec![1; 10].into_iter().collect();
    assert_eq!(elect_leader(&committee, &vec![9, 3, 3], &stkinfo, &exitqueue, &vec![]), 4);
}
