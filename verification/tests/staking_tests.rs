use curve25519_dalek::ristretto::CompressedRistretto;
use kora_core::staking::{
    committee_refilled, committee_without, fee_recipients, index_list_encoding, largest_shard,
    punish, queue_refilled, queue_without, remove_forker, remove_stakers, reward, scan_as_noone,
    scan_lightning_as_noone, scanstk,
    shift_location, split_committee, BlockOutcome,
};
use std::collections::VecDeque;

fn key(i: u8) -> CompressedRistretto {
    CompressedRistretto([i; 32])
}

fn table(stakes: &[u64]) -> Vec<(CompressedRistretto, u64)> {
    stakes.iter().enumerate().map(|(i, s)| (key(i as u8), *s)).collect()
}

fn deque(v: &[usize]) -> VecDeque<usize> {
    v.iter().copied().collect()
}

#[test]
fn leaving_staker_is_dropped_and_later_ones_move_down() {
    assert_eq!(queue_without(&deque(&[3, 1, 5, 3]), 3), deque(&[1, 4]));
    assert_eq!(queue_without(&deque(&[3, 3]), 3), deque(&[0]));
    assert_eq!(committee_without(&vec![0, 2, 4], 1), vec![0, 1, 3]);
    assert_eq!(committee_without(&vec![1], 1), vec![0]);
}

#[test]
fn removing_stakers_keeps_the_others_reachable() {
    let mut v = table(&[10, 11, 12, 13, 14]);
    let mut q = vec![deque(&[0, 1, 2, 3, 4])];
    let mut e = vec![deque(&[4, 3])];
    let mut c = vec![vec![1, 3], vec![2, 4]];
    remove_stakers(&mut v, &mut q, &mut e, &mut c, &vec![1, 3]);
    assert_eq!(v, vec![(key(0), 10), (key(2), 12), (key(4), 14)]);
    assert_eq!(q, vec![deque(&[0, 1, 2])]);
    assert_eq!(e, vec![deque(&[2])]);
    assert_eq!(c, vec![vec![0], vec![1, 2]]);
    // Every remaining index still names the staker it named before.
    assert_eq!(v[c[1][0]].0, key(2));
    assert_eq!(v[c[1][1]].0, key(4));
}

#[test]
fn committee_split_by_signatures() {
    let (yes, no) = split_committee(&vec![4, 2, 7, 2], &vec![2, 9], true);
    assert_eq!(yes, vec![2, 2]);
    assert_eq!(no, vec![4, 7]);
    let (yes, no) = split_committee(&vec![4, 2, 7, 2], &vec![2, 9], false);
    assert_eq!(yes, vec![4, 7]);
    assert_eq!(no, vec![2, 2]);
}

#[test]
fn fee_sharers_and_largest_shard() {
    let c = vec![vec![0, 1], vec![2, 3], vec![4], vec![5]];
    assert_eq!(fee_recipients(&c, &vec![0, 2, 1], &vec![1], true), vec![4, 2, 3, 1]);
    assert_eq!(fee_recipients(&c, &vec![0, 2, 1], &vec![1], false), vec![1]);
    assert_eq!(fee_recipients(&c, &vec![0], &vec![0, 1], true), vec![0, 1]);
    assert_eq!(largest_shard(&vec![0, 2, 1]), 2);
}

#[test]
fn rewards_count_every_listing() {
    let mut v = table(&[5, 6, 7]);
    reward(&mut v, &vec![2, 0, 2], 10);
    assert_eq!(v, table(&[15, 6, 27]));
}

#[test]
fn punishment_moves_stake_into_the_pot() {
    let mut v = table(&[2000, 999, 1_000_000]);
    let pot = punish(&mut v, &vec![0, 1, 2, 2]);
    assert_eq!(v, table(&[1998, 999, 998_001]));
    assert_eq!(pot, 2 + 0 + 1000 + 999);
    assert_eq!(v.iter().map(|e| e.1).sum::<u64>() + pot, 2000 + 999 + 1_000_000);
}

#[test]
fn index_lists_encode_as_bincode() {
    let v = vec![0usize, 7, 300, usize::MAX];
    assert_eq!(index_list_encoding(&v), bincode::serialize(&v).unwrap());
    let d: VecDeque<usize> = deque(&[3, 1]);
    assert_eq!(index_list_encoding(&vec![3, 1]), bincode::serialize(&d).unwrap());
    assert_eq!(index_list_encoding(&vec![]), bincode::serialize(&Vec::<usize>::new()).unwrap());
}

#[test]
fn refill_draws_from_the_list_hash() {
    assert_eq!(
        queue_refilled(&deque(&[0, 1, 2]), 10),
        deque(&[0, 1, 2, 1, 0, 2, 1, 1, 2, 1])
    );
    assert_eq!(committee_refilled(&vec![4, 9], 3), vec![4, 9, 9]);
    assert_eq!(
        committee_refilled(&vec![7, 3, 5, 1], 10),
        vec![7, 3, 5, 1, 3, 5, 5, 5, 1, 7]
    );
    assert_eq!(committee_refilled(&vec![4, 9, 1], 3), vec![4, 9, 1]);
}

#[test]
fn forker_loses_every_position() {
    let mut v = vec![(key(1), 5), (key(2), 6), (key(1), 7), (key(3), 8)];
    remove_forker(&mut v, 2);
    assert_eq!(v, vec![(key(2), 6), (key(3), 8)]);
}

fn outcome(stkout: Vec<u64>, forker: Option<u64>) -> BlockOutcome {
    BlockOutcome {
        shards: vec![0],
        validated: true,
        signers: vec![0, 1],
        fees: 100,
        minted: 1000,
        stkout,
        stkin: vec![(key(6), 77)],
        forker,
    }
}

#[test]
fn settling_a_validated_block() {
    let mut v = table(&[10_000; 6]);
    let mut q = vec![deque(&[0, 1, 2, 3, 4, 5, 0, 1, 2, 3])];
    let mut e = vec![deque(&[0, 1, 2, 0, 1, 2, 0, 1, 2, 0])];
    let mut c = vec![vec![0, 1, 2], vec![3, 4, 5]];
    let q0 = q.clone();
    let e0 = e.clone();
    let c0 = c.clone();
    scan_as_noone(&outcome(vec![], None), &mut v, &mut q, &mut e, &mut c);
    let stakes: Vec<u64> = v.iter().map(|x| x.1).collect();
    assert_eq!(stakes, vec![10_550, 10_550, 9_990, 10_003, 10_003, 10_003, 77]);
    assert_eq!(v[6].0, key(6));
    assert_eq!(q, q0);
    assert_eq!(e, e0);
    assert_eq!(c, c0);
}

#[test]
fn settling_with_a_departure_and_a_forker() {
    let mut v = table(&[10_000; 6]);
    let mut q = vec![deque(&[0, 1, 2, 3, 4, 5, 0, 1, 2, 3])];
    let mut e = vec![deque(&[0, 1, 2, 0, 1, 2, 0, 1, 2, 0])];
    let mut c = vec![vec![0, 1, 2], vec![3, 4, 5]];
    scan_as_noone(&outcome(vec![1], Some(0)), &mut v, &mut q, &mut e, &mut c);
    // Staker 1 left and staker 0 forked: what is left are 2..5 and the newcomer.
    let keys: Vec<CompressedRistretto> = v.iter().map(|x| x.0).collect();
    assert_eq!(keys, vec![key(2), key(3), key(4), key(5), key(6)]);
    assert_eq!(q[0].len(), 10);
    assert_eq!(e[0].len(), 10);
    assert!(c.iter().all(|x| x.len() == 3));
    assert_eq!(&c[0][..2], &[0, 1]);
    assert_eq!(&c[1][..3], &[2, 3, 4]);
    assert_eq!(q[0].iter().take(7).copied().collect::<Vec<_>>(), vec![0, 1, 2, 3, 4, 0, 1]);
}

#[test]
fn lightning_block_without_departures_settles_like_a_full_block() {
    let mut v = table(&[10_000; 6]);
    let mut q = vec![deque(&[0, 1, 2, 3, 4, 5, 0, 1, 2, 3])];
    let mut e = vec![deque(&[0, 1, 2, 0, 1, 2, 0, 1, 2, 0])];
    let mut c = vec![vec![0, 1, 2], vec![3, 4, 5]];
    let (mut v2, mut q2, mut e2, mut c2) = (v.clone(), q.clone(), e.clone(), c.clone());
    scan_as_noone(&outcome(vec![], Some(3)), &mut v, &mut q, &mut e, &mut c);
    scan_lightning_as_noone(&outcome(vec![], Some(3)), &mut v2, &mut q2, &mut e2, &mut c2);
    assert_eq!(v, v2);
    assert_eq!(q, q2);
    assert_eq!(e, e2);
    assert_eq!(c, c2);
}

#[test]
fn lightning_block_takes_departures_out_twice() {
    let mut v = table(&[10_000; 6]);
    let mut q = vec![deque(&[0, 1, 2, 3, 4, 5, 0, 1, 2, 3])];
    let mut e = vec![deque(&[0, 1, 2, 0, 1, 2, 0, 1, 2, 0])];
    let mut c = vec![vec![0, 1, 2], vec![3, 4, 5]];
    scan_lightning_as_noone(&outcome(vec![1], None), &mut v, &mut q, &mut e, &mut c);
    // Position 1 is removed once with the lists and once more from the table.
    let keys: Vec<CompressedRistretto> = v.iter().map(|x| x.0).collect();
    assert_eq!(keys, vec![key(0), key(3), key(4), key(5), key(6)]);
    assert_eq!(&c[1][..3], &[2, 3, 4]);
}

#[test]
fn own_records_follow_the_block() {
    let v = table(&[10_000; 6]);
    let c = vec![vec![0, 1, 2], vec![3, 4, 5]];
    let mut mine: Vec<[u64; 2]> = vec![[0, 10_000], [2, 10_000], [5, 10_000]];
    let mut height = 6u64;
    scanstk(&outcome(vec![], None), &vec![(0, 77)], &mut mine, &mut height, &c, &v);
    assert_eq!(mine, vec![[0, 10_550], [2, 9_990], [5, 10_003], [6, 77]]);
    assert_eq!(height, 7);
}

#[test]
fn own_records_after_a_departure() {
    let v = table(&[10_000; 6]);
    let c = vec![vec![0, 1, 2], vec![3, 4, 5]];
    let mut mine: Vec<[u64; 2]> = vec![[0, 10_000], [1, 10_000], [2, 10_000], [5, 10_000]];
    let mut height = 6u64;
    scanstk(&outcome(vec![1], None), &vec![(0, 77)], &mut mine, &mut height, &c, &v);
    assert_eq!(mine, vec![[0, 10_550], [1, 9_990], [4, 10_003], [5, 77]]);
    assert_eq!(height, 6);
}

#[test]
fn empty_block_pays_the_committee() {
    let mut v = table(&[1, 2, 3, 4]);
    let c = vec![vec![0, 3], vec![1, 1, 2]];
    kora_core::staking::pay_all_empty(10, 1, &c, &mut v);
    assert_eq!(v, table(&[1, 8, 6, 4]));
    let mut mine: Vec<[u64; 2]> = vec![[1, 2], [3, 4]];
    kora_core::staking::pay_self_empty(10, 0, &c, &mut mine);
    assert_eq!(mine, vec![[1, 2], [3, 9]]);
}

#[test]
fn known_locations_follow_departures() {
    let out = vec![1, 3, 7];
    assert_eq!(shift_location(5, &out), Some(3));
    assert_eq!(shift_location(3, &out), None);
    assert_eq!(shift_location(0, &out), Some(0));
    assert_eq!(shift_location(9, &out), Some(6));
    // The staker that was at 5 is found at 3 once the others leave.
    let mut v = table(&[10, 11, 12, 13, 14, 15, 16, 17, 18]);
    let mut q = vec![deque(&[0])];
    let mut e = vec![deque(&[0])];
    let mut c = vec![vec![0]];
    remove_stakers(&mut v, &mut q, &mut e, &mut c, &out);
    assert_eq!(v[3], (key(5), 15));
    assert_eq!(v[5], (key(8), 18));
}
