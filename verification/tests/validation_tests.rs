use curve25519_dalek::ristretto::CompressedRistretto;
use curve25519_dalek::scalar::Scalar;
use kora_core::blockcheck::{emptiness_rules, forker_message, forker_rules, validator_rules};
use kora_core::validation::{
    apply_selection, frame_signed_message, hash_to_scalar, select_stakers, stake_winner,
    take_signature, MultiSignature, Signature, ValidatorSignature,
    BLOCK_KEYWORD, SIGNING_CUTOFF,
};
use std::collections::VecDeque;

fn sig(c: u64, r: u64, pk: u64) -> Signature {
    Signature { c: Scalar::from(c), r: Scalar::from(r), pk }
}

#[test]
fn group_share_is_challenge_times_key_plus_nonce() {
    let y = MultiSignature::try_get_y(&Scalar::from(5u64), &42, &vec![1, 2, 3], &CompressedRistretto([3; 32]));
    assert_eq!(
        y.to_bytes(),
        [
            239, 68, 136, 35, 61, 176, 45, 158, 109, 245, 101, 105, 68, 15, 100, 83, 75, 177, 115, 64, 172, 178,
            255, 93, 233, 8, 183, 18, 184, 237, 243, 6
        ]
    );
}

#[test]
fn group_shares_sum_modulo_the_order() {
    let minus_one = -Scalar::one();
    let t = MultiSignature::sum_group_y(&vec![minus_one, Scalar::from(7u64)]);
    assert_eq!(t, Scalar::from(6u64));
    assert_eq!(MultiSignature::sum_group_y(&vec![]), Scalar::zero());
}

#[test]
fn validator_rules_in_order() {
    let pool = vec![10, 11, 12];
    assert_eq!(SIGNING_CUTOFF, 2);
    assert_eq!(validator_rules(&vec![10, 13], &pool, true), Err("at least 1 validator is not in the pool"));
    assert_eq!(validator_rules(&vec![10, 11], &pool, true), Err("there aren't enough validators"));
    assert_eq!(validator_rules(&vec![10, 11], &pool, false), Ok(()));
    assert_eq!(validator_rules(&vec![10, 11, 12], &pool, true), Ok(()));
    assert_eq!(
        validator_rules(&vec![10, 11, 12, 11], &pool, true),
        Err("there's multiple signatures from the same validator")
    );
    assert_eq!(validator_rules(&vec![10], &pool, false), Err("there aren't enough validators"));
}

#[test]
fn emptiness_rules_in_order() {
    let pool = vec![10, 11, 12, 13];
    assert_eq!(emptiness_rules(1, &vec![], &pool, true), Err("the block isn't empty!"));
    assert_eq!(
        emptiness_rules(0, &vec![1, 1], &pool, true),
        Err("someone failed to sign twice as the same validator")
    );
    assert_eq!(emptiness_rules(0, &vec![0], &pool, true), Ok(vec![11, 12, 13]));
    assert_eq!(
        emptiness_rules(0, &vec![0, 3], &pool, true),
        Err("there's not enough validators for the empty block")
    );
    assert_eq!(emptiness_rules(0, &vec![0, 3], &pool, false), Ok(vec![11, 12]));
}

#[test]
fn fork_proofs() {
    assert_eq!(forker_rules(&sig(1, 2, 5), &sig(1, 3, 6)), Err("forker is not 1 person"));
    assert_eq!(forker_rules(&sig(1, 2, 5), &sig(1, 2, 5)), Err("forker is not a forker"));
    assert_eq!(forker_rules(&sig(1, 2, 5), &sig(1, 3, 5)), Ok(()));
    let m = forker_message(0x0102, &vec![9, 9]);
    let mut expected = BLOCK_KEYWORD.to_vec();
    expected.extend(0x0102u64.to_le_bytes());
    expected.extend([9, 9]);
    assert_eq!(m, expected);
}

#[test]
fn signature_positions_convert() {
    let pool = vec![40, 41, 42, 41];
    let v = ValidatorSignature { c: Scalar::from(1u64), r: Scalar::from(2u64), pk: 2 };
    let s = v.to_signature(&pool);
    assert_eq!(s.pk, 42);
    assert_eq!(s.c, Scalar::from(1u64));
    let back = sig(1, 2, 41).to_validator_signature(&pool);
    assert_eq!(back.pk, 1);
    assert_eq!(back.r, Scalar::from(2u64));
}

#[test]
fn stake_weighted_draws() {
    let y = vec![5, 0, 10];
    assert_eq!(stake_winner(&y, 3), 0);
    assert_eq!(stake_winner(&y, 5), 0);
    assert_eq!(stake_winner(&y, 6), 2);
    assert_eq!(stake_winner(&y, 7 + 15), 2);
    assert_eq!(stake_winner(&y, 15), 0);
}

#[test]
fn selection_round_moves_queues_into_the_committee() {
    let y = vec![5, 0, 10];
    let mut queue: VecDeque<usize> = vec![7, 8, 9].into_iter().collect();
    let mut exitqueue: VecDeque<usize> = vec![1, 0, 2].into_iter().collect();
    let mut comittee = vec![20, 21, 22];
    apply_selection(&vec![3, 6], &vec![4, 5], &mut queue, &mut exitqueue, &mut comittee, &y);
    assert_eq!(queue, vec![9, 0, 2].into_iter().collect::<VecDeque<_>>());
    assert_eq!(exitqueue, vec![2, 1, 2].into_iter().collect::<VecDeque<_>>());
    assert_eq!(comittee, vec![8, 7, 22]);
}

#[test]
fn selection_keeps_queue_lengths() {
    let table: Vec<(CompressedRistretto, u64)> = (0..4).map(|i| (CompressedRistretto([i; 32]), 10)).collect();
    let mut queue: VecDeque<usize> = vec![0, 1, 2, 3].into_iter().collect();
    let mut exitqueue: VecDeque<usize> = vec![0, 1, 2].into_iter().collect();
    let mut comittee = vec![3, 2, 1];
    select_stakers(&vec![1, 2, 3], &7, &0, &mut queue, &mut exitqueue, &mut comittee, &table);
    assert_eq!(queue.len(), 4);
    assert_eq!(exitqueue.len(), 3);
    assert_eq!(comittee.len(), 3);
    assert!(queue.iter().all(|&q| q < 4));
    assert_eq!(queue[0], 2);
    assert_eq!(queue[1], 3);
}

#[test]
fn selection_needs_no_full_committee_when_the_exit_queue_names_the_seats() {
    let table: Vec<(CompressedRistretto, u64)> = (0..4).map(|i| (CompressedRistretto([i; 32]), 10)).collect();
    let mut queue: VecDeque<usize> = vec![0, 1].into_iter().collect();
    let mut exitqueue: VecDeque<usize> = vec![1, 0].into_iter().collect();
    let mut comittee = vec![3, 2];
    select_stakers(&vec![4], &1, &2, &mut queue, &mut exitqueue, &mut comittee, &table);
    // The seats named are 1 then 0: seat 1 gets staker 0, seat 0 gets staker 1.
    assert_eq!(comittee, vec![1, 0]);
    assert_eq!(queue.len(), 2);
    assert_eq!(exitqueue.len(), 2);
    assert!(exitqueue.iter().all(|&s| s < 3));
}

#[test]
fn message_scalar() {
    assert_eq!(
        hash_to_scalar(&vec![1, 2, 3]).to_bytes(),
        [
            32, 169, 53, 21, 110, 208, 26, 187, 200, 104, 156, 36, 73, 244, 73, 163, 157, 133, 104, 105, 202, 45,
            67, 78, 170, 197, 70, 145, 152, 9, 182, 10
        ]
    );
}

#[test]
fn signed_message_layout_and_reading() {
    let s = sig(1, 2, 77);
    let mut framed = frame_signed_message(&s, &vec![9, 8]);
    assert_eq!(framed.len(), 74);
    assert_eq!(&framed[..32], Scalar::from(1u64).as_bytes());
    assert_eq!(&framed[32..64], Scalar::from(2u64).as_bytes());
    assert_eq!(&framed[64..72], &77u64.to_le_bytes());
    let back = take_signature(&mut framed);
    assert_eq!(framed, vec![9, 8]);
    assert_eq!(back.c, s.c);
    assert_eq!(back.r, s.r);
    assert_eq!(back.pk, 77);
    let mut high = vec![0xffu8; 72];
    let t = take_signature(&mut high);
    assert!(high.is_empty());
    let mut expected = [0xffu8; 32];
    expected[31] = 0x7f;
    assert_eq!(t.c.to_bytes(), expected);
    assert_eq!(t.pk, u64::MAX);
}
