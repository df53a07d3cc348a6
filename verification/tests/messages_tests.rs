use kora_core::messages::{
    classify_leader_message, leader_finishes_block, leader_finishes_empty_block,
    leader_sends_group_point, leader_sends_txs, parse_payments, payments_text_ok, LeaderMessage,
};
use kora_core::messages::{
    count_seats_present, decode_wallet_update, outside_committee, staker_leader_finishes,
    staker_leader_sends_point, validator_reply, validator_takes_txs, ValidatorReply, WalletUpdate,
};

#[test]
fn leader_messages_are_read_by_their_last_byte() {
    assert_eq!(classify_leader_message(&vec![]), None);
    assert_eq!(classify_leader_message(&vec![1, 2, 0]), Some(LeaderMessage::Tx(vec![1, 2])));
    let mut long = vec![7u8; 10_005];
    long.push(0);
    assert_eq!(classify_leader_message(&long), Some(LeaderMessage::Tx(vec![7u8; 10_000])));
    assert_eq!(classify_leader_message(&vec![9, 9, 2]), Some(LeaderMessage::Sig(vec![9, 9])));
    let mut point = vec![3u8; 32];
    point.push(4);
    assert_eq!(classify_leader_message(&point), Some(LeaderMessage::GroupPoint([3u8; 32])));
    let mut scalar = vec![5u8; 32];
    scalar.push(6);
    assert_eq!(classify_leader_message(&scalar), Some(LeaderMessage::GroupScalar([5u8; 32])));
    assert_eq!(classify_leader_message(&vec![1, 99]), Some(LeaderMessage::Other));
}

#[test]
fn leader_timing_rules() {
    // Three validators: more than 2 signatures at once, or more than 1 after 30 s.
    assert!(!leader_finishes_block(2, 0));
    assert!(leader_finishes_block(3, 0));
    assert!(leader_finishes_block(2, 31));
    assert!(!leader_finishes_block(1, 100));
    assert!(leader_sends_group_point(true, 2, 3));
    assert!(!leader_sends_group_point(true, 2, 2));
    assert!(!leader_sends_group_point(false, 2, 3));
    assert!(leader_finishes_empty_block(true, 3, true, 2));
    assert!(!leader_finishes_empty_block(true, 2, true, 2));
    assert!(leader_sends_txs(11));
    assert!(!leader_sends_txs(10));
}

fn payment(key_lo: u8, key_hi: u8, digits: &[u8; 8]) -> Vec<u8> {
    let mut m = Vec::new();
    for _ in 0..3 {
        m.extend(std::iter::repeat(b'a' + key_lo).take(32));
        m.extend(std::iter::repeat(b'a' + key_hi).take(32));
    }
    m.extend(digits.iter().map(|d| b'0' + d));
    m
}

#[test]
fn payment_commands_are_read_into_keys_and_amounts() {
    let mut m = payment(3, 2, &[1, 0, 0, 0, 0, 0, 0, 0]);
    m.extend(payment(15, 15, &[0, 1, 0, 0, 0, 0, 0, 0]));
    assert!(payments_text_ok(&m));
    let p = parse_payments(&m);
    assert_eq!(p.len(), 2);
    assert_eq!(p[0].0, [[0x23u8; 32]; 3]);
    assert_eq!(p[0].1, 1);
    assert_eq!(p[1].0, [[0xffu8; 32]; 3]);
    assert_eq!(p[1].1, 256);
    assert!(!payments_text_ok(&m[..199].to_vec()));
    let mut bad = payment(3, 2, &[1, 0, 0, 0, 0, 0, 0, 0]);
    bad[40] = b'z';
    assert!(!payments_text_ok(&bad));
    assert!(payments_text_ok(&vec![]));
    assert!(parse_payments(&vec![]).is_empty());
}

#[test]
fn staker_roles_and_leader_rules() {
    assert!(outside_committee(&vec![7, 9], &vec![1, 2, 3]));
    assert!(!outside_committee(&vec![7, 2], &vec![1, 2, 3]));
    assert!(outside_committee(&vec![], &vec![1, 2, 3]));
    assert_eq!(count_seats_present(&vec![1, 2, 2, 3], &vec![2, 3, 9]), 3);
    assert_eq!(count_seats_present(&vec![1, 2, 3], &vec![]), 0);
    // SIGNING_CUTOFF is 2 with three validators.
    assert!(staker_leader_finishes(3, 5, 4));
    assert!(!staker_leader_finishes(2, 5, 4));
    assert!(!staker_leader_finishes(3, 4, 4));
    assert!(staker_leader_sends_point(false, 5, 4, 3));
    assert!(!staker_leader_sends_point(true, 5, 4, 3));
}

#[test]
fn wallet_updates_are_read_by_their_last_byte() {
    let mut m = 5u64.to_le_bytes().to_vec();
    m.extend(7u64.to_le_bytes());
    m.push(0);
    assert_eq!(decode_wallet_update(&m), WalletUpdate::Balances(5, 7));
    assert_eq!(decode_wallet_update(&vec![0, 1]), WalletUpdate::Trust(false));
    assert_eq!(decode_wallet_update(&vec![1, 1]), WalletUpdate::Trust(true));
    let mut h = 300u64.to_le_bytes().to_vec();
    h.push(2);
    assert_eq!(decode_wallet_update(&h), WalletUpdate::Height(300));
    assert_eq!(decode_wallet_update(&vec![b'a', b'b', 0, 255]), WalletUpdate::Address(true, b"ab".to_vec()));
    assert_eq!(decode_wallet_update(&vec![b'a', 1, 255]), WalletUpdate::Address(false, b"a".to_vec()));
    assert_eq!(decode_wallet_update(&vec![9]), WalletUpdate::Other);
}

#[test]
fn validator_replies() {
    assert!(validator_takes_txs(4, 4, false));
    assert!(validator_takes_txs(4, 5, true));
    assert!(!validator_takes_txs(4, 5, false));
    assert_eq!(validator_reply(2, false, false, true), ValidatorReply::Sign);
    assert_eq!(validator_reply(0, true, true, true), ValidatorReply::Sign);
    assert_eq!(validator_reply(0, false, false, false), ValidatorReply::StartGroup(false));
    assert_eq!(validator_reply(0, false, true, true), ValidatorReply::Wait);
}
