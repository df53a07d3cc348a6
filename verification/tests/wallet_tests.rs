use kora_core::blockcheck::{block_kind, BlockKind};
use kora_core::wallet::{build_payment_request, FriendList};

#[test]
fn friends_are_added_and_deleted() {
    let mut f = FriendList { friends: vec![], friend_names: vec![], edit_names: vec![], send_amount: vec![] };
    f.add_friend("abc".to_string(), "ann".to_string(), "0".to_string());
    f.add_friend("def".to_string(), "bob".to_string(), "0".to_string());
    assert_eq!(f.friends, vec!["abc", "def"]);
    assert_eq!(f.edit_names, vec![false, false]);
    f.delete_friend(0);
    assert_eq!(f.friends, vec!["def"]);
    assert_eq!(f.friend_names, vec!["bob"]);
    assert_eq!(f.send_amount, vec!["0"]);
    assert_eq!(f.edit_names, vec![false, false]);
}

#[test]
fn payment_request_pays_friends_then_change() {
    let who = vec![b"ab".to_vec(), b"cd".to_vec(), b"ef".to_vec()];
    let m = build_payment_request(&who, &vec![5, 0, 7], &b"me".to_vec(), 100, 3);
    let mut expected = b"ab".to_vec();
    expected.extend(5u64.to_le_bytes());
    expected.extend(b"ef");
    expected.extend(7u64.to_le_bytes());
    expected.extend(b"me");
    expected.extend(85u64.to_le_bytes());
    expected.extend([33, 33]);
    assert_eq!(m, expected);
    // No change left: nothing goes back to the wallet.
    let exact = build_payment_request(&vec![b"ab".to_vec()], &vec![97], &b"me".to_vec(), 100, 3);
    let mut e2 = b"ab".to_vec();
    e2.extend(97u64.to_le_bytes());
    e2.extend([33, 33]);
    assert_eq!(exact, e2);
}

#[test]
fn a_block_is_signed_one_way_only() {
    assert_eq!(block_kind(true, false), Ok(BlockKind::Validated));
    assert_eq!(block_kind(false, true), Ok(BlockKind::Empty));
    assert_eq!(block_kind(true, true), Err("both the validators and the emptyness are some"));
    assert_eq!(block_kind(false, false), Err("both the validators and the emptyness are none"));
}
