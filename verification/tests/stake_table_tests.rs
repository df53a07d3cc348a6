use curve25519_dalek::ristretto::CompressedRistretto;
use kora_core::stake_table::{decode_stake_table, encode_stake_table};

fn entry(i: u8, s: u64) -> (CompressedRistretto, u64) {
    (CompressedRistretto([i; 32]), s)
}

#[test]
fn table_layout() {
    let b = encode_stake_table(&vec![entry(7, 0x0102), entry(9, u64::MAX)]);
    assert_eq!(b.len(), 8 + 2 * 40);
    assert_eq!(&b[..8], &2u64.to_le_bytes());
    assert_eq!(&b[8..40], &[7u8; 32]);
    assert_eq!(&b[40..48], &0x0102u64.to_le_bytes());
    assert_eq!(&b[48..80], &[9u8; 32]);
    assert_eq!(&b[80..88], &u64::MAX.to_le_bytes());
    assert_eq!(encode_stake_table(&vec![]), 0u64.to_le_bytes().to_vec());
}

#[test]
fn table_roundtrip() {
    let v = vec![entry(1, 10), entry(2, 20), entry(1, 30)];
    assert_eq!(decode_stake_table(&encode_stake_table(&v)), Some(v.clone()));
    let mut longer = encode_stake_table(&v);
    longer.extend([5, 5, 5]);
    assert_eq!(decode_stake_table(&longer), Some(v));
}

#[test]
fn short_tables_are_refused() {
    assert_eq!(decode_stake_table(&vec![1, 0, 0]), None);
    let mut b = encode_stake_table(&vec![entry(1, 10)]);
    b.pop();
    assert_eq!(decode_stake_table(&b), None);
    let mut huge = u64::MAX.to_le_bytes().to_vec();
    huge.extend([0u8; 40]);
    assert_eq!(decode_stake_table(&huge), None);
}
