use curve25519_dalek::ristretto::CompressedRistretto;
use kora_core::transaction::{
    block_summary, get_test_ring, split_outputs, stake_input_places, PolynomialTransaction, Transaction,
    TransactionError,
};

fn tx() -> Transaction<u64, String> {
    Transaction {
        inputs: vec![7, 8],
        outputs: vec![1, 2, 3, 4],
        tags: vec![CompressedRistretto([5; 32])],
        seal: "seal".to_string(),
        fee: 9,
    }
}

#[test]
fn receiving_keeps_the_openable_outputs() {
    let mine = tx().try_receive(|x: &u64| if x % 2 == 0 { Some(x * 10) } else { None });
    assert_eq!(mine, vec![20, 40]);
    let none = tx().try_receive(|_: &u64| None);
    assert!(none.is_empty());
}

#[test]
fn polyform_swaps_the_ring_for_the_polynomial() {
    let p: PolynomialTransaction<u64, String> = tx().polyform(&vec![3, 0, 0]);
    assert_eq!(p.inputs, vec![3, 0, 0]);
    assert_eq!(p.outputs, vec![1, 2, 3, 4]);
    assert_eq!(p.tags, vec![CompressedRistretto([5; 32])]);
    assert_eq!(p.seal, "seal");
    assert_eq!(p.fee, 9);
}

#[test]
fn test_ring_is_default_accounts() {
    let r: Vec<u64> = get_test_ring(12);
    assert_eq!(r, vec![0; 12]);
    assert_eq!(get_test_ring::<String>(0).len(), 0);
}

#[test]
fn transaction_errors_compare() {
    assert_eq!(TransactionError::InvalidTransaction, TransactionError::InvalidTransaction);
    assert_ne!(TransactionError::InvalidTransaction, TransactionError::InvalidOffer);
}

fn stake_inputs(places: &[u64]) -> Vec<u8> {
    let mut v: Vec<u8> = places.iter().flat_map(|p| p.to_le_bytes()).collect();
    v.push(1);
    v
}

#[test]
fn stake_inputs_are_checked() {
    assert_eq!(stake_input_places(&stake_inputs(&[3, 5]), 6), Ok(vec![3, 5]));
    assert_eq!(stake_input_places(&stake_inputs(&[3, 5]), 5), Err(TransactionError::InvalidTransaction));
    assert_eq!(stake_input_places(&stake_inputs(&[5, 3]), 6), Err(TransactionError::InvalidTransaction));
    assert_eq!(stake_input_places(&stake_inputs(&[5, 5]), 6), Err(TransactionError::InvalidTransaction));
    assert_eq!(stake_input_places(&vec![3, 0, 0], 6), Err(TransactionError::InvalidTransaction));
    assert_eq!(stake_input_places(&vec![], 6), Err(TransactionError::InvalidTransaction));
    let mut odd = stake_inputs(&[2]);
    odd.insert(8, 7);
    assert_eq!(stake_input_places(&odd, 6), Ok(vec![2]));
}

#[test]
fn block_summary_reads_exits_tags_and_fees() {
    let t = |i: u8| CompressedRistretto([i; 32]);
    let exit: PolynomialTransaction<u64, ()> =
        PolynomialTransaction { inputs: 4u64.to_le_bytes().to_vec(), outputs: vec![], tags: vec![t(1)], seal: (), fee: 3 };
    let ring: PolynomialTransaction<u64, ()> =
        PolynomialTransaction { inputs: vec![1, 2, 3, 0], outputs: vec![9], tags: vec![t(2), t(3)], seal: (), fee: 2 };
    let (stkout, tags, fees) = block_summary(&vec![exit, ring]);
    assert_eq!(stkout, vec![4]);
    assert_eq!(tags, vec![t(1), t(2), t(3)]);
    assert_eq!(fees, 5);
}

#[test]
fn outputs_split_into_stakes_and_ordinary_outputs() {
    let a: PolynomialTransaction<u64, String> = tx().polyform(&vec![0]);
    let mut b = a.clone();
    b.outputs = vec![5, 6];
    let k = CompressedRistretto([1; 32]);
    let reads = vec![
        vec![None, Some((k, 100)), None, None],
        vec![Some((k, 7)), None],
    ];
    let (stkin, txout) = split_outputs(&vec![a, b], &reads);
    assert_eq!(stkin, vec![(k, 100), (k, 7)]);
    assert_eq!(txout, vec![1, 3, 4, 6]);
    let (none_in, none_out) = split_outputs::<u64, String>(&vec![], &vec![]);
    assert!(none_in.is_empty() && none_out.is_empty());
}
