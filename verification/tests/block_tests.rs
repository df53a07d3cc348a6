use curve25519_dalek::constants::RISTRETTO_BASEPOINT_POINT;
use curve25519_dalek::ristretto::{CompressedRistretto, RistrettoPoint};
use curve25519_dalek::scalar::Scalar;
use kora_core::blockcheck::{check_block, BlockRecord};
use kora_core::validation::{sign_message, take_signature, MultiSignature, Signature, SignatureError, BLOCK_KEYWORD};
use sha3::{Digest, Sha3_512};

fn generator() -> RistrettoPoint {
    Scalar::from(7u64) * RISTRETTO_BASEPOINT_POINT
}

fn keys() -> Vec<Scalar> {
    vec![Scalar::from(1001u64), Scalar::from(2002u64), Scalar::from(3003u64)]
}

fn table(g: &RistrettoPoint) -> Vec<(CompressedRistretto, u64)> {
    keys().iter().map(|k| ((k * g).compress(), 100)).collect()
}

// The signature `sign_message` puts in front of the bytes it signs.
fn sign(key: &Scalar, m: &[u8], location: u64, g: &RistrettoPoint) -> Signature {
    let mut out = sign_message(key, &m.to_vec(), location, g);
    take_signature(&mut out)
}

fn record(validators: Option<Vec<Signature>>, emptyness: Option<MultiSignature>, leader: Signature, tx_count: usize) -> BlockRecord {
    BlockRecord {
        forker: None,
        validators,
        emptyness,
        leader,
        tx_count,
        shards: vec![4],
        bnum: 12,
        last_name: b"previous".to_vec(),
        shards_bytes: vec![1, 0, 0, 0, 0, 0, 0, 0, 4, 0],
        validators_bytes: b"validators".to_vec(),
        forker_bytes: vec![0],
        emptyness_bytes: b"emptyness".to_vec(),
        txs_bytes: b"txs".to_vec(),
    }
}

fn leader_message(b: &BlockRecord) -> Vec<u8> {
    let mut m = BLOCK_KEYWORD.to_vec();
    m.extend(&b.shards_bytes);
    m.extend(b.bnum.to_le_bytes());
    m.extend(&b.last_name);
    m.extend(Sha3_512::digest(&b.validators_bytes).to_vec());
    m.extend(&b.forker_bytes);
    m
}

fn validator_message(b: &BlockRecord, stk: &[(CompressedRistretto, u64)]) -> Vec<u8> {
    let mut m = stk[b.leader.pk as usize].0.to_bytes().to_vec();
    m.extend(&b.shards_bytes);
    m.extend(&b.txs_bytes);
    m.extend(b.bnum.to_le_bytes());
    m.extend(&b.last_name);
    m
}

fn validated_block(g: &RistrettoPoint, stk: &[(CompressedRistretto, u64)]) -> BlockRecord {
    let placeholder = Signature { c: Scalar::zero(), r: Scalar::zero(), pk: 0 };
    let mut b = record(Some(vec![]), None, placeholder, 2);
    b.leader = sign(&keys()[0], &leader_message(&b), 0, g);
    let vm = validator_message(&b, stk);
    b.validators = Some((0..3).map(|i| sign(&keys()[i], &vm, i as u64, g)).collect());
    b
}

#[test]
fn check_block_accepts_a_validated_block() {
    let g = generator();
    let stk = table(&g);
    let b = validated_block(&g, &stk);
    assert_eq!(check_block(&b, &vec![0, 1, 2], &stk, &g), Ok(Ok(true)));
}

#[test]
fn check_block_rejects_a_forged_validator() {
    let g = generator();
    let stk = table(&g);
    let mut b = validated_block(&g, &stk);
    let mut vs = b.validators.clone().unwrap();
    vs[1].pk = 2;
    b.validators = Some(vs);
    assert_eq!(check_block(&b, &vec![0, 1, 2], &stk, &g), Ok(Err("at least 1 validator is fake")));
}

#[test]
fn check_block_rejects_a_fake_leader() {
    let g = generator();
    let stk = table(&g);
    let mut b = validated_block(&g, &stk);
    b.bnum = 13;
    assert_eq!(check_block(&b, &vec![0, 1, 2], &stk, &g), Ok(Err("leader is fake")));
}

#[test]
fn check_block_counts_the_validators() {
    let g = generator();
    let stk = table(&g);
    let mut b = validated_block(&g, &stk);
    let vs = b.validators.clone().unwrap();
    b.validators = Some(vs[..2].to_vec());
    b.leader = sign(&keys()[0], &leader_message(&b), 0, &g);
    assert_eq!(check_block(&b, &vec![0, 1, 2], &stk, &g), Ok(Err("there aren't enough validators")));
    b.validators = Some(vec![vs[0], vs[1], vs[2], vs[2]]);
    b.leader = sign(&keys()[0], &leader_message(&b), 0, &g);
    assert_eq!(check_block(&b, &vec![0, 1, 2], &stk, &g), Ok(Err("there's multiple signatures from the same validator")));
}

#[test]
fn check_block_needs_exactly_one_kind_of_signers() {
    let g = generator();
    let stk = table(&g);
    let placeholder = Signature { c: Scalar::zero(), r: Scalar::zero(), pk: 0 };
    let none = record(None, None, placeholder, 0);
    assert_eq!(check_block(&none, &vec![0, 1, 2], &stk, &g), Ok(Err("both the validators and the emptyness are none")));
    let group = MultiSignature { x: stk[0].0, y: Scalar::zero(), pk: vec![] };
    let both = record(Some(vec![]), Some(group), placeholder, 0);
    assert_eq!(check_block(&both, &vec![0, 1, 2], &stk, &g), Ok(Err("both the validators and the emptyness are some")));
}

fn empty_block(g: &RistrettoPoint, stk: &[(CompressedRistretto, u64)]) -> BlockRecord {
    let placeholder = Signature { c: Scalar::zero(), r: Scalar::zero(), pk: 0 };
    let mut b = record(None, None, placeholder, 0);
    let mut m = stk[0].0.to_bytes().to_vec();
    m.extend(&b.last_name);
    m.extend(b.shards[0].to_le_bytes());
    let x = keys()
        .iter()
        .map(|k| MultiSignature::gen_group_x(k, &12u64, g).decompress().unwrap())
        .collect::<Vec<_>>();
    let xt = MultiSignature::sum_group_x(&x);
    let y = keys().iter().map(|k| MultiSignature::try_get_y(k, &12u64, &m, &xt)).collect::<Vec<_>>();
    let yt = MultiSignature::sum_group_y(&y);
    b.emptyness = Some(MultiSignature { x: xt, y: yt, pk: vec![] });
    let mut lm = BLOCK_KEYWORD.to_vec();
    lm.extend(b.shards[0].to_le_bytes());
    lm.extend(b.bnum.to_le_bytes());
    lm.extend(&b.last_name);
    lm.extend(&b.emptyness_bytes);
    b.leader = sign(&keys()[0], &lm, 0, g);
    b
}

#[test]
fn check_block_accepts_an_empty_block() {
    let g = generator();
    let stk = table(&g);
    let b = empty_block(&g, &stk);
    assert_eq!(check_block(&b, &vec![0, 1, 2], &stk, &g), Ok(Ok(true)));
}

#[test]
fn check_block_rejects_empty_blocks_with_transactions_or_bad_groups() {
    let g = generator();
    let stk = table(&g);
    let mut b = empty_block(&g, &stk);
    b.tx_count = 1;
    assert_eq!(check_block(&b, &vec![0, 1, 2], &stk, &g), Ok(Err("the block isn't empty!")));
    let mut b = empty_block(&g, &stk);
    b.last_name = b"another".to_vec();
    assert_eq!(check_block(&b, &vec![0, 1, 2], &stk, &g), Ok(Err("multisignature can not be verified")));
    let mut b = empty_block(&g, &stk);
    b.emptyness_bytes = b"changed".to_vec();
    assert_eq!(
        check_block(&b, &vec![0, 1, 2], &stk, &g),
        Ok(Err("there's a problem with the leader's multisignature group signature"))
    );
    let mut b = empty_block(&g, &stk);
    b.leader.pk = 7;
    assert_eq!(check_block(&b, &vec![0, 1, 2], &stk, &g), Ok(Err("you're probably behind on blocks")));
}

#[test]
fn check_block_reports_a_key_that_is_not_a_point() {
    let g = generator();
    let mut stk = table(&g);
    let b = validated_block(&g, &stk);
    stk[0].0 = CompressedRistretto([255u8; 32]);
    assert_eq!(check_block(&b, &vec![0, 1, 2], &stk, &g), Err(SignatureError::BadKey));
}
