use curve25519_dalek::constants::RISTRETTO_BASEPOINT_POINT;
use curve25519_dalek::ristretto::{CompressedRistretto, RistrettoPoint};
use curve25519_dalek::scalar::Scalar;
use kora_core::blockcheck::{check_forker, forker_message};
use kora_core::validation::{
    recieve_signed_message, recieve_signed_message_nonced, sign_message, sign_message_nonced,
    take_signature, MultiSignature, SignatureError,
};

// The chain's generator lives in a module of its own; any point serves to test
// the checks, which take the generator as an argument.
fn generator() -> RistrettoPoint {
    Scalar::from(7u64) * RISTRETTO_BASEPOINT_POINT
}

#[test]
fn multisignature_test() {
    let g = generator();
    let message = "hi!!!".as_bytes().to_vec();
    let sk = (0..100).into_iter().map(|_| Scalar::from(rand::random::<u64>())).collect::<Vec<_>>();
    let pk = sk.iter().map(|x| x * g).collect::<Vec<_>>();

    let x = sk
        .iter()
        .map(|k| MultiSignature::gen_group_x(&k, &0u64, &g).decompress().unwrap())
        .collect::<Vec<_>>();
    let xt = MultiSignature::sum_group_x(&x);
    let y = sk.iter().map(|k| MultiSignature::try_get_y(&k, &0u64, &message, &xt)).collect::<Vec<_>>();
    let yt = MultiSignature::sum_group_y(&y);

    assert!(MultiSignature::verify_group(&yt, &xt, &message, &pk.iter().map(|x| x.compress()).collect::<Vec<_>>(), &g).unwrap());
    assert!(MultiSignature::verify_group(&yt, &xt, &message, &pk.iter().rev().map(|x| x.compress()).collect::<Vec<_>>(), &g).unwrap());
    assert!(!MultiSignature::verify_group(&yt, &xt, &message, &pk[..99].iter().map(|x| x.compress()).collect::<Vec<_>>(), &g).unwrap());
    assert!(!MultiSignature::verify_group(&yt, &xt, &"bye!!!".as_bytes().to_vec(), &pk.iter().map(|x| x.compress()).collect::<Vec<_>>(), &g).unwrap());
}

#[test]
fn message_signing_test() {
    let g = generator();
    let message = "hi!!!".as_bytes().to_vec();
    let sk = Scalar::from(rand::random::<u64>());
    let pk = (sk * g).compress();
    let stkstate = vec![(pk, 9012309183u64)];
    let mut m = sign_message(&sk, &message, 0u64, &g);
    assert!(0 == recieve_signed_message(&mut m, &stkstate, &g).unwrap().unwrap());
    assert!(m == message);
}

#[test]
fn message_signing_nonced_test() {
    let g = generator();
    let message = "hi!!!".as_bytes().to_vec();
    let sk = Scalar::from(rand::random::<u64>());
    let pk = (sk * g).compress();
    let stkstate = vec![(pk, 9012309183u64)];
    let mut m = sign_message_nonced(&sk, &message, 0u64, 80u64, &g);
    assert!(0 == recieve_signed_message_nonced(&mut m, &stkstate, 80u64, &g).unwrap().unwrap());
    assert!(m == message);
}

#[test]
fn signatures_fail_on_other_messages_keys_and_heights() {
    let g = generator();
    let message = b"pay 5".to_vec();
    let sk = Scalar::from(12345u64);
    let other = (Scalar::from(999u64) * g).compress();
    let stkstate = vec![(other, 1), ((sk * g).compress(), 2)];
    let signed = sign_message(&sk, &message, 1, &g);

    let mut m = signed.clone();
    assert_eq!(recieve_signed_message(&mut m, &stkstate, &g), Ok(Some(1)));

    // A changed message byte breaks the signature.
    let mut bad = signed.clone();
    *bad.last_mut().unwrap() ^= 1;
    assert_eq!(recieve_signed_message(&mut bad, &stkstate, &g), Ok(None));

    // The signature names position 1; the key at position 0 is someone else's.
    let mut wrong = signed.clone();
    wrong[64] = 0;
    assert_eq!(recieve_signed_message(&mut wrong, &stkstate, &g), Ok(None));

    // A position past the table names no staker.
    let mut far = signed.clone();
    far[64] = 9;
    assert_eq!(recieve_signed_message(&mut far, &stkstate, &g), Ok(None));

    // A key that is not a point cannot be checked.
    let broken = vec![(CompressedRistretto([0xff; 32]), 1), ((sk * g).compress(), 2)];
    let mut m2 = signed.clone();
    m2[64] = 0;
    assert_eq!(recieve_signed_message(&mut m2, &broken, &g), Err(SignatureError::BadKey));

    // A nonced signature holds only at its height; a short message gives nothing.
    let mut n = sign_message_nonced(&sk, &message, 1, 80, &g);
    assert_eq!(recieve_signed_message_nonced(&mut n.clone(), &stkstate, 81, &g), Ok(None));
    assert_eq!(recieve_signed_message_nonced(&mut n, &stkstate, 80, &g), Ok(Some(1)));
    let mut short = vec![1u8; 10];
    assert_eq!(recieve_signed_message_nonced(&mut short, &stkstate, 80, &g), Ok(None));
    assert_eq!(short.len(), 10);
}

#[test]
fn signature_verify_checks_the_table_position() {
    let g = generator();
    let sk = Scalar::from(5u64);
    let stkstate = vec![((sk * g).compress(), 1)];
    let mut m = sign_message(&sk, &b"x".to_vec(), 0, &g);
    let sig = take_signature(&mut m);
    assert_eq!(sig.verify(&m, &stkstate, &g), Ok(true));
    assert_eq!(sig.verify(&b"y".to_vec(), &stkstate, &g), Ok(false));
    assert_eq!(sig.verify(&m, &vec![], &g), Ok(false));
}

#[test]
fn group_check_refuses_keys_that_are_not_points() {
    let g = generator();
    let k = Scalar::from(3u64);
    let xt = MultiSignature::gen_group_x(&k, &0, &g);
    let yt = MultiSignature::try_get_y(&k, &0, &b"m".to_vec(), &xt);
    let bad = vec![CompressedRistretto([0xff; 32])];
    assert_eq!(MultiSignature::verify_group(&yt, &xt, &b"m".to_vec(), &bad, &g), Err(SignatureError::BadKey));
    let good = vec![(k * g).compress(), (k * g).compress()];
    assert_eq!(MultiSignature::verify_group(&yt, &xt, &b"m".to_vec(), &good, &g), Ok(true));
}

#[test]
fn fork_proofs_are_checked() {
    let g = generator();
    let sk = Scalar::from(77u64);
    let stkstate = vec![((sk * g).compress(), 1)];
    let (v0, v1) = (b"block a".to_vec(), b"block b".to_vec());
    let sig_on = |v: &Vec<u8>| {
        let mut m = sign_message(&sk, &forker_message(9, v), 0, &g);
        take_signature(&mut m)
    };
    let s0 = sig_on(&v0);
    let s1 = sig_on(&v1);
    assert_eq!(check_forker(&s0, &s1, &v0, &v1, 9, &stkstate, &g), Ok(Ok(())));
    assert_eq!(check_forker(&s0, &s1, &v1, &v0, 9, &stkstate, &g), Ok(Err("the forker was framed")));
    assert_eq!(check_forker(&s0, &s0, &v0, &v0, 9, &stkstate, &g), Ok(Err("forker is not a forker")));
}
