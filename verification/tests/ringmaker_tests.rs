use kora_core::ringmaker::{
    encode_ring, generate_ring, hash, recieve_ring, recieve_ring_checked, ring_from_choices, P,
};

#[test]
fn hash_matches_sha3_prefix() {
    assert_eq!(hash(&0), -65373408156623514741485900055339025534i128);
    assert_eq!(hash(&1), -51721353118812760163114943701325685030i128);
    assert_eq!(hash(&5), 147567561643133075861780898039116039702i128);
}

#[test]
fn encoded_ring_layout() {
    let send = encode_ring(300, 7, &vec![1, 2]);
    assert_eq!(send.len(), 2 + 8 + 16 + 1);
    assert_eq!(&send[0..2], &300u16.to_le_bytes());
    assert_eq!(&send[2..10], &7u64.to_le_bytes());
    assert_eq!(&send[10..18], &1u64.to_le_bytes());
    assert_eq!(&send[18..26], &2u64.to_le_bytes());
    assert_eq!(*send.last().unwrap(), 0);
}

#[test]
fn zero_polynomial_ring_gives_hash_places() {
    // With no coefficients each slot decodes to hash(slot) % P % now.
    let send = encode_ring(3, 10, &vec![]);
    assert_eq!(recieve_ring(&send), Ok(vec![3, 6, 7]));
}

#[test]
fn constant_polynomial_ring_places() {
    let send = encode_ring(3, 10, &vec![5]);
    assert_eq!(recieve_ring(&send), Ok(vec![1, 2, 8]));
}

#[test]
fn non_ring_messages_are_refused() {
    assert!(recieve_ring(&vec![]).is_err());
    let mut send = encode_ring(3, 10, &vec![5]);
    *send.last_mut().unwrap() = 1;
    assert_eq!(recieve_ring(&send), Err("this is not a regular transaction"));
}

#[test]
fn ring_from_chosen_slots_decodes_to_positions() {
    let s = vec![4usize, 9, 0];
    let j = vec![2usize, 7, 5];
    let now = 12u64;
    let shift = vec![12 * 1000, 12 * 77_777, 0];
    let send = ring_from_choices(&s, 10, now, &j, &shift);
    assert!(!send.is_empty());
    assert_eq!(send.len(), 2 + 8 + 8 * 3 + 1);
    let places = recieve_ring(&send).unwrap();
    for p in &s {
        assert!(places.contains(&(*p as u64)));
    }
    assert!(places.len() <= 10);
    assert!(places.windows(2).all(|w| w[0] < w[1]));
}

#[test]
fn generated_ring_reveals_spent_positions() {
    for round in 0..5u64 {
        let now = 1000 + round;
        let s = vec![17usize, 999, 0, 500];
        let send = generate_ring(&s, &16, &now);
        assert!(!send.is_empty());
        let places = recieve_ring(&send).unwrap();
        for p in &s {
            assert!(places.contains(&(*p as u64)));
        }
        assert!(places.iter().all(|&p| p < now));
    }
}

#[test]
fn generated_ring_with_no_positions() {
    let send = generate_ring(&vec![], &4, &0);
    assert_eq!(send.len(), 2 + 8 + 1);
    let send = generate_ring(&vec![], &4, &9);
    let places = recieve_ring(&send).unwrap();
    assert!(places.len() <= 4);
}

#[test]
fn field_prime_value() {
    assert_eq!(P, 9223372036854775783);
}

#[test]
fn messages_not_ending_in_zero_are_refused() {
    let a: Vec<u8> = vec![];
    let b: Vec<u8> = vec![3, 0, 1, 0, 0, 0, 0, 0, 0, 0, 1];
    let c: Vec<u8> = vec![0, 0, 7, 0, 0, 0, 0, 0, 0, 0, 0];
    assert_eq!(recieve_ring(&a), Err("this is not a regular transaction"));
    assert_eq!(recieve_ring(&b), Err("this is not a regular transaction"));
    assert_eq!(recieve_ring(&c), Ok(vec![]));
}

#[test]
fn checked_reading_refuses_what_cannot_be_decoded() {
    // Too short for the header.
    assert_eq!(recieve_ring_checked(&vec![1, 0, 0]), None);
    // Two slots, `now` 0, and no coefficients: some slot hash is not 0.
    let zero_now = encode_ring(2, 0, &vec![]);
    assert_eq!(recieve_ring_checked(&zero_now), None);
    // No slots and `now` 0: nothing to divide.
    let empty = encode_ring(0, 0, &vec![]);
    assert_eq!(recieve_ring_checked(&empty), Some(Ok(vec![])));
    // A regular ring reads as `recieve_ring` reads it.
    let send = generate_ring(&vec![3], &4, &10);
    assert_eq!(recieve_ring_checked(&send), Some(recieve_ring(&send)));
    assert_eq!(recieve_ring_checked(&vec![5]), Some(Err("this is not a regular transaction")));
}
