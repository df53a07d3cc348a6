use kora_core::bloom::{
    clamp_num_hashes, contains_at, initial_contents, insert_at, locate, BloomFile, FILE_BYTES, HASHES,
};

fn item(v: u32) -> [u8; 32] {
    let mut b = [0u8; 32];
    b[..4].copy_from_slice(&v.to_le_bytes());
    b
}

#[test]
fn simple() {
    let mut f = initial_contents();
    let b: BloomFile = BloomFile::from_keys(0, 0);
    b.insert(&mut f, &item(1));
    assert!(b.contains(&f, &item(1)).0);
    assert!(!b.contains(&f, &item(2)).0);
}

#[test]
fn keys_are_kept() {
    let b = BloomFile::from_keys(1, 2);
    assert_eq!(b.get_keys(), [1u128, 2u128]);
}

#[test]
fn hashes_count_and_determinism() {
    let b = BloomFile::from_keys(1, 2);
    let values = |ds: Vec<kora_core::keyed_hash::KeyedDigest>| ds.iter().map(|d| d.value()).collect::<Vec<u64>>();
    let h1 = values(b.get_hashes(&item(7)));
    let h2 = values(b.get_hashes(&item(7)));
    assert_eq!(h1.len(), HASHES as usize);
    assert_eq!(h1, h2);
    assert_ne!(h1, values(b.get_hashes(&item(8))));
}

#[test]
fn insert_sets_the_bits_of_the_item_itself() {
    let mut f = initial_contents();
    let b = BloomFile::from_keys(5, 6);
    let ds = b.insert(&mut f, &item(3));
    let hs: Vec<u64> = ds.iter().map(|d| d.value()).collect();
    let own: Vec<u64> = b.get_hashes(&item(3)).iter().map(|d| d.value()).collect();
    assert_eq!(hs, own);
    assert!(contains_at(&f, &own));
    let (hit, tested) = b.contains(&f, &item(3));
    assert!(hit);
    assert_eq!(tested.iter().map(|d| d.value()).collect::<Vec<u64>>(), own);
}

#[test]
fn locate_values() {
    assert_eq!(locate(0), (0, 1));
    assert_eq!(locate(13), (1, 32));
    assert_eq!(locate(4_000_000 + 9), (1, 2));
    assert_eq!(locate(3_999_999), (499_999, 128));
}

#[test]
fn insert_at_sets_bits_and_contains_at_sees_them() {
    let mut f = initial_contents();
    assert_eq!(f.len(), FILE_BYTES);
    let hs = vec![0u64, 9, 17, 4_000_000 + 9];
    assert!(!contains_at(&f, &hs));
    insert_at(&mut f, &hs);
    assert_eq!(f[0], 1);
    assert_eq!(f[1], 2);
    assert_eq!(f[2], 2);
    assert!(contains_at(&f, &hs));
    assert!(contains_at(&f, &vec![9u64]));
    assert!(!contains_at(&f, &vec![10u64]));
}

#[test]
fn no_false_negatives_many_items() {
    let mut f = initial_contents();
    let b = BloomFile::from_keys(1, 2);
    for v in 0..2000u32 {
        b.insert(&mut f, &item(v));
    }
    for v in 0..2000u32 {
        assert!(b.contains(&f, &item(v)).0);
    }
}

#[test]
fn empty_filter_contains_nothing() {
    let f = initial_contents();
    let b = BloomFile::from_keys(3, 4);
    for v in 0..100u32 {
        assert!(!b.contains(&f, &item(v)).0);
    }
}

#[test]
fn hash_count_is_clamped() {
    assert_eq!(clamp_num_hashes(0), 2);
    assert_eq!(clamp_num_hashes(2), 2);
    assert_eq!(clamp_num_hashes(7), 7);
    assert_eq!(clamp_num_hashes(200), 200);
    assert_eq!(clamp_num_hashes(5000), 200);
}

fn scalar_bytes(v: u32) -> [u8; 32] {
    *curve25519_dalek::scalar::Scalar::from(v).as_bytes()
}

#[test]
fn bloom_test() {
    let cnt = 500_000;
    let rate = 0.021577141 as f32;
    let mut f = initial_contents();
    let b: BloomFile = BloomFile::from_keys(1, 2);
    let mut set: std::collections::HashSet<[u8; 32]> = std::collections::HashSet::new();
    let mut rng = rand::thread_rng();
    let mut i = 0;
    while i < cnt {
        let v = i as u32;
        assert!(set.insert(scalar_bytes(v)));
        b.insert(&mut f, &scalar_bytes(v));
        i += 1;
    }
    i = 0;
    let mut false_positives = 0;
    let mut true_positives = 0;
    let mut true_negatives = 0;
    while i < cnt {
        let v = rand::Rng::gen::<u32>(&mut rng);
        match (b.contains(&f, &scalar_bytes(v)).0, set.contains(&scalar_bytes(v))) {
            (true, false) => false_positives += 1,
            (false, true) => assert!(false),
            (true, true) => true_positives += 1,
            (false, false) => true_negatives += 1,
        }
        i += 1;
    }
    let actual_rate = false_positives as f32 / (false_positives + true_negatives) as f32;
    println!("fp: {}    tn: {}  tp: {}", false_positives, true_negatives, true_positives);
    println!("expected: {}", rate);
    println!("actual:   {}", actual_rate);
    assert!(actual_rate > (rate - 0.001));
    assert!(actual_rate < (rate + 0.001));
}

fn classify(b: &BloomFile, f: &Vec<u8>, set: &std::collections::HashSet<[u8; 32]>, v: u32) -> i32 {
    match (b.contains(f, &scalar_bytes(v)).0, set.contains(&scalar_bytes(v))) {
        (true, false) => 0,
        (false, true) => -1,
        (true, true) => 1,
        (false, false) => 2,
    }
}

#[test]
fn bloom_parallell() {
    let cnt = 500_000 as usize;
    let rate = 0.021577141 as f32;
    let mut f = initial_contents();
    let b: BloomFile = BloomFile::from_keys(1, 2);
    let mut set: std::collections::HashSet<[u8; 32]> = std::collections::HashSet::new();
    let mut i = 0;
    while i < cnt {
        let v = i as u32;
        assert!(set.insert(scalar_bytes(v)));
        b.insert(&mut f, &scalar_bytes(v));
        i += 1;
    }
    let res: Vec<i32> = (0..2 * cnt as u32).map(|v| classify(&b, &f, &set, v)).collect();
    assert!(res.iter().all(|&x| x != -1));
    let false_positives = res.iter().filter(|&&x| x == 0).count();
    let true_positives = res.iter().filter(|&&x| x == 1).count();
    let true_negatives = res.iter().filter(|&&x| x == 2).count();
    let actual_rate = false_positives as f32 / (false_positives + true_negatives) as f32;
    println!("fp: {}    tn: {}  tp: {}", false_positives, true_negatives, true_positives);
    println!("expected: {}", rate);
    println!("actual:   {}", actual_rate);
    assert!(actual_rate > (rate - 0.001));
    assert!(actual_rate < (rate + 0.001));
    assert!(true_positives == cnt);
}

#[test]
fn bloom_parallell_writing() {
    let cnt = 500_000 as usize;
    let rate = 0.021577141 as f32;
    let mut f = initial_contents();
    let b: BloomFile = BloomFile::from_keys(1, 2);
    let mut set: std::collections::HashSet<[u8; 32]> = std::collections::HashSet::new();
    (0..cnt as u32).for_each(|v| {
        set.insert(scalar_bytes(v));
    });
    (0..cnt as u32).for_each(|v| {
        b.insert(&mut f, &scalar_bytes(v));
    });
    let res: Vec<i32> = (0..2 * cnt as u32).map(|v| classify(&b, &f, &set, v)).collect();
    let false_positives = res.iter().filter(|&&x| x == 0).count();
    let false_negatives = res.iter().filter(|&&x| x == -1).count();
    let true_positives = res.iter().filter(|&&x| x == 1).count();
    let true_negatives = res.iter().filter(|&&x| x == 2).count();
    let actual_rate = false_positives as f32 / (false_positives + true_negatives) as f32;
    let error_rate = false_negatives as f32 / (false_negatives + true_positives) as f32;
    println!("fp: {}    tn: {}  tp: {}  fn: {}", false_positives, true_negatives, true_positives, false_negatives);
    println!("expected: {}", rate);
    println!("actual:   {}", actual_rate);
    println!("error:    {}", error_rate);
    assert!(actual_rate > (rate - 0.001));
    assert!(actual_rate < (rate + 0.001));
    assert!(error_rate < 0.001);
}
