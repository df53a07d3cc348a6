use kora_core::pswrd::{get_pswrd, pswrd_from_bytes, random_pswrd, random_pswrd_attempt, PSWRD_LEN};

#[test]
fn password_from_bytes_skips_biased_bytes() {
    let mut bytes: Vec<u8> = vec![250, 255];
    bytes.extend(0u8..20);
    assert_eq!(pswrd_from_bytes(&bytes), Some("0123456789ABCDEFGHIJ".to_string()));
    let letters: Vec<u8> = (36u8..56).collect();
    assert_eq!(pswrd_from_bytes(&letters), Some("abcdefghijklmnopqrst".to_string()));
    assert_eq!(pswrd_from_bytes(&vec![61, 62, 247]), None);
    assert_eq!(pswrd_from_bytes(&vec![248; 40]), None);
}

#[test]
fn random_passwords_are_alphanumeric() {
    for _ in 0..20 {
        if let Ok(Some(p)) = random_pswrd_attempt() {
            assert_eq!(p.len(), PSWRD_LEN);
            assert!(p.chars().all(|c| c.is_ascii_alphanumeric()));
        }
    }
}

#[test]
fn key_seed_hashes_the_passwords() {
    let seed = get_pswrd(&"1234".to_string(), &"1234567".to_string(), &"12345".to_string());
    assert_eq!(
        seed,
        vec![
            152, 139, 208, 233, 123, 44, 154, 18, 29, 68, 184, 52, 219, 247, 255, 82, 8, 58, 11, 101, 20, 113,
            251, 131, 84, 212, 189, 46, 184, 193, 191, 12
        ]
    );
}

#[test]
fn random_password_is_alphanumeric() {
    let p = random_pswrd().unwrap().unwrap();
    assert_eq!(p.len(), PSWRD_LEN);
    assert!(p.chars().all(|c| c.is_ascii_alphanumeric()));
}
