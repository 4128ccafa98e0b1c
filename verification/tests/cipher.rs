use sfs::cipher::{Cipher, KEY_COST, KEY_SIZE, MAX_PASSWORD_BYTES};

fn test_key() -> Vec<u8> {
    (0u8..24).collect()
}

fn block(bytes: [u8; 16]) -> u128 {
    u128::from_le_bytes(bytes)
}

const PLAIN: [u8; 16] = [
    0x00, 0x11, 0x22, 0x33, 0x44, 0x55, 0x66, 0x77, 0x88, 0x99, 0xaa, 0xbb, 0xcc, 0xdd, 0xee, 0xff,
];

const SEALED: [u8; 16] = [
    0xdd, 0xa9, 0x7c, 0xa4, 0x86, 0x4c, 0xdf, 0xe0, 0x6e, 0xaf, 0x70, 0xa0, 0xec, 0x0d, 0x71, 0x91,
];

#[test]
fn constants_have_their_values() {
    assert_eq!(KEY_COST, 13);
    assert_eq!(KEY_SIZE, 24);
    assert_eq!(MAX_PASSWORD_BYTES, 71);
}

#[test]
fn encrypt_matches_the_published_vector() {
    let cipher = Cipher::from_key(test_key()).unwrap();
    assert_eq!(cipher.encrypt(block(PLAIN)), block(SEALED));
}

#[test]
fn decrypt_matches_the_published_vector() {
    let cipher = Cipher::from_key(test_key()).unwrap();
    assert_eq!(cipher.decrypt(block(SEALED)), block(PLAIN));
}

#[test]
fn encrypt_then_decrypt_returns_the_block() {
    let cipher = Cipher::from_key(test_key()).unwrap();
    for value in [0u128, 1, 16, u128::MAX, 0x0123456789abcdef_fedcba9876543210] {
        let sealed = cipher.encrypt(value);
        assert_ne!(sealed, value);
        assert_eq!(cipher.decrypt(sealed), value);
        assert_eq!(cipher.encrypt(cipher.decrypt(value)), value);
    }
}

#[test]
fn encrypt_is_repeatable() {
    let cipher = Cipher::from_key(test_key()).unwrap();
    assert_eq!(cipher.encrypt(42), cipher.encrypt(42));
    assert_ne!(cipher.encrypt(42), cipher.encrypt(43));
}

#[test]
fn different_keys_encrypt_differently() {
    let one = Cipher::from_key(vec![1u8; 24]).unwrap();
    let two = Cipher::from_key(vec![2u8; 24]).unwrap();
    assert_ne!(one.encrypt(7), two.encrypt(7));
}

#[test]
fn from_key_takes_only_keys_of_24_bytes() {
    assert!(Cipher::from_key(vec![0u8; 24]).is_some());
    assert!(Cipher::from_key(vec![0u8; 23]).is_none());
    assert!(Cipher::from_key(vec![0u8; 25]).is_none());
    assert!(Cipher::from_key(vec![0u8; 16]).is_none());
    assert!(Cipher::from_key(vec![0u8; 32]).is_none());
    assert!(Cipher::from_key(Vec::new()).is_none());
}

#[test]
fn with_salt_hashes_the_password_with_a_zero_byte_under_the_salt() {
    let salt: u128 = 0x9ca7a77f5c73cf39cf4e7b1a693d4b14;
    let mut password = String::from("correct horse");
    let derived = Cipher::with_salt(salt, &mut password);
    let key = bcrypt::bcrypt(13, salt.to_le_bytes(), b"correct horse\0");
    let expected = Cipher::from_key(key.to_vec()).unwrap();
    for value in [0u128, 1, 0xdead_beef] {
        assert_eq!(derived.encrypt(value), expected.encrypt(value));
        assert_eq!(derived.decrypt(value), expected.decrypt(value));
    }
}

#[test]
fn with_salt_is_repeatable() {
    let a = Cipher::with_salt(7, &mut String::from("secret"));
    let b = Cipher::with_salt(7, &mut String::from("secret"));
    assert_eq!(a.encrypt(1), b.encrypt(1));
    assert_eq!(a.decrypt(1), b.decrypt(1));
}

#[test]
fn with_salt_depends_on_the_salt() {
    let a = Cipher::with_salt(7, &mut String::from("secret"));
    let b = Cipher::with_salt(8, &mut String::from("secret"));
    assert_ne!(a.encrypt(1), b.encrypt(1));
}

#[test]
fn with_salt_depends_on_the_password() {
    let a = Cipher::with_salt(7, &mut String::from("secret"));
    let b = Cipher::with_salt(7, &mut String::from("Secret"));
    assert_ne!(a.encrypt(1), b.encrypt(1));
}

#[test]
fn with_salt_wipes_the_password() {
    let mut password = String::from("secret");
    let _ = Cipher::with_salt(7, &mut password);
    assert!(password.is_empty());
}

#[test]
fn new_wipes_the_password_and_returns_the_salt_it_used() {
    let mut password = String::from("secret");
    let (cipher, salt) = Cipher::new(&mut password);
    assert!(password.is_empty());
    let again = Cipher::with_salt(salt, &mut String::from("secret"));
    assert_eq!(cipher.encrypt(99), again.encrypt(99));
}

#[test]
fn new_draws_a_salt_of_its_own_each_time() {
    let (_, first) = Cipher::new(&mut String::from("secret"));
    let (_, second) = Cipher::new(&mut String::from("secret"));
    assert_ne!(first, second);
}

#[test]
fn accepts_password_counts_bytes() {
    assert!(Cipher::accepts_password(""));
    assert!(Cipher::accepts_password("secret"));
    assert!(Cipher::accepts_password(&"x".repeat(71)));
    assert!(!Cipher::accepts_password(&"x".repeat(72)));
    assert!(!Cipher::accepts_password(&"x".repeat(1000)));
    assert!(Cipher::accepts_password(&"\u{fc}".repeat(35)));
    assert!(!Cipher::accepts_password(&"\u{fc}".repeat(36)));
}

#[test]
fn the_empty_password_and_the_longest_password_are_taken() {
    let empty = Cipher::with_salt(1, &mut String::new());
    assert_eq!(empty.decrypt(empty.encrypt(5)), 5);
    let mut longest = "x".repeat(MAX_PASSWORD_BYTES);
    let cipher = Cipher::with_salt(1, &mut longest);
    assert!(longest.is_empty());
    assert_eq!(cipher.decrypt(cipher.encrypt(5)), 5);
}
