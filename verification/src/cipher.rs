//! The block cipher of a container and the derivation of its key.
//!
//! The key is the bcrypt hash of the password, ended by a zero byte, under
//! the container's salt. Blocks are encrypted one at a time with AES-192.
//! Neither algorithm is written out here: each has a name, and the functions
//! at the end of this file say how the calls into the `aes`, `bcrypt`,
//! `getrandom` and `zeroize` crates relate to those names.

use vstd::prelude::*;
use vstd::slice::slice_to_vec;
use aes::cipher::{BlockDecrypt, BlockEncrypt, KeyInit};
use aes::Aes192;
use zeroize::Zeroize;

verus! {

/// The cost factor of the key derivation.
pub const KEY_COST: u32 = 13;

/// The number of bytes in a key.
pub const KEY_SIZE: usize = 24;

/// The longest password, in bytes, that the key derivation takes: with the
/// zero byte that ends it, it fills the 72 bytes that bcrypt reads.
pub const MAX_PASSWORD_BYTES: usize = 71;

/// The AES-192 encryption of a block under `key`. The block is given and
/// returned as the number whose little-endian bytes the cipher works on.
pub uninterp spec fn aes192_encrypt(key: Seq<u8>, block: u128) -> u128;

/// The AES-192 decryption of a block under `key`, on the same terms.
pub uninterp spec fn aes192_decrypt(key: Seq<u8>, block: u128) -> u128;

/// The 24 bytes that raw bcrypt computes from a cost factor, the salt whose
/// little-endian bytes are `salt`, and the bytes of a password.
pub uninterp spec fn bcrypt_hash(cost: u32, salt: u128, password: Seq<u8>) -> Seq<u8>;

/// Under `key`, decryption undoes encryption and encryption undoes
/// decryption.
pub open spec fn aes192_inverse(key: Seq<u8>) -> bool {
    &&& forall|block: u128| aes192_decrypt(key, #[trigger] aes192_encrypt(key, block)) == block
    &&& forall|block: u128| aes192_encrypt(key, #[trigger] aes192_decrypt(key, block)) == block
}

/// The bytes that are hashed for a password: its UTF-8 bytes and a zero.
pub open spec fn password_bytes(password: Seq<char>) -> Seq<u8> {
    vstd::utf8::encode_utf8(password).push(0u8)
}

/// The key that a password gives under a salt and a cost factor.
pub open spec fn derived_key(cost: u32, salt: u128, password: Seq<char>) -> Seq<u8> {
    bcrypt_hash(cost, salt, password_bytes(password))
}

/// A block cipher with its key.
pub struct Cipher {
    key: Vec<u8>,
}

impl Cipher {
    /// The key of the cipher.
    pub closed spec fn key(&self) -> Seq<u8> {
        self.key@
    }

    /// The key has the size that AES-192 asks for, and under it the two
    /// directions of the cipher undo each other.
    pub open spec fn wf(&self) -> bool {
        &&& self.key().len() == KEY_SIZE
        &&& aes192_inverse(self.key())
    }

    /// What `encrypt` returns.
    pub open spec fn encrypted(&self, data: u128) -> u128 {
        aes192_encrypt(self.key(), data)
    }

    /// What `decrypt` returns.
    pub open spec fn decrypted(&self, data: u128) -> u128 {
        aes192_decrypt(self.key(), data)
    }

    /// Encrypts one block.
    pub fn encrypt(&self, data: u128) -> (r: u128)
        requires
            self.wf(),
        ensures
            r == self.encrypted(data),
            self.decrypted(r) == data,
    {
        aes192_encrypt_block(&self.key, data)
    }

    /// Decrypts one block.
    pub fn decrypt(&self, data: u128) -> (r: u128)
        requires
            self.wf(),
        ensures
            r == self.decrypted(data),
            self.encrypted(r) == data,
    {
        aes192_decrypt_block(&self.key, data)
    }

    /// Whether the key derivation takes the password: whether it has at
    /// most `MAX_PASSWORD_BYTES` bytes. This is what `new` and `with_salt`
    /// require of their callers.
    pub fn accepts_password(password: &str) -> (ok: bool)
        ensures
            ok == (password_bytes(password@).len() <= MAX_PASSWORD_BYTES + 1),
    {
        password.as_bytes().len() <= MAX_PASSWORD_BYTES
    }

    /// Draws a fresh salt and derives the cipher of `password` under it.
    /// Returns the cipher and the salt. The password is wiped from memory:
    /// the string is empty afterwards.
    pub fn new(password: &mut String) -> (r: (Self, u128))
        requires
            password_bytes(old(password)@).len() <= MAX_PASSWORD_BYTES + 1,
        ensures
            r.0.wf(),
            r.0.key() == derived_key(KEY_COST, r.1, old(password)@),
            final(password)@.len() == 0,
    {
        let salt = random_salt();
        let cipher = Self::make_aes(salt, KEY_COST, password);
        (cipher, salt)
    }

    /// Derives the cipher of `password` under a salt that is known. The
    /// same salt and password give the same cipher. The password is wiped
    /// from memory: the string is empty afterwards.
    pub fn with_salt(salt: u128, password: &mut String) -> (r: Self)
        requires
            password_bytes(old(password)@).len() <= MAX_PASSWORD_BYTES + 1,
        ensures
            r.wf(),
            r.key() == derived_key(KEY_COST, salt, old(password)@),
            final(password)@.len() == 0,
    {
        Self::make_aes(salt, KEY_COST, password)
    }

    /// The cipher with the given key, if AES-192 accepts it: a key of 24
    /// bytes.
    pub fn from_key(key: Vec<u8>) -> (r: Option<Self>)
        ensures
            r is Some <==> key@.len() == KEY_SIZE,
            r matches Some(cipher) ==> cipher.wf() && cipher.key() == key@,
    {
        if aes192_accepts(&key) {
            Some(Cipher { key })
        } else {
            None
        }
    }

    /// Hashes the password, ended by a zero byte, under the salt and the
    /// cost factor, and makes the hash the key. The password and its copy
    /// are wiped as soon as the hash is there.
    fn make_aes(salt: u128, cost: u32, password: &mut String) -> (r: Self)
        requires
            cost < 32,
            password_bytes(old(password)@).len() <= MAX_PASSWORD_BYTES + 1,
        ensures
            r.wf(),
            r.key() == derived_key(cost, salt, old(password)@),
            final(password)@.len() == 0,
    {
        let mut bytes = slice_to_vec(password.as_str().as_bytes());
        bytes.push(0u8);
        wipe_string(password);
        let key = bcrypt_raw(cost, salt, &bytes);
        wipe_bytes(&mut bytes);
        match Self::from_key(key) {
            Some(cipher) => cipher,
            None => vstd::pervasive::unreached(),
        }
    }
}

/// `Aes192::new_from_slice` of the `aes` crate, asked whether it takes the
/// key. It takes exactly the keys of 24 bytes. For a key that it takes, the
/// contract also records that AES decryption and encryption under one key
/// are inverse to each other, stated of the two names above.
#[verifier::external_body]
fn aes192_accepts(key: &Vec<u8>) -> (ok: bool)
    ensures
        ok == (key@.len() == KEY_SIZE),
        ok ==> aes192_inverse(key@),
{
    Aes192::new_from_slice(key.as_slice()).is_ok()
}

/// `encrypt_block` of the `aes` crate's `Aes192`, keyed with `key`, on the
/// little-endian bytes of `block`. The result is what `aes192_encrypt`
/// names.
#[verifier::external_body]
fn aes192_encrypt_block(key: &Vec<u8>, block: u128) -> (r: u128)
    requires
        key@.len() == KEY_SIZE,
    ensures
        r == aes192_encrypt(key@, block),
{
    let mut bytes = block.to_le_bytes();
    Aes192::new_from_slice(key.as_slice()).unwrap().encrypt_block(bytes.as_mut().into());
    u128::from_le_bytes(bytes)
}

/// `decrypt_block` of the `aes` crate's `Aes192`, keyed with `key`, on the
/// little-endian bytes of `block`. The result is what `aes192_decrypt`
/// names.
#[verifier::external_body]
fn aes192_decrypt_block(key: &Vec<u8>, block: u128) -> (r: u128)
    requires
        key@.len() == KEY_SIZE,
    ensures
        r == aes192_decrypt(key@, block),
{
    let mut bytes = block.to_le_bytes();
    Aes192::new_from_slice(key.as_slice()).unwrap().decrypt_block(bytes.as_mut().into());
    u128::from_le_bytes(bytes)
}

/// `bcrypt::bcrypt`, the raw hash of the `bcrypt` crate. It panics on a cost
/// factor of 32 or more, on an empty password and on one of more than 72
/// bytes, so those are left out. The result has 24 bytes and is what
/// `bcrypt_hash` names.
#[verifier::external_body]
fn bcrypt_raw(cost: u32, salt: u128, password: &Vec<u8>) -> (hash: Vec<u8>)
    requires
        cost < 32,
        1 <= password@.len() <= 72,
    ensures
        hash@ == bcrypt_hash(cost, salt, password@),
        hash@.len() == KEY_SIZE,
{
    bcrypt::bcrypt(cost, salt.to_le_bytes(), password.as_slice()).to_vec()
}

/// `getrandom::getrandom` on a buffer of 16 bytes. Nothing is claimed of
/// the salt that comes back. A failure of the random source is not
/// reported: the salt is then whatever the source left in the buffer.
#[verifier::external_body]
fn random_salt() -> u128 {
    let mut salt = [0u8; 16];
    let _ = getrandom::getrandom(&mut salt);
    u128::from_le_bytes(salt)
}

/// `Zeroize::zeroize` of the `zeroize` crate on a `String`: it overwrites
/// the text with zeros and leaves the string empty.
#[verifier::external_body]
pub(crate) fn wipe_string(text: &mut String)
    ensures
        final(text)@.len() == 0,
{
    text.zeroize();
}

/// `Zeroize::zeroize` of the `zeroize` crate on a `Vec<u8>`: it overwrites
/// the bytes with zeros and leaves the vector empty.
#[verifier::external_body]
fn wipe_bytes(bytes: &mut Vec<u8>)
    ensures
        final(bytes)@.len() == 0,
{
    bytes.zeroize();
}

} // verus!
