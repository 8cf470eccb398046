//! Authenticated encryption of stored values.
//!
//! A [`Table`](crate::Db) opened with an encryption key seals every stored
//! value with AES-256-GCM, under a 12-byte nonce derived from the encoded
//! key bytes: their first 12 bytes, or the bytes zero-padded to 12. The
//! nonce is thus a pure function of the stored key; repeated writes to the
//! same key reuse the same nonce, a deliberate (if debatable) property of
//! the on-disk format.

use crate::error::Error;
use vstd::prelude::*;

verus! {

/// Authenticated encrypt/decrypt of opaque byte payloads.
///
/// `decrypt` inverts `encrypt` under the same nonce, and fails (rather than
/// returning wrong bytes) on anything that was not produced by `encrypt`
/// under that key and nonce.
pub trait Encrypt {
    /// The ciphertext for a payload under a nonce.
    spec fn enc_spec(&self, data: Seq<u8>, nonce: Seq<u8>) -> Seq<u8>;

    /// The payload a ciphertext opens to under a nonce, if it opens at all.
    spec fn dec_spec(&self, data: Seq<u8>, nonce: Seq<u8>) -> Option<Seq<u8>>;

    /// Encrypts `data` under `nonce`.
    fn encrypt(&self, data: &[u8], nonce: &[u8]) -> (r: Result<Vec<u8>, Error>)
        ensures
            match r {
                Ok(c) => c@ == self.enc_spec(data@, nonce@) && self.dec_spec(c@, nonce@)
                    == Some(data@),
                Err(e) => e is Crypto,
            },
    ;

    /// Decrypts `data` under `nonce`. Decryption never succeeds with wrong
    /// bytes: whatever it returns re-encrypts to exactly the input, so an
    /// input that is no ciphertext of this key and nonce is rejected.
    fn decrypt(&self, data: &[u8], nonce: &[u8]) -> (r: Result<Vec<u8>, Error>)
        ensures
            match r {
                Ok(p) => self.dec_spec(data@, nonce@) == Some(p@) && self.enc_spec(p@, nonce@)
                    == data@,
                Err(e) => e is Crypto && self.dec_spec(data@, nonce@) is None,
            },
    ;
}

/// The 12-byte nonce derived from arbitrary key bytes: their first 12
/// bytes, or the bytes zero-padded to 12.
pub open spec fn derived_nonce(key: Seq<u8>) -> Seq<u8> {
    if key.len() >= 12 {
        key.subrange(0, 12)
    } else {
        key + Seq::new((12 - key.len()) as nat, |i: int| 0u8)
    }
}

/// Derives the 12-byte nonce from arbitrary key bytes.
pub fn prepare_nonce(key: &[u8]) -> (r: Vec<u8>)
    ensures
        r@ == derived_nonce(key@),
        r@.len() == 12,
{
    if key.len() >= 12 {
        vstd::slice::slice_to_vec(vstd::slice::slice_subrange(key, 0, 12))
    } else {
        let mut r = vstd::slice::slice_to_vec(key);
        while r.len() < 12
            invariant
                key@.len() <= r@.len() <= 12,
                r@ == key@ + Seq::new((r@.len() - key@.len()) as nat, |i: int| 0u8),
            decreases 12 - r@.len(),
        {
            r.push(0u8);
            proof {
                assert(r@ =~= key@ + Seq::new((r@.len() - key@.len()) as nat, |i: int| 0u8));
            }
        }
        r
    }
}

/// What AES-256-GCM encryption returns for a key, a 12-byte nonce and a
/// plaintext: a function of those three alone.
pub uninterp spec fn aes256_gcm_encrypt(key: Seq<u8>, nonce: Seq<u8>, data: Seq<u8>) -> Seq<u8>;

/// What AES-256-GCM decryption returns for a key, a 12-byte nonce and a
/// ciphertext: the plaintext the ciphertext seals, if its authentication
/// tag checks out.
pub uninterp spec fn aes256_gcm_decrypt(key: Seq<u8>, nonce: Seq<u8>, data: Seq<u8>) -> Option<
    Seq<u8>,
>;

/// An AES-256-GCM cipher bound to one 32-byte key.
pub struct Aes256Cipher {
    key: [u8; 32],
}

impl Aes256Cipher {
    /// The key this cipher encrypts under.
    pub closed spec fn key_spec(&self) -> Seq<u8> {
        self.key@
    }

    /// Builds the cipher for the given key.
    pub fn new(key: &[u8; 32]) -> (r: Aes256Cipher)
        ensures
            r.key_spec() == key@,
    {
        Aes256Cipher { key: *key }
    }
}

/// Relies on `aes_gcm::Aes256Gcm` (`KeyInit::new`, `Aead::encrypt`): for
/// one key and 12-byte nonce the ciphertext is a function of the plaintext
/// alone, and `Aead::decrypt` recovers the plaintext from it.
#[verifier::external_body]
fn aes256_encrypt_raw(c: &Aes256Cipher, data: &[u8], nonce: &[u8]) -> (r: Option<Vec<u8>>)
    requires
        nonce@.len() == 12,
    ensures
        match r {
            Some(ct) => ct@ == aes256_gcm_encrypt(c.key_spec(), nonce@, data@)
                && aes256_gcm_decrypt(c.key_spec(), nonce@, ct@) == Some(data@),
            None => true,
        },
{
    let cipher: aes_gcm::Aes256Gcm = aes_gcm::aead::KeyInit::new(&c.key.into());
    let nonce_arr: aes_gcm::Nonce<aes_gcm::aead::consts::U12> = match nonce.try_into() {
        Ok(n) => n,
        Err(_) => {
            return None;
        },
    };
    aes_gcm::aead::Aead::encrypt(&cipher, &nonce_arr, data).ok()
}

/// Relies on `aes_gcm::Aes256Gcm` (`KeyInit::new`, `Aead::decrypt`): it
/// returns the plaintext of a ciphertext sealed under the same key and
/// nonce, and fails (never with wrong bytes) on any other input — the tag
/// check passes exactly when the input is what encrypting the recovered
/// plaintext produces, so every successful opening re-seals to its input.
#[verifier::external_body]
fn aes256_decrypt_raw(c: &Aes256Cipher, data: &[u8], nonce: &[u8]) -> (r: Option<Vec<u8>>)
    requires
        nonce@.len() == 12,
    ensures
        match r {
            Some(pt) => aes256_gcm_decrypt(c.key_spec(), nonce@, data@) == Some(pt@)
                && aes256_gcm_encrypt(c.key_spec(), nonce@, pt@) == data@,
            None => aes256_gcm_decrypt(c.key_spec(), nonce@, data@) is None,
        },
{
    let cipher: aes_gcm::Aes256Gcm = aes_gcm::aead::KeyInit::new(&c.key.into());
    let nonce_arr: aes_gcm::Nonce<aes_gcm::aead::consts::U12> = match nonce.try_into() {
        Ok(n) => n,
        Err(_) => {
            return None;
        },
    };
    aes_gcm::aead::Aead::decrypt(&cipher, &nonce_arr, data).ok()
}

impl Encrypt for Aes256Cipher {
    open spec fn enc_spec(&self, data: Seq<u8>, nonce: Seq<u8>) -> Seq<u8> {
        aes256_gcm_encrypt(self.key_spec(), derived_nonce(nonce), data)
    }

    open spec fn dec_spec(&self, data: Seq<u8>, nonce: Seq<u8>) -> Option<Seq<u8>> {
        aes256_gcm_decrypt(self.key_spec(), derived_nonce(nonce), data)
    }

    fn encrypt(&self, data: &[u8], nonce: &[u8]) -> (r: Result<Vec<u8>, Error>) {
        let n = prepare_nonce(nonce);
        match aes256_encrypt_raw(self, data, n.as_slice()) {
            Some(ct) => Ok(ct),
            None => Err(Error::Crypto),
        }
    }

    fn decrypt(&self, data: &[u8], nonce: &[u8]) -> (r: Result<Vec<u8>, Error>) {
        let n = prepare_nonce(nonce);
        match aes256_decrypt_raw(self, data, n.as_slice()) {
            Some(pt) => Ok(pt),
            None => Err(Error::Crypto),
        }
    }
}

} // verus!
