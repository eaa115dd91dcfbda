//! Ed25519 signing keys in the byte layout of libsodium.
use vstd::prelude::*;

use crate::Error;

verus! {

/// An Ed25519 verifying key.
#[derive(Clone, Copy, Debug, PartialEq, Eq)]
pub struct PublicKey(pub [u8; 32]);

/// An Ed25519 secret key: the 32-byte seed followed by the public key.
#[derive(Clone, Copy, Debug)]
pub struct SecretKey(pub [u8; 64]);

/// Relies on dryoc's crypto_sign_keypair: a random key pair whose secret key
/// ends with the public key, as dryoc's seed_keypair writes it.
#[verifier::external_body]
fn random_keypair() -> (r: ([u8; 32], [u8; 64]))
    ensures
        r.0@ == r.1@.subrange(32, 64),
{
    dryoc::classic::crypto_sign::crypto_sign_keypair()
}

impl PublicKey {
    pub fn from_data(data: [u8; 32]) -> (r: Self)
        ensures
            r.0 == data,
    {
        PublicKey(data)
    }

    pub fn as_data(&self) -> (r: &[u8; 32])
        ensures
            *r == self.0,
    {
        &self.0
    }

    pub fn into_data(self) -> (r: [u8; 32])
        ensures
            r == self.0,
    {
        self.0
    }
}

impl SecretKey {
    /// A freshly generated key.
    pub fn new() -> (r: Self) {
        let (_, sk) = random_keypair();
        SecretKey(sk)
    }

    pub fn from_data(data: [u8; 64]) -> (r: Self)
        ensures
            r.0 == data,
    {
        SecretKey(data)
    }

    pub fn as_data(&self) -> (r: &[u8; 64])
        ensures
            *r == self.0,
    {
        &self.0
    }

    pub fn into_data(self) -> (r: [u8; 64])
        ensures
            r == self.0,
    {
        self.0
    }

    /// The public half: the last 32 bytes.
    pub open spec fn public_key_spec(&self) -> Seq<u8> {
        self.0@.subrange(32, 64)
    }

    pub fn public_key(&self) -> (r: PublicKey)
        ensures
            r.0@ == self.public_key_spec(),
    {
        let s = vstd::array::array_as_slice(&self.0);
        PublicKey(crate::bytes::to_array(&s[32..64]))
    }
}

} // verus!

verus! {

/// The 32-byte key that Argon2id13, at the interactive limits, derives from a
/// passphrase and a 16-byte salt.
pub uninterp spec fn argon2id_key(passwd: Seq<u8>, salt: Seq<u8>) -> Seq<u8>;

/// The XSalsa20-Poly1305 box (tag first) of a message under a nonce and key.
pub uninterp spec fn secretbox_sealed(msg: Seq<u8>, nonce: Seq<u8>, key: Seq<u8>) -> Seq<u8>;

/// The message inside an XSalsa20-Poly1305 box, if its tag verifies.
pub uninterp spec fn secretbox_opened(boxed: Seq<u8>, nonce: Seq<u8>, key: Seq<u8>) -> Option<Seq<u8>>;

/// Relies on dryoc's crypto_pwhash with Argon2id13 and the interactive
/// limits; it reports an error when Argon2 cannot run.
#[verifier::external_body]
fn derive_key(passwd: &[u8], salt: &[u8; 16]) -> (r: Option<[u8; 32]>)
    ensures
        r matches Some(k) ==> k@ == argon2id_key(passwd@, salt@),
{
    let mut key = [0u8; 32];
    match dryoc::classic::crypto_pwhash::crypto_pwhash(
        &mut key,
        passwd,
        salt,
        dryoc::constants::CRYPTO_PWHASH_OPSLIMIT_INTERACTIVE,
        dryoc::constants::CRYPTO_PWHASH_MEMLIMIT_INTERACTIVE,
        dryoc::classic::crypto_pwhash::PasswordHashAlgorithm::Argon2id13,
    ) {
        Ok(()) => Some(key),
        Err(_) => None,
    }
}

/// Relies on dryoc's crypto_secretbox_easy, which fails only for a message
/// too long or a buffer not one tag longer than the message: neither holds
/// for these sizes.
#[verifier::external_body]
fn seal(msg: &[u8; 64], nonce: &[u8; 24], key: &[u8; 32]) -> (r: [u8; 80])
    ensures
        r@ == secretbox_sealed(msg@, nonce@, key@),
{
    let mut boxed = [0u8; 80];
    let _ = dryoc::classic::crypto_secretbox::crypto_secretbox_easy(&mut boxed, msg, nonce, key);
    boxed
}

/// Relies on dryoc's crypto_secretbox_open_easy: an error exactly when the
/// tag does not verify, for these sizes.
#[verifier::external_body]
fn open(boxed: &[u8; 80], nonce: &[u8; 24], key: &[u8; 32]) -> (r: Option<[u8; 64]>)
    ensures
        r is Some <==> secretbox_opened(boxed@, nonce@, key@) is Some,
        r matches Some(m) ==> secretbox_opened(boxed@, nonce@, key@) == Some(m@),
{
    let mut msg = [0u8; 64];
    match dryoc::classic::crypto_secretbox::crypto_secretbox_open_easy(&mut msg, boxed, nonce, key) {
        Ok(()) => Some(msg),
        Err(_) => None,
    }
}

/// Relies on dryoc's copy_randombytes: random bytes.
#[verifier::external_body]
fn random_salt() -> (r: [u8; 32]) {
    let mut salt = [0u8; 32];
    dryoc::rng::copy_randombytes(&mut salt);
    salt
}

/// Relies on dryoc's copy_randombytes: random bytes.
#[verifier::external_body]
fn random_nonce() -> (r: [u8; 24]) {
    let mut nonce = [0u8; 24];
    dryoc::rng::copy_randombytes(&mut nonce);
    nonce
}

/// The secret key of a key file, in the clear or sealed.
#[derive(Clone, Copy, Debug)]
pub enum SKey {
    Cipher([u8; 80]),
    Plain([u8; 64]),
}

/// The secret key file: the salt and nonce that seal the key, and the key.
#[derive(Clone, Copy, Debug)]
pub struct SecretKeyFile {
    pub salt: [u8; 32],
    pub nonce: [u8; 24],
    pub skey: SKey,
}

impl SecretKeyFile {
    /// Argon2id takes a 16-byte salt: the first half of the stored one.
    fn argon2_salt(&self) -> (r: [u8; 16])
        ensures
            r@ == self.salt@.take(16),
    {
        let s = vstd::array::array_as_slice(&self.salt);
        crate::bytes::to_array(&s[0..16])
    }

    /// Generate a keypair with all the necessary info to save both keys.
    pub fn new() -> (r: (PublicKey, SecretKeyFile))
        ensures
            r.1.skey is Plain,
            r.0.0@ == r.1.skey->Plain_0@.subrange(32, 64),
    {
        let (pk, sk) = random_keypair();
        (PublicKey(pk), SecretKeyFile { salt: random_salt(), nonce: random_nonce(), skey: SKey::Plain(sk) })
    }

    /// A key file from its stored fields; the key is 64 bytes in the clear
    /// or 80 bytes sealed.
    pub fn from_parts(salt: [u8; 32], nonce: [u8; 24], skey: &[u8]) -> (r: Result<SecretKeyFile, Error>)
        ensures
            skey@.len() == 64 ==> (r matches Ok(f) && f.salt == salt && f.nonce == nonce
                && f.skey is Plain && f.skey->Plain_0@ == skey@),
            skey@.len() == 80 ==> (r matches Ok(f) && f.salt == salt && f.nonce == nonce
                && f.skey is Cipher && f.skey->Cipher_0@ == skey@),
            skey@.len() != 64 && skey@.len() != 80 ==> r matches Err(Error::KeyInvalid),
    {
        if skey.len() == 64 {
            Ok(SecretKeyFile { salt, nonce, skey: SKey::Plain(crate::bytes::to_array(skey)) })
        } else if skey.len() == 80 {
            Ok(SecretKeyFile { salt, nonce, skey: SKey::Cipher(crate::bytes::to_array(skey)) })
        } else {
            Err(Error::KeyInvalid)
        }
    }

    /// The stored bytes of the key: 64 in the clear, 80 sealed.
    pub fn skey_bytes(&self) -> (r: Vec<u8>)
        ensures
            self.skey matches SKey::Plain(k) ==> r@ == k@,
            self.skey matches SKey::Cipher(c) ==> r@ == c@,
    {
        match &self.skey {
            SKey::Plain(k) => crate::bytes::to_vec(k),
            SKey::Cipher(c) => crate::bytes::to_vec(c),
        }
    }

    /// Ensure that the key is sealed under `passwd`. With an empty passphrase,
    /// or a key already sealed, nothing changes.
    pub fn encrypt(&mut self, passwd: &[u8]) -> (r: Result<(), Error>)
        ensures
            final(self).salt == old(self).salt,
            final(self).nonce == old(self).nonce,
            (passwd@.len() == 0 || old(self).skey is Cipher) ==> (r is Ok && final(self).skey == old(
                self,
            ).skey),
            r is Err ==> final(self).skey == old(self).skey,
            (passwd@.len() > 0 && old(self).skey is Plain && r is Ok) ==> (final(self).skey is Cipher
                && final(self).skey->Cipher_0@ == secretbox_sealed(
                old(self).skey->Plain_0@,
                old(self).nonce@,
                argon2id_key(passwd@, old(self).salt@.take(16)),
            )),
    {
        if passwd.len() == 0 {
            return Ok(());
        }
        match self.skey {
            SKey::Plain(sk) => {
                let key = match derive_key(passwd, &self.argon2_salt()) {
                    Some(k) => k,
                    None => return Err(Error::PassphraseIncorrect),
                };
                self.skey = SKey::Cipher(seal(&sk, &self.nonce, &key));
                Ok(())
            },
            SKey::Cipher(_) => Ok(()),
        }
    }

    /// Ensure that the key is in the clear, opening it with `passwd` if it is
    /// sealed.
    pub fn decrypt(&mut self, passwd: &[u8]) -> (r: Result<(), Error>)
        ensures
            final(self).salt == old(self).salt,
            final(self).nonce == old(self).nonce,
            old(self).skey is Plain ==> (r is Ok && final(self).skey == old(self).skey),
            r is Err ==> (final(self).skey == old(self).skey && r matches Err(Error::PassphraseIncorrect)),
            (old(self).skey is Cipher && r is Ok) ==> (final(self).skey is Plain && secretbox_opened(
                old(self).skey->Cipher_0@,
                old(self).nonce@,
                argon2id_key(passwd@, old(self).salt@.take(16)),
            ) == Some(final(self).skey->Plain_0@)),
            (old(self).skey is Cipher && passwd@.len() == 0) ==> r is Err,
    {
        match self.skey {
            SKey::Plain(_) => Ok(()),
            SKey::Cipher(c) => {
                if passwd.len() == 0 {
                    return Err(Error::PassphraseIncorrect);
                }
                let key = match derive_key(passwd, &self.argon2_salt()) {
                    Some(k) => k,
                    None => return Err(Error::PassphraseIncorrect),
                };
                match open(&c, &self.nonce, &key) {
                    Some(sk) => {
                        self.skey = SKey::Plain(sk);
                        Ok(())
                    },
                    None => Err(Error::PassphraseIncorrect),
                }
            },
        }
    }

    /// Status of the internal state.
    pub fn is_encrypted(&self) -> (r: bool)
        ensures
            r == self.skey is Cipher,
    {
        match self.skey {
            SKey::Cipher(_) => true,
            SKey::Plain(_) => false,
        }
    }

    /// The secret key, or `None` if it is sealed.
    pub fn key(&self) -> (r: Option<SecretKey>)
        ensures
            self.skey matches SKey::Plain(k) ==> r == Some(SecretKey(k)),
            self.skey is Cipher ==> r is None,
    {
        match self.skey {
            SKey::Plain(k) => Some(SecretKey(k)),
            SKey::Cipher(_) => None,
        }
    }

    /// The public key, or `None` if the secret key is sealed.
    pub fn public_key_file(&self) -> (r: Option<PublicKey>)
        ensures
            self.skey matches SKey::Plain(k) ==> (r matches Some(p) && p.0@ == k@.subrange(32, 64)),
            self.skey is Cipher ==> r is None,
    {
        match self.key() {
            Some(k) => Some(k.public_key()),
            None => None,
        }
    }
}

} // verus!
