//! Authenticated encryption of data kept on disk.
//!
//! A sealed payload is the eight-byte marker `CLKSEAL1`, a twelve-byte
//! random nonce, and the ChaCha20-Poly1305 ciphertext with its tag; the
//! purpose of the data is bound in as associated data.

use vstd::prelude::*;

use crate::bytes::{append_bytes, copy_range, starts_with_bytes};
use crate::error::{crypto_error, AppResult};

verus! {

/// Length of the local master key.
pub const LOCAL_DATA_KEY_BYTES: usize = 32;

/// Length of a ChaCha20-Poly1305 nonce.
pub const NONCE_BYTES: usize = 12;

/// Length of the ChaCha20-Poly1305 authentication tag.
pub const TAG_BYTES: usize = 16;

/// Length of the marker that starts every sealed payload.
pub const MAGIC_BYTES: usize = 8;

/// The longest input ring's ChaCha20-Poly1305 seals under one nonce.
pub const CHACHA_MAX_INPUT_BYTES: u64 = 274877906880;

/// The marker `CLKSEAL1`.
pub open spec fn local_data_magic() -> Seq<u8> {
    seq![0x43u8, 0x4cu8, 0x4bu8, 0x53u8, 0x45u8, 0x41u8, 0x4cu8, 0x31u8]
}

/// Whether bytes have the shape of a sealed payload: the marker, a nonce and
/// at least one byte after them.
pub open spec fn is_sealed_spec(b: Seq<u8>) -> bool {
    &&& b.len() > MAGIC_BYTES + NONCE_BYTES
    &&& b.take(MAGIC_BYTES as int) == local_data_magic()
}

/// The nonce part of a sealed payload.
pub open spec fn sealed_nonce(b: Seq<u8>) -> Seq<u8> {
    b.subrange(MAGIC_BYTES as int, (MAGIC_BYTES + NONCE_BYTES) as int)
}

/// The ciphertext-and-tag part of a sealed payload.
pub open spec fn sealed_ciphertext(b: Seq<u8>) -> Seq<u8> {
    b.skip((MAGIC_BYTES + NONCE_BYTES) as int)
}

/// The ciphertext-with-tag that ring's ChaCha20-Poly1305 produces for a key,
/// nonce, associated data and plaintext.
pub uninterp spec fn chacha_sealed(key: Seq<u8>, nonce: Seq<u8>, aad: Seq<u8>, plaintext: Seq<u8>) -> Seq<u8>;

/// What ring's ChaCha20-Poly1305 opening yields for a key, nonce, associated
/// data and ciphertext-with-tag: the plaintext when the tag authenticates.
pub uninterp spec fn chacha_opened(key: Seq<u8>, nonce: Seq<u8>, aad: Seq<u8>, ciphertext: Seq<u8>) -> Option<Seq<u8>>;

/// What opening a payload with `key` for `purpose` yields.
pub open spec fn open_spec(key: Seq<u8>, purpose: Seq<u8>, sealed: Seq<u8>) -> Option<Seq<u8>> {
    if is_sealed_spec(sealed) {
        chacha_opened(key, sealed_nonce(sealed), purpose, sealed_ciphertext(sealed))
    } else {
        None
    }
}

/// `len` bytes from ring's `SystemRandom::fill`; `None` when the system
/// generator fails. Nothing is stated of the bytes but their number.
#[verifier::external_body]
pub(crate) fn random_bytes(len: usize) -> (r: Option<Vec<u8>>)
    ensures
        r matches Some(n) ==> n@.len() == len,
{
    let mut bytes = vec![0u8; len];
    match ring::rand::SecureRandom::fill(&ring::rand::SystemRandom::new(), &mut bytes) {
        Ok(()) => Some(bytes),
        Err(_) => None,
    }
}

/// ring's `LessSafeKey::seal_in_place_append_tag` with ChaCha20-Poly1305 on a
/// 32-byte key (built with `UnboundKey::new`, which accepts exactly that
/// length) and a 12-byte nonce. On success the output is the ciphertext with
/// the 16-byte tag appended, and opening it with the same key, nonce and
/// associated data gives the plaintext back. `None` only when ring refuses
/// the input as longer than the cipher's per-nonce limit.
#[verifier::external_body]
fn chacha_seal(key: &[u8], nonce: &[u8], aad: &[u8], plaintext: &[u8]) -> (r: Option<Vec<u8>>)
    requires
        key@.len() == LOCAL_DATA_KEY_BYTES,
        nonce@.len() == NONCE_BYTES,
    ensures
        plaintext@.len() <= CHACHA_MAX_INPUT_BYTES ==> r is Some,
        r matches Some(ct) ==> {
            &&& ct@ == chacha_sealed(key@, nonce@, aad@, plaintext@)
            &&& ct@.len() == plaintext@.len() + TAG_BYTES
            &&& chacha_opened(key@, nonce@, aad@, ct@) == Some(plaintext@)
        },
{
    let unbound = ring::aead::UnboundKey::new(&ring::aead::CHACHA20_POLY1305, key).ok()?;
    let nonce = ring::aead::Nonce::try_assume_unique_for_key(nonce).ok()?;
    let mut in_out = plaintext.to_vec();
    match ring::aead::LessSafeKey::new(unbound).seal_in_place_append_tag(nonce, ring::aead::Aad::from(aad), &mut in_out) {
        Ok(()) => Some(in_out),
        Err(_) => None,
    }
}

/// ring's `LessSafeKey::open_in_place` with ChaCha20-Poly1305 on a 32-byte
/// key and a 12-byte nonce: the plaintext when the tag authenticates the
/// ciphertext and associated data, else `None`; always `None` for input
/// shorter than a tag.
#[verifier::external_body]
fn chacha_open(key: &[u8], nonce: &[u8], aad: &[u8], ciphertext: &[u8]) -> (r: Option<Vec<u8>>)
    requires
        key@.len() == LOCAL_DATA_KEY_BYTES,
        nonce@.len() == NONCE_BYTES,
    ensures
        match r {
            Some(p) => chacha_opened(key@, nonce@, aad@, ciphertext@) == Some(p@),
            None => chacha_opened(key@, nonce@, aad@, ciphertext@) is None,
        },
        ciphertext@.len() < TAG_BYTES ==> r is None,
{
    let unbound = ring::aead::UnboundKey::new(&ring::aead::CHACHA20_POLY1305, key).ok()?;
    let nonce = ring::aead::Nonce::try_assume_unique_for_key(nonce).ok()?;
    let mut in_out = ciphertext.to_vec();
    match ring::aead::LessSafeKey::new(unbound).open_in_place(nonce, ring::aead::Aad::from(aad), &mut in_out) {
        Ok(plain) => Some(plain.to_vec()),
        Err(_) => None,
    }
}

/// The marker as bytes.
fn magic_vec() -> (r: Vec<u8>)
    ensures
        r@ == local_data_magic(),
{
    let mut v: Vec<u8> = Vec::new();
    v.push(0x43u8);
    v.push(0x4cu8);
    v.push(0x4bu8);
    v.push(0x53u8);
    v.push(0x45u8);
    v.push(0x41u8);
    v.push(0x4cu8);
    v.push(0x31u8);
    proof {
        assert(v@ =~= local_data_magic());
    }
    v
}

/// Whether bytes have the shape of a sealed payload.
pub fn is_sealed_payload(bytes: &[u8]) -> (r: bool)
    ensures
        r == is_sealed_spec(bytes@),
{
    let magic = magic_vec();
    starts_with_bytes(bytes, magic.as_slice()) && bytes.len() > MAGIC_BYTES + NONCE_BYTES
}

/// Encrypts and decrypts data at rest under a 32-byte master key.
#[derive(Debug)]
pub struct LocalDataCipher {
    key: Vec<u8>,
}

impl LocalDataCipher {
    #[verifier::type_invariant]
    spec fn key_len_ok(self) -> bool {
        self.key@.len() == LOCAL_DATA_KEY_BYTES
    }

    /// The master key.
    pub closed spec fn key_bytes(self) -> Seq<u8> {
        self.key@
    }

    /// A cipher over exactly these key bytes.
    pub fn from_bytes(bytes: [u8; 32]) -> (r: Self)
        ensures
            r.key_bytes() == bytes@,
    {
        let mut key: Vec<u8> = Vec::new();
        let mut i: usize = 0;
        while i < 32
            invariant
                i <= 32,
                bytes@.len() == 32,
                key@ == bytes@.take(i as int),
            decreases 32 - i,
        {
            key.push(bytes[i]);
            proof {
                assert(bytes@.take(i + 1) =~= bytes@.take(i as int).push(bytes@[i as int]));
            }
            i = i + 1;
        }
        proof {
            assert(bytes@.take(32) =~= bytes@);
        }
        LocalDataCipher { key }
    }

    /// A cipher over the given key bytes, which must be exactly 32.
    pub fn from_slice(bytes: &[u8]) -> (r: AppResult<Self>)
        ensures
            match r {
                Ok(c) => bytes@.len() == LOCAL_DATA_KEY_BYTES && c.key_bytes() == bytes@,
                Err(e) => bytes@.len() != LOCAL_DATA_KEY_BYTES
                    && e.is_crypto("Local data key must be exactly 32 bytes."@),
            },
    {
        if bytes.len() != LOCAL_DATA_KEY_BYTES {
            return Err(crypto_error("Local data key must be exactly 32 bytes."));
        }
        let key = copy_range(bytes, 0, bytes.len());
        proof {
            assert(key@ =~= bytes@);
        }
        Ok(LocalDataCipher { key })
    }

    /// Seals `plaintext` for `purpose` under a fresh random nonce. What comes
    /// out opens, under the same key and purpose, to the plaintext. It fails
    /// only when the system generator yields no nonce, or when the plaintext
    /// exceeds the cipher's per-nonce limit.
    pub fn seal(&self, purpose: &[u8], plaintext: &[u8]) -> (r: AppResult<Vec<u8>>)
        ensures
            match r {
                Ok(s) => {
                    &&& is_sealed_spec(s@)
                    &&& s@.len() == MAGIC_BYTES + NONCE_BYTES + plaintext@.len() + TAG_BYTES
                    &&& sealed_ciphertext(s@) == chacha_sealed(
                        self.key_bytes(),
                        sealed_nonce(s@),
                        purpose@,
                        plaintext@,
                    )
                    &&& open_spec(self.key_bytes(), purpose@, s@) == Some(plaintext@)
                },
                Err(e) => e.is_crypto("Failed to generate a local data nonce."@) || (e.is_crypto(
                    "Failed to encrypt local data."@,
                ) && plaintext@.len() > CHACHA_MAX_INPUT_BYTES),
            },
    {
        proof {
            use_type_invariant(self);
        }
        let nonce = match random_bytes(NONCE_BYTES) {
            Some(n) => n,
            None => {
                return Err(crypto_error("Failed to generate a local data nonce."));
            },
        };
        let ct = match chacha_seal(self.key.as_slice(), nonce.as_slice(), purpose, plaintext) {
            Some(c) => c,
            None => {
                return Err(crypto_error("Failed to encrypt local data."));
            },
        };
        let mut sealed = magic_vec();
        append_bytes(&mut sealed, nonce.as_slice());
        append_bytes(&mut sealed, ct.as_slice());
        proof {
            let s = sealed@;
            assert(s.take(MAGIC_BYTES as int) =~= local_data_magic());
            assert(sealed_nonce(s) =~= nonce@);
            assert(sealed_ciphertext(s) =~= ct@);
        }
        Ok(sealed)
    }

    /// Opens a payload sealed for `purpose`.
    pub fn open(&self, purpose: &[u8], sealed: &[u8]) -> (r: AppResult<Vec<u8>>)
        ensures
            match r {
                Ok(p) => open_spec(self.key_bytes(), purpose@, sealed@) == Some(p@),
                Err(e) => {
                    &&& open_spec(self.key_bytes(), purpose@, sealed@) is None
                    &&& if is_sealed_spec(sealed@) {
                        e.is_crypto("Failed to decrypt local data."@)
                    } else {
                        e.is_crypto("Local data payload is not sealed."@)
                    }
                },
            },
    {
        proof {
            use_type_invariant(self);
        }
        if !is_sealed_payload(sealed) {
            return Err(crypto_error("Local data payload is not sealed."));
        }
        let nonce = copy_range(sealed, MAGIC_BYTES, MAGIC_BYTES + NONCE_BYTES);
        let ct = copy_range(sealed, MAGIC_BYTES + NONCE_BYTES, sealed.len());
        proof {
            assert(ct@ =~= sealed_ciphertext(sealed@));
        }
        match chacha_open(self.key.as_slice(), nonce.as_slice(), purpose, ct.as_slice()) {
            Some(p) => Ok(p),
            None => Err(crypto_error("Failed to decrypt local data.")),
        }
    }
}

impl Clone for LocalDataCipher {
    fn clone(&self) -> (r: Self)
        ensures
            r.key_bytes() == self.key_bytes(),
    {
        proof {
            use_type_invariant(self);
        }
        let key = copy_range(self.key.as_slice(), 0, self.key.len());
        proof {
            assert(key@ =~= self.key@);
        }
        LocalDataCipher { key }
    }
}

} // verus!
