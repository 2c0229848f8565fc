//! Sealing bytes for storage.
//!
//! A sealed blob is a random nonce of twelve bytes and the ChaCha20-Poly1305
//! encryption of the plaintext under it. Opening it fails for another key and
//! for a blob that was changed.

use crate::bytes::push_all;
use chacha20poly1305::aead::{Aead, KeyInit};
use chacha20poly1305::{ChaCha20Poly1305, Key, Nonce};
use rand::RngCore;
use vstd::prelude::*;

verus! {

broadcast use vstd::string::group_string_axioms;

/// How many bytes a nonce has.
pub const NONCE_LEN: usize = 12;

/// How many bytes an authentication tag has.
pub const TAG_LEN: usize = 16;

/// How many bytes can be encrypted under one nonce: the key stream has two
/// to the power of 32 blocks of 64 bytes, of which two are set aside.
pub const LONGEST_PLAINTEXT: u64 = 274_877_906_816;

/// Why a blob could not be opened.
#[derive(Debug, PartialEq, Eq, Structural, Clone, Copy)]
pub enum CryptoError {
    /// The key is wrong or the blob was changed.
    Decrypt,
    /// The blob is too short to hold a nonce.
    TooShort,
}

/// The message for an error.
pub open spec fn error_text(e: CryptoError) -> Seq<char> {
    match e {
        CryptoError::Decrypt => "decrypt failed (wrong key or tampered data)"@,
        CryptoError::TooShort => "sealed blob too short"@,
    }
}

/// Each message says why a blob could not be opened.
pub proof fn errors_say_why()
    ensures
        error_text(CryptoError::Decrypt) == "decrypt failed (wrong key or tampered data)"@,
        error_text(CryptoError::TooShort) == "sealed blob too short"@,
{
}

impl CryptoError {
    /// The message for this error.
    pub fn message(&self) -> (r: String)
        ensures
            r@ == error_text(*self),
    {
        match self {
            CryptoError::Decrypt => "decrypt failed (wrong key or tampered data)".to_string(),
            CryptoError::TooShort => "sealed blob too short".to_string(),
        }
    }
}

// ---------------------------------------------------------------------
// Trusted items
// ---------------------------------------------------------------------

/// The name for the ChaCha20-Poly1305 encryption of `plaintext`, with the tag
/// behind it.
pub uninterp spec fn encrypted(key: Seq<u8>, nonce: Seq<u8>, plaintext: Seq<u8>) -> Seq<u8>;

/// The name for the plaintext that ChaCha20-Poly1305 decryption gives, if the
/// tag is right.
pub uninterp spec fn decrypted(key: Seq<u8>, nonce: Seq<u8>, ciphertext: Seq<u8>) -> Option<
    Seq<u8>,
>;

/// Calls `ChaCha20Poly1305::encrypt` without associated data. The contract
/// claims that the result is a function of key, nonce and plaintext, is
/// longer than the plaintext by the tag, and decrypts to the plaintext under
/// the same key and nonce. The call fails only for plaintexts that are too
/// long, which are left out.
#[verifier::external_body]
fn encrypt(key: &[u8; 32], nonce: &Vec<u8>, plaintext: &Vec<u8>) -> (r: Vec<u8>)
    requires
        nonce@.len() == NONCE_LEN,
        plaintext@.len() <= LONGEST_PLAINTEXT,
    ensures
        r@ == encrypted(key@, nonce@, plaintext@),
        r@.len() == plaintext@.len() + TAG_LEN,
        decrypted(key@, nonce@, r@) == Some(plaintext@),
{
    let cipher = ChaCha20Poly1305::new(Key::from_slice(key));
    cipher.encrypt(Nonce::from_slice(nonce.as_slice()), plaintext.as_slice()).unwrap()
}

/// Calls `ChaCha20Poly1305::decrypt` without associated data. The contract
/// claims that the result is a function of key, nonce and ciphertext, that a
/// ciphertext without room for a tag is refused, and that a plaintext is
/// shorter than its ciphertext by the tag. Which other ciphertexts are
/// refused is left to the name.
#[verifier::external_body]
fn decrypt(key: &[u8; 32], nonce: &Vec<u8>, ciphertext: &Vec<u8>) -> (r: Option<Vec<u8>>)
    requires
        nonce@.len() == NONCE_LEN,
        ciphertext@.len() <= LONGEST_PLAINTEXT + TAG_LEN,
    ensures
        match r {
            Some(p) => decrypted(key@, nonce@, ciphertext@) == Some(p@) && p@.len() + TAG_LEN
                == ciphertext@.len(),
            None => decrypted(key@, nonce@, ciphertext@) is None,
        },
{
    let cipher = ChaCha20Poly1305::new(Key::from_slice(key));
    cipher.decrypt(Nonce::from_slice(nonce.as_slice()), ciphertext.as_slice()).ok()
}

/// Fills twelve bytes with `rand::rng().fill_bytes`. The contract claims only
/// their number.
#[verifier::external_body]
fn fresh_nonce() -> (r: Vec<u8>)
    ensures
        r@.len() == NONCE_LEN,
{
    let mut nonce = [0u8; NONCE_LEN];
    rand::rng().fill_bytes(&mut nonce);
    nonce.to_vec()
}

// ---------------------------------------------------------------------
// Sealing and opening
// ---------------------------------------------------------------------

/// The blob for a plaintext under a nonce.
pub open spec fn sealed_with(key: Seq<u8>, nonce: Seq<u8>, plaintext: Seq<u8>) -> Seq<u8> {
    nonce + encrypted(key, nonce, plaintext)
}

/// What opening a blob gives.
pub open spec fn opened(sealed: Seq<u8>, key: Seq<u8>) -> Result<Seq<u8>, CryptoError> {
    if sealed.len() < NONCE_LEN {
        Err(CryptoError::TooShort)
    } else if sealed.len() > NONCE_LEN + LONGEST_PLAINTEXT + TAG_LEN {
        Err(CryptoError::Decrypt)
    } else {
        match decrypted(key, sealed.take(NONCE_LEN as int), sealed.skip(NONCE_LEN as int)) {
            Some(p) => Ok(p),
            None => Err(CryptoError::Decrypt),
        }
    }
}

/// A sealed blob begins with the twelve bytes of its nonce, and what follows is
/// encrypted under them. Opening takes the first twelve bytes for the nonce and
/// decrypts what follows: fewer are too short.
pub proof fn a_blob_begins_with_its_nonce(key: Seq<u8>, nonce: Seq<u8>, plaintext: Seq<u8>)
    requires
        nonce.len() == 12,
    ensures
        sealed_with(key, nonce, plaintext).take(12) == nonce,
        sealed_with(key, nonce, plaintext).skip(12) == encrypted(key, nonce, plaintext),
        forall|blob: Seq<u8>|
            blob.len() < 12 <==> #[trigger] opened(blob, key) == Err::<Seq<u8>, CryptoError>(
                CryptoError::TooShort,
            ),
        forall|blob: Seq<u8>|
            #[trigger] opened(blob, key) matches Ok(p) ==> decrypted(
                key,
                blob.take(12),
                blob.skip(12),
            ) == Some(p),
        forall|blob: Seq<u8>|
            12 <= blob.len() && decrypted(key, blob.take(12), blob.skip(12)) is None
                ==> #[trigger] opened(blob, key) == Err::<Seq<u8>, CryptoError>(
                CryptoError::Decrypt,
            ),
{
    assert(sealed_with(key, nonce, plaintext).take(12) =~= nonce);
    assert(sealed_with(key, nonce, plaintext).skip(12) =~= encrypted(key, nonce, plaintext));
}

/// Seals a plaintext under a given nonce.
pub fn seal_with_nonce(plaintext: &Vec<u8>, key: &[u8; 32], nonce: &Vec<u8>) -> (r: Vec<u8>)
    requires
        nonce@.len() == NONCE_LEN,
        plaintext@.len() <= LONGEST_PLAINTEXT,
    ensures
        r@ == sealed_with(key@, nonce@, plaintext@),
        r@.len() == NONCE_LEN + plaintext@.len() + TAG_LEN,
        opened(r@, key@) == Ok::<Seq<u8>, CryptoError>(plaintext@),
{
    let ct = encrypt(key, nonce, plaintext);
    let mut out: Vec<u8> = Vec::new();
    push_all(&mut out, nonce);
    push_all(&mut out, &ct);
    assert(out@ =~= nonce@ + ct@);
    assert(out@.take(NONCE_LEN as int) =~= nonce@);
    assert(out@.skip(NONCE_LEN as int) =~= ct@);
    out
}

/// Seals a plaintext under a fresh random nonce. Opening the blob with the
/// same key gives the plaintext back.
pub fn seal(plaintext: &Vec<u8>, key: &[u8; 32]) -> (r: Vec<u8>)
    requires
        plaintext@.len() <= LONGEST_PLAINTEXT,
    ensures
        r@.len() == NONCE_LEN + plaintext@.len() + TAG_LEN,
        r@ == sealed_with(key@, r@.take(NONCE_LEN as int), plaintext@),
        opened(r@, key@) == Ok::<Seq<u8>, CryptoError>(plaintext@),
{
    let nonce = fresh_nonce();
    let out = seal_with_nonce(plaintext, key, &nonce);
    assert(out@.take(NONCE_LEN as int) =~= nonce@);
    out
}

/// Opens a sealed blob. One without room for a nonce is too short; one without
/// room for a tag behind the nonce does not decrypt.
pub fn open(sealed: &Vec<u8>, key: &[u8; 32]) -> (r: Result<Vec<u8>, CryptoError>)
    ensures
        r is Ok ==> r->Ok_0@.len() + NONCE_LEN + TAG_LEN == sealed@.len(),
        r == Err::<Vec<u8>, CryptoError>(CryptoError::TooShort) <==> sealed@.len() < NONCE_LEN,
        NONCE_LEN <= sealed@.len() < NONCE_LEN + TAG_LEN ==> r == Err::<Vec<u8>, CryptoError>(
            CryptoError::Decrypt,
        ),
        match r {
            Ok(p) => opened(sealed@, key@) == Ok::<Seq<u8>, CryptoError>(p@),
            Err(e) => opened(sealed@, key@) == Err::<Seq<u8>, CryptoError>(e),
        },
{
    if sealed.len() < NONCE_LEN {
        return Err(CryptoError::TooShort);
    }
    if sealed.len() as u64 - NONCE_LEN as u64 > LONGEST_PLAINTEXT + TAG_LEN as u64 {
        return Err(CryptoError::Decrypt);
    }
    let mut nonce: Vec<u8> = Vec::new();
    let mut ct: Vec<u8> = Vec::new();
    let mut i: usize = 0;
    while i < sealed.len()
        invariant
            i <= sealed@.len(),
            NONCE_LEN <= sealed@.len(),
            i <= NONCE_LEN ==> nonce@ == sealed@.take(i as int) && ct@.len() == 0,
            i >= NONCE_LEN ==> nonce@ == sealed@.take(NONCE_LEN as int) && ct@ == sealed@.subrange(
                NONCE_LEN as int,
                i as int,
            ),
        decreases sealed@.len() - i,
    {
        if i < NONCE_LEN {
            nonce.push(sealed[i]);
            assert(nonce@ =~= sealed@.take(i + 1));
            assert(ct@ =~= sealed@.subrange(NONCE_LEN as int, NONCE_LEN as int));
        } else {
            ct.push(sealed[i]);
            assert(ct@ =~= sealed@.subrange(NONCE_LEN as int, i + 1));
        }
        i += 1;
    }
    assert(ct@ =~= sealed@.skip(NONCE_LEN as int));
    match decrypt(key, &nonce, &ct) {
        Some(p) => Ok(p),
        None => Err(CryptoError::Decrypt),
    }
}

} // verus!
