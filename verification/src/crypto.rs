use vstd::prelude::*;
use vstd::utf8::{decode_utf8, encode_utf8, encode_utf8_decode_utf8, encode_utf8_valid_utf8,
    valid_utf8};
use crate::errors::CryptoError;

verus! {

/// Length in bytes of the nonce that prefixes every ciphertext blob.
pub const NONCE_LEN: usize = 24;

/// Length in bytes of the device key.
pub const KEY_LEN: usize = 32;

/// Number of bytes the authentication tag adds to a plaintext.
pub const MAC_LEN: usize = 16;

/// The plaintext that a ciphertext opens to under a key and nonce via
/// authenticated decryption, or `None` where authentication fails.
pub uninterp spec fn opened(key: Seq<u8>, nonce: Seq<u8>, ct: Seq<u8>) -> Option<Seq<u8>>;

/// Relies on sodiumoxide's `secretbox::gen_nonce`: a random nonce of
/// `NONCE_LEN` bytes. Nothing more can be promised of a random value.
#[verifier::external_body]
fn gen_nonce_bytes() -> (r: Vec<u8>)
    ensures
        r@.len() == NONCE_LEN,
{
    sodiumoxide::crypto::secretbox::gen_nonce().0.to_vec()
}

/// Relies on sodiumoxide's `secretbox::seal`: the ciphertext authenticates
/// and decrypts back to the message under the same key and nonce, and is
/// `MAC_LEN` bytes longer than the message.
#[verifier::external_body]
fn seal_bytes(m: &[u8], nonce: &Vec<u8>, key: &Vec<u8>) -> (r: Vec<u8>)
    requires
        nonce@.len() == NONCE_LEN,
        key@.len() == KEY_LEN,
    ensures
        opened(key@, nonce@, r@) == Some(m@),
        r@.len() == m@.len() + MAC_LEN,
{
    let n = sodiumoxide::crypto::secretbox::Nonce::from_slice(nonce.as_slice()).unwrap();
    let k = sodiumoxide::crypto::secretbox::Key::from_slice(key.as_slice()).unwrap();
    sodiumoxide::crypto::secretbox::seal(m, &n, &k)
}

/// Relies on sodiumoxide's `secretbox::open`: it verifies and decrypts a
/// ciphertext, returning the plaintext, and fails exactly when the
/// ciphertext does not authenticate under the key and nonce.
#[verifier::external_body]
fn open_bytes(ct: &[u8], nonce: &Vec<u8>, key: &Vec<u8>) -> (r: Result<Vec<u8>, ()>)
    requires
        nonce@.len() == NONCE_LEN,
        key@.len() == KEY_LEN,
    ensures
        r is Ok <==> opened(key@, nonce@, ct@) is Some,
        r is Ok ==> r.unwrap()@ == opened(key@, nonce@, ct@).unwrap(),
{
    let n = sodiumoxide::crypto::secretbox::Nonce::from_slice(nonce.as_slice()).unwrap();
    let k = sodiumoxide::crypto::secretbox::Key::from_slice(key.as_slice()).unwrap();
    sodiumoxide::crypto::secretbox::open(ct, &n, &k)
}

/// Relies on std's `String::from_utf8`: it returns the string whose UTF-8
/// encoding is the input, and an error exactly when the input is not valid
/// UTF-8.
#[verifier::external_body]
fn string_from_utf8(bytes: Vec<u8>) -> (r: Result<String, ()>)
    ensures
        r is Ok <==> valid_utf8(bytes@),
        r is Ok ==> r.unwrap()@ == decode_utf8(bytes@),
{
    String::from_utf8(bytes).map_err(|_| ())
}

/// What decrypting a blob under a key yields: the blob must be long enough to
/// hold a nonce, its remainder must authenticate under the key and that
/// nonce, and the plaintext must be valid UTF-8; each check failing closed
/// with its own error.
pub open spec fn decrypt_spec(key: Seq<u8>, blob: Seq<u8>) -> Result<Seq<char>, CryptoError> {
    if blob.len() < NONCE_LEN {
        Err(CryptoError::Malformed)
    } else {
        match opened(key, blob.take(NONCE_LEN as int), blob.skip(NONCE_LEN as int)) {
            Some(m) => if valid_utf8(m) {
                Ok(decode_utf8(m))
            } else {
                Err(CryptoError::InvalidEncoding)
            },
            None => Err(CryptoError::AuthenticationFailed),
        }
    }
}

/// Encrypt a project name under the device key: a fresh random nonce is
/// generated and the blob `nonce ++ ciphertext` is returned.
///
/// The postcondition is the round-trip law: decrypting the returned blob
/// under the same key yields exactly the input name.
pub fn encrypt(key: &Vec<u8>, name: &str) -> (r: Vec<u8>)
    requires
        key@.len() == KEY_LEN,
    ensures
        decrypt_spec(key@, r@) == Ok::<Seq<char>, CryptoError>(name@),
        r@.len() >= NONCE_LEN,
{
    let nonce = gen_nonce_bytes();
    let mut ct = seal_bytes(name.as_bytes(), &nonce, key);
    let mut blob = nonce;
    let ghost nonce_view = blob@;
    let ghost ct_view = ct@;
    blob.append(&mut ct);
    proof {
        assert(blob@.take(NONCE_LEN as int) =~= nonce_view);
        assert(blob@.skip(NONCE_LEN as int) =~= ct_view);
        encode_utf8_valid_utf8(name@);
        encode_utf8_decode_utf8(name@);
    }
    blob
}

/// Decrypt a ciphertext blob under the device key, failing closed.
///
/// The result is exactly `decrypt_spec`: `Malformed` where the blob is
/// shorter than the nonce, `AuthenticationFailed` where the ciphertext does
/// not authenticate (tampering, wrong key, truncation), `InvalidEncoding`
/// where the plaintext is not UTF-8, and the decrypted name otherwise.
pub fn decrypt(key: &Vec<u8>, blob: &[u8]) -> (r: Result<String, CryptoError>)
    requires
        key@.len() == KEY_LEN,
    ensures
        r is Ok <==> decrypt_spec(key@, blob@) is Ok,
        r is Ok ==> r.unwrap()@ == decrypt_spec(key@, blob@)->Ok_0,
        r is Err ==> r->Err_0 == decrypt_spec(key@, blob@)->Err_0,
{
    if blob.len() < NONCE_LEN {
        return Err(CryptoError::Malformed);
    }
    let (nonce_part, ct_part) = blob.split_at(NONCE_LEN);
    let nonce = vstd::slice::slice_to_vec(nonce_part);
    match open_bytes(ct_part, &nonce, key) {
        Ok(plain) => match string_from_utf8(plain) {
            Ok(name) => Ok(name),
            Err(_) => Err(CryptoError::InvalidEncoding),
        },
        Err(_) => Err(CryptoError::AuthenticationFailed),
    }
}

} // verus!
