use vstd::prelude::*;

verus! {

/// Failure of authenticated decryption of a cached project name.
///
/// The store fails closed: none of these variants ever comes with partial
/// plaintext.
#[derive(Clone, Copy, Debug, PartialEq, Eq, Structural)]
pub enum CryptoError {
    /// The blob is shorter than the nonce that must prefix it, so it cannot
    /// even be split into nonce and ciphertext.
    Malformed,
    /// The ciphertext failed authentication: it was tampered with, truncated,
    /// or sealed under a different key.
    AuthenticationFailed,
    /// Decryption succeeded but the plaintext is not valid UTF-8.
    InvalidEncoding,
}

/// Failure of a store operation.
#[derive(Clone, Copy, Debug, PartialEq, Eq, Structural)]
pub enum StoreError {
    /// The configuration document is not well-formed JSON of the expected
    /// shape.
    Parse,
    /// The OS secret store is unavailable, denied access, or an entry
    /// operation failed.
    Keyring,
    /// Encryption or decryption of a cached project name failed.
    Crypto(CryptoError),
    /// The named organization or project is absent.
    NotFound,
}

} // verus!
