//! The ways a keystore load can fail.

use vstd::prelude::*;

verus! {

/// A keystore load failed; the first failure aborts the whole load.
#[derive(Debug)]
pub enum BksError {
    /// The input ended before a field it declares.
    IoError(ShortRead),
    /// Structurally invalid content.
    FormatError(BksFormatError),
    /// The content decoded but its trailing digest does not match.
    SignatureError(KeystoreSignatureError),
}

/// A read of `needed` bytes found only `available` bytes left.
#[derive(Debug, Clone, Copy, PartialEq, Eq)]
pub struct ShortRead {
    pub needed: usize,
    pub available: usize,
}

/// Structurally invalid keystore content, with a description of the cause.
#[derive(Debug)]
pub struct BksFormatError {
    pub cause: String,
}

impl BksFormatError {
    pub fn new(cause: String) -> (r: BksFormatError)
        ensures
            r.cause@ == cause@,
    {
        BksFormatError { cause }
    }
}

/// The digest stored at the end of a keystore (`expected`) differs from
/// the one computed over its entry table (`signature`).
#[derive(Debug)]
pub struct KeystoreSignatureError {
    pub signature: Vec<u8>,
    pub expected: Vec<u8>,
}

impl KeystoreSignatureError {
    pub fn new(expected: Vec<u8>, signature: Vec<u8>) -> (r: Self)
        ensures
            r.expected@ == expected@,
            r.signature@ == signature@,
    {
        Self { expected, signature }
    }
}

} // verus!
