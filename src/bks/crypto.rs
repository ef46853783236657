//! The digest primitives the keystore relies on, as provided by the
//! `sha1`, `hmac` and `digest` crates.

use vstd::prelude::*;

use digest::core_api::BlockSizeUser;
use digest::Digest;
use hmac::{Hmac, Mac};
use sha1::Sha1;

verus! {

/// The SHA-1 digest of a byte string.
pub uninterp spec fn sha1_of(data: Seq<u8>) -> Seq<u8>;

/// The HMAC-SHA1 tag of `msg` under `key`.
pub uninterp spec fn hmac_sha1_of(key: Seq<u8>, msg: Seq<u8>) -> Seq<u8>;

/// Relies on `<Sha1 as Digest>::output_size`: SHA-1 produces 20 bytes.
#[verifier::external_body]
pub(crate) fn sha1_output_size() -> (r: usize)
    ensures
        r == 20,
{
    <Sha1 as Digest>::output_size()
}

/// Relies on `<Sha1 as BlockSizeUser>::block_size`: SHA-1 works on 64-byte blocks.
#[verifier::external_body]
pub(crate) fn sha1_block_size() -> (r: usize)
    ensures
        r == 64,
{
    <Sha1 as BlockSizeUser>::block_size()
}

/// Relies on `Sha1::digest`: the 20-byte SHA-1 digest of `data`.
#[verifier::external_body]
pub(crate) fn sha1_digest(data: &[u8]) -> (r: Vec<u8>)
    ensures
        r@ == sha1_of(data@),
        r@.len() == 20,
{
    Sha1::digest(data).to_vec()
}

/// Relies on `Hmac::<Sha1>` (`new_from_slice`, which accepts a key of any
/// length, then `chain_update` and `finalize`): the 20-byte HMAC-SHA1 tag
/// of `msg` under `key`.
#[verifier::external_body]
pub(crate) fn hmac_sha1(key: &[u8], msg: &[u8]) -> (r: Option<Vec<u8>>)
    ensures
        r is Some,
        r matches Some(t) ==> t@ == hmac_sha1_of(key@, msg@) && t@.len() == 20,
{
    Hmac::<Sha1>::new_from_slice(key).ok().map(|m| m.chain_update(msg).finalize().into_bytes().to_vec())
}

} // verus!
