//! The keystore's byte layout as a mathematical model: what a byte string
//! decodes to, or the first failure it runs into.
//!
//! ```text
//! header:  u32 version (1 or 2), u32 salt length ++ salt, u32 iteration count
//! entry*:  u8 tag (0 ends the table), u16 alias length ++ UTF-8 alias,
//!          u64 timestamp, u32 chain length ++ that many certificates,
//!          the payload that the tag selects
//! trailer: 20-byte HMAC-SHA1 over the entry table, terminator included
//! ```

use vstd::prelude::*;
use vstd::utf8::{decode_utf8, valid_utf8};

use super::bytes::be;
use super::crypto::hmac_sha1_of;
use super::errors::BksError;
use super::kdf::{derive_spec, MAC_KEY_PURPOSE};

verus! {

/// Length in bytes of the trailing digest and of the key that it is made with.
pub const DIGEST_LEN: usize = 20;

/// A certificate: its type label and its encoded bytes.
pub struct CertModel {
    pub cert_type: Seq<char>,
    pub data: Seq<u8>,
}

/// What an entry holds, by kind.
pub enum ValueModel {
    Cert(CertModel),
    Key { key_type: u8, format: Seq<char>, algorithm: Seq<char>, encoded: Seq<u8> },
    Secret(Seq<u8>),
    Sealed(Seq<u8>),
}

/// One aliased entry.
pub struct EntryModel {
    pub alias: Seq<char>,
    pub timestamp: u64,
    pub chain: Seq<CertModel>,
    pub value: ValueModel,
}

/// A loaded keystore: its format version and its entries by alias.
pub struct StoreModel {
    pub version: u32,
    pub store_type: Seq<char>,
    pub entries: Map<Seq<char>, EntryModel>,
}

/// The first thing that keeps a byte string from decoding.
pub enum Fail {
    /// A read of `needed` bytes found `available` left.
    ShortRead { needed: nat, available: nat },
    UnsupportedVersion(u32),
    UnknownTag(u8),
    InvalidUtf8,
    /// The stored trailing digest differs from the computed one.
    BadSignature { stored: Seq<u8>, computed: Seq<u8> },
}

/// The description a format error carries for each structural failure.
pub open spec fn format_cause(f: Fail) -> Seq<char> {
    match f {
        Fail::UnsupportedVersion(_) => "only keystore versions 1 and 2 are supported"@,
        Fail::UnknownTag(_) => "unknown entry type"@,
        _ => "invalid UTF-8 in a text field"@,
    }
}

/// `e` is the error value that reports `f`.
pub open spec fn error_matches(e: BksError, f: Fail) -> bool {
    match f {
        Fail::ShortRead { needed, available } => e matches BksError::IoError(s) && s.needed
            == needed && s.available == available,
        Fail::BadSignature { stored, computed } => e matches BksError::SignatureError(s)
            && s.expected@ == stored && s.signature@ == computed,
        _ => e matches BksError::FormatError(fe) && fe.cause@ == format_cause(f),
    }
}

/// The `n` bytes at `p`, and the position after them.
pub open spec fn take(d: Seq<u8>, p: int, n: nat) -> Result<(Seq<u8>, int), Fail> {
    if 0 <= p && p + n <= d.len() {
        Ok((d.subrange(p, p + n), p + n))
    } else {
        Err(Fail::ShortRead { needed: n, available: (d.len() - p) as nat })
    }
}

/// The big-endian unsigned number of `n` bytes at `p`.
pub open spec fn uint_at(d: Seq<u8>, p: int, n: nat) -> Result<(nat, int), Fail> {
    match take(d, p, n) {
        Ok((b, q)) => Ok((be(b), q)),
        Err(f) => Err(f),
    }
}

/// The bytes at `p` whose length the `w`-byte big-endian number before
/// them gives.
pub open spec fn blob_at(d: Seq<u8>, p: int, w: nat) -> Result<(Seq<u8>, int), Fail> {
    match uint_at(d, p, w) {
        Ok((n, q)) => take(d, q, n),
        Err(f) => Err(f),
    }
}

/// The UTF-8 text at `p`, prefixed by its 2-byte length.
pub open spec fn text_at(d: Seq<u8>, p: int) -> Result<(Seq<char>, int), Fail> {
    match blob_at(d, p, 2) {
        Ok((b, q)) => if valid_utf8(b) {
            Ok((decode_utf8(b), q))
        } else {
            Err(Fail::InvalidUtf8)
        },
        Err(f) => Err(f),
    }
}

/// A certificate: its type text, then its 4-byte-length-prefixed data.
pub open spec fn cert_at(d: Seq<u8>, p: int) -> Result<(CertModel, int), Fail> {
    match text_at(d, p) {
        Ok((t, q)) => match blob_at(d, q, 4) {
            Ok((b, r)) => Ok((CertModel { cert_type: t, data: b }, r)),
            Err(f) => Err(f),
        },
        Err(f) => Err(f),
    }
}

/// `n` certificates one after another.
pub open spec fn chain_at(d: Seq<u8>, p: int, n: nat) -> Result<(Seq<CertModel>, int), Fail>
    decreases n,
{
    if n == 0 {
        Ok((Seq::empty(), p))
    } else {
        match chain_at(d, p, (n - 1) as nat) {
            Ok((cs, q)) => match cert_at(d, q) {
                Ok((c, r)) => Ok((cs.push(c), r)),
                Err(f) => Err(f),
            },
            Err(f) => Err(f),
        }
    }
}

/// A key: type byte, format text, algorithm text, encoded key data.
pub open spec fn key_at(d: Seq<u8>, p: int) -> Result<(ValueModel, int), Fail> {
    match uint_at(d, p, 1) {
        Ok((kt, q1)) => match text_at(d, q1) {
            Ok((fmt, q2)) => match text_at(d, q2) {
                Ok((alg, q3)) => match blob_at(d, q3, 4) {
                    Ok((enc, q4)) => Ok(
                        (
                            ValueModel::Key {
                                key_type: kt as u8,
                                format: fmt,
                                algorithm: alg,
                                encoded: enc,
                            },
                            q4,
                        ),
                    ),
                    Err(f) => Err(f),
                },
                Err(f) => Err(f),
            },
            Err(f) => Err(f),
        },
        Err(f) => Err(f),
    }
}

/// The payload that `tag` selects.
pub open spec fn value_at(d: Seq<u8>, p: int, tag: u8) -> Result<(ValueModel, int), Fail> {
    if tag == 1 {
        match cert_at(d, p) {
            Ok((c, q)) => Ok((ValueModel::Cert(c), q)),
            Err(f) => Err(f),
        }
    } else if tag == 2 {
        key_at(d, p)
    } else if tag == 3 {
        match blob_at(d, p, 4) {
            Ok((b, q)) => Ok((ValueModel::Secret(b), q)),
            Err(f) => Err(f),
        }
    } else if tag == 4 {
        match blob_at(d, p, 4) {
            Ok((b, q)) => Ok((ValueModel::Sealed(b), q)),
            Err(f) => Err(f),
        }
    } else {
        Err(Fail::UnknownTag(tag))
    }
}

/// An entry after its tag: alias, timestamp, certificate chain, payload.
pub open spec fn entry_at(d: Seq<u8>, p: int, tag: u8) -> Result<(EntryModel, int), Fail> {
    match text_at(d, p) {
        Ok((alias, q1)) => match uint_at(d, q1, 8) {
            Ok((ts, q2)) => match uint_at(d, q2, 4) {
                Ok((n, q3)) => match chain_at(d, q3, n) {
                    Ok((chain, q4)) => match value_at(d, q4, tag) {
                        Ok((value, q5)) => Ok(
                            (EntryModel { alias, timestamp: ts as u64, chain, value }, q5),
                        ),
                        Err(f) => Err(f),
                    },
                    Err(f) => Err(f),
                },
                Err(f) => Err(f),
            },
            Err(f) => Err(f),
        },
        Err(f) => Err(f),
    }
}

/// A tag byte that opens an entry.
pub open spec fn is_entry_tag(t: nat) -> bool {
    1 <= t <= 4
}

/// The entries from `p` on, in order, and the position after the
/// terminating tag. Input that ends where a tag is due is a short read,
/// like any other field cut short, so that every truncation of a store
/// fails the same way; it is never taken as the end of the table. Every
/// entry takes at least one byte, so the guard on the position always
/// holds (see `lemma_entry_advances`).
pub open spec fn entries_from(d: Seq<u8>, p: int) -> Result<(Seq<EntryModel>, int), Fail>
    decreases d.len() - p,
{
    match uint_at(d, p, 1) {
        Ok((t, q)) => if t == 0 {
            Ok((Seq::empty(), q))
        } else if !is_entry_tag(t) {
            Err(Fail::UnknownTag(t as u8))
        } else {
            match entry_at(d, q, t as u8) {
                Ok((e, r)) => if p < r <= d.len() {
                    match entries_from(d, r) {
                        Ok((es, z)) => Ok((seq![e] + es, z)),
                        Err(f) => Err(f),
                    }
                } else {
                    Err(Fail::ShortRead { needed: 1, available: 0 })
                },
                Err(f) => Err(f),
            }
        },
        Err(f) => Err(f),
    }
}

/// The entries by alias; of two entries with one alias the later stays.
pub open spec fn entries_map(es: Seq<EntryModel>) -> Map<Seq<char>, EntryModel>
    decreases es.len(),
{
    if es.len() == 0 {
        Map::empty()
    } else {
        entries_map(es.drop_last()).insert(es.last().alias, es.last())
    }
}

/// The key that authenticates the entry table.
pub open spec fn mac_key_spec(password: Seq<char>, salt: Seq<u8>, iterations: u32) -> Seq<u8> {
    derive_spec(MAC_KEY_PURPOSE, password, salt, iterations, DIGEST_LEN as u32)
}

/// What loading `d` with `password` gives.
pub open spec fn load_spec(d: Seq<u8>, password: Seq<char>) -> Result<StoreModel, Fail> {
    match uint_at(d, 0, 4) {
        Ok((version, p1)) => if version != 1 && version != 2 {
            Err(Fail::UnsupportedVersion(version as u32))
        } else {
            match blob_at(d, p1, 4) {
                Ok((salt, p2)) => match uint_at(d, p2, 4) {
                    Ok((iterations, p3)) => match entries_from(d, p3) {
                        Ok((es, p4)) => match take(d, p4, DIGEST_LEN as nat) {
                            Ok((stored, _)) => {
                                let key = mac_key_spec(password, salt, iterations as u32);
                                let computed = hmac_sha1_of(key, d.subrange(p3, p4));
                                if stored == computed {
                                    Ok(
                                        StoreModel {
                                            version: version as u32,
                                            store_type: "bks"@,
                                            entries: entries_map(es),
                                        },
                                    )
                                } else {
                                    Err(Fail::BadSignature { stored, computed })
                                }
                            },
                            Err(f) => Err(f),
                        },
                        Err(f) => Err(f),
                    },
                    Err(f) => Err(f),
                },
                Err(f) => Err(f),
            }
        },
        Err(f) => Err(f),
    }
}

} // verus!
