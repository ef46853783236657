//! What holds of every load: how the password, the version field and a
//! truncation of the input decide its outcome.

use vstd::prelude::*;

use super::bytes::be;
use super::format::{
    blob_at, cert_at, chain_at, entries_from, entries_map, entry_at, is_entry_tag, key_at,
    load_spec, take, text_at, uint_at, value_at, EntryModel, Fail, StoreModel, DIGEST_LEN,
};
use super::kdf::derive_spec;

verus! {

/// Where the trailing digest of `d` ends, once its header and entry table
/// have decoded (0 where they do not).
pub open spec fn store_end(d: Seq<u8>) -> int {
    match uint_at(d, 0, 4) {
        Ok((_, p1)) => match blob_at(d, p1, 4) {
            Ok((_, p2)) => match uint_at(d, p2, 4) {
                Ok((_, p3)) => match entries_from(d, p3) {
                    Ok((_, p4)) => p4 + DIGEST_LEN,
                    Err(_) => 0,
                },
                Err(_) => 0,
            },
            Err(_) => 0,
        },
        Err(_) => 0,
    }
}

/// A decode that succeeded at `p` on `n` bytes ended between `p` and `n`;
/// on the input cut to `k` bytes it gives the same result where it ended by
/// `k`, and a short read where it ended beyond.
pub open spec fn cut<T>(
    whole: Result<(T, int), Fail>,
    part: Result<(T, int), Fail>,
    p: int,
    k: int,
    n: int,
) -> bool {
    match whole {
        Ok((_, q)) => {
            &&& p <= q <= n
            &&& q <= k ==> part == whole
            &&& q > k ==> part matches Err(Fail::ShortRead { .. })
        },
        Err(_) => true,
    }
}

proof fn lemma_cut_take(d: Seq<u8>, p: int, k: int, n: nat)
    requires
        0 <= p <= k <= d.len(),
    ensures
        cut(take(d, p, n), take(d.take(k), p, n), p, k, d.len() as int),
{
    if p + n <= k {
        assert(d.take(k).subrange(p, p + n) =~= d.subrange(p, p + n));
    }
}

proof fn lemma_cut_uint(d: Seq<u8>, p: int, k: int, n: nat)
    requires
        0 <= p <= k <= d.len(),
    ensures
        cut(uint_at(d, p, n), uint_at(d.take(k), p, n), p, k, d.len() as int),
{
    lemma_cut_take(d, p, k, n);
}

proof fn lemma_cut_blob(d: Seq<u8>, p: int, k: int, w: nat)
    requires
        0 <= p <= k <= d.len(),
    ensures
        cut(blob_at(d, p, w), blob_at(d.take(k), p, w), p, k, d.len() as int),
{
    lemma_cut_uint(d, p, k, w);
    if let Ok((len, q)) = uint_at(d, p, w) {
        if q <= k {
            lemma_cut_take(d, q, k, len);
        }
    }
}

proof fn lemma_cut_text(d: Seq<u8>, p: int, k: int)
    requires
        0 <= p <= k <= d.len(),
    ensures
        cut(text_at(d, p), text_at(d.take(k), p), p, k, d.len() as int),
{
    lemma_cut_blob(d, p, k, 2);
}

proof fn lemma_cut_cert(d: Seq<u8>, p: int, k: int)
    requires
        0 <= p <= k <= d.len(),
    ensures
        cut(cert_at(d, p), cert_at(d.take(k), p), p, k, d.len() as int),
{
    lemma_cut_text(d, p, k);
    if let Ok((_, q)) = text_at(d, p) {
        if q <= k {
            lemma_cut_blob(d, q, k, 4);
        }
    }
}

proof fn lemma_cut_chain(d: Seq<u8>, p: int, k: int, n: nat)
    requires
        0 <= p <= k <= d.len(),
    ensures
        cut(chain_at(d, p, n), chain_at(d.take(k), p, n), p, k, d.len() as int),
    decreases n,
{
    if n > 0 {
        lemma_cut_chain(d, p, k, (n - 1) as nat);
        if let Ok((_, q)) = chain_at(d, p, (n - 1) as nat) {
            if q <= k {
                lemma_cut_cert(d, q, k);
            }
        }
    }
}

proof fn lemma_cut_key(d: Seq<u8>, p: int, k: int)
    requires
        0 <= p <= k <= d.len(),
    ensures
        cut(key_at(d, p), key_at(d.take(k), p), p, k, d.len() as int),
{
    lemma_cut_uint(d, p, k, 1);
    if let Ok((_, q1)) = uint_at(d, p, 1) {
        if q1 <= k {
            lemma_cut_text(d, q1, k);
            if let Ok((_, q2)) = text_at(d, q1) {
                if q2 <= k {
                    lemma_cut_text(d, q2, k);
                    if let Ok((_, q3)) = text_at(d, q2) {
                        if q3 <= k {
                            lemma_cut_blob(d, q3, k, 4);
                        }
                    }
                }
            }
        }
    }
}

proof fn lemma_cut_value(d: Seq<u8>, p: int, k: int, tag: u8)
    requires
        0 <= p <= k <= d.len(),
    ensures
        cut(value_at(d, p, tag), value_at(d.take(k), p, tag), p, k, d.len() as int),
{
    lemma_cut_cert(d, p, k);
    lemma_cut_key(d, p, k);
    lemma_cut_blob(d, p, k, 4);
}

proof fn lemma_cut_entry(d: Seq<u8>, p: int, k: int, tag: u8)
    requires
        0 <= p <= k <= d.len(),
    ensures
        cut(entry_at(d, p, tag), entry_at(d.take(k), p, tag), p, k, d.len() as int),
{
    let dk = d.take(k);
    lemma_cut_text(d, p, k);
    if let Ok((alias, q1)) = text_at(d, p) {
        if q1 <= k {
            assert(text_at(dk, p) == text_at(d, p));
            lemma_cut_uint(d, q1, k, 8);
            if let Ok((ts, q2)) = uint_at(d, q1, 8) {
                if q2 <= k {
                    assert(uint_at(dk, q1, 8) == uint_at(d, q1, 8));
                    lemma_cut_uint(d, q2, k, 4);
                    if let Ok((n, q3)) = uint_at(d, q2, 4) {
                        if q3 <= k {
                            assert(uint_at(dk, q2, 4) == uint_at(d, q2, 4));
                            lemma_cut_chain(d, q3, k, n);
                            if let Ok((chain, q4)) = chain_at(d, q3, n) {
                                if q4 <= k {
                                    assert(chain_at(dk, q3, n) == chain_at(d, q3, n));
                                    lemma_cut_value(d, q4, k, tag);
                                } else {
                                    assert(chain_at(dk, q3, n) matches Err(Fail::ShortRead { .. }));
                                    lemma_cut_value(d, q4, d.len() as int, tag);
                                }
                            }
                        } else {
                            lemma_cut_chain(d, q3, d.len() as int, n);
                            if let Ok((_, q4)) = chain_at(d, q3, n) {
                                lemma_cut_value(d, q4, d.len() as int, tag);
                            }
                        }
                    }
                } else {
                    if let Ok((n, q3)) = uint_at(d, q2, 4) {
                        lemma_cut_chain(d, q3, d.len() as int, n);
                        if let Ok((_, q4)) = chain_at(d, q3, n) {
                            lemma_cut_value(d, q4, d.len() as int, tag);
                        }
                    }
                }
            }
        } else {
            if let Ok((_, q2)) = uint_at(d, q1, 8) {
                if let Ok((n, q3)) = uint_at(d, q2, 4) {
                    lemma_cut_chain(d, q3, d.len() as int, n);
                    if let Ok((_, q4)) = chain_at(d, q3, n) {
                        lemma_cut_value(d, q4, d.len() as int, tag);
                    }
                }
            }
        }
    }
}

proof fn lemma_cut_entries(d: Seq<u8>, p: int, k: int)
    requires
        0 <= p <= k <= d.len(),
    ensures
        cut(entries_from(d, p), entries_from(d.take(k), p), p, k, d.len() as int),
    decreases d.len() - p,
{
    let dk = d.take(k);
    lemma_cut_uint(d, p, k, 1);
    if let Ok((t, q)) = uint_at(d, p, 1) {
        if t != 0 && is_entry_tag(t) {
            let kq = if q <= k { k } else { d.len() as int };
            lemma_cut_entry(d, q, kq, t as u8);
            if let Ok((_, r)) = entry_at(d, q, t as u8) {
                if p < r <= d.len() {
                    let kr = if r <= k { k } else { d.len() as int };
                    lemma_cut_entries(d, r, kr);
                    if q <= k {
                        assert(uint_at(dk, p, 1) == uint_at(d, p, 1));
                        if r <= k {
                            assert(entry_at(dk, q, t as u8) == entry_at(d, q, t as u8));
                        }
                    }
                }
            }
        }
    }
}

/// An entry ends after the position it starts at and within the input,
/// so the guard in `entries_from` always holds.
pub proof fn lemma_entry_advances(d: Seq<u8>, p: int, tag: u8)
    requires
        0 <= p <= d.len(),
    ensures
        entry_at(d, p, tag) matches Ok((_, r)) ==> p <= r <= d.len(),
{
    lemma_cut_entry(d, p, d.len() as int, tag);
}

/// Cut short anywhere before the end of its trailing digest, a keystore
/// that loads fails with a short read.
pub proof fn lemma_truncated_store_is_short_read(d: Seq<u8>, password: Seq<char>, k: int)
    requires
        load_spec(d, password) is Ok,
        0 <= k < store_end(d),
    ensures
        load_spec(d.take(k), password) matches Err(Fail::ShortRead { .. }),
{
    lemma_cut_uint(d, 0, k, 4);
    if let Ok((_, p1)) = uint_at(d, 0, 4) {
        if p1 <= k {
            lemma_cut_blob(d, p1, k, 4);
            if let Ok((_, p2)) = blob_at(d, p1, 4) {
                if p2 <= k {
                    lemma_cut_uint(d, p2, k, 4);
                    if let Ok((_, p3)) = uint_at(d, p2, 4) {
                        if p3 <= k {
                            lemma_cut_entries(d, p3, k);
                            if let Ok((_, p4)) = entries_from(d, p3) {
                                if p4 <= k {
                                    lemma_cut_take(d, p4, k, DIGEST_LEN as nat);
                                }
                            }
                        }
                    }
                }
            }
        }
    }
}

/// The password decides only whether the trailing digest matches: where a
/// keystore loads under one password, under any other it loads to the same
/// store or fails with a signature error, never with another error.
pub proof fn lemma_password_affects_only_signature(
    d: Seq<u8>,
    password: Seq<char>,
    other: Seq<char>,
)
    requires
        load_spec(d, password) is Ok,
    ensures
        load_spec(d, other) is Ok || load_spec(d, other) matches Err(Fail::BadSignature { .. }),
        load_spec(d, other) is Ok ==> load_spec(d, other) == load_spec(d, password),
{
}

/// A version field other than 1 or 2 is refused as unsupported, whatever
/// bytes follow it.
pub proof fn lemma_unsupported_version(d: Seq<u8>, password: Seq<char>)
    requires
        d.len() >= 4,
        be(d.take(4)) != 1,
        be(d.take(4)) != 2,
    ensures
        load_spec(d, password) == Err::<StoreModel, Fail>(
            Fail::UnsupportedVersion(be(d.take(4)) as u32),
        ),
{
    assert(d.subrange(0, 4) =~= d.take(4));
}

/// Key derivation depends on its inputs alone: equal inputs give equal
/// key material.
pub proof fn lemma_derivation_deterministic(
    purpose: u8,
    password: Seq<char>,
    salt: Seq<u8>,
    iterations: u32,
    size: u32,
    first: Seq<u8>,
    second: Seq<u8>,
)
    requires
        first == derive_spec(purpose, password, salt, iterations, size),
        second == derive_spec(purpose, password, salt, iterations, size),
    ensures
        first == second,
{
}

/// Of entries that share an alias, the store keeps the one decoded last.
pub proof fn lemma_last_entry_per_alias_kept(es: Seq<EntryModel>, i: int)
    requires
        0 <= i < es.len(),
        forall|j: int| i < j < es.len() ==> es[j].alias != es[i].alias,
    ensures
        entries_map(es).contains_key(es[i].alias),
        entries_map(es)[es[i].alias] == es[i],
    decreases es.len(),
{
    if i < es.len() - 1 {
        lemma_last_entry_per_alias_kept(es.drop_last(), i);
    }
}

} // verus!
