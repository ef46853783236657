//! The keystore's entries and the loader that decodes and authenticates
//! them in one pass.

use vstd::prelude::*;

use super::crypto::sha1_output_size;
use super::errors::{BksError, BksFormatError, KeystoreSignatureError};
use super::format::{
    cert_at, chain_at, entries_from, entries_map, entry_at, error_matches, format_cause,
    key_at, load_spec, take, text_at, uint_at, value_at, CertModel, EntryModel,
    Fail, StoreModel, ValueModel,
};
use super::kdf::{derive_key, MAC_KEY_PURPOSE};
use super::lemmas::lemma_last_entry_per_alias_kept;
use super::reader::Reader;

verus! {

/// A trusted certificate: its type label and encoded bytes.
#[derive(Debug)]
pub struct BksTrustedCertEntry {
    pub cert_type: String,
    pub cert_data: Vec<u8>,
}

impl View for BksTrustedCertEntry {
    type V = CertModel;

    open spec fn view(&self) -> CertModel {
        CertModel { cert_type: self.cert_type@, data: self.cert_data@ }
    }
}

/// A private or secret key: type byte, format and algorithm labels, and
/// the encoded key.
#[derive(Debug)]
pub struct BksKeyEntry {
    pub key_type: u8,
    pub key_format: String,
    pub key_algorithm: String,
    pub key_enc: Vec<u8>,
}

/// An opaque secret.
#[derive(Debug)]
pub struct BksSecretEntry {
    pub secret_data: Vec<u8>,
}

/// A password-encrypted entry, kept undecrypted.
#[derive(Debug)]
pub struct BksSealedEntry {
    pub sealed_data: Vec<u8>,
}

/// What an entry holds, by kind.
#[derive(Debug)]
pub enum BksEntryValue {
    CertEntry(BksTrustedCertEntry),
    KeyEntry(BksKeyEntry),
    SecretEntry(BksSecretEntry),
    SealedEntry(BksSealedEntry),
}

impl View for BksEntryValue {
    type V = ValueModel;

    open spec fn view(&self) -> ValueModel {
        match self {
            BksEntryValue::CertEntry(c) => ValueModel::Cert(c@),
            BksEntryValue::KeyEntry(k) => ValueModel::Key {
                key_type: k.key_type,
                format: k.key_format@,
                algorithm: k.key_algorithm@,
                encoded: k.key_enc@,
            },
            BksEntryValue::SecretEntry(s) => ValueModel::Secret(s.secret_data@),
            BksEntryValue::SealedEntry(s) => ValueModel::Sealed(s.sealed_data@),
        }
    }
}

/// One aliased entry with its certificate chain.
#[derive(Debug)]
pub struct BksEntry {
    pub alias: String,
    pub timestamp: u64,
    pub cert_chain: Vec<BksTrustedCertEntry>,
    pub value: BksEntryValue,
}

/// The models of a list of certificates.
pub open spec fn chain_view(chain: Seq<BksTrustedCertEntry>) -> Seq<CertModel> {
    chain.map_values(|c: BksTrustedCertEntry| c@)
}

impl BksTrustedCertEntry {
    /// The encoded certificate.
    pub fn data(&self) -> (r: &Vec<u8>)
        ensures
            r@ == self@.data,
    {
        &self.cert_data
    }
}

impl BksKeyEntry {
    /// The encoded key.
    pub fn data(&self) -> (r: &Vec<u8>)
        ensures
            r@ == self.key_enc@,
    {
        &self.key_enc
    }
}

impl BksEntry {
    /// What the entry holds.
    pub fn value(&self) -> (r: &BksEntryValue)
        ensures
            r@ == self@.value,
    {
        &self.value
    }

    /// The certificate chain, leaf first.
    pub fn cert_chain(&self) -> (r: &Vec<BksTrustedCertEntry>)
        ensures
            chain_view(r@) == self@.chain,
    {
        &self.cert_chain
    }
}

impl View for BksEntry {
    type V = EntryModel;

    open spec fn view(&self) -> EntryModel {
        EntryModel {
            alias: self.alias@,
            timestamp: self.timestamp,
            chain: chain_view(self.cert_chain@),
            value: self.value@,
        }
    }
}

/// A loaded keystore. Its entries have distinct aliases.
#[derive(Debug)]
pub struct BksKeyStore {
    version: u32,
    store_type: String,
    entries: Vec<BksEntry>,
}

/// The models of a list of entries.
pub open spec fn entries_view(es: Seq<BksEntry>) -> Seq<EntryModel> {
    es.map_values(|e: BksEntry| e@)
}

/// No two entries share an alias.
pub open spec fn distinct_aliases(es: Seq<EntryModel>) -> bool {
    forall|i: int, j: int| 0 <= i < j < es.len() ==> es[i].alias != es[j].alias
}

impl BksKeyStore {
    #[verifier::type_invariant]
    spec fn aliases_distinct(&self) -> bool {
        distinct_aliases(entries_view(self.entries@))
    }
}

impl View for BksKeyStore {
    type V = StoreModel;

    closed spec fn view(&self) -> StoreModel {
        StoreModel {
            version: self.version,
            store_type: self.store_type@,
            entries: entries_map(entries_view(self.entries@)),
        }
    }
}

/// Replacing, in a list of distinct aliases, the entry of an alias that is
/// present changes the fold at that alias only.
proof fn lemma_replace(es: Seq<EntryModel>, i: int, e: EntryModel)
    requires
        distinct_aliases(es),
        0 <= i < es.len(),
        es[i].alias == e.alias,
    ensures
        entries_map(es.update(i, e)) == entries_map(es).insert(e.alias, e),
        distinct_aliases(es.update(i, e)),
    decreases es.len(),
{
    let u = es.update(i, e);
    if i == es.len() - 1 {
        assert(u.drop_last() =~= es.drop_last());
        assert(entries_map(u) =~= entries_map(es).insert(e.alias, e));
    } else {
        assert(u.drop_last() =~= es.drop_last().update(i, e));
        lemma_replace(es.drop_last(), i, e);
        assert(es.last().alias != e.alias);
        assert(entries_map(u) =~= entries_map(es).insert(e.alias, e));
    }
    assert forall|a: int, b: int| 0 <= a < b < u.len() implies u[a].alias != u[b].alias by {
        assert(es[a].alias != es[b].alias);
    }
}

/// An alias that no entry has is absent from the fold.
proof fn lemma_absent(es: Seq<EntryModel>, alias: Seq<char>)
    requires
        forall|k: int| 0 <= k < es.len() ==> es[k].alias != alias,
    ensures
        !entries_map(es).contains_key(alias),
    decreases es.len(),
{
    if es.len() > 0 {
        lemma_absent(es.drop_last(), alias);
    }
}

/// The fold of distinct aliases has one key per entry.
proof fn lemma_map_len(es: Seq<EntryModel>)
    requires
        distinct_aliases(es),
    ensures
        entries_map(es).dom().len() == es.len(),
        entries_map(es).dom().finite(),
    decreases es.len(),
{
    if es.len() > 0 {
        let rest = es.drop_last();
        lemma_map_len(rest);
        lemma_absent(rest, es.last().alias);
    }
}

/// Once reading a chain fails, reading a longer one fails the same way.
proof fn lemma_chain_error_persists(d: Seq<u8>, p: int, k: nat, n: nat)
    requires
        k <= n,
        chain_at(d, p, k) is Err,
    ensures
        chain_at(d, p, n) == chain_at(d, p, k),
    decreases n,
{
    if k < n {
        lemma_chain_error_persists(d, p, k, (n - 1) as nat);
    }
}

impl BksTrustedCertEntry {
    fn load(reader: &mut Reader) -> (res: Result<Self, BksError>)
        requires
            old(reader).wf(),
        ensures
            final(reader).wf(),
            final(reader).same_source(old(reader)),
            match cert_at(old(reader).data@, old(reader).pos as int) {
                Ok((m, q)) => res matches Ok(c) && c@ == m && final(reader).pos == q,
                Err(f) => res matches Err(e) && error_matches(e, f),
            },
    {
        let cert_type = reader.read_text()?;
        let cert_data = reader.read_blob(4)?;
        Ok(Self { cert_type, cert_data })
    }
}

impl BksKeyEntry {
    fn load(reader: &mut Reader) -> (res: Result<BksEntryValue, BksError>)
        requires
            old(reader).wf(),
        ensures
            final(reader).wf(),
            final(reader).same_source(old(reader)),
            match key_at(old(reader).data@, old(reader).pos as int) {
                Ok((m, q)) => res matches Ok(v) && v@ == m && final(reader).pos == q,
                Err(f) => res matches Err(e) && error_matches(e, f),
            },
    {
        let key_type = reader.read_uint(1)?;
        proof {
            super::bytes::lemma_be_bound(
                old(reader).data@.subrange(old(reader).pos as int, old(reader).pos + 1),
            );
            super::bytes::lemma_pow256_small();
        }
        let key_type = key_type as u8;
        let key_format = reader.read_text()?;
        let key_algorithm = reader.read_text()?;
        let key_enc = reader.read_blob(4)?;
        Ok(BksEntryValue::KeyEntry(Self { key_type, key_format, key_algorithm, key_enc }))
    }
}

impl BksSecretEntry {
    fn load(reader: &mut Reader) -> (res: Result<BksEntryValue, BksError>)
        requires
            old(reader).wf(),
        ensures
            final(reader).wf(),
            final(reader).same_source(old(reader)),
            match value_at(old(reader).data@, old(reader).pos as int, 3) {
                Ok((m, q)) => res matches Ok(v) && v@ == m && final(reader).pos == q,
                Err(f) => res matches Err(e) && error_matches(e, f),
            },
    {
        let secret_data = reader.read_blob(4)?;
        Ok(BksEntryValue::SecretEntry(Self { secret_data }))
    }
}

impl BksSealedEntry {
    fn load(reader: &mut Reader) -> (res: Result<BksEntryValue, BksError>)
        requires
            old(reader).wf(),
        ensures
            final(reader).wf(),
            final(reader).same_source(old(reader)),
            match value_at(old(reader).data@, old(reader).pos as int, 4) {
                Ok((m, q)) => res matches Ok(v) && v@ == m && final(reader).pos == q,
                Err(f) => res matches Err(e) && error_matches(e, f),
            },
    {
        let sealed_data = reader.read_blob(4)?;
        Ok(BksEntryValue::SealedEntry(Self { sealed_data }))
    }
}

impl BksEntry {
    /// Decodes the entry that a tag byte opened; a tag other than 1 to 4
    /// names no kind of entry and is a format error.
    fn load(reader: &mut Reader, tag: u8) -> (res: Result<BksEntry, BksError>)
        requires
            old(reader).wf(),
        ensures
            final(reader).wf(),
            final(reader).same_source(old(reader)),
            match entry_at(old(reader).data@, old(reader).pos as int, tag) {
                Ok((m, q)) => res matches Ok(e) && e@ == m && final(reader).pos == q,
                Err(f) => res matches Err(e) && error_matches(e, f),
            },
    {
        let ghost d = reader.data@;
        let ghost p0 = reader.pos as int;
        let alias = reader.read_text()?;
        let ghost p1 = reader.pos as int;
        let timestamp = reader.read_uint(8)?;
        let ghost p2 = reader.pos as int;
        let chain_length = reader.read_uint(4)?;
        let ghost p3 = reader.pos as int;
        assert(text_at(d, p0) == Ok::<(Seq<char>, int), Fail>((alias@, p1)));
        assert(uint_at(d, p1, 8) == Ok::<(nat, int), Fail>((timestamp as nat, p2)));
        assert(uint_at(d, p2, 4) == Ok::<(nat, int), Fail>((chain_length as nat, p3)));
        let mut cert_chain: Vec<BksTrustedCertEntry> = Vec::new();
        let mut k: u64 = 0;
        assert(chain_view(cert_chain@) =~= Seq::<CertModel>::empty());
        while k < chain_length
            invariant
                reader.wf(),
                reader.same_source(old(reader)),
                reader.data@ == d,
                d == old(reader).data@,
                p0 == old(reader).pos,
                text_at(d, p0) == Ok::<(Seq<char>, int), Fail>((alias@, p1)),
                uint_at(d, p1, 8) == Ok::<(nat, int), Fail>((timestamp as nat, p2)),
                uint_at(d, p2, 4) == Ok::<(nat, int), Fail>((chain_length as nat, p3)),
                k <= chain_length,
                chain_at(d, p3, k as nat) == Ok::<(Seq<CertModel>, int), Fail>(
                    (chain_view(cert_chain@), reader.pos as int),
                ),
            decreases chain_length - k,
        {
            let ghost before = chain_view(cert_chain@);
            let ghost pk = reader.pos as int;
            let loaded = BksTrustedCertEntry::load(reader);
            proof {
                assert(chain_at(d, p3, (k + 1) as nat) == match cert_at(d, pk) {
                    Ok((c, r)) => Ok((before.push(c), r)),
                    Err(f) => Err(f),
                });
                if loaded is Err {
                    lemma_chain_error_persists(d, p3, (k + 1) as nat, chain_length as nat);
                }
            }
            let entry = loaded?;
            cert_chain.push(entry);
            assert(chain_view(cert_chain@) =~= before.push(cert_chain@.last()@));
            k = k + 1;
        }
        let value = match tag {
            1 => BksEntryValue::CertEntry(BksTrustedCertEntry::load(reader)?),
            2 => BksKeyEntry::load(reader)?,
            3 => BksSecretEntry::load(reader)?,
            4 => BksSealedEntry::load(reader)?,
            _ => {
                let cause = "unknown entry type".to_owned();
                proof {
                    assert(cause@ == format_cause(Fail::UnknownTag(tag)));
                }
                return Err(BksError::FormatError(BksFormatError::new(cause)));
            },
        };
        Ok(BksEntry { alias, timestamp, cert_chain, value })
    }
}

/// Adds `entry` to `entries`, replacing the one with the same alias.
fn insert_entry(entries: &mut Vec<BksEntry>, entry: BksEntry)
    requires
        distinct_aliases(entries_view(old(entries)@)),
    ensures
        distinct_aliases(entries_view(final(entries)@)),
        entries_map(entries_view(final(entries)@)) == entries_map(
            entries_view(old(entries)@),
        ).insert(entry@.alias, entry@),
{
    let ghost start = entries_view(entries@);
    let mut i: usize = 0;
    while i < entries.len()
        invariant
            entries_view(entries@) == start,
            start == entries_view(old(entries)@),
            distinct_aliases(start),
            i <= entries@.len(),
            forall|k: int| 0 <= k < i ==> start[k].alias != entry@.alias,
        decreases entries@.len() - i,
    {
        if entries[i].alias == entry.alias {
            let ghost e = entry@;
            entries.set(i, entry);
            proof {
                lemma_replace(start, i as int, e);
                assert(entries_view(entries@) =~= start.update(i as int, e));
            }
            return;
        }
        i = i + 1;
    }
    let ghost e = entry@;
    entries.push(entry);
    proof {
        assert(entries_view(entries@) =~= start.push(e));
        assert(entries_view(entries@).drop_last() =~= start);
    }
}

/// Decodes entries up to the terminating tag.
fn read_bks_entries(reader: &mut Reader) -> (res: Result<Vec<BksEntry>, BksError>)
    requires
        old(reader).wf(),
    ensures
        final(reader).wf(),
        final(reader).same_source(old(reader)),
        match entries_from(old(reader).data@, old(reader).pos as int) {
            Ok((es, q)) => res matches Ok(v) && distinct_aliases(entries_view(v@)) && entries_map(
                entries_view(v@),
            ) == entries_map(es) && final(reader).pos == q,
            Err(f) => res matches Err(e) && error_matches(e, f),
        },
{
    let ghost d = reader.data@;
    let ghost p0 = reader.pos as int;
    let mut entries: Vec<BksEntry> = Vec::new();
    let ghost mut seen: Seq<EntryModel> = Seq::empty();
    proof {
        match entries_from(d, p0) {
            Ok((rest, z)) => {
                assert(seen + rest =~= rest);
            },
            Err(_) => {},
        }
    }
    loop
        invariant
            reader.wf(),
            reader.same_source(old(reader)),
            reader.data@ == d,
            d == old(reader).data@,
            p0 == old(reader).pos,
            distinct_aliases(entries_view(entries@)),
            entries_map(entries_view(entries@)) == entries_map(seen),
            match entries_from(d, reader.pos as int) {
                Ok((rest, z)) => entries_from(d, p0) == Ok::<(Seq<EntryModel>, int), Fail>(
                    (seen + rest, z),
                ),
                Err(f) => entries_from(d, p0) == Err::<(Seq<EntryModel>, int), Fail>(f),
            },
        decreases d.len() - reader.pos,
    {
        let ghost p = reader.pos as int;
        let tag = reader.read_uint(1)?;
        proof {
            super::bytes::lemma_be_bound(d.subrange(p, p + 1));
            super::bytes::lemma_pow256_small();
        }
        if tag == 0 {
            assert(seen + Seq::<EntryModel>::empty() =~= seen);
            return Ok(entries);
        }
        if tag > 4 {
            let cause = "unknown entry type".to_owned();
            proof {
                assert(cause@ == format_cause(Fail::UnknownTag(tag as u8)));
            }
            return Err(BksError::FormatError(BksFormatError::new(cause)));
        }
        let entry = BksEntry::load(reader, tag as u8)?;
        proof {
            let e = entry@;
            let r = reader.pos as int;
            assert(p < r <= d.len());
            match entries_from(d, r) {
                Ok((rest, z)) => {
                    assert(seen + (seq![e] + rest) =~= seen.push(e) + rest);
                },
                Err(_) => {},
            }
            assert(seen.push(e).drop_last() =~= seen);
        }
        insert_entry(&mut entries, entry);
        proof {
            seen = seen.push(entry@);
        }
    }
}

/// Whether `a` and `b` hold the same bytes; every byte is examined
/// whatever the outcome, so the time taken does not tell where they differ.
fn digests_match(a: &[u8], b: &[u8]) -> (r: bool)
    ensures
        r == (a@ == b@),
{
    if a.len() != b.len() {
        return false;
    }
    let mut diff: u8 = 0;
    let mut i: usize = 0;
    assert(a@.take(0) =~= b@.take(0));
    while i < a.len()
        invariant
            a@.len() == b@.len(),
            i <= a@.len(),
            (diff == 0) == (a@.take(i as int) == b@.take(i as int)),
        decreases a@.len() - i,
    {
        let x = a[i];
        let y = b[i];
        let d0 = diff;
        diff = diff | (x ^ y);
        assert((d0 | (x ^ y)) == 0 <==> (d0 == 0 && x == y)) by (bit_vector);
        proof {
            assert(a@.take(i + 1 as int) == a@.take(i as int).push(x));
            assert(b@.take(i + 1 as int) == b@.take(i as int).push(y));
            if a@.take(i + 1 as int) == b@.take(i + 1 as int) {
                assert(a@.take(i + 1 as int).drop_last() =~= a@.take(i as int));
                assert(b@.take(i + 1 as int).drop_last() =~= b@.take(i as int));
                assert(a@.take(i + 1 as int).last() == x);
            }
        }
        i = i + 1;
    }
    assert(a@.take(i as int) =~= a@);
    assert(b@.take(i as int) =~= b@);
    diff == 0
}

impl BksKeyStore {
    /// Decodes `data` as a keystore protected with `password`: the header,
    /// the entry table under a running HMAC-SHA1 keyed from the password,
    /// then the trailing digest, which must match. Nothing of a store that
    /// fails is returned.
    pub fn load(data: &[u8], password: String) -> (r: Result<BksKeyStore, BksError>)
        requires
            data@.len() + 4 * password@.len() + 256 <= usize::MAX,
        ensures
            r is Ok <==> load_spec(data@, password@) is Ok,
            r matches Ok(ks) ==> load_spec(data@, password@) == Ok::<StoreModel, Fail>(ks@),
            r matches Err(e) ==> load_spec(data@, password@) matches Err(f) && error_matches(e, f),
    {
        let mut reader = Reader::new(data);
        let version = reader.read_uint(4)?;
        if version != 1 && version != 2 {
            let cause = "only keystore versions 1 and 2 are supported".to_owned();
            proof {
                assert(cause@ == format_cause(Fail::UnsupportedVersion(version as u32)));
            }
            return Err(BksError::FormatError(BksFormatError::new(cause)));
        }
        let salt = reader.read_blob(4)?;
        let ghost p2 = reader.pos as int;
        let iteration_count = reader.read_uint(4)?;
        proof {
            super::bytes::lemma_be_bound(data@.subrange(p2, p2 + 4));
            super::bytes::lemma_pow256_small();
        }
        let key_size = sha1_output_size();
        let key = derive_key(
            MAC_KEY_PURPOSE,
            password.as_str(),
            salt.as_slice(),
            iteration_count as u32,
            key_size as u32,
        );
        reader.start_digest(key);
        let entries = read_bks_entries(&mut reader)?;
        let computed = reader.finish_digest();
        let stored = reader.read_bytes(key_size)?;
        if !digests_match(stored.as_slice(), computed.as_slice()) {
            return Err(
                BksError::SignatureError(KeystoreSignatureError::new(stored, computed)),
            );
        }
        Ok(BksKeyStore { version: version as u32, store_type: "bks".to_owned(), entries })
    }

    /// The format version, 1 or 2.
    pub fn version(&self) -> (r: u32)
        ensures
            r == self@.version,
    {
        self.version
    }

    /// The store type, always "bks".
    pub fn store_type(&self) -> (r: &String)
        ensures
            r@ == self@.store_type,
    {
        &self.store_type
    }

    /// The entries, one per alias, in the order their aliases first appeared.
    pub fn entries(&self) -> (r: &Vec<BksEntry>)
        ensures
            distinct_aliases(entries_view(r@)),
            entries_map(entries_view(r@)) == self@.entries,
    {
        proof {
            use_type_invariant(self);
        }
        &self.entries
    }

    /// The number of entries, one per alias.
    pub fn len(&self) -> (r: usize)
        ensures
            r == self@.entries.dom().len(),
    {
        proof {
            use_type_invariant(self);
            lemma_map_len(entries_view(self.entries@));
        }
        self.entries.len()
    }

    /// The entry stored under `alias`, if any.
    pub fn get(&self, alias: &str) -> (r: Option<&BksEntry>)
        ensures
            match r {
                Some(e) => self@.entries.contains_key(alias@) && e@ == self@.entries[alias@],
                None => !self@.entries.contains_key(alias@),
            },
    {
        proof {
            use_type_invariant(self);
        }
        let wanted = alias.to_owned();
        let ghost es = entries_view(self.entries@);
        let mut i: usize = 0;
        while i < self.entries.len()
            invariant
                es == entries_view(self.entries@),
                distinct_aliases(es),
                wanted@ == alias@,
                i <= es.len(),
                forall|k: int| 0 <= k < i ==> es[k].alias != alias@,
            decreases es.len() - i,
        {
            if self.entries[i].alias == wanted {
                proof {
                    lemma_last_entry_per_alias_kept(es, i as int);
                }
                return Some(&self.entries[i]);
            }
            i = i + 1;
        }
        proof {
            lemma_absent(es, alias@);
        }
        None
    }

}

} // verus!
