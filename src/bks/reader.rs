//! A cursor over the keystore bytes that reads big-endian fields and, while
//! a digest is running, authenticates every byte it hands out.

use vstd::prelude::*;
use vstd::slice::slice_subrange;
use vstd::utf8::{decode_utf8, valid_utf8};

use super::bytes::{append_bytes, be, lemma_be_bound, lemma_pow256_small, pow256};
use super::crypto::{hmac_sha1, hmac_sha1_of};
use super::errors::{BksError, BksFormatError, ShortRead};
use super::format::{blob_at, error_matches, format_cause, take, text_at, uint_at, Fail};

verus! {

/// Relies on `String::from_utf8`: the text that `bytes` encode, exactly
/// when they are valid UTF-8.
#[verifier::external_body]
pub(crate) fn utf8_text(bytes: Vec<u8>) -> (r: Option<String>)
    ensures
        r is Some <==> valid_utf8(bytes@),
        r matches Some(s) ==> s@ == decode_utf8(bytes@),
{
    String::from_utf8(bytes).ok()
}

/// Reads `data` front to back from `pos`. While a digest runs, `digest`
/// holds its key and the position it started at: the digest covers exactly
/// the bytes read since then.
pub(crate) struct Reader<'a> {
    pub(crate) data: &'a [u8],
    pub(crate) pos: usize,
    pub(crate) digest: Option<(Vec<u8>, usize)>,
}

impl<'a> Reader<'a> {
    pub(crate) open spec fn wf(&self) -> bool {
        &&& self.pos <= self.data@.len()
        &&& self.digest matches Some((_, mark)) ==> mark <= self.pos
    }

    /// Reading moved forward along the same input with the same digest.
    pub(crate) open spec fn same_source(&self, other: &Self) -> bool {
        &&& self.data@ == other.data@
        &&& self.digest == other.digest
        &&& self.pos >= other.pos
    }

    pub(crate) fn new(data: &'a [u8]) -> (r: Self)
        ensures
            r.wf(),
            r.data@ == data@,
            r.pos == 0,
            r.digest is None,
    {
        Reader { data, pos: 0, digest: None }
    }

    /// Starts a digest under `key` over what is read from here on.
    pub(crate) fn start_digest(&mut self, key: Vec<u8>)
        requires
            old(self).wf(),
        ensures
            final(self).wf(),
            final(self).data@ == old(self).data@,
            final(self).pos == old(self).pos,
            final(self).digest matches Some((k, mark)) && k@ == key@ && mark == old(self).pos,
    {
        self.digest = Some((key, self.pos));
    }

    /// Ends the running digest and returns the HMAC-SHA1 tag, under its
    /// key, of the bytes read since it started.
    pub(crate) fn finish_digest(&mut self) -> (r: Vec<u8>)
        requires
            old(self).wf(),
            old(self).digest is Some,
        ensures
            final(self).wf(),
            final(self).data@ == old(self).data@,
            final(self).pos == old(self).pos,
            final(self).digest is None,
            old(self).digest matches Some((k, mark)) && r@ == hmac_sha1_of(
                k@,
                old(self).data@.subrange(mark as int, old(self).pos as int),
            ),
            r@.len() == 20,
    {
        match self.digest.take() {
            Some((key, mark)) => {
                let covered = slice_subrange(self.data, mark, self.pos);
                match hmac_sha1(key.as_slice(), covered) {
                    Some(tag) => tag,
                    None => Vec::new(),
                }
            },
            None => Vec::new(),
        }
    }

    /// The next `n` bytes; fails with a short read, before allocating,
    /// where fewer are left.
    pub(crate) fn read_bytes(&mut self, n: usize) -> (res: Result<Vec<u8>, BksError>)
        requires
            old(self).wf(),
        ensures
            final(self).wf(),
            final(self).same_source(old(self)),
            match take(old(self).data@, old(self).pos as int, n as nat) {
                Ok((b, q)) => res matches Ok(v) && v@ == b && final(self).pos == q,
                Err(f) => res matches Err(e) && error_matches(e, f),
            },
    {
        let available = self.data.len() - self.pos;
        if n > available {
            return Err(BksError::IoError(ShortRead { needed: n, available }));
        }
        let end = self.pos + n;
        let chunk = slice_subrange(self.data, self.pos, end);
        let mut v: Vec<u8> = Vec::new();
        append_bytes(&mut v, chunk);
        self.pos = end;
        Ok(v)
    }

    /// The big-endian unsigned number in the next `width` bytes.
    pub(crate) fn read_uint(&mut self, width: usize) -> (res: Result<u64, BksError>)
        requires
            old(self).wf(),
            width <= 8,
        ensures
            final(self).wf(),
            final(self).same_source(old(self)),
            match uint_at(old(self).data@, old(self).pos as int, width as nat) {
                Ok((x, q)) => res matches Ok(v) && v == x && final(self).pos == q,
                Err(f) => res matches Err(e) && error_matches(e, f),
            },
    {
        let bytes = self.read_bytes(width)?;
        let mut value: u64 = 0;
        let mut k: usize = 0;
        proof {
            lemma_pow256_small();
            assert(bytes@.take(0) =~= Seq::<u8>::empty());
        }
        while k < width
            invariant
                bytes@.len() == width,
                width <= 8,
                k <= width,
                value == be(bytes@.take(k as int)),
                pow256(8) == 0x1_0000_0000_0000_0000,
            decreases width - k,
        {
            proof {
                lemma_be_bound(bytes@.take(k as int));
                lemma_pow256_monotone(k as nat, 7);
                assert(bytes@.take(k + 1 as int).drop_last() =~= bytes@.take(k as int));
            }
            value = value * 256 + bytes[k] as u64;
            k = k + 1;
        }
        assert(bytes@.take(width as int) =~= bytes@);
        Ok(value)
    }

    /// Bytes prefixed by their length in a `width`-byte big-endian number.
    pub(crate) fn read_blob(&mut self, width: usize) -> (res: Result<Vec<u8>, BksError>)
        requires
            old(self).wf(),
            width == 2 || width == 4,
        ensures
            final(self).wf(),
            final(self).same_source(old(self)),
            match blob_at(old(self).data@, old(self).pos as int, width as nat) {
                Ok((b, q)) => res matches Ok(v) && v@ == b && final(self).pos == q,
                Err(f) => res matches Err(e) && error_matches(e, f),
            },
    {
        let ghost p0 = self.pos;
        let n = self.read_uint(width)?;
        proof {
            let b = self.data@.subrange(p0 as int, p0 + width);
            lemma_be_bound(b);
            lemma_pow256_small();
            lemma_pow256_monotone(width as nat, 4);
        }
        self.read_bytes(n as usize)
    }

    /// UTF-8 text prefixed by its length in a 2-byte big-endian number.
    pub(crate) fn read_text(&mut self) -> (res: Result<String, BksError>)
        requires
            old(self).wf(),
        ensures
            final(self).wf(),
            final(self).same_source(old(self)),
            match text_at(old(self).data@, old(self).pos as int) {
                Ok((t, q)) => res matches Ok(s) && s@ == t && final(self).pos == q,
                Err(f) => res matches Err(e) && error_matches(e, f),
            },
    {
        let bytes = self.read_blob(2)?;
        match utf8_text(bytes) {
            Some(s) => Ok(s),
            None => {
                let cause = "invalid UTF-8 in a text field".to_owned();
                proof {
                    assert(cause@ == format_cause(Fail::InvalidUtf8));
                }
                Err(BksError::FormatError(BksFormatError::new(cause)))
            },
        }
    }
}

proof fn lemma_pow256_monotone(a: nat, b: nat)
    requires
        a <= b,
    ensures
        pow256(a) <= pow256(b),
    decreases b,
{
    if a < b {
        lemma_pow256_monotone(a, (b - 1) as nat);
        super::bytes::lemma_pow256_positive((b - 1) as nat);
    }
}

} // verus!
