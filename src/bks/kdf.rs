//! Password-based key derivation in the style of RFC 7292, appendix B,
//! over SHA-1.

use vstd::arithmetic::div_mod::{lemma_fundamental_div_mod, lemma_fundamental_div_mod_converse};
use vstd::prelude::*;

use encoding::all::UTF_16BE;
use encoding::{EncoderTrap, Encoding};

use super::bytes::{
    append_bytes, be, lemma_be_bound, lemma_be_cons, lemma_to_be_len, lemma_to_be_of_be, pow256, to_be,
};
use super::crypto::{sha1_block_size, sha1_digest, sha1_of, sha1_output_size};

verus! {

/// Purpose byte asking for key material for a MAC.
pub const MAC_KEY_PURPOSE: u8 = 3;

/// The UTF-16 code units of one character, each most significant byte first.
pub open spec fn utf16_be_char(c: char) -> Seq<u8> {
    let v = c as u32 as int;
    if v < 0x10000 {
        seq![(v / 256) as u8, (v % 256) as u8]
    } else {
        let w = v - 0x10000;
        let hi = 0xD800 + w / 1024;
        let lo = 0xDC00 + w % 1024;
        seq![(hi / 256) as u8, (hi % 256) as u8, (lo / 256) as u8, (lo % 256) as u8]
    }
}

/// The UTF-16 big-endian encoding of a string.
pub open spec fn utf16_be(cs: Seq<char>) -> Seq<u8>
    decreases cs.len(),
{
    if cs.len() == 0 {
        Seq::empty()
    } else {
        utf16_be(cs.drop_last()) + utf16_be_char(cs.last())
    }
}

/// The password as the derivation consumes it: UTF-16 big-endian with a
/// two-byte null terminator.
pub open spec fn password_bytes(password: Seq<char>) -> Seq<u8> {
    utf16_be(password) + seq![0u8, 0u8]
}

/// `s` repeated cyclically up to length `n`.
pub open spec fn cycle(s: Seq<u8>, n: nat) -> Seq<u8> {
    Seq::new(n, |i: int| s[i % (s.len() as int)])
}

/// The smallest multiple of 64 that is at least `n`.
pub open spec fn round_up_64(n: nat) -> nat {
    ((n + 63) / 64 * 64) as nat
}

/// `s` repeated cyclically to a whole number of 64-byte blocks.
pub open spec fn diversify(s: Seq<u8>) -> Seq<u8> {
    cycle(s, round_up_64(s.len()))
}

/// `(blk + b + 1) mod 256^len(blk)`, all numbers read big-endian.
pub open spec fn add_block(blk: Seq<u8>, b: Seq<u8>) -> Seq<u8> {
    to_be((be(blk) + be(b) + 1) % pow256(blk.len()), blk.len())
}

/// Every 64-byte block of `i` replaced by `add_block(block, b)`.
pub open spec fn adjust_blocks(i: Seq<u8>, b: Seq<u8>) -> Seq<u8>
    decreases i.len(),
{
    if i.len() < 64 {
        i
    } else {
        adjust_blocks(i.take(i.len() - 64), b) + add_block(i.skip(i.len() - 64), b)
    }
}

/// `a` hashed `k` more times.
pub open spec fn rehash(a: Seq<u8>, k: nat) -> Seq<u8>
    decreases k,
{
    if k == 0 {
        a
    } else {
        rehash(sha1_of(a), (k - 1) as nat)
    }
}

/// One round's digest: `D ++ I` hashed, then rehashed until it has been
/// hashed `iterations` times in all (once at least).
pub open spec fn round_digest(d: Seq<u8>, i: Seq<u8>, iterations: u32) -> Seq<u8> {
    rehash(sha1_of(d + i), if iterations > 0 { (iterations - 1) as nat } else { 0 })
}

/// The output of `c` rounds, each round's digest followed by the next
/// ones, `I` adjusted by the digest between rounds.
pub open spec fn kdf_rounds(d: Seq<u8>, i: Seq<u8>, iterations: u32, c: nat) -> Seq<u8>
    decreases c,
{
    if c == 0 {
        Seq::empty()
    } else {
        let a = round_digest(d, i, iterations);
        a + kdf_rounds(d, adjust_blocks(i, cycle(a, 64)), iterations, (c - 1) as nat)
    }
}

/// The untruncated output of `c` rounds for `purpose`, `password`, `salt`
/// and `iterations`.
pub open spec fn derive_rounds(
    purpose: u8,
    password: Seq<char>,
    salt: Seq<u8>,
    iterations: u32,
    c: nat,
) -> Seq<u8> {
    let d = Seq::new(64, |k: int| purpose);
    let i = diversify(salt) + diversify(password_bytes(password));
    kdf_rounds(d, i, iterations, c)
}

/// The number of 20-byte rounds that `size` bytes of output take.
pub open spec fn rounds_for(size: u32) -> nat {
    ((size + 19) / 20) as nat
}

/// The `size` bytes of key material that `purpose`, `password`, `salt`
/// and `iterations` determine.
pub open spec fn derive_spec(
    purpose: u8,
    password: Seq<char>,
    salt: Seq<u8>,
    iterations: u32,
    size: u32,
) -> Seq<u8> {
    derive_rounds(purpose, password, salt, iterations, rounds_for(size)).take(size as int)
}

pub proof fn lemma_utf16_be_len(cs: Seq<char>)
    ensures
        utf16_be(cs).len() <= 4 * cs.len(),
    decreases cs.len(),
{
    if cs.len() > 0 {
        lemma_utf16_be_len(cs.drop_last());
    }
}

proof fn lemma_round_up_64(n: nat)
    ensures
        n <= round_up_64(n) <= n + 63,
        round_up_64(n) % 64 == 0,
{
    lemma_fundamental_div_mod((n + 63) as int, 64);
    let q = (n + 63) / 64;
    lemma_fundamental_div_mod_converse((q * 64) as int, 64, q as int, 0);
}

/// Relies on the `encoding` crate's UTF-16BE encoder, which writes two
/// bytes for a character up to U+FFFF and a surrogate pair beyond, most
/// significant byte first, and reports no error for any string.
#[verifier::external_body]
fn encode_utf16_be(s: &str) -> (r: Option<Vec<u8>>)
    ensures
        r is Some,
        r matches Some(v) ==> v@ == utf16_be(s@),
{
    UTF_16BE.encode(s, EncoderTrap::Strict).ok()
}

/// `s` repeated cyclically to length `n`.
fn cycle_to(s: &[u8], n: usize) -> (r: Vec<u8>)
    requires
        n > 0 ==> s@.len() > 0,
    ensures
        r@ == cycle(s@, n as nat),
{
    let mut r: Vec<u8> = Vec::with_capacity(n);
    let mut k: usize = 0;
    while k < n
        invariant
            k <= n,
            n > 0 ==> s@.len() > 0,
            r@ =~= cycle(s@, k as nat),
        decreases n - k,
    {
        r.push(s[k % s.len()]);
        k = k + 1;
    }
    r
}

/// `s` repeated cyclically to a whole number of 64-byte blocks.
fn diversify_bytes(s: &[u8]) -> (r: Vec<u8>)
    requires
        s@.len() + 63 <= usize::MAX,
    ensures
        r@ == diversify(s@),
        r@.len() == round_up_64(s@.len()),
{
    proof {
        lemma_round_up_64(s@.len());
    }
    let n = (s.len() + 63) / 64 * 64;
    cycle_to(s, n)
}

/// Replaces the block of `b.len()` bytes of `buf` at `off` with
/// `(block + b + 1) mod 256^b.len()`, adding from the least significant
/// byte up and carrying leftwards.
fn adjust(buf: &mut Vec<u8>, off: usize, b: &[u8])
    requires
        b@.len() >= 1,
        off + b@.len() <= old(buf)@.len(),
    ensures
        final(buf)@ == old(buf)@.take(off as int) + add_block(
            old(buf)@.subrange(off as int, off + b@.len()),
            b@,
        ) + old(buf)@.skip(off + b@.len()),
{
    let ghost n = b@.len();
    let ghost blk0 = old(buf)@.subrange(off as int, off + n);
    let ghost before = old(buf)@.take(off as int);
    let ghost after = old(buf)@.skip(off + n);
    let len = buf.len();
    let mut x: u32 = 1;
    let mut i: usize = b.len();
    assert(blk0.skip(n as int) =~= Seq::<u8>::empty());
    assert(b@.skip(n as int) =~= Seq::<u8>::empty());
    assert(buf@.subrange(off as int, off + n).skip(n as int) =~= Seq::<u8>::empty());
    while i > 0
        invariant
            n == b@.len(),
            blk0.len() == n,
            i <= n,
            off + n <= buf@.len(),
            buf@.len() == old(buf)@.len(),
            buf@.len() == len,
            buf@.take(off as int) == before,
            buf@.skip(off + n) == after,
            buf@.subrange(off as int, off + n).take(i as int) == blk0.take(i as int),
            be(buf@.subrange(off as int, off + n).skip(i as int)) + x * pow256((n - i) as nat)
                == be(blk0.skip(i as int)) + be(b@.skip(i as int)) + 1,
            x <= 1,
        decreases i,
    {
        let j = i - 1;
        let ghost cur = buf@.subrange(off as int, off + n);
        let ghost p = pow256((n - i) as nat);
        let k = off + j;
        let t: u32 = x + b[j] as u32 + buf[k] as u32;
        let digit: u8 = (t % 256) as u8;
        buf.set(k, digit);
        let ghost x0 = x;
        x = t / 256;
        proof {
            let cur2 = buf@.subrange(off as int, off + n);
            assert(cur2.skip(j as int) =~= seq![digit] + cur.skip(i as int));
            assert(blk0.skip(j as int) =~= seq![blk0[j as int]] + blk0.skip(i as int));
            assert(b@.skip(j as int) =~= seq![b@[j as int]] + b@.skip(i as int));
            assert(cur[j as int] == blk0[j as int]) by {
                assert(cur.take(i as int)[j as int] == blk0.take(i as int)[j as int]);
            }
            lemma_be_cons(digit, cur.skip(i as int));
            lemma_be_cons(blk0[j as int], blk0.skip(i as int));
            lemma_be_cons(b@[j as int], b@.skip(i as int));
            assert(cur.skip(i as int).len() == n - i);
            assert(pow256((n - j) as nat) == 256 * p);
            let tt = t as int;
            assert(tt == 256 * (tt / 256) + tt % 256);
            assert(digit * p + x * (256 * p) == tt * p) by (nonlinear_arith)
                requires
                    digit == tt % 256,
                    x == tt / 256,
                    tt == 256 * (tt / 256) + tt % 256,
            ;
            assert(tt * p == x0 * p + b@[j as int] * p + blk0[j as int] * p) by (nonlinear_arith)
                requires
                    tt == x0 + b@[j as int] + blk0[j as int],
            ;
            assert(cur2.take(j as int) =~= cur.take(j as int));
            assert(cur.take(j as int) =~= cur.take(i as int).take(j as int));
            assert(blk0.take(j as int) =~= blk0.take(i as int).take(j as int));
            assert(buf@.take(off as int) =~= before);
            assert(buf@.skip(off + n) =~= after);
        }
        i = j;
    }
    proof {
        let cur = buf@.subrange(off as int, off + n);
        let pn = pow256(n as nat);
        assert(cur.skip(0) =~= cur);
        assert(blk0.skip(0) =~= blk0);
        assert(b@.skip(0) =~= b@);
        lemma_be_bound(cur);
        let total = be(blk0) + be(b@) + 1int;
        lemma_fundamental_div_mod_converse(total, pn as int, x as int, be(cur) as int);
        lemma_to_be_of_be(cur);
        assert(buf@ =~= before + cur + after);
    }
}

/// The password encoded as the derivation consumes it.
fn encode_password(password: &str) -> (r: Vec<u8>)
    ensures
        r@ == password_bytes(password@),
{
    let mut r = match encode_utf16_be(password) {
        Some(v) => v,
        None => Vec::new(),
    };
    proof {
        lemma_utf16_be_len(password@);
    }
    r.push(0);
    r.push(0);
    assert(r@ =~= password_bytes(password@));
    r
}

proof fn lemma_adjust_blocks_len(i: Seq<u8>, b: Seq<u8>)
    ensures
        adjust_blocks(i, b).len() == i.len(),
    decreases i.len(),
{
    if i.len() >= 64 {
        lemma_adjust_blocks_len(i.take(i.len() - 64), b);
        lemma_to_be_len(
            (be(i.skip(i.len() - 64)) + be(b) + 1) % pow256(64),
            64,
        );
    }
}

/// Adds `b` plus one to every 64-byte block of `buf`.
fn adjust_all(buf: &mut Vec<u8>, b: &[u8])
    requires
        b@.len() == 64,
        old(buf)@.len() % 64 == 0,
    ensures
        final(buf)@ == adjust_blocks(old(buf)@, b@),
{
    let ghost start = buf@;
    let blocks = buf.len() / 64;
    let mut j: usize = 0;
    assert(start.take(0) =~= Seq::<u8>::empty());
    assert(start.skip(0) =~= start);
    while j < blocks
        invariant
            b@.len() == 64,
            start.len() == 64 * blocks,
            64 * blocks <= usize::MAX,
            j <= blocks,
            buf@ == adjust_blocks(start.take(64 * j), b@) + start.skip(64 * j),
        decreases blocks - j,
    {
        let ghost prev = buf@;
        proof {
            lemma_adjust_blocks_len(start.take(64 * j), b@);
        }
        adjust(buf, j * 64, b);
        proof {
            let lo = 64 * j;
            let hi = 64 * j + 64;
            let t = start.take(hi);
            assert(t.take(t.len() - 64) =~= start.take(lo));
            assert(t.skip(t.len() - 64) =~= start.subrange(lo, hi));
            assert(prev.take(lo) =~= adjust_blocks(start.take(lo), b@));
            assert(prev.subrange(lo, hi) =~= start.subrange(lo, hi));
            assert(prev.skip(hi) =~= start.skip(hi));
            assert(buf@ =~= adjust_blocks(t, b@) + start.skip(hi));
        }
        j = j + 1;
    }
    assert(start.take(64 * j) =~= start);
    assert(start.skip(64 * j) =~= Seq::<u8>::empty());
    assert(buf@ =~= adjust_blocks(start, b@));
}

/// Derives `key_size` bytes of key material for `purpose` from `password`,
/// `salt` and `iteration_count`, as RFC 7292 (appendix B) does with SHA-1.
pub fn derive_key(
    purpose: u8,
    password: &str,
    salt: &[u8],
    iteration_count: u32,
    key_size: u32,
) -> (r: Vec<u8>)
    requires
        salt@.len() + 4 * password@.len() + 256 <= usize::MAX,
        key_size + 20 <= usize::MAX,
    ensures
        r@ == derive_spec(purpose, password@, salt@, iteration_count, key_size),
        r@.len() == key_size,
        derive_rounds(purpose, password@, salt@, iteration_count, rounds_for(key_size)).len() == 20
            * rounds_for(key_size),
{
    let u = sha1_output_size();
    let v = sha1_block_size();
    let encoded = encode_password(password);
    proof {
        lemma_utf16_be_len(password@);
    }
    let mut d: Vec<u8> = Vec::new();
    while d.len() < v
        invariant
            v == 64,
            d@.len() <= 64,
            forall|k: int| 0 <= k < d@.len() ==> d@[k] == purpose,
        decreases 64 - d@.len(),
    {
        d.push(purpose);
    }
    let ghost dd = Seq::new(64, |k: int| purpose);
    assert(d@ =~= dd);
    let mut i_buf = diversify_bytes(salt);
    let p = diversify_bytes(encoded.as_slice());
    append_bytes(&mut i_buf, p.as_slice());
    let ghost i0 = i_buf@;
    proof {
        lemma_round_up_64(salt@.len());
        lemma_round_up_64(encoded@.len());
        assert(i0 =~= diversify(salt@) + diversify(password_bytes(password@)));
    }
    let c: usize = (key_size as usize + u - 1) / u;
    proof {
        lemma_fundamental_div_mod(key_size + 19, 20);
    }
    let mut derived: Vec<u8> = Vec::new();
    let mut round: usize = 0;
    assert(derived@ + kdf_rounds(dd, i_buf@, iteration_count, (c - round) as nat) =~= kdf_rounds(
        dd,
        i0,
        iteration_count,
        c as nat,
    ));
    while round < c
        invariant
            u == 20,
            v == 64,
            d@ == dd,
            dd == Seq::new(64, |k: int| purpose),
            round <= c,
            20 * c <= key_size + 19,
            key_size <= 20 * c,
            key_size + 20 <= usize::MAX,
            i_buf@.len() == i0.len(),
            i0.len() % 64 == 0,
            i0.len() + 64 <= usize::MAX,
            derived@.len() == 20 * round,
            derived@ + kdf_rounds(dd, i_buf@, iteration_count, (c - round) as nat) == kdf_rounds(
                dd,
                i0,
                iteration_count,
                c as nat,
            ),
        decreases c - round,
    {
        let ghost i_r = i_buf@;
        let mut di: Vec<u8> = Vec::new();
        append_bytes(&mut di, d.as_slice());
        append_bytes(&mut di, i_buf.as_slice());
        let mut a = sha1_digest(di.as_slice());
        let ghost target = round_digest(dd, i_r, iteration_count);
        let mut k: u32 = 1;
        while k < iteration_count
            invariant
                k >= 1,
                a@.len() == 20,
                rehash(
                    a@,
                    (if iteration_count > k {
                        iteration_count - k
                    } else {
                        0
                    }) as nat,
                ) == target,
            decreases iteration_count - k,
        {
            a = sha1_digest(a.as_slice());
            k = k + 1;
        }
        let b = cycle_to(a.as_slice(), v);
        adjust_all(&mut i_buf, b.as_slice());
        proof {
            lemma_adjust_blocks_len(i_r, b@);
        }
        let ghost before = derived@;
        append_bytes(&mut derived, a.as_slice());
        proof {
            let m = (c - round) as nat;
            assert(kdf_rounds(dd, i_r, iteration_count, m) == a@ + kdf_rounds(
                dd,
                i_buf@,
                iteration_count,
                (m - 1) as nat,
            ));
            assert(derived@ + kdf_rounds(dd, i_buf@, iteration_count, (m - 1) as nat) =~= before
                + kdf_rounds(dd, i_r, iteration_count, m));
        }
        round = round + 1;
    }
    assert(derived@ =~= kdf_rounds(dd, i0, iteration_count, c as nat));
    assert(derived@ == derive_rounds(purpose, password@, salt@, iteration_count, rounds_for(key_size)));
    derived.truncate(key_size as usize);
    derived
}

/// Fewer rounds give a prefix of the output of more rounds.
proof fn lemma_rounds_prefix(d: Seq<u8>, i: Seq<u8>, iterations: u32, c: nat, e: nat)
    requires
        c <= e,
    ensures
        kdf_rounds(d, i, iterations, e).take(kdf_rounds(d, i, iterations, c).len() as int)
            == kdf_rounds(d, i, iterations, c),
        kdf_rounds(d, i, iterations, c).len() <= kdf_rounds(d, i, iterations, e).len(),
    decreases c,
{
    if c > 0 {
        let a = round_digest(d, i, iterations);
        let next = adjust_blocks(i, cycle(a, 64));
        lemma_rounds_prefix(d, next, iterations, (c - 1) as nat, (e - 1) as nat);
        let short = kdf_rounds(d, next, iterations, (c - 1) as nat);
        let long = kdf_rounds(d, next, iterations, (e - 1) as nat);
        assert((a + long).take(a.len() + short.len() as int) =~= a + long.take(short.len() as int));
    } else {
        assert(kdf_rounds(d, i, iterations, e).take(0) =~= Seq::<u8>::empty());
    }
}

/// A shorter derived key is a prefix of a longer one with the same other
/// inputs, given the round lengths that `derive_key` ensures for both.
pub proof fn lemma_derive_prefix(
    purpose: u8,
    password: Seq<char>,
    salt: Seq<u8>,
    iterations: u32,
    m: u32,
    n: u32,
)
    requires
        m <= n,
        derive_rounds(purpose, password, salt, iterations, rounds_for(m)).len() == 20
            * rounds_for(m),
        derive_rounds(purpose, password, salt, iterations, rounds_for(n)).len() == 20
            * rounds_for(n),
    ensures
        derive_spec(purpose, password, salt, iterations, m) == derive_spec(
            purpose,
            password,
            salt,
            iterations,
            n,
        ).take(m as int),
{
    let d = Seq::new(64, |k: int| purpose);
    let i = diversify(salt) + diversify(password_bytes(password));
    let cm = rounds_for(m);
    let cn = rounds_for(n);
    assert(cm <= cn);
    lemma_rounds_prefix(d, i, iterations, cm, cn);
    let short = kdf_rounds(d, i, iterations, cm);
    let long = kdf_rounds(d, i, iterations, cn);
    lemma_fundamental_div_mod(m + 19, 20);
    assert(m <= short.len());
    assert(short.take(m as int) =~= long.take(short.len() as int).take(m as int));
    assert(long.take(short.len() as int).take(m as int) =~= long.take(n as int).take(m as int));
}

} // verus!
