//! Big-endian numbers as byte strings: the value of a byte string, the
//! byte string of a value, and the facts that relate the two.

use vstd::arithmetic::div_mod::lemma_fundamental_div_mod_converse;
use vstd::prelude::*;

verus! {

/// 256 to the power `n`.
pub open spec fn pow256(n: nat) -> nat
    decreases n,
{
    if n == 0 {
        1
    } else {
        256 * pow256((n - 1) as nat)
    }
}

/// The unsigned number whose big-endian encoding is `s`.
pub open spec fn be(s: Seq<u8>) -> nat
    decreases s.len(),
{
    if s.len() == 0 {
        0
    } else {
        (be(s.drop_last()) * 256 + s.last()) as nat
    }
}

/// The `k` least significant bytes of `x`, most significant first.
pub open spec fn to_be(x: nat, k: nat) -> Seq<u8>
    decreases k,
{
    if k == 0 {
        Seq::empty()
    } else {
        to_be(x / 256, (k - 1) as nat).push((x % 256) as u8)
    }
}

pub proof fn lemma_pow256_positive(n: nat)
    ensures
        pow256(n) >= 1,
    decreases n,
{
    if n > 0 {
        lemma_pow256_positive((n - 1) as nat);
    }
}

pub proof fn lemma_pow256_small()
    ensures
        pow256(8) == 0x1_0000_0000_0000_0000,
        pow256(4) == 0x1_0000_0000,
        pow256(2) == 0x1_0000,
        pow256(1) == 0x100,
{
    reveal_with_fuel(pow256, 9);
}

/// A number of `n` bytes is below `256^n`.
pub proof fn lemma_be_bound(s: Seq<u8>)
    ensures
        be(s) < pow256(s.len()),
    decreases s.len(),
{
    if s.len() > 0 {
        lemma_be_bound(s.drop_last());
        let p = pow256((s.len() - 1) as nat);
        let h = be(s.drop_last());
        let l = s.last() as int;
        assert(h * 256 + l < p * 256) by (nonlinear_arith)
            requires
                h < p,
                0 <= l < 256,
        ;
    }
}

/// The value of a concatenation: the head shifted past the tail.
pub proof fn lemma_be_append(a: Seq<u8>, b: Seq<u8>)
    ensures
        be(a + b) == be(a) * pow256(b.len()) + be(b),
    decreases b.len(),
{
    if b.len() == 0 {
        assert(a + b =~= a);
        assert(pow256(0) == 1);
        assert(be(b) == 0);
    } else {
        assert((a + b).drop_last() =~= a + b.drop_last());
        assert((a + b).last() == b.last());
        lemma_be_append(a, b.drop_last());
        let x = be(a);
        let p = pow256((b.len() - 1) as nat);
        let y = be(b.drop_last());
        assert(be(a + b) == (x * p + y) * 256 + b.last());
        assert(be(b) == y * 256 + b.last());
        assert(pow256(b.len()) == 256 * p);
        assert((x * p + y) * 256 == x * (256 * p) + y * 256) by (nonlinear_arith);
    }
}

/// The value of a byte string that starts with `c`.
pub proof fn lemma_be_cons(c: u8, s: Seq<u8>)
    ensures
        be(seq![c] + s) == c * pow256(s.len()) + be(s),
{
    lemma_be_append(seq![c], s);
    assert(seq![c].drop_last() =~= Seq::<u8>::empty());
    assert(be(seq![c]) == be(Seq::<u8>::empty()) * 256 + c);
}

pub proof fn lemma_to_be_len(x: nat, k: nat)
    ensures
        to_be(x, k).len() == k,
    decreases k,
{
    if k > 0 {
        lemma_to_be_len(x / 256, (k - 1) as nat);
    }
}

/// Encoding the value of a byte string at its own length gives it back.
pub proof fn lemma_to_be_of_be(s: Seq<u8>)
    ensures
        to_be(be(s), s.len()) == s,
    decreases s.len(),
{
    if s.len() > 0 {
        let h = be(s.drop_last());
        let l = s.last() as int;
        lemma_fundamental_div_mod_converse(be(s) as int, 256, h as int, l);
        lemma_to_be_of_be(s.drop_last());
        assert(to_be(be(s), s.len()) =~= s.drop_last().push(s.last()));
        assert(s.drop_last().push(s.last()) =~= s);
    }
}

/// Appends `src` to `dst`.
pub(crate) fn append_bytes(dst: &mut Vec<u8>, src: &[u8])
    requires
        old(dst)@.len() + src@.len() <= usize::MAX,
    ensures
        final(dst)@ == old(dst)@ + src@,
{
    let ghost start = dst@;
    let mut k: usize = 0;
    while k < src.len()
        invariant
            k <= src@.len(),
            start.len() + src@.len() <= usize::MAX,
            dst@ == start + src@.take(k as int),
        decreases src@.len() - k,
    {
        dst.push(src[k]);
        k = k + 1;
        assert(src@.take(k as int) =~= src@.take(k - 1 as int).push(src@[k - 1]));
    }
    assert(src@.take(k as int) =~= src@);
}

} // verus!
