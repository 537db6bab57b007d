//! Fixed-width little-endian byte layouts.

use crate::varuint::{lemma_pow256_mono, lemma_pow256_pos, lemma_pow256_step, lemma_pow256_values, pow256};
use vstd::arithmetic::div_mod::lemma_mod_breakdown;
use vstd::prelude::*;

verus! {

/// The low `k` bytes of `v`, least significant first.
pub open spec fn le_bytes(v: nat, k: nat) -> Seq<u8>
    decreases k,
{
    if k == 0 {
        Seq::empty()
    } else {
        seq![(v % 256) as u8] + le_bytes(v / 256, (k - 1) as nat)
    }
}

/// The number that the bytes `s` spell, least significant first.
pub open spec fn from_le(s: Seq<u8>) -> nat
    decreases s.len(),
{
    if s.len() == 0 {
        0
    } else {
        s[0] as nat + 256 * from_le(s.drop_first())
    }
}

pub proof fn lemma_le_bytes_len(v: nat, k: nat)
    ensures
        le_bytes(v, k).len() == k,
    decreases k,
{
    if k > 0 {
        lemma_le_bytes_len(v / 256, (k - 1) as nat);
    }
}

/// Reading back `k` written bytes gives the value modulo `256^k`.
pub proof fn lemma_from_le_bytes(v: nat, k: nat)
    ensures
        from_le(le_bytes(v, k)) == v % pow256(k),
    decreases k,
{
    if k > 0 {
        let s = le_bytes(v, k);
        lemma_from_le_bytes(v / 256, (k - 1) as nat);
        assert(s.drop_first() == le_bytes(v / 256, (k - 1) as nat));
        lemma_pow256_pos((k - 1) as nat);
        lemma_mod_breakdown(v as int, 256, pow256((k - 1) as nat) as int);
    }
}

pub proof fn lemma_from_le_bound(s: Seq<u8>)
    ensures
        from_le(s) < pow256(s.len()),
    decreases s.len(),
{
    if s.len() > 0 {
        lemma_from_le_bound(s.drop_first());
        lemma_pow256_step((s.len() - 1) as nat);
        let r = from_le(s.drop_first());
        let p = pow256((s.len() - 1) as nat);
        assert(s[0] + 256 * r < 256 * p) by (nonlinear_arith)
            requires
                r < p,
                s[0] < 256,
        ;
    }
}

/// Appends the low `k` bytes of `v`, least significant first.
pub(crate) fn push_le(out: &mut Vec<u8>, v: u128, k: usize)
    ensures
        final(out)@ == old(out)@ + le_bytes(v as nat, k as nat),
    decreases k,
{
    if k > 0 {
        out.push((v % 256) as u8);
        push_le(out, v / 256, k - 1);
        proof {
            assert(final(out)@ =~= old(out)@ + le_bytes(v as nat, k as nat));
        }
    }
}

/// The value of the `k` bytes at `pos`, least significant first.
pub(crate) fn read_le(input: &[u8], pos: usize, k: usize) -> (v: u128)
    requires
        k <= 16,
        pos + k <= input@.len(),
    ensures
        v == from_le(input@.subrange(pos as int, pos + k)),
{
    let len = input.len();
    let mut acc: u128 = 0;
    let mut i: usize = k;
    proof {
        lemma_pow256_values();
        assert(input@.subrange(pos + k, pos + k).len() == 0);
    }
    while i > 0
        invariant
            k <= 16,
            pos + k <= len == input@.len(),
            i <= k,
            acc == from_le(input@.subrange(pos + i, pos + k)),
            acc < pow256((k - i) as nat),
        decreases i,
    {
        let ghost t = input@.subrange(pos + i, pos + k);
        i = i - 1;
        let b = input[pos + i];
        proof {
            let t2 = input@.subrange(pos + i, pos + k);
            assert(t2.drop_first() == t);
            assert(t2[0] == b);
            lemma_pow256_step((k - i - 1) as nat);
            lemma_pow256_mono((k - i) as nat, 16);
            lemma_pow256_values();
            let p = pow256((k - i - 1) as nat);
            assert(b + 256 * acc < 256 * p) by (nonlinear_arith)
                requires
                    acc < p,
                    b < 256,
            ;
        }
        acc = b as u128 + 256 * acc;
    }
    acc
}

} // verus!
