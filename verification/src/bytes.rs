//! Unsigned integers as big-endian byte strings.

use vstd::prelude::*;

verus! {

/// `256` to the power `n`.
pub open spec fn pow256(n: nat) -> nat
    decreases n,
{
    if n == 0 {
        1
    } else {
        256 * pow256((n - 1) as nat)
    }
}

/// The low `n` bytes of `v`, most significant first (what `to_be_bytes`
/// writes for an `n`-byte integer).
pub open spec fn be_bytes(v: nat, n: nat) -> Seq<u8>
    decreases n,
{
    if n == 0 {
        seq![]
    } else {
        be_bytes(v / 256, (n - 1) as nat).push((v % 256) as u8)
    }
}

/// The number that a big-endian byte string denotes (what `from_be_bytes`
/// reads).
pub open spec fn be_value(s: Seq<u8>) -> nat
    decreases s.len(),
{
    if s.len() == 0 {
        0
    } else {
        be_value(s.drop_last()) * 256 + (s.last() as nat)
    }
}

pub proof fn lemma_pow256_facts()
    ensures
        pow256(8) == 0x1_0000_0000_0000_0000,
        pow256(16) == 0x1_0000_0000_0000_0000_0000_0000_0000_0000,
{
    reveal_with_fuel(pow256, 17);
}

pub proof fn lemma_pow256_monotone(i: nat, j: nat)
    requires
        i <= j,
    ensures
        1 <= pow256(i) <= pow256(j),
    decreases j,
{
    if j > 0 {
        if j > i {
            lemma_pow256_monotone(i, (j - 1) as nat);
        } else {
            lemma_pow256_monotone((j - 1) as nat, (j - 1) as nat);
        }
    }
}

/// `n` bytes are written, whatever the value.
pub proof fn lemma_be_bytes_len(v: nat, n: nat)
    ensures
        be_bytes(v, n).len() == n,
    decreases n,
{
    if n > 0 {
        lemma_be_bytes_len(v / 256, (n - 1) as nat);
    }
}

/// A string of `n` bytes denotes a number below `256` to the power `n`.
pub proof fn lemma_be_value_bound(s: Seq<u8>)
    ensures
        be_value(s) < pow256(s.len()),
    decreases s.len(),
{
    if s.len() > 0 {
        lemma_be_value_bound(s.drop_last());
        let a = be_value(s.drop_last());
        let p = pow256((s.len() - 1) as nat);
        assert(a * 256 + (s.last() as nat) < 256 * p) by (nonlinear_arith)
            requires
                a < p,
                (s.last() as nat) < 256,
        ;
    }
}

/// Reading back the bytes of a number that fits gives the number.
pub proof fn lemma_be_roundtrip(v: nat, n: nat)
    requires
        v < pow256(n),
    ensures
        be_value(be_bytes(v, n)) == v,
    decreases n,
{
    if n > 0 {
        let p = pow256((n - 1) as nat);
        assert(v / 256 < p) by (nonlinear_arith)
            requires
                v < 256 * p,
        ;
        lemma_be_roundtrip(v / 256, (n - 1) as nat);
        let s = be_bytes(v, n);
        assert(s.drop_last() == be_bytes(v / 256, (n - 1) as nat));
    }
}

/// Writing the number that a byte string denotes gives the string again.
pub proof fn lemma_be_bytes_of_value(s: Seq<u8>)
    ensures
        be_bytes(be_value(s), s.len()) == s,
    decreases s.len(),
{
    if s.len() > 0 {
        lemma_be_bytes_of_value(s.drop_last());
        let a = be_value(s.drop_last());
        let l = s.last() as nat;
        assert((a * 256 + l) / 256 == a && (a * 256 + l) % 256 == l) by (nonlinear_arith)
            requires
                l < 256,
        ;
        assert(be_bytes(be_value(s), s.len()) == s.drop_last().push(s.last()));
        assert(s.drop_last().push(s.last()) == s);
    }
}

/// Appends the low `n` bytes of `v`, most significant first.
pub fn push_be(out: &mut Vec<u8>, v: u128, n: usize)
    ensures
        final(out)@ == old(out)@ + be_bytes(v as nat, n as nat),
    decreases n,
{
    if n > 0 {
        push_be(out, v / 256, n - 1);
        out.push((v % 256) as u8);
    }
}

/// The number that the `n` bytes of `b` starting at `off` denote,
/// big-endian.
pub fn read_be(b: &[u8], off: usize, n: usize) -> (r: u128)
    requires
        off + n <= b.len(),
        n <= 16,
    ensures
        r as nat == be_value(b@.subrange(off as int, off + n)),
{
    let ghost s = b@.subrange(off as int, off + n);
    let mut acc: u128 = 0;
    let mut i: usize = 0;
    proof {
        lemma_pow256_facts();
        lemma_pow256_monotone(n as nat, 16);
    }
    while i < n
        invariant
            i <= n <= 16,
            off + n <= b.len(),
            s == b@.subrange(off as int, off + n),
            acc as nat == be_value(s.take(i as int)),
            pow256(n as nat) <= pow256(16),
            pow256(16) == 0x1_0000_0000_0000_0000_0000_0000_0000_0000,
        decreases n - i,
    {
        proof {
            let t = s.take(i + 1);
            assert(t.drop_last() == s.take(i as int));
            lemma_be_value_bound(t);
            lemma_pow256_monotone((i + 1) as nat, n as nat);
        }
        acc = acc * 256 + (b[off + i] as u128);
        i += 1;
    }
    assert(s.take(n as int) == s);
    acc
}

} // verus!
