//! Little-endian numbers in byte sequences.
use vstd::prelude::*;

verus! {

/// The number that `s` holds, least significant byte first.
pub open spec fn le_value(s: Seq<u8>) -> nat
    decreases s.len(),
{
    if s.len() == 0 {
        0
    } else {
        s[0] as nat + 256 * le_value(s.drop_first())
    }
}

/// 256 to the power of `k`.
pub open spec fn pow256(k: nat) -> nat
    decreases k,
{
    if k == 0 {
        1
    } else {
        256 * pow256((k - 1) as nat)
    }
}

/// A number of `k` bytes is below 256 to the power of `k`.
pub proof fn lemma_le_value_bound(s: Seq<u8>)
    ensures
        le_value(s) < pow256(s.len()),
    decreases s.len(),
{
    if s.len() > 0 {
        lemma_le_value_bound(s.drop_first());
        assert(s[0] as nat + 256 * le_value(s.drop_first()) < 256 * pow256((s.len() - 1) as nat)) by (nonlinear_arith)
            requires
                s[0] < 256,
                le_value(s.drop_first()) < pow256((s.len() - 1) as nat),
        ;
    }
}

/// Eight bytes hold a number that fits 64 bits; four, one that fits 32.
pub proof fn lemma_pow256_values()
    ensures
        pow256(0) == 1,
        pow256(4) == 0x1_0000_0000,
        pow256(8) == 0x1_0000_0000_0000_0000,
{
    reveal_with_fuel(pow256, 10);
}

/// `pow256` grows with its argument.
pub proof fn lemma_pow256_monotonic(a: nat, b: nat)
    requires
        a <= b,
    ensures
        pow256(a) <= pow256(b),
        pow256(a) >= 1,
    decreases b,
{
    if a < b {
        lemma_pow256_monotonic(a, (b - 1) as nat);
    } else if a > 0 {
        lemma_pow256_monotonic((a - 1) as nat, (a - 1) as nat);
    }
}

/// Reads up to eight bytes as a little-endian number.
pub fn read_le(bytes: &Vec<u8>) -> (v: u64)
    requires
        bytes.len() <= 8,
    ensures
        v == le_value(bytes@),
{
    let n: usize = bytes.len();
    let mut v: u64 = 0;
    let mut i: usize = n;
    proof {
        assert(bytes@.subrange(n as int, n as int) =~= Seq::<u8>::empty());
        lemma_pow256_values();
    }
    while i > 0
        invariant
            i <= n,
            n == bytes.len(),
            n <= 8,
            v == le_value(bytes@.subrange(i as int, n as int)),
            v < pow256((n - i) as nat),
        decreases i,
    {
        i -= 1;
        proof {
            let tail = bytes@.subrange(i + 1, n as int);
            let whole = bytes@.subrange(i as int, n as int);
            assert(whole.drop_first() =~= tail);
            assert(whole[0] == bytes@[i as int]);
            lemma_pow256_values();
            lemma_pow256_monotonic((n - i) as nat, 8);
            assert(256 * v + bytes@[i as int] < 256 * pow256((n - i - 1) as nat)) by (nonlinear_arith)
                requires
                    v < pow256((n - i - 1) as nat),
                    bytes@[i as int] < 256,
            ;
        }
        v = v * 256 + bytes[i] as u64;
    }
    proof {
        assert(bytes@.subrange(0, n as int) =~= bytes@);
    }
    v
}

} // verus!
