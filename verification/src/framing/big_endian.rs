//! Unsigned integers written as a fixed number of big-endian bytes.

use vstd::prelude::*;

verus! {

/// `256` raised to `n`: the number of values that fit in `n` bytes.
pub open spec fn pow256(n: nat) -> nat
    decreases n,
{
    if n == 0 {
        1
    } else {
        256 * pow256((n - 1) as nat)
    }
}

/// The number that the bytes `s` denote, most significant byte first.
pub open spec fn be_value(s: Seq<u8>) -> nat
    decreases s.len(),
{
    if s.len() == 0 {
        0
    } else {
        (be_value(s.drop_last()) * 256 + s.last()) as nat
    }
}

/// The `n` least significant bytes of `v`, most significant first.
pub open spec fn be_bytes(v: nat, n: nat) -> Seq<u8>
    decreases n,
{
    if n == 0 {
        Seq::empty()
    } else {
        be_bytes(v / 256, (n - 1) as nat).push((v % 256) as u8)
    }
}

/// `pow256` grows with its argument.
pub proof fn lemma_pow256_monotonic(i: nat, j: nat)
    requires
        i <= j,
    ensures
        pow256(i) <= pow256(j),
    decreases j,
{
    if i < j {
        lemma_pow256_monotonic(i, (j - 1) as nat);
    }
}

/// Eight bytes hold exactly the `u64` values.
pub proof fn lemma_pow256_eight()
    ensures
        pow256(8) == 0x1_0000_0000_0000_0000,
        pow256(2) == 0x1_0000,
{
    reveal_with_fuel(pow256, 9);
}

/// `be_bytes(v, n)` has `n` bytes.
pub proof fn lemma_be_bytes_len(v: nat, n: nat)
    ensures
        be_bytes(v, n).len() == n,
    decreases n,
{
    if n > 0 {
        lemma_be_bytes_len(v / 256, (n - 1) as nat);
    }
}

/// Writing a value that fits in `n` bytes and reading it back gives the value.
pub proof fn lemma_be_value_of_bytes(v: nat, n: nat)
    requires
        v < pow256(n),
    ensures
        be_value(be_bytes(v, n)) == v,
    decreases n,
{
    if n > 0 {
        lemma_be_value_of_bytes(v / 256, (n - 1) as nat);
        let rest = be_bytes(v / 256, (n - 1) as nat);
        assert(be_bytes(v, n).drop_last() =~= rest);
    }
}

/// Reading `n` bytes and writing the value back in `n` bytes gives the bytes.
pub proof fn lemma_bytes_of_be_value(s: Seq<u8>)
    ensures
        be_bytes(be_value(s), s.len()) == s,
    decreases s.len(),
{
    if s.len() > 0 {
        let v = be_value(s);
        let p = be_value(s.drop_last());
        assert(v / 256 == p);
        assert(v % 256 == s.last());
        lemma_bytes_of_be_value(s.drop_last());
        assert(be_bytes(v, s.len()) =~= s.drop_last().push(s.last()));
        assert(s.drop_last().push(s.last()) =~= s);
    }
}

/// The `n`-byte big-endian form of `v`, where `v` fits in `n` bytes.
pub fn encode_be(v: u64, n: usize) -> (r: Vec<u8>)
    requires
        v < pow256(n as nat),
    ensures
        r@ == be_bytes(v as nat, n as nat),
        r@.len() == n,
    decreases n,
{
    proof {
        lemma_be_bytes_len(v as nat, n as nat);
    }
    if n == 0 {
        Vec::new()
    } else {
        let mut r = encode_be(v / 256, n - 1);
        r.push((v % 256) as u8);
        r
    }
}

/// The value of the `n` bytes of `bytes` that start at `start`.
pub fn decode_be(bytes: &[u8], start: usize, n: usize) -> (v: u64)
    requires
        n <= 8,
        start + n <= bytes@.len(),
    ensures
        v == be_value(bytes@.subrange(start as int, start + n)),
{
    let len = bytes.len();
    let mut acc: u64 = 0;
    let mut i: usize = 0;
    proof {
        lemma_pow256_eight();
    }
    while i < n
        invariant
            i <= n,
            n <= 8,
            start + n <= bytes@.len(),
            len == bytes@.len(),
            pow256(8) == 0x1_0000_0000_0000_0000,
            acc == be_value(bytes@.subrange(start as int, start + i)),
            acc < pow256(i as nat),
        decreases n - i,
    {
        let ghost prefix = bytes@.subrange(start as int, start + i);
        let ghost next = bytes@.subrange(start as int, start + i + 1);
        assert(next.drop_last() =~= prefix);
        proof {
            lemma_pow256_monotonic((i + 1) as nat, 8);
        }
        let b = bytes[start + i];
        acc = acc * 256 + b as u64;
        i = i + 1;
    }
    acc
}

} // verus!
