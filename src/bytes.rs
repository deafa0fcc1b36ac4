//! Big-endian integers read from byte sequences.

use vstd::prelude::*;

verus! {

/// `256` to the power `k`.
pub open spec fn pow256(k: nat) -> nat
    decreases k,
{
    if k == 0 {
        1
    } else {
        256 * pow256((k - 1) as nat)
    }
}

/// The unsigned value of `b`, most significant byte first.
pub open spec fn be_value(b: Seq<u8>) -> nat
    decreases b.len(),
{
    if b.len() == 0 {
        0
    } else {
        be_value(b.drop_last()) * 256 + b.last() as nat
    }
}

/// The two's complement value of `b`, most significant byte first: the sign
/// is taken from the top bit of the first byte.
pub open spec fn be_signed(b: Seq<u8>) -> int {
    if b.len() > 0 && b[0] >= 128 {
        be_value(b) - pow256(b.len())
    } else {
        be_value(b) as int
    }
}

/// The unsigned value of `b`, least significant byte first.
pub open spec fn le_value(b: Seq<u8>) -> nat
    decreases b.len(),
{
    if b.len() == 0 {
        0
    } else {
        le_value(b.drop_first()) * 256 + b[0] as nat
    }
}

pub proof fn lemma_pow256_positive(k: nat)
    ensures
        pow256(k) >= 1,
    decreases k,
{
    if k > 0 {
        lemma_pow256_positive((k - 1) as nat);
    }
}

pub proof fn lemma_be_value_bound(b: Seq<u8>)
    ensures
        be_value(b) < pow256(b.len()),
    decreases b.len(),
{
    if b.len() > 0 {
        let p = b.drop_last();
        lemma_be_value_bound(p);
        let v = be_value(p);
        let q = pow256(p.len());
        let l = b.last() as nat;
        assert(v * 256 + l < 256 * q) by (nonlinear_arith)
            requires
                v < q,
                l < 256,
        ;
    }
}

pub proof fn lemma_pow256_small()
    ensures
        pow256(1) == 0x100,
        pow256(2) == 0x1_0000,
        pow256(3) == 0x100_0000,
        pow256(4) == 0x1_0000_0000,
        pow256(5) == 0x100_0000_0000,
        pow256(6) == 0x1_0000_0000_0000,
        pow256(7) == 0x100_0000_0000_0000,
        pow256(8) == 0x1_0000_0000_0000_0000,
{
    reveal_with_fuel(pow256, 9);
}

/// Reads `k` bytes at `pos` as a big-endian unsigned integer.
pub fn read_be(data: &[u8], pos: usize, k: usize) -> (r: u64)
    requires
        k <= 8,
        pos + k <= data@.len(),
    ensures
        r == be_value(data@.subrange(pos as int, pos + k)),
{
    let n = data.len();
    let mut acc: u64 = 0;
    let mut i: usize = 0;
    while i < k
        invariant
            n == data@.len(),
            i <= k <= 8,
            pos + k <= data@.len(),
            acc == be_value(data@.subrange(pos as int, pos + i)),
        decreases k - i,
    {
        proof {
            let b = data@.subrange(pos as int, pos + i + 1);
            assert(b.drop_last() =~= data@.subrange(pos as int, pos + i));
            lemma_be_value_bound(b);
            lemma_pow256_small();
            assert(pow256((i + 1) as nat) <= pow256(8)) by {
                lemma_pow256_monotone((i + 1) as nat, 8);
            }
        }
        acc = acc * 256 + data[pos + i] as u64;
        i += 1;
    }
    acc
}

pub proof fn lemma_pow256_monotone(a: nat, b: nat)
    requires
        a <= b,
    ensures
        pow256(a) <= pow256(b),
    decreases b,
{
    if a < b {
        lemma_pow256_monotone(a, (b - 1) as nat);
        lemma_pow256_positive((b - 1) as nat);
    }
}

/// The `k` low bytes of `x`, most significant first.
pub open spec fn be_bytes(x: nat, k: nat) -> Seq<u8>
    decreases k,
{
    if k == 0 {
        Seq::empty()
    } else {
        be_bytes(x / 256, (k - 1) as nat).push((x % 256) as u8)
    }
}

/// The `k`-byte two's complement encoding of `v`, most significant first.
pub open spec fn signed_bytes(v: int, k: nat) -> Seq<u8> {
    if v < 0 {
        be_bytes((v + pow256(k)) as nat, k)
    } else {
        be_bytes(v as nat, k)
    }
}

pub proof fn lemma_be_bytes_len(x: nat, k: nat)
    ensures
        be_bytes(x, k).len() == k,
    decreases k,
{
    if k > 0 {
        lemma_be_bytes_len(x / 256, (k - 1) as nat);
    }
}

/// Reading back the bytes of `x` gives `x` modulo `256^k`.
pub proof fn lemma_be_bytes_value(x: nat, k: nat)
    ensures
        be_value(be_bytes(x, k)) == x % pow256(k),
    decreases k,
{
    lemma_pow256_positive(k);
    if k == 0 {
    } else {
        let b = be_bytes(x, k);
        lemma_be_bytes_len(x, k);
        assert(b.drop_last() =~= be_bytes(x / 256, (k - 1) as nat));
        lemma_be_bytes_value(x / 256, (k - 1) as nat);
        lemma_pow256_positive((k - 1) as nat);
        vstd::arithmetic::div_mod::lemma_breakdown(x as int, 256, pow256((k - 1) as nat) as int);
        assert(256 * pow256((k - 1) as nat) == pow256(k));
        assert(((x / 256) % pow256((k - 1) as nat)) * 256 == 256 * ((x / 256) % pow256((k - 1) as nat))) by (nonlinear_arith);
    }
}

/// The first byte of the `k` bytes of `x < 256^k` is `x / 256^(k-1)`.
pub proof fn lemma_be_bytes_first(x: nat, k: nat)
    requires
        1 <= k,
        x < pow256(k),
    ensures
        be_bytes(x, k)[0] as nat == x / pow256((k - 1) as nat),
    decreases k,
{
    lemma_be_bytes_len(x, k);
    if k == 1 {
        assert(be_bytes(x / 256, 0) =~= Seq::<u8>::empty());
        assert(pow256(0) == 1);
    } else {
        lemma_pow256_positive((k - 2) as nat);
        let p = pow256((k - 2) as nat);
        assert(pow256((k - 1) as nat) == 256 * p);
        assert(pow256(k) == 256 * (256 * p));
        assert(x / 256 < 256 * p) by {
            vstd::arithmetic::div_mod::lemma_multiply_divide_lt(x as int, 256, (256 * p) as int);
        }
        lemma_be_bytes_first(x / 256, (k - 1) as nat);
        lemma_be_bytes_len(x / 256, (k - 1) as nat);
        assert(be_bytes(x, k)[0] == be_bytes(x / 256, (k - 1) as nat)[0]);
        vstd::arithmetic::div_mod::lemma_div_denominator(x as int, 256, p as int);
    }
}

/// Unsigned values of `k` bytes read back unchanged.
pub proof fn lemma_unsigned_round_trip(x: nat, k: nat)
    requires
        x < pow256(k),
    ensures
        be_bytes(x, k).len() == k,
        be_value(be_bytes(x, k)) == x,
{
    lemma_be_bytes_len(x, k);
    lemma_be_bytes_value(x, k);
    vstd::arithmetic::div_mod::lemma_small_mod(x, pow256(k));
}

/// Signed values of `k` bytes read back unchanged.
pub proof fn lemma_signed_round_trip(v: int, k: nat)
    requires
        1 <= k,
        -(pow256(k) / 2) <= v < pow256(k) / 2,
    ensures
        signed_bytes(v, k).len() == k,
        be_signed(signed_bytes(v, k)) == v,
{
    lemma_pow256_positive((k - 1) as nat);
    let q = pow256((k - 1) as nat);
    assert(pow256(k) == 256 * q);
    assert(pow256(k) / 2 == 128 * q);
    let x: nat = if v < 0 {
        (v + pow256(k)) as nat
    } else {
        v as nat
    };
    assert(signed_bytes(v, k) == be_bytes(x, k));
    lemma_unsigned_round_trip(x, k);
    lemma_be_bytes_first(x, k);
    if v < 0 {
        assert(x >= 128 * q);
        assert(x / q >= 128) by {
            vstd::arithmetic::div_mod::lemma_div_is_ordered((128 * q) as int, x as int, q as int);
            vstd::arithmetic::div_mod::lemma_div_multiples_vanish(128, q as int);
        }
    } else {
        assert(x < 128 * q);
        assert(x / q < 128) by {
            vstd::arithmetic::div_mod::lemma_multiply_divide_lt(x as int, q as int, 128);
            assert(q * 128 == 128 * q) by (nonlinear_arith);
        }
    }
}

} // verus!
