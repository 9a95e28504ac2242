//! The LSB-first bit stream into which LZW codes are packed.
//!
//! The stream is modeled as a sequence of booleans; packing works by plain
//! arithmetic (addition to append bits above the current ones, remainder and
//! division to peel whole bytes off the bottom), and the lemmas here justify
//! those moves.

use vstd::arithmetic::power2::{
    lemma2_to64,
    lemma_pow2_adds,
    lemma_pow2_strictly_increases,
    lemma_pow2_unfold,
    pow2,
};
use vstd::prelude::*;

verus! {

/// The low `n` bits of `v`, least significant first.
pub open spec fn low_bits(v: nat, n: nat) -> Seq<bool>
    decreases n,
{
    if n == 0 {
        Seq::<bool>::empty()
    } else {
        seq![v % 2 == 1] + low_bits(v / 2, (n - 1) as nat)
    }
}

/// The eight bits of one byte, least significant first.
pub open spec fn byte_bits(b: u8) -> Seq<bool> {
    low_bits(b as nat, 8)
}

/// The bits of a byte sequence, in order, each byte LSB first.
pub open spec fn bytes_bits(s: Seq<u8>) -> Seq<bool>
    decreases s.len(),
{
    if s.len() == 0 {
        Seq::<bool>::empty()
    } else {
        byte_bits(s[0]) + bytes_bits(s.skip(1))
    }
}

/// `bits` extended with cleared padding bits to the next byte boundary.
pub open spec fn padded_bits(bits: Seq<bool>) -> Seq<bool> {
    bits + Seq::new((((8 - bits.len() % 8) % 8) as nat), |i: int| false)
}

pub proof fn lemma_low_bits_len(v: nat, n: nat)
    ensures
        low_bits(v, n).len() == n,
    decreases n,
{
    if n > 0 {
        lemma_low_bits_len(v / 2, (n - 1) as nat);
    }
}

/// The bits of zero are all clear.
pub proof fn lemma_low_bits_zero(n: nat)
    ensures
        low_bits(0, n).len() == n,
        forall|i: int| 0 <= i < n ==> !low_bits(0, n)[i],
    decreases n,
{
    if n > 0 {
        lemma_low_bits_zero((n - 1) as nat);
        assert forall|i: int| 0 <= i < n implies !low_bits(0, n)[i] by {
            if i > 0 {
                assert(low_bits(0, n)[i] == low_bits(0, (n - 1) as nat)[i - 1]);
            }
        }
    }
}

/// Splitting a value at bit `n`: the low `n + m` bits of `a + b * 2^n` are
/// the `n` bits of `a` followed by the `m` bits of `b`.
pub proof fn lemma_low_bits_concat(a: nat, n: nat, b: nat, m: nat)
    requires
        a < pow2(n),
    ensures
        low_bits(a + b * pow2(n), n + m) == low_bits(a, n) + low_bits(b, m),
    decreases n,
{
    if n == 0 {
        assert(pow2(0) == 1) by {
            lemma2_to64();
        }
        assert(a == 0);
        assert(b * pow2(n) == b) by (nonlinear_arith)
            requires
                pow2(n) == 1,
        ;
        assert(a + b * pow2(n) == b);
        assert(low_bits(a, n) + low_bits(b, m) =~= low_bits(b, m));
    } else {
        let v = a + b * pow2(n);
        let p = pow2((n - 1) as nat);
        assert(pow2(n) == 2 * p) by {
            lemma_pow2_unfold(n);
        }
        assert(v == a + 2 * (b * p)) by (nonlinear_arith)
            requires
                v == a + b * (2 * p),
        ;
        assert(v % 2 == a % 2 && v / 2 == a / 2 + b * p) by (nonlinear_arith)
            requires
                v == a + 2 * (b * p),
        ;
        assert(a / 2 < p) by (nonlinear_arith)
            requires
                a < 2 * p,
        ;
        lemma_low_bits_concat(a / 2, (n - 1) as nat, b, m);
        assert(low_bits(v, n + m) =~= seq![v % 2 == 1] + low_bits(v / 2, (n + m - 1) as nat));
        assert(low_bits(a, n) == seq![a % 2 == 1] + low_bits(a / 2, (n - 1) as nat));
        assert(low_bits(v, n + m) =~= low_bits(a, n) + low_bits(b, m));
    }
}

/// Appending `m` bits below `2^m` to an `n`-bit buffer keeps the buffer
/// below `2^(n + m)`.
pub proof fn lemma_packed_value_bound(a: nat, n: nat, b: nat, m: nat)
    requires
        a < pow2(n),
        b < pow2(m),
    ensures
        a + b * pow2(n) < pow2(n + m),
{
    lemma_pow2_adds(n, m);
    assert(a + b * pow2(n) < pow2(n) * pow2(m)) by (nonlinear_arith)
        requires
            a < pow2(n),
            b < pow2(m),
    ;
}

/// Peeling one byte off the bottom of an `n`-bit buffer.
pub proof fn lemma_low_bits_split_byte(v: nat, n: nat)
    requires
        n >= 8,
    ensures
        low_bits(v, n) == byte_bits((v % 256) as u8) + low_bits(v / 256, (n - 8) as nat),
{
    lemma2_to64();
    assert(v == v % 256 + (v / 256) * 256) by (nonlinear_arith);
    lemma_low_bits_concat(v % 256, 8, v / 256, (n - 8) as nat);
}

/// The quotient by 256 of an `n`-bit value is an `(n - 8)`-bit value.
pub proof fn lemma_byte_quotient_bound(v: nat, n: nat)
    requires
        v < pow2(n),
        n >= 8,
    ensures
        v / 256 < pow2((n - 8) as nat),
{
    lemma_pow2_adds((n - 8) as nat, 8);
    lemma2_to64();
    assert(v / 256 < pow2((n - 8) as nat)) by (nonlinear_arith)
        requires
            v < pow2((n - 8) as nat) * 256,
    ;
}

/// A byte stream carries eight bits per byte.
pub proof fn lemma_bytes_bits_len(s: Seq<u8>)
    ensures
        bytes_bits(s).len() == 8 * s.len(),
    decreases s.len(),
{
    if s.len() > 0 {
        lemma_low_bits_len(s[0] as nat, 8);
        lemma_bytes_bits_len(s.skip(1));
    }
}

/// Appending a byte to a stream appends its eight bits.
pub proof fn lemma_bytes_bits_push(s: Seq<u8>, b: u8)
    ensures
        bytes_bits(s.push(b)) == bytes_bits(s) + byte_bits(b),
    decreases s.len(),
{
    if s.len() == 0 {
        lemma_low_bits_len(b as nat, 8);
        assert(s.push(b)[0] == b);
        assert(s.push(b).skip(1) =~= Seq::<u8>::empty());
        assert(bytes_bits(s.push(b)) == byte_bits(b) + bytes_bits(Seq::<u8>::empty()));
        assert(byte_bits(b) + Seq::<bool>::empty() =~= byte_bits(b));
        assert(bytes_bits(s) + byte_bits(b) =~= byte_bits(b));
    } else {
        assert(s.push(b)[0] == s[0]);
        assert(s.push(b).skip(1) =~= s.skip(1).push(b));
        lemma_bytes_bits_push(s.skip(1), b);
        assert(bytes_bits(s.push(b)) == byte_bits(s[0]) + bytes_bits(s.skip(1).push(b)));
        assert(bytes_bits(s) == byte_bits(s[0]) + bytes_bits(s.skip(1)));
        assert(byte_bits(s[0]) + (bytes_bits(s.skip(1)) + byte_bits(b)) =~= (byte_bits(s[0])
            + bytes_bits(s.skip(1))) + byte_bits(b));
        assert(bytes_bits(s.push(b)) == byte_bits(s[0]) + (bytes_bits(s.skip(1)) + byte_bits(
            b,
        )));
        assert(bytes_bits(s.push(b)) == bytes_bits(s) + byte_bits(b));
    }
}

/// 2^e as a machine integer, for the small exponents the codec uses.
pub fn pow2_u32(e: u32) -> (r: u32)
    requires
        e <= 16,
    ensures
        r as nat == pow2(e as nat),
{
    proof {
        lemma2_to64();
    }
    let mut r: u32 = 1;
    let mut i: u32 = 0;
    while i < e
        invariant
            i <= e <= 16,
            r as nat == pow2(i as nat),
            r <= 0x10000,
        decreases e - i,
    {
        proof {
            lemma2_to64();
            lemma_pow2_unfold((i + 1) as nat);
            if i + 1 < 16 {
                lemma_pow2_strictly_increases((i + 1) as nat, 16);
            }
        }
        r = r * 2;
        i = i + 1;
    }
    r
}

} // verus!
