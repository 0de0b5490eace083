use vstd::prelude::*;

verus! {

/// Zigzag: 0, -1, 1, -2, ... map to 0, 1, 2, 3, ...
pub open spec fn zigzag(x: int) -> int {
    if x >= 0 {
        2 * x
    } else {
        -2 * x - 1
    }
}

/// The inverse of [`zigzag`].
pub open spec fn unzigzag(u: int) -> int {
    if u % 2 == 0 {
        u / 2
    } else {
        -((u + 1) / 2)
    }
}

/// Number of bits of `x`: 0 for 0, else one more than the position of its highest set bit.
pub open spec fn bit_len(x: nat) -> nat
    decreases x,
{
    if x == 0 {
        0
    } else {
        1 + bit_len(x / 2)
    }
}

/// Bits needed to tell `n` choices apart: 0 when `n <= 1`, else the ceiling of log2 `n`.
pub open spec fn used_bits_spec(n: nat) -> nat {
    if n == 0 {
        0
    } else {
        bit_len((n - 1) as nat)
    }
}

/// Zigzag encoding of a signed 16-bit value.
pub fn signed_to_unsigned(a: i16) -> (r: u16)
    ensures
        r == zigzag(a as int),
{
    if a >= 0 {
        (a as u16) * 2
    } else {
        ((-(a as i32)) * 2 - 1) as u16
    }
}

/// Zigzag decoding into a signed 16-bit value.
pub fn unsigned_to_signed(r: u16) -> (a: i16)
    ensures
        a == unzigzag(r as int),
{
    if r % 2 == 0 {
        (r / 2) as i16
    } else {
        (-(((r as i32) + 1) / 2)) as i16
    }
}

/// Decoding undoes encoding.
pub proof fn lemma_zigzag_round_trip(a: i16)
    ensures
        unzigzag(zigzag(a as int)) == a,
        0 <= zigzag(a as int) <= 0xFFFF,
{
}

/// Encoding undoes decoding.
pub proof fn lemma_unzigzag_round_trip(u: u16)
    ensures
        zigzag(unzigzag(u as int)) == u,
        -0x8000 <= unzigzag(u as int) <= 0x7FFF,
{
}

/// Bits needed to tell `n` choices apart.
pub fn used_bits(n: u64) -> (r: usize)
    ensures
        r == used_bits_spec(n as nat),
        r <= 64,
{
    if n == 0 {
        return 0;
    }
    let mut x = n - 1;
    let mut c: usize = 0;
    proof {
        lemma_bit_len_bound((n - 1) as u64);
    }
    while x != 0
        invariant
            bit_len((n - 1) as nat) == c + bit_len(x as nat),
            c + bit_len(x as nat) <= 64,
        decreases x,
    {
        x = x / 2;
        c = c + 1;
    }
    proof {
        lemma_bit_len_bound((n - 1) as u64);
    }
    c
}

proof fn lemma_bit_len_bound(x: u64)
    ensures
        bit_len(x as nat) <= 64,
{
    vstd::arithmetic::power2::lemma2_to64();
    vstd::arithmetic::power2::lemma2_to64_rest();
    lemma_bit_len_below(x as nat, 64);
}

pub proof fn lemma_bit_len_below(x: nat, k: nat)
    requires
        x < vstd::arithmetic::power2::pow2(k),
    ensures
        bit_len(x) <= k,
    decreases k,
{
    if x > 0 {
        if k == 0 {
            vstd::arithmetic::power2::lemma2_to64();
        } else {
            vstd::arithmetic::power2::lemma_pow2_unfold(k);
            lemma_bit_len_below(x / 2, (k - 1) as nat);
        }
    }
}

/// Below `2^32` choices need at most 32 bits.
pub proof fn lemma_used_bits_small(n: nat)
    requires
        n <= 0x1_0000_0000,
    ensures
        used_bits_spec(n) <= 32,
{
    if n > 0 {
        vstd::arithmetic::power2::lemma2_to64();
        lemma_bit_len_below((n - 1) as nat, 32);
    }
}

/// Up to 256 choices need at most 8 bits.
pub proof fn lemma_used_bits_byte(n: nat)
    requires
        n <= 256,
    ensures
        used_bits_spec(n) <= 8,
{
    if n > 0 {
        vstd::arithmetic::power2::lemma2_to64();
        lemma_bit_len_below((n - 1) as nat, 8);
    }
}

} // verus!
