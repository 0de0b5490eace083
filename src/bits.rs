use vstd::prelude::*;

verus! {

/// Whether bit `i` of `x` is set.
pub open spec fn bit(x: u64, i: int) -> bool {
    (x >> (i as u64)) & 1u64 == 1u64
}

/// The indices of the set bits of `x` at or above `i`, in ascending order.
pub open spec fn squares_from(x: u64, i: nat) -> Seq<u32>
    decreases 64 - i,
{
    if i >= 64 {
        Seq::empty()
    } else if bit(x, i as int) {
        seq![i as u32].add(squares_from(x, i + 1))
    } else {
        squares_from(x, i + 1)
    }
}

/// The indices of the set bits of `x`, in ascending order.
pub open spec fn squares(x: u64) -> Seq<u32> {
    squares_from(x, 0)
}

/// Number of set bits of `x`.
pub open spec fn popcount(x: u64) -> nat {
    squares(x).len()
}

/// Number of set bits of `x` strictly below bit `i`.
pub open spec fn count_below(x: u64, i: nat) -> nat
    decreases i,
{
    if i == 0 {
        0
    } else {
        count_below(x, (i - 1) as nat) + (if i - 1 < 64 && bit(x, i - 1) { 1nat } else { 0nat })
    }
}

pub proof fn lemma_bit_single(s: u64, j: u64)
    requires
        s < 64,
        j < 64,
    ensures
        ((1u64 << s) >> j) & 1u64 == (if s == j { 1u64 } else { 0u64 }),
{
    assert(((1u64 << s) >> j) & 1u64 == (if s == j { 1u64 } else { 0u64 })) by (bit_vector)
        requires
            s < 64,
            j < 64,
    ;
}

pub proof fn lemma_bit_or(a: u64, b: u64, j: u64)
    requires
        j < 64,
    ensures
        bit(a | b, j as int) == (bit(a, j as int) || bit(b, j as int)),
{
    assert(((a | b) >> j) & 1u64 == 1u64 <==> ((a >> j) & 1u64 == 1u64 || (b >> j) & 1u64
        == 1u64)) by (bit_vector);
}

pub proof fn lemma_bit_and(a: u64, b: u64, j: u64)
    requires
        j < 64,
    ensures
        bit(a & b, j as int) == (bit(a, j as int) && bit(b, j as int)),
{
    assert(((a & b) >> j) & 1u64 == 1u64 <==> ((a >> j) & 1u64 == 1u64 && (b >> j) & 1u64
        == 1u64)) by (bit_vector);
}

pub proof fn lemma_bit_not(a: u64, j: u64)
    requires
        j < 64,
    ensures
        bit(!a, j as int) == !bit(a, j as int),
{
    assert(((!a) >> j) & 1u64 == 1u64 <==> !((a >> j) & 1u64 == 1u64)) by (bit_vector)
        requires
            j < 64,
    ;
}

pub proof fn lemma_bit_zero(j: u64)
    requires
        j < 64,
    ensures
        !bit(0u64, j as int),
{
    assert((0u64 >> j) & 1u64 == 0u64) by (bit_vector);
}

/// Bits of a value below `1 << i`, minus one: exactly the bits under `i`.
pub proof fn lemma_bit_below(i: u64, j: u64)
    requires
        i < 64,
        j < 64,
    ensures
        bit(vstd::prelude::sub(1u64 << i, 1u64), j as int) == (j < i),
{
    assert(((vstd::prelude::sub(1u64 << i, 1u64)) >> j) & 1u64 == 1u64 <==> j < i) by (bit_vector)
        requires
            i < 64,
            j < 64,
    ;
}

pub proof fn lemma_nonzero_has_bit(x: u64)
    requires
        x != 0,
    ensures
        x.trailing_zeros() < 64,
        bit(x, x.trailing_zeros() as int),
{
    broadcast use vstd::std_specs::bits::axiom_u64_trailing_zeros;

}

pub proof fn lemma_squares_agree(x: u64, y: u64, i: nat)
    requires
        forall|j: int| i <= j < 64 ==> bit(x, j) == bit(y, j),
    ensures
        squares_from(x, i) == squares_from(y, i),
    decreases 64 - i,
{
    if i < 64 {
        lemma_squares_agree(x, y, i + 1);
    }
}

pub proof fn lemma_squares_skip(x: u64, i: nat, k: nat)
    requires
        i <= k <= 64,
        forall|j: int| i <= j < k ==> !bit(x, j),
    ensures
        squares_from(x, i) == squares_from(x, k),
    decreases k - i,
{
    if i < k {
        lemma_squares_skip(x, i + 1, k);
    }
}

proof fn lemma_clear_lowest_bits(x: u64, t: u64, j: u64)
    requires
        t < 64,
        j < 64,
        (x >> t) & 1u64 == 1u64,
        x << vstd::prelude::sub(64, t) == 0,
    ensures
        ((x & vstd::prelude::sub(x, 1u64)) >> j) & 1u64 == (if j <= t { 0u64 } else { (x >> j) & 1u64 }),
{
    assert(((x & vstd::prelude::sub(x, 1u64)) >> j) & 1u64 == (if j <= t { 0u64 } else { (x >> j) & 1u64 }))
        by (bit_vector)
        requires
            t < 64,
            j < 64,
            (x >> t) & 1u64 == 1u64,
            x << vstd::prelude::sub(64, t) == 0,
    ;
}

/// Removing the lowest set bit removes the first square of the ascending list.
pub proof fn lemma_pop_lowest(x: u64)
    requires
        x != 0,
    ensures
        x.trailing_zeros() < 64,
        squares(x) == seq![x.trailing_zeros() as u32].add(squares(x & vstd::prelude::sub(x, 1u64))),
        forall|j: int|
            0 <= j < 64 ==> bit(x & vstd::prelude::sub(x, 1u64), j) == (bit(x, j) && j != x.trailing_zeros()),
        forall|j: int| 0 <= j < x.trailing_zeros() ==> !bit(x, j),
        bit(x, x.trailing_zeros() as int),
{
    broadcast use vstd::std_specs::bits::axiom_u64_trailing_zeros;

    let t = x.trailing_zeros() as u64;
    let y = x & vstd::prelude::sub(x, 1u64);
    assert forall|j: int| 0 <= j < 64 implies bit(y, j) == (bit(x, j) && j != t) by {
        lemma_clear_lowest_bits(x, t, j as u64);
        if j < t {
            assert((x >> (j as u64)) & 1u64 == 0u64);
        }
    }
    assert forall|j: int| 0 <= j < t implies !bit(x, j) by {
        assert((x >> (j as u64)) & 1u64 == 0u64);
    }
    lemma_squares_skip(x, 0, t as nat);
    lemma_squares_skip(y, 0, (t + 1) as nat);
    lemma_squares_agree(x, y, (t + 1) as nat);
}

/// The position of a set bit in the ascending list is the count of set bits below it.
pub proof fn lemma_count_below_index(x: u64, i: nat)
    requires
        i <= 64,
    ensures
        squares(x) == squares(x).subrange(0, count_below(x, i) as int).add(squares_from(x, i)),
        forall|k: int|
            0 <= k < count_below(x, i) ==> squares(x)[k] < i,
        count_below(x, i) <= squares(x).len(),
    decreases i,
{
    if i > 0 {
        lemma_count_below_index(x, (i - 1) as nat);
        let c = count_below(x, (i - 1) as nat);
        let pre = squares(x).subrange(0, c as int);
        if bit(x, i - 1) {
            assert(squares_from(x, (i - 1) as nat) == seq![(i - 1) as u32].add(squares_from(x, i)));
            assert(squares(x)[c as int] == (i - 1) as u32);
            assert(squares(x).subrange(0, (c + 1) as int) == pre.push((i - 1) as u32));
            assert(squares(x) == squares(x).subrange(0, (c + 1) as int).add(squares_from(x, i)));
        }
    }
}

/// Every element of the ascending list is a set bit below 64, and it holds no duplicates.
pub proof fn lemma_squares_members(x: u64, i: nat)
    ensures
        forall|k: int|
            0 <= k < squares_from(x, i).len() ==> i <= squares_from(x, i)[k] < 64 && bit(
                x,
                squares_from(x, i)[k] as int,
            ),
        forall|j: int| i <= j < 64 && bit(x, j) ==> squares_from(x, i).contains(j as u32),
        forall|a: int, b: int|
            0 <= a < b < squares_from(x, i).len() ==> squares_from(x, i)[a] < squares_from(
                x,
                i,
            )[b],
    decreases 64 - i,
{
    if i < 64 {
        lemma_squares_members(x, i + 1);
        let rest = squares_from(x, i + 1);
        if bit(x, i as int) {
            let s = seq![i as u32].add(rest);
            assert forall|j: int| i <= j < 64 && bit(x, j) implies s.contains(j as u32) by {
                if j == i {
                    assert(s[0] == j as u32);
                } else {
                    let k = choose|k: int| 0 <= k < rest.len() && rest[k] == j as u32;
                    assert(s[k + 1] == j as u32);
                }
            }
        }
    }
}

pub proof fn lemma_squares_len(x: u64, i: nat)
    requires
        i <= 64,
    ensures
        squares_from(x, i).len() <= 64 - i,
    decreases 64 - i,
{
    if i < 64 {
        lemma_squares_len(x, i + 1);
    }
}

pub proof fn lemma_squares_zero()
    ensures
        squares(0u64).len() == 0,
{
    assert forall|j: int| 0 <= j < 64 implies !bit(0u64, j) by {
        lemma_bit_zero(j as u64);
    }
    lemma_squares_skip(0u64, 0, 64);
}

pub proof fn lemma_low_mask_positive(i: u64)
    requires
        i < 64,
    ensures
        1u64 << i >= 1,
{
    assert(1u64 << i >= 1) by (bit_vector)
        requires
            i < 64,
    ;
}

/// `x` with bit `i` set to `v`.
pub fn with_bit(x: u64, i: u32, v: bool) -> (r: u64)
    requires
        i < 64,
    ensures
        forall|j: int| 0 <= j < 64 ==> bit(r, j) == (if j == i { v } else { bit(x, j) }),
{
    let m = 1u64 << i;
    let r = if v {
        x | m
    } else {
        x & !m
    };
    proof {
        assert forall|j: int| 0 <= j < 64 implies bit(r, j) == (if j == i {
            v
        } else {
            bit(x, j)
        }) by {
            lemma_bit_single(i as u64, j as u64);
            lemma_bit_or(x, m, j as u64);
            lemma_bit_and(x, !m, j as u64);
            lemma_bit_not(m, j as u64);
        }
    }
    r
}

/// A value is zero exactly when none of its bits is set.
pub proof fn lemma_zero_iff_no_bits(x: u64)
    ensures
        (x == 0) <==> (forall|j: int| 0 <= j < 64 ==> !bit(x, j)),
{
    if x == 0 {
        assert forall|j: int| 0 <= j < 64 implies !bit(x, j) by {
            lemma_bit_zero(j as u64);
        }
    } else {
        lemma_nonzero_has_bit(x);
    }
}

pub proof fn lemma_count_below_le(x: u64, i: nat)
    ensures
        count_below(x, i) <= i,
    decreases i,
{
    if i > 0 {
        lemma_count_below_le(x, (i - 1) as nat);
    }
}

/// A set bit stands in the ascending list at the index of the count of set bits below it.
pub proof fn lemma_square_at_count(x: u64, s: nat)
    requires
        s < 64,
        bit(x, s as int),
    ensures
        count_below(x, s) < squares(x).len(),
        squares(x)[count_below(x, s) as int] == s,
{
    lemma_count_below_index(x, s);
    assert(squares_from(x, s) == seq![s as u32] + squares_from(x, s + 1));
    let pre = squares(x).subrange(0, count_below(x, s) as int);
    assert(squares(x) == pre + squares_from(x, s));
    assert(squares(x)[pre.len() as int] == (pre + squares_from(x, s))[pre.len() as int]);
}

} // verus!
