use vstd::prelude::*;
use crate::bits::{
    bit, count_below, lemma_bit_and, lemma_bit_below, lemma_bit_or, lemma_bit_not, lemma_bit_single,
    lemma_pop_lowest, popcount, squares,
};
use crate::coords::{file_of, rank_of, File, Rank, Square};

verus! {

/// A set of squares: bit `i` is set when square `i` belongs to it.
#[derive(Debug, Clone, Copy, PartialEq, Eq, Structural)]
pub struct Bitboard {
    pub data: u64,
}

/// Counts the set bits of `x`.
pub fn count_bits(x: u64) -> (r: u32)
    ensures
        r == popcount(x),
        r <= 64,
{
    let mut rem = x;
    let mut n: u32 = 0;
    proof {
        crate::bits::lemma_squares_len(x, 0);
    }
    while rem != 0
        invariant
            n + squares(rem).len() == squares(x).len(),
            squares(x).len() <= 64,
        decreases squares(rem).len(),
    {
        proof {
            lemma_pop_lowest(rem);
        }
        rem = rem & (rem - 1);
        n = n + 1;
    }
    proof {
        crate::bits::lemma_squares_zero();
    }
    n
}

/// Bits of `x` strictly below bit `i`, counted.
pub fn count_bits_below(x: u64, i: u32) -> (r: u32)
    requires
        i < 64,
    ensures
        r == count_below(x, i as nat),
{
    proof {
        crate::bits::lemma_low_mask_positive(i as u64);
    }
    let mask = (1u64 << i) - 1;
    let r = count_bits(x & mask);
    proof {
        lemma_count_below_is_popcount(x, i as nat);
    }
    r
}

proof fn lemma_count_below_is_popcount(x: u64, i: nat)
    requires
        i < 64,
    ensures
        popcount(x & vstd::prelude::sub(1u64 << (i as u64), 1u64)) == count_below(x, i),
{
    let m = x & vstd::prelude::sub(1u64 << (i as u64), 1u64);
    assert forall|j: int| 0 <= j < 64 implies bit(m, j) == (bit(x, j) && j < i) by {
        lemma_bit_and(x, vstd::prelude::sub(1u64 << (i as u64), 1u64), j as u64);
        lemma_bit_below(i as u64, j as u64);
    }
    crate::bits::lemma_count_below_index(m, 64);
    crate::bits::lemma_count_below_index(x, i);
    lemma_count_below_agree(m, x, i);
    lemma_count_below_rest(m, i, 64);
    crate::bits::lemma_squares_members(m, 0);
}

proof fn lemma_count_below_agree(a: u64, b: u64, i: nat)
    requires
        i <= 64,
        forall|j: int| 0 <= j < i ==> bit(a, j) == bit(b, j),
    ensures
        count_below(a, i) == count_below(b, i),
    decreases i,
{
    if i > 0 {
        lemma_count_below_agree(a, b, (i - 1) as nat);
    }
}

proof fn lemma_count_below_rest(a: u64, i: nat, k: nat)
    requires
        i <= k <= 64,
        forall|j: int| i <= j < 64 ==> !bit(a, j),
    ensures
        count_below(a, k) == count_below(a, i),
        crate::bits::squares_from(a, i).len() == 0,
    decreases k - i,
{
    crate::bits::lemma_squares_skip(a, i, 64);
    if i < k {
        lemma_count_below_rest(a, i, (k - 1) as nat);
    }
}

/// The number of set bits is the count of those below 64.
pub proof fn lemma_popcount_is_count_below(x: u64)
    ensures
        popcount(x) == count_below(x, 64),
{
    crate::bits::lemma_count_below_index(x, 64);
    crate::bits::lemma_squares_len(x, 64);
}

impl Bitboard {
    /// Whether square `i` belongs to the set.
    pub open spec fn has(self, i: int) -> bool {
        bit(self.data, i)
    }

    pub fn count(&self) -> (r: u32)
        ensures
            r == popcount(self.data),
    {
        count_bits(self.data)
    }

    pub fn get(&self, index: u32) -> (r: bool)
        requires
            index < 64,
        ensures
            r == self.has(index as int),
    {
        self.is_set(index)
    }

    pub fn set(&mut self, index: u32, value: bool)
        requires
            index < 64,
        ensures
            forall|j: int|
                0 <= j < 64 ==> final(self).has(j) == (if j == index {
                    value
                } else {
                    old(self).has(j)
                }),
    {
        let m = 1u64 << index;
        let old_data = self.data;
        if value {
            self.data = self.data | m;
        } else {
            self.data = self.data & !m;
        }
        proof {
            assert forall|j: int| 0 <= j < 64 implies bit(self.data, j) == (if j == index {
                value
            } else {
                bit(old_data, j)
            }) by {
                lemma_bit_single(index as u64, j as u64);
                lemma_bit_or(old_data, m, j as u64);
                lemma_bit_and(old_data, !m, j as u64);
                lemma_bit_not(m, j as u64);
            }
        }
    }

    pub fn clear(&mut self)
        ensures
            final(self).data == 0,
    {
        self.data = 0;
    }

    pub fn is_set(&self, index: u32) -> (r: bool)
        requires
            index < 64,
        ensures
            r == self.has(index as int),
    {
        let r = self.data & (1u64 << index) != 0;
        proof {
            let d = self.data;
            assert((d & (1u64 << index)) != 0 <==> (d >> index) & 1 == 1) by (bit_vector)
                requires
                    index < 64,
            ;
        }
        r
    }

    pub fn sq_set(&self, index: Square) -> (r: bool)
        requires
            index.on_board(),
        ensures
            r == self.has(index.idx as int),
    {
        self.is_set(index.idx)
    }

    pub fn new(bits: u64) -> (r: Bitboard)
        ensures
            r.data == bits,
    {
        Bitboard { data: bits }
    }

    pub fn from_u64(data: u64) -> (r: Bitboard)
        ensures
            r.data == data,
    {
        Bitboard { data }
    }

    pub fn to_u64(&self) -> (r: u64)
        ensures
            r == self.data,
    {
        self.data
    }

    pub fn bits(&self) -> (r: u64)
        ensures
            r == self.data,
    {
        self.data
    }

    /// The squares with an index below `index`.
    pub fn from_before(index: u32) -> (r: Bitboard)
        requires
            index < 64,
        ensures
            forall|j: int| 0 <= j < 64 ==> r.has(j) == (j < index),
    {
        proof {
            crate::bits::lemma_low_mask_positive(index as u64);
        }
        let r = Bitboard { data: (1u64 << index) - 1 };
        proof {
            assert forall|j: int| 0 <= j < 64 implies r.has(j) == (j < index) by {
                lemma_bit_below(index as u64, j as u64);
            }
        }
        r
    }

    /// The set holding square `index` alone.
    pub fn from_square(index: Square) -> (r: Bitboard)
        requires
            index.on_board(),
        ensures
            forall|j: int| 0 <= j < 64 ==> r.has(j) == (j == index.idx),
    {
        let r = Bitboard { data: 1u64 << index.idx };
        proof {
            assert forall|j: int| 0 <= j < 64 implies r.has(j) == (j == index.idx) by {
                lemma_bit_single(index.idx as u64, j as u64);
            }
        }
        r
    }

    /// The squares of file `index`.
    pub fn from_file(index: u32) -> (r: Bitboard)
        requires
            index < 8,
        ensures
            forall|j: int| 0 <= j < 64 ==> r.has(j) == (file_of(j) == index),
    {
        let r = Bitboard { data: 0x0101010101010101u64 << index };
        proof {
            assert forall|j: int| 0 <= j < 64 implies r.has(j) == (file_of(j) == index) by {
                let jj = j as u64;
                assert(((0x0101010101010101u64 << index) >> jj) & 1u64 == 1u64 <==> jj % 8
                    == index as u64) by (bit_vector)
                    requires
                        index < 8,
                        jj < 64,
                ;
            }
        }
        r
    }

    /// The squares of rank `index`.
    pub fn from_rank(index: u32) -> (r: Bitboard)
        requires
            index < 8,
        ensures
            forall|j: int| 0 <= j < 64 ==> r.has(j) == (rank_of(j) == index),
    {
        let r = Bitboard { data: 0xFFu64 << (index * 8) };
        proof {
            assert forall|j: int| 0 <= j < 64 implies r.has(j) == (rank_of(j) == index) by {
                let jj = j as u64;
                let ii = index as u64;
                assert(((0xFFu64 << (ii * 8)) >> jj) & 1u64 == 1u64 <==> jj / 8 == ii)
                    by (bit_vector)
                    requires
                        ii < 8,
                        jj < 64,
                ;
            }
        }
        r
    }

    /// The rank of the square whose index the set's value is.
    pub fn rank(&self) -> (r: Rank)
        requires
            self.data < 64,
        ensures
            r.v == rank_of(self.data as int),
    {
        let d = self.data;
        assert(d >> 3u64 == d / 8) by (bit_vector);
        Rank::new((self.data >> 3u64) as u32)
    }

    /// The file of the square whose index the set's value is.
    pub fn file(&self) -> (r: File)
        requires
            self.data < 64,
        ensures
            r.v == file_of(self.data as int),
    {
        let d = self.data;
        assert(d & 7u64 == d % 8) by (bit_vector);
        File::new((self.data & 7u64) as u32)
    }

    /// An iterator over the squares of the set, in ascending order.
    pub fn iter(&self) -> (r: BitboardIterator)
        ensures
            r.remaining == self.data,
    {
        BitboardIterator { remaining: self.data }
    }

    /// The squares of the set, in ascending order.
    pub fn to_squares(&self) -> (r: Vec<Square>)
        ensures
            r@.len() == squares(self.data).len(),
            forall|k: int| 0 <= k < r@.len() ==> r@[k].idx == squares(self.data)[k],
    {
        let mut out: Vec<Square> = Vec::new();
        let mut it = self.iter();
        proof {
            crate::bits::lemma_squares_members(self.data, 0);
        }
        while it.remaining != 0
            invariant
                squares(self.data) =~= out@.map_values(|s: Square| s.idx).add(
                    squares(it.remaining),
                ),
            decreases squares(it.remaining).len(),
        {
            let s = it.next().unwrap();
            proof {
                assert(out@.push(s).map_values(|s: Square| s.idx) =~= out@.map_values(
                    |s: Square| s.idx,
                ).push(s.idx));
            }
            out.push(s);
        }
        proof {
            crate::bits::lemma_squares_zero();
            assert(squares(self.data) =~= out@.map_values(|s: Square| s.idx));
            assert forall|k: int| 0 <= k < out@.len() implies out@[k].idx == squares(
                self.data,
            )[k] by {
                assert(out@.map_values(|s: Square| s.idx)[k] == out@[k].idx);
            }
        }
        out
    }
}

/// Walks the squares of a set in ascending order.
pub struct BitboardIterator {
    pub remaining: u64,
}

impl BitboardIterator {
    /// The lowest remaining square, which leaves the set; `None` once it is empty.
    pub fn next(&mut self) -> (r: Option<Square>)
        ensures
            old(self).remaining == 0 ==> r.is_none() && final(self).remaining == 0,
            old(self).remaining != 0 ==> r.is_some() && r.unwrap().idx < 64 && squares(
                old(self).remaining,
            ) == seq![r.unwrap().idx].add(squares(final(self).remaining)),
    {
        if self.remaining == 0 {
            None
        } else {
            proof {
                lemma_pop_lowest(self.remaining);
            }
            let index = self.remaining.trailing_zeros();
            self.remaining = self.remaining & (self.remaining - 1);
            Some(Square::from_u32(index))
        }
    }
}

} // verus!
