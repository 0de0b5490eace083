use vstd::prelude::*;
use std::rc::Rc;

verus! {

/// Bit `i` of a byte sequence: bytes in order, each from its most significant bit down.
pub open spec fn bitat(b: Seq<u8>, i: int) -> bool {
    (b[i / 8] >> ((7 - i % 8) as u8)) & 1u8 == 1u8
}

/// The first `n` bits of `b`.
pub open spec fn stream(b: Seq<u8>, n: int) -> Seq<bool> {
    Seq::new(n as nat, |i: int| bitat(b, i))
}

/// The `c` low bits of `v`, most significant first.
pub open spec fn fixed_bits(v: nat, c: nat) -> Seq<bool>
    decreases c,
{
    if c == 0 {
        Seq::empty()
    } else {
        fixed_bits(v / 2, (c - 1) as nat).push(v % 2 == 1)
    }
}

/// `2` to the power `n`.
pub open spec fn pow2n(n: nat) -> nat
    decreases n,
{
    if n == 0 {
        1
    } else {
        2 * pow2n((n - 1) as nat)
    }
}

/// The variable-length code of `v`: blocks of `bs` data bits, low block first, each followed
/// by a continuation bit (written above the data bits) that says whether another block follows.
pub open spec fn vle_bits(v: nat, bs: nat) -> Seq<bool>
    decreases v
        via vle_bits_decreases
{
    let p = pow2n(bs);
    if bs == 0 {
        Seq::empty()
    } else if v >= p {
        fixed_bits(v % p + p, bs + 1) + vle_bits(v / p, bs)
    } else {
        fixed_bits(v, bs + 1)
    }
}

#[via_fn]
proof fn vle_bits_decreases(v: nat, bs: nat) {
    lemma_pow2n_pos(bs);
    let p = pow2n(bs);
    if bs != 0 && v >= p {
        assert(v / p < v) by (nonlinear_arith)
            requires
                p >= 2,
                v >= p,
        ;
    }
}

pub proof fn lemma_pow2n_values()
    ensures
        pow2n(0) == 1,
        pow2n(1) == 2,
        pow2n(2) == 4,
        pow2n(3) == 8,
        pow2n(4) == 16,
        pow2n(5) == 32,
        pow2n(6) == 64,
        pow2n(7) == 128,
        pow2n(8) == 256,
{
    reveal_with_fuel(pow2n, 9);
}

/// A code of a value below `2^k` has at most `k + 1` blocks.
pub proof fn lemma_vle_len(v: nat, bs: nat, k: nat)
    requires
        bs >= 1,
        v < pow2n(k),
    ensures
        vle_bits(v, bs).len() <= (bs + 1) * (k + 1),
    decreases v,
{
    lemma_pow2n_pos(bs);
    let p = pow2n(bs);
    if v >= p {
        lemma_fixed_len((v % p + p) as nat, bs + 1);
        assert(k >= 1) by {
            if k == 0 {
                assert(pow2n(0) == 1);
            }
        }
        assert(v / p < pow2n((k - 1) as nat)) by (nonlinear_arith)
            requires
                p >= 2,
                v < pow2n(k),
                pow2n(k) == 2 * pow2n((k - 1) as nat),
        ;
        assert(v / p < v) by (nonlinear_arith)
            requires
                p >= 2,
                v >= p,
        ;
        lemma_vle_len(v / p, bs, (k - 1) as nat);
        assert((bs + 1) + (bs + 1) * k == (bs + 1) * (k + 1)) by (nonlinear_arith);
    } else {
        lemma_fixed_len(v, bs + 1);
        assert((bs + 1) <= (bs + 1) * (k + 1)) by (nonlinear_arith);
    }
}

pub proof fn lemma_pow2n_pos(n: nat)
    ensures
        pow2n(n) >= 1,
        n >= 1 ==> pow2n(n) >= 2,
    decreases n,
{
    if n > 0 {
        lemma_pow2n_pos((n - 1) as nat);
    }
}

/// Two values below `2^c` with the same `c` low bits are equal.
pub proof fn lemma_fixed_bits_injective(a: nat, b: nat, c: nat)
    requires
        a < pow2n(c),
        b < pow2n(c),
        fixed_bits(a, c) == fixed_bits(b, c),
    ensures
        a == b,
    decreases c,
{
    if c > 0 {
        let fa = fixed_bits(a, c);
        let fb = fixed_bits(b, c);
        assert(fa.drop_last() == fixed_bits(a / 2, (c - 1) as nat));
        assert(fb.drop_last() == fixed_bits(b / 2, (c - 1) as nat));
        assert(fa.last() == (a % 2 == 1));
        assert(fb.last() == (b % 2 == 1));
        lemma_fixed_bits_injective(a / 2, b / 2, (c - 1) as nat);
    }
}

/// A bit writer's state: bytes written and bits still free in the last byte.
pub open spec fn writer_ok(b: Seq<u8>, bits_left: int) -> bool {
    &&& 0 <= bits_left < 8
    &&& b.len() == 0 ==> bits_left == 0
    &&& b.len() < 0x1000_0000
    &&& forall|i: int| 8 * b.len() - bits_left <= i < 8 * b.len() ==> !bitat(b, i)
}

/// Bits written so far.
pub open spec fn written(b: Seq<u8>, bits_left: int) -> Seq<bool> {
    stream(b, 8 * b.len() - bits_left)
}

proof fn lemma_set_bit_u8(x: u8, s: u8, k: u8)
    requires
        s < 8,
        k < 8,
    ensures
        ((x | (1u8 << s)) >> k) & 1u8 == (if k == s { 1u8 } else { (x >> k) & 1u8 }),
{
    assert(((x | (1u8 << s)) >> k) & 1u8 == (if k == s { 1u8 } else { (x >> k) & 1u8 }))
        by (bit_vector)
        requires
            s < 8,
            k < 8,
    ;
}

proof fn lemma_top_bit_u8(b: bool, k: u8)
    requires
        k < 8,
    ensures
        (((if b { 0x80u8 } else { 0u8 }) >> k) & 1u8 == 1u8) == (b && k == 7),
{
    assert(((0x80u8 >> k) & 1u8 == 1u8) == (k == 7)) by (bit_vector)
        requires
            k < 8,
    ;
    assert((0u8 >> k) & 1u8 == 0u8) by (bit_vector);
}

/// Appends one bit.
pub fn push_bit(bytes: &mut Vec<u8>, bits_left: &mut usize, b: bool)
    requires
        writer_ok(old(bytes)@, *old(bits_left) as int),
        old(bytes)@.len() < 0x0FFF_FFFF,
    ensures
        writer_ok(final(bytes)@, *final(bits_left) as int),
        written(final(bytes)@, *final(bits_left) as int) == written(
            old(bytes)@,
            *old(bits_left) as int,
        ).push(b),
        final(bytes)@.len() <= old(bytes)@.len() + 1,
{
    let ghost ob = bytes@;
    let ghost n = 8 * ob.len() - *bits_left;
    if *bits_left == 0 {
        bytes.push(if b {
            0x80u8
        } else {
            0u8
        });
        *bits_left = 7;
        proof {
            let nb = bytes@;
            assert forall|i: int| 0 <= i < n implies bitat(nb, i) == bitat(ob, i) by {
                assert(nb[i / 8] == ob[i / 8]);
            }
            assert forall|i: int| n <= i < 8 * nb.len() implies bitat(nb, i) == (b && i == n) by {
                assert(i / 8 == ob.len());
                lemma_top_bit_u8(b, (7 - i % 8) as u8);
            }
            assert(written(nb, 7) =~= written(ob, 0).push(b));
        }
    } else {
        let last = bytes.len() - 1;
        let s = (*bits_left - 1) as u8;
        let ghost x = bytes@[last as int];
        if b {
            bytes.set(last, bytes[last] | (1u8 << s));
        }
        *bits_left = *bits_left - 1;
        proof {
            let nb = bytes@;
            assert forall|i: int| 0 <= i < 8 * nb.len() && i != n implies bitat(nb, i) == bitat(
                ob,
                i,
            ) by {
                if b && i / 8 == last {
                    lemma_set_bit_u8(x, s, (7 - i % 8) as u8);
                } else {
                    assert(nb[i / 8] == ob[i / 8]);
                }
            }
            assert(bitat(nb, n) == b) by {
                if b {
                    lemma_set_bit_u8(x, s, s);
                } else {
                    assert(nb[n / 8] == ob[n / 8]);
                }
            }
            assert(written(nb, *bits_left as int) =~= written(ob, *old(bits_left) as int).push(b));
        }
    }
}

/// Appends the `count` low bits of `v`, most significant first.
pub fn push_bits(bytes: &mut Vec<u8>, bits_left: &mut usize, v: u32, count: usize)
    requires
        writer_ok(old(bytes)@, *old(bits_left) as int),
        count <= 32,
        old(bytes)@.len() + count < 0x0FFF_FFFF,
    ensures
        writer_ok(final(bytes)@, *final(bits_left) as int),
        written(final(bytes)@, *final(bits_left) as int) == written(
            old(bytes)@,
            *old(bits_left) as int,
        ) + fixed_bits(v as nat, count as nat),
        final(bytes)@.len() <= old(bytes)@.len() + count,
    decreases count,
{
    if count == 0 {
        assert(written(bytes@, *bits_left as int) =~= written(bytes@, *bits_left as int)
            + fixed_bits(v as nat, 0));
        return;
    }
    push_bits(bytes, bits_left, v / 2, count - 1);
    push_bit(bytes, bits_left, v % 2 == 1);
    proof {
        assert(written(bytes@, *bits_left as int) =~= written(old(bytes)@, *old(bits_left) as int)
            + fixed_bits(v as nat, count as nat));
    }
}

/// Appends the variable-length code of `v` with blocks of `block_size` bits.
pub fn push_vle(bytes: &mut Vec<u8>, bits_left: &mut usize, v: u16, block_size: usize)
    requires
        writer_ok(old(bytes)@, *old(bits_left) as int),
        1 <= block_size <= 8,
        old(bytes)@.len() + vle_bits(v as nat, block_size as nat).len() < 0x0FFF_FFFF,
    ensures
        writer_ok(final(bytes)@, *final(bits_left) as int),
        written(final(bytes)@, *final(bits_left) as int) == written(
            old(bytes)@,
            *old(bits_left) as int,
        ) + vle_bits(v as nat, block_size as nat),
        final(bytes)@.len() <= old(bytes)@.len() + vle_bits(v as nat, block_size as nat).len(),
    decreases v,
{
    let mut p: u32 = 1;
    let mut i: usize = 0;
    while i < block_size
        invariant
            i <= block_size,
            block_size <= 8,
            p == pow2n(i as nat),
            p <= 256,
        decreases block_size - i,
    {
        proof {
            lemma_pow_le(i as nat);
        }
        p = p * 2;
        i = i + 1;
    }
    proof {
        lemma_pow2n_pos(block_size as nat);
    }
    let vv = v as u32;
    proof {
        lemma_fixed_len(if vv >= p {
            (vv % p + p) as nat
        } else {
            vv as nat
        }, (block_size + 1) as nat);
    }
    if vv >= p {
        push_bits(bytes, bits_left, vv % p + p, block_size + 1);
        let ghost mid = written(bytes@, *bits_left as int);
        proof {
            assert(vv / p < vv) by (nonlinear_arith)
                requires
                    p >= 2,
                    vv >= p,
            ;
        }
        push_vle(bytes, bits_left, (vv / p) as u16, block_size);
        proof {
            assert(written(bytes@, *bits_left as int) =~= written(old(bytes)@, *old(bits_left) as int)
                + vle_bits(v as nat, block_size as nat));
        }
    } else {
        push_bits(bytes, bits_left, vv, block_size + 1);
    }
}

proof fn lemma_pow_le(i: nat)
    requires
        i < 8,
    ensures
        pow2n(i) <= 128,
    decreases i,
{
    lemma_pow2n_values();
    if i == 0 {
    } else if i == 1 {
    } else if i == 2 {
    } else if i == 3 {
    } else if i == 4 {
    } else if i == 5 {
    } else if i == 6 {
    } else {
    }
}

/// Reads bits from a shared byte buffer, starting at a byte offset.
#[derive(Debug)]
pub struct BitReader {
    pub movetext: Rc<Vec<u8>>,
    pub base: usize,
    pub read_bits_left: usize,
    pub read_offset: usize,
}

impl BitReader {
    /// Bits consumed so far.
    pub open spec fn pos(self) -> int {
        8 * self.read_offset + 8 - self.read_bits_left
    }

    /// The bits from the starting offset on.
    pub open spec fn bits(self) -> Seq<u8> {
        (*self.movetext)@.subrange(self.base as int, (*self.movetext)@.len() as int)
    }

    pub open spec fn valid(self) -> bool {
        &&& 1 <= self.read_bits_left <= 8
        &&& self.base <= (*self.movetext)@.len()
        &&& self.pos() <= 8 * self.bits().len()
        &&& (*self.movetext)@.len() < 0x1000_0000
    }

    /// A reader at byte `base_offset` of `movetext`.
    pub fn new(movetext: Rc<Vec<u8>>, base_offset: usize) -> (r: BitReader)
        requires
            base_offset <= (*movetext)@.len(),
            (*movetext)@.len() < 0x1000_0000,
        ensures
            r.valid(),
            r.pos() == 0,
            r.movetext == movetext,
            r.base == base_offset,
            r.bits() == (*movetext)@.subrange(base_offset as int, (*movetext)@.len() as int),
    {
        BitReader { movetext, base: base_offset, read_bits_left: 8, read_offset: 0 }
    }

    /// Reads one bit; `false` past the end of the buffer.
    fn read_bit(&mut self) -> (r: bool)
        requires
            old(self).valid(),
        ensures
            final(self).valid(),
            final(self).bits() == old(self).bits(),
            final(self).movetext == old(self).movetext,
            final(self).base == old(self).base,
            old(self).pos() < 8 * old(self).bits().len() ==> final(self).pos() == old(self).pos() + 1
                && r == bitat(old(self).bits(), old(self).pos()),
            old(self).pos() >= 8 * old(self).bits().len() ==> final(self).pos() == old(self).pos()
                && !r,
    {
        let n = 8 * self.read_offset + 8 - self.read_bits_left;
        let total = self.movetext.len() - self.base;
        if n >= 8 * total {
            return false;
        }
        let byte = self.movetext[self.base + n / 8];
        let r = (byte >> ((7 - n % 8) as u8)) & 1u8 == 1u8;
        let n2 = n + 1;
        self.read_offset = n2 / 8;
        self.read_bits_left = 8 - n2 % 8;
        proof {
            assert(self.bits()[n as int / 8] == byte);
        }
        r
    }

    /// Bytes touched so far, a partly read byte included.
    pub fn num_read_bytes(&self) -> (r: usize)
        requires
            self.valid(),
        ensures
            r == (self.pos() + 7) / 8,
    {
        self.read_offset + if self.read_bits_left != 8 {
            1usize
        } else {
            0usize
        }
    }

    /// Reads `count` bits (at most 8) as an unsigned value, most significant first.
    pub fn extract_bits_le8(&mut self, count: usize) -> (r: u8)
        requires
            old(self).valid(),
            count <= 8,
        ensures
            final(self).valid(),
            final(self).bits() == old(self).bits(),
            final(self).movetext == old(self).movetext,
            final(self).base == old(self).base,
            old(self).pos() + count <= 8 * old(self).bits().len() ==> final(self).pos() == old(
                self,
            ).pos() + count && fixed_bits(r as nat, count as nat) == stream(
                old(self).bits(),
                old(self).pos() + count,
            ).subrange(old(self).pos(), old(self).pos() + count),
            (r as nat) < pow2n(count as nat),
            final(self).pos() >= old(self).pos(),
            count >= 1 && old(self).pos() < 8 * old(self).bits().len() ==> final(self).pos() > old(
                self,
            ).pos(),
            old(self).pos() >= 8 * old(self).bits().len() ==> r == 0,
        decreases count,
    {
        if count == 0 {
            proof {
                assert(stream(self.bits(), self.pos()).subrange(self.pos(), self.pos())
                    =~= Seq::<bool>::empty());
            }
            return 0;
        }
        let ghost start = self.pos();
        let hi = self.extract_bits_le8(count - 1);
        let b = self.read_bit();
        proof {
            lemma_pow2n_pos(count as nat);
            lemma_pow_le((count - 1) as nat);
            if start + count <= 8 * old(self).bits().len() {
                let seg = stream(old(self).bits(), start + count).subrange(start, start + count);
                let seg1 = stream(old(self).bits(), start + count - 1).subrange(
                    start,
                    start + count - 1,
                );
                assert(seg =~= seg1.push(b));
                assert(fixed_bits((hi * 2 + (if b { 1u8 } else { 0u8 })) as nat, count as nat)
                    =~= fixed_bits(hi as nat, (count - 1) as nat).push(b));
            }
        }
        hi * 2 + (if b {
            1u8
        } else {
            0u8
        })
    }

    /// Reads a variable-length value with blocks of `block_size` bits.
    pub fn extract_vle16(&mut self, block_size: usize) -> (r: u16)
        requires
            old(self).valid(),
            1 <= block_size <= 7,
        ensures
            final(self).valid(),
            final(self).bits() == old(self).bits(),
            final(self).movetext == old(self).movetext,
            final(self).base == old(self).base,
            forall|v: u16|
                #![trigger vle_bits(v as nat, block_size as nat)]
                vle_at(old(self).bits(), old(self).pos(), v as nat, block_size as nat) ==> r == v
                    && final(self).pos() == old(self).pos() + vle_bits(
                    v as nat,
                    block_size as nat,
                ).len(),
    {
        let mut p: u32 = 1;
        let mut i: usize = 0;
        while i < block_size
            invariant
                i <= block_size,
                block_size <= 7,
                p == pow2n(i as nat),
                p <= 128,
            decreases block_size - i,
        {
            proof {
                lemma_pow2n_values();
                lemma_pow_le(i as nat);
                if i < 7 {
                    assert(pow2n(i as nat) <= 64) by {
                        if i == 0 {
                        } else if i == 1 {
                        } else if i == 2 {
                        } else if i == 3 {
                        } else if i == 4 {
                        } else if i == 5 {
                        } else {
                        }
                    }
                }
            }
            p = p * 2;
            i = i + 1;
        }
        let v = self.extract_vle_rest(block_size, p);
        if v < 0x10000 {
            v as u16
        } else {
            0xFFFF
        }
    }

    /// Reads the blocks of a variable-length value.
    fn extract_vle_rest(&mut self, block_size: usize, p: u32) -> (r: u32)
        requires
            old(self).valid(),
            1 <= block_size <= 7,
            p == pow2n(block_size as nat),
        ensures
            final(self).valid(),
            final(self).bits() == old(self).bits(),
            final(self).movetext == old(self).movetext,
            final(self).base == old(self).base,
            r <= 0x10000,
            forall|v: nat|
                #![trigger vle_bits(v, block_size as nat)]
                v < 0x10000 && vle_at(old(self).bits(), old(self).pos(), v, block_size as nat)
                    ==> r == v && final(self).pos() == old(self).pos() + vle_bits(
                    v,
                    block_size as nat,
                ).len(),
        decreases 8 * old(self).bits().len() - old(self).pos(),
    {
        let ghost start = self.pos();
        let ghost bits = self.bits();
        proof {
            lemma_pow2n_pos(block_size as nat);
            lemma_pow_le(block_size as nat);
        }
        let block = self.extract_bits_le8(block_size + 1) as u32;
        let data = block % p;
        if block < p {
            proof {
                assert forall|v: nat| v < 0x10000 && #[trigger] vle_at(bits, start, v, block_size as nat) implies block
                    == v && self.pos() == start + vle_bits(v, block_size as nat).len() by {
                    lemma_vle_head(bits, start, v, block_size as nat);
                    if v >= p {
                        lemma_fixed_bits_injective(block as nat, (v % (p as nat) + p) as nat, (block_size + 1) as nat);
                    } else {
                        lemma_fixed_bits_injective(block as nat, v, (block_size + 1) as nat);
                    }
                }
            }
            return block;
        }
        let rest = self.extract_vle_rest(block_size, p);
        proof {
            assert forall|v: nat| v < 0x10000 && #[trigger] vle_at(bits, start, v, block_size as nat) implies (if rest
                < 0x10000 {
                data + p * rest
            } else {
                0x10000
            }) == v && self.pos() == start + vle_bits(v, block_size as nat).len() by {
                lemma_vle_head(bits, start, v, block_size as nat);
                if v >= p {
                    lemma_fixed_bits_injective(block as nat, (v % (p as nat) + p) as nat, (block_size + 1) as nat);
                    let pn = p as nat;
                    assert(block == v % pn + pn);
                    assert(data == v % pn) by (nonlinear_arith)
                        requires
                            block == v % pn + pn,
                            data == (block as nat) % pn,
                            pn >= 2,
                    ;
                    assert(v / pn < 0x10000) by (nonlinear_arith)
                        requires
                            v < 0x10000,
                            pn >= 2,
                    ;
                    assert(vle_bits(v / pn, block_size as nat) == vle_bits(v / pn, block_size as nat));
                    assert(rest == v / pn);
                    assert(data + pn * rest == v) by (nonlinear_arith)
                        requires
                            data == v % pn,
                            rest == v / pn,
                            pn >= 2,
                    ;
                } else {
                    lemma_fixed_bits_injective(block as nat, v, (block_size + 1) as nat);
                }
            }
        }
        if rest < 0x10000 {
            proof {
                assert(data < p) by (nonlinear_arith)
                    requires
                        data == block % p,
                        p >= 2,
                ;
                assert(data + p * rest <= 0x10000 * 128) by (nonlinear_arith)
                    requires
                        data < p,
                        p <= 128,
                        rest < 0x10000,
                ;
            }
            let v = data + p * rest;
            if v <= 0x10000 {
                v
            } else {
                0x10000
            }
        } else {
            0x10000
        }
    }
}

/// The bits of `b` from `pos` on begin with the code of `v`.
pub open spec fn vle_at(b: Seq<u8>, pos: int, v: nat, bs: nat) -> bool {
    let code = vle_bits(v, bs);
    &&& pos + code.len() <= 8 * b.len()
    &&& stream(b, pos + code.len()).subrange(pos, pos + code.len()) == code
}

/// The first block of a code, and the code of what follows it.
proof fn lemma_vle_head(b: Seq<u8>, pos: int, v: nat, bs: nat)
    requires
        vle_at(b, pos, v, bs),
        1 <= bs,
        pos >= 0,
    ensures
        ({
            let p = pow2n(bs);
            let head = if v >= p {
                v % p + p
            } else {
                v
            };
            &&& stream(b, pos + bs + 1).subrange(pos, pos + bs + 1) == fixed_bits(head, bs + 1)
            &&& pos + bs + 1 <= 8 * b.len()
            &&& v >= p ==> vle_at(b, pos + bs + 1, v / p, bs) && vle_bits(v, bs).len() == bs + 1
                + vle_bits(v / p, bs).len()
            &&& v < p ==> vle_bits(v, bs).len() == bs + 1
        }),
{
    lemma_pow2n_pos(bs);
    let p = pow2n(bs);
    let head: nat = if v >= p {
        (v % p + p) as nat
    } else {
        v
    };
    lemma_fixed_len(head, bs + 1);
    let code = vle_bits(v, bs);
    let hb = fixed_bits(head, bs + 1);
    if v >= p {
        assert(code == hb + vle_bits(v / p, bs));
    } else {
        assert(code == hb);
    }
    let whole = stream(b, pos + code.len()).subrange(pos, pos + code.len());
    assert(whole == code);
    let head_s = stream(b, pos + bs + 1).subrange(pos, pos + bs + 1);
    assert(head_s =~= whole.subrange(0, bs + 1int));
    assert(whole.subrange(0, bs + 1int) =~= hb);
    if v >= p {
        let tail_code = vle_bits(v / p, bs);
        let tail = stream(b, pos + bs + 1 + tail_code.len()).subrange(
            pos + bs + 1,
            pos + bs + 1 + tail_code.len(),
        );
        assert(tail =~= whole.subrange(bs + 1int, code.len() as int));
        assert(whole.subrange(bs + 1int, code.len() as int) =~= tail_code);
    }
}

pub proof fn lemma_fixed_len(v: nat, c: nat)
    ensures
        fixed_bits(v, c).len() == c,
    decreases c,
{
    if c > 0 {
        lemma_fixed_len(v / 2, (c - 1) as nat);
    }
}

/// The bits a writer put down after `prefix` are there to read.
proof fn lemma_written_segment(b: Seq<u8>, bits_left: int, prefix: Seq<bool>, seg: Seq<bool>, rest: Seq<bool>)
    requires
        writer_ok(b, bits_left),
        written(b, bits_left) == prefix + seg + rest,
    ensures
        stream(b, (prefix.len() + seg.len()) as int).subrange(
            prefix.len() as int,
            (prefix.len() + seg.len()) as int,
        ) == seg,
        prefix.len() + seg.len() <= 8 * b.len(),
{
    let w = written(b, bits_left);
    assert(w.len() == (prefix.len() + seg.len()) as int + rest.len());
    assert(stream(b, (prefix.len() + seg.len()) as int).subrange(prefix.len() as int, (prefix.len() + seg.len()) as int)
        =~= seg) by {
        assert forall|i: int| 0 <= i < seg.len() implies #[trigger] seg[i] == bitat(
            b,
            prefix.len() + i,
        ) by {
            assert(w[prefix.len() + i] == (prefix + seg + rest)[prefix.len() + i]);
        }
    }
}

/// A fixed-width field that was written reads back as the value written.
pub proof fn lemma_fixed_round_trip(
    b: Seq<u8>,
    bits_left: int,
    prefix: Seq<bool>,
    v: nat,
    c: nat,
    rest: Seq<bool>,
    r: nat,
)
    requires
        writer_ok(b, bits_left),
        written(b, bits_left) == prefix + fixed_bits(v, c) + rest,
        fixed_bits(r, c) == stream(b, (prefix.len() + c) as int).subrange(
            prefix.len() as int,
            (prefix.len() + c) as int,
        ),
        v < pow2n(c),
        r < pow2n(c),
    ensures
        r == v,
{
    lemma_fixed_len(v, c);
    lemma_written_segment(b, bits_left, prefix, fixed_bits(v, c), rest);
    lemma_fixed_bits_injective(r, v, c);
}

/// A variable-length code that was written is found by the reader where it was written.
pub proof fn lemma_vle_round_trip(
    b: Seq<u8>,
    bits_left: int,
    prefix: Seq<bool>,
    v: nat,
    bs: nat,
    rest: Seq<bool>,
)
    requires
        writer_ok(b, bits_left),
        written(b, bits_left) == prefix + vle_bits(v, bs) + rest,
    ensures
        vle_at(b, prefix.len() as int, v, bs),
{
    lemma_written_segment(b, bits_left, prefix, vle_bits(v, bs), rest);
}

/// A value below `n` fits in the bits that `n` choices take.
pub proof fn lemma_fits_used_bits(v: nat, n: nat)
    requires
        v < n,
    ensures
        v < pow2n(crate::arithmetic::used_bits_spec(n)),
{
    lemma_below_pow_bit_len((n - 1) as nat);
}

proof fn lemma_below_pow_bit_len(x: nat)
    ensures
        x < pow2n(crate::arithmetic::bit_len(x)),
    decreases x,
{
    if x > 0 {
        lemma_below_pow_bit_len(x / 2);
    }
}

/// The bits from `pos` that begin with `a + b` begin with `a`, and `b` follows.
pub proof fn lemma_segment_split(bits: Seq<u8>, pos: int, a: Seq<bool>, b: Seq<bool>)
    requires
        pos >= 0,
        stream(bits, pos + a.len() + b.len()).subrange(pos, pos + a.len() + b.len()) == a + b,
    ensures
        stream(bits, pos + a.len()).subrange(pos, pos + a.len()) == a,
        stream(bits, pos + a.len() + b.len()).subrange(pos + a.len(), pos + a.len() + b.len())
            == b,
{
    let whole = stream(bits, pos + a.len() + b.len()).subrange(pos, pos + a.len() + b.len());
    assert(stream(bits, pos + a.len()).subrange(pos, pos + a.len()) =~= whole.subrange(0, a.len() as int));
    assert(stream(bits, pos + a.len() + b.len()).subrange(pos + a.len(), pos + a.len() + b.len())
        =~= whole.subrange(a.len() as int, whole.len() as int));
}

} // verus!
