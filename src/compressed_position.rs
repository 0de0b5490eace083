use vstd::prelude::*;
use crate::bitboard::Bitboard;
use crate::bits::{bit, popcount, squares};
use crate::castling::{BLACK_KING_SIDE, BLACK_QUEEN_SIDE, WHITE_KING_SIDE, WHITE_QUEEN_SIDE};
use crate::coords::{Color, Square};
use crate::piece::Piece;
use crate::position::Position;

verus! {

/// A position in 24 bytes: the occupied squares, then one nibble per occupied square in
/// ascending order (low nibble first).
#[derive(Debug, Clone, Copy, PartialEq, Eq)]
pub struct CompressedPosition {
    pub occupied: Bitboard,
    pub packed_state: [u8; 16],
}

/// Nibble `k` of the packed state.
pub open spec fn nibble(ps: Seq<u8>, k: int) -> u8 {
    if k % 2 == 0 {
        ps[k / 2] % 16
    } else {
        ps[k / 2] / 16
    }
}

/// Number of occupied squares that carry a nibble: at most 32.
pub open spec fn coded_count(occ: u64) -> int {
    if popcount(occ) < 32 {
        popcount(occ) as int
    } else {
        32
    }
}

/// The piece a nibble stands for on square `sq`.
pub open spec fn nibble_piece(n: u8, sq: int) -> Piece {
    if n < 12 {
        Piece { id: n }
    } else if n == 12 {
        if sq / 8 == 3 {
            Piece { id: 0 }
        } else {
            Piece { id: 1 }
        }
    } else if n == 13 {
        Piece { id: 6 }
    } else if n == 14 {
        Piece { id: 7 }
    } else {
        Piece { id: 11 }
    }
}

/// The castling flag a nibble of 13 or 14 on `sq` implies, else 0.
pub open spec fn nibble_right(n: u8, sq: int) -> u8 {
    if n == 13 {
        if sq == 0 {
            WHITE_QUEEN_SIDE
        } else {
            WHITE_KING_SIDE
        }
    } else if n == 14 {
        if sq == 56 {
            BLACK_QUEEN_SIDE
        } else {
            BLACK_KING_SIDE
        }
    } else {
        0
    }
}

/// The nibble that square `sq` of `p` gets.
pub open spec fn piece_nibble(p: Position, sq: int) -> u8 {
    let pc = p.pieces@[sq];
    let ep = p.enpassant.idx as int;
    let cr = p.castling_rights;
    if pc.id == 0 && ep < 64 && sq / 8 == 3 && sq - 8 == ep {
        12
    } else if pc.id == 1 && ep < 64 && sq / 8 == 4 && sq + 8 == ep {
        12
    } else if pc.id == 6 && ((sq == 0 && cr.has(WHITE_QUEEN_SIDE)) || (sq == 7 && cr.has(
        WHITE_KING_SIDE,
    ))) {
        13
    } else if pc.id == 7 && ((sq == 56 && cr.has(BLACK_QUEEN_SIDE)) || (sq == 63 && cr.has(
        BLACK_KING_SIDE,
    ))) {
        14
    } else if pc.id == 11 && p.stm == Color::Black {
        15
    } else {
        pc.id
    }
}

impl CompressedPosition {
    pub fn byte_size() -> (r: usize)
        ensures
            r == 24,
    {
        24
    }

    /// Reads the 24 bytes at the start of `data`: the occupancy big-endian, then the nibbles.
    pub fn read_from_big_endian(data: &[u8]) -> (r: CompressedPosition)
        requires
            data@.len() >= 24,
        ensures
            r.occupied.data == be_u64(data@.subrange(0, 8)),
            r.packed_state@ == data@.subrange(8, 24),
    {
        let mut occ: u64 = 0;
        let mut i: usize = 0;
        proof {
            assert(data@.subrange(0, 0) =~= Seq::<u8>::empty());
        }
        while i < 8
            invariant
                i <= 8,
                data@.len() >= 24,
                occ == be_u64(data@.subrange(0, i as int)),
                occ < pow256(i as nat),
            decreases 8 - i,
        {
            proof {
                assert(data@.subrange(0, i + 1).drop_last() =~= data@.subrange(0, i as int));
                lemma_pow256_step(i as nat);
                assert(occ * 256 + data@[i as int] < pow256((i + 1) as nat)) by (nonlinear_arith)
                    requires
                        occ < pow256(i as nat),
                        data@[i as int] < 256,
                        pow256((i + 1) as nat) == pow256(i as nat) * 256,
                ;
                lemma_pow256_bound((i + 1) as nat);
            }
            occ = occ * 256 + data[i] as u64;
            i = i + 1;
        }
        let mut packed_state = [0u8; 16];
        let mut k: usize = 0;
        while k < 16
            invariant
                k <= 16,
                data@.len() >= 24,
                forall|j: int| 0 <= j < k ==> packed_state@[j] == data@[8 + j],
            decreases 16 - k,
        {
            packed_state[k] = data[8 + k];
            k = k + 1;
        }
        proof {
            assert(packed_state@ =~= data@.subrange(8, 24));
        }
        CompressedPosition { occupied: Bitboard::new(occ), packed_state }
    }

    /// The 24 bytes of the compressed position.
    pub fn write_to_big_endian(&self, out: &mut Vec<u8>)
        ensures
            final(out)@.len() == old(out)@.len() + 24,
            final(out)@.subrange(0, old(out)@.len() as int) == old(out)@,
            be_u64(final(out)@.subrange(old(out)@.len() as int, old(out)@.len() + 8int))
                == self.occupied.data,
            final(out)@.subrange(old(out)@.len() + 8int, old(out)@.len() + 24int)
                == self.packed_state@,
    {
        let ghost start: int = out@.len() as int;
        let d = self.occupied.data;
        let mut i: usize = 0;
        proof {
            lemma_pow256_values();
            assert(out@.subrange(start as int, start) =~= Seq::<u8>::empty());
        }
        while i < 8
            invariant
                i <= 8,
                out@.len() == start + i,
                out@.subrange(0, start as int) == old(out)@,
                start == old(out)@.len() as int,
                be_u64(out@.subrange(start as int, start + i)) == d as int / pow256((8 - i) as nat),
            decreases 8 - i,
        {
            let shift = (7 - i) * 8;
            let byte = ((d >> shift as u64) & 0xFF) as u8;
            proof {
                lemma_byte_of(d, (7 - i) as nat);
                lemma_pow256_step((7 - i) as nat);
            }
            let ghost prev = out@;
            out.push(byte);
            proof {
                assert(out@.subrange(start as int, start + i + 1).drop_last() =~= prev.subrange(
                    start as int,
                    start + i,
                ));
                assert(out@.subrange(0, start as int) =~= prev.subrange(0, start as int));
                lemma_div_step(d as nat, (7 - i) as nat);
            }
            i = i + 1;
        }
        let mut k: usize = 0;
        while k < 16
            invariant
                k <= 16,
                out@.len() == start + 8 + k,
                out@.subrange(0, start as int) == old(out)@,
                start == old(out)@.len() as int,
                be_u64(out@.subrange(start as int, start + 8)) == d,
                forall|j: int| 0 <= j < k ==> out@[start + 8 + j] == self.packed_state@[j],
            decreases 16 - k,
        {
            let ghost prev = out@;
            out.push(self.packed_state[k]);
            proof {
                assert(out@.subrange(0, start as int) =~= prev.subrange(0, start as int));
                assert(out@.subrange(start as int, start + 8) =~= prev.subrange(
                    start as int,
                    start + 8,
                ));
            }
            k = k + 1;
        }
        proof {
            assert(out@.subrange(start + 8, start + 24) =~= self.packed_state@);
            lemma_pow256_zero();
        }
    }
}

/// Castling flags implied by the first `k` nibbles.
pub open spec fn rights_upto(sqs: Seq<u32>, ps: Seq<u8>, k: int) -> u8
    decreases k,
{
    if k <= 0 {
        0
    } else {
        rights_upto(sqs, ps, k - 1) | nibble_right(nibble(ps, k - 1), sqs[k - 1] as int)
    }
}

/// Side to move after the first `k` nibbles: Black once a 15 has been seen.
pub open spec fn black_upto(ps: Seq<u8>, k: int) -> bool
    decreases k,
{
    if k <= 0 {
        false
    } else {
        black_upto(ps, k - 1) || nibble(ps, k - 1) == 15
    }
}

/// En-passant square after the first `k` nibbles: behind the last pawn coded 12.
pub open spec fn ep_upto(sqs: Seq<u32>, ps: Seq<u8>, k: int) -> int
    decreases k,
{
    if k <= 0 {
        64
    } else if nibble(ps, k - 1) == 12 {
        if sqs[k - 1] / 8 == 3 {
            sqs[k - 1] - 8
        } else if sqs[k - 1] + 8 < 64 {
            sqs[k - 1] + 8
        } else {
            64
        }
    } else {
        ep_upto(sqs, ps, k - 1)
    }
}

/// `r` holds the board, side to move, castling rights and en-passant square that the occupancy
/// `occ` and the nibbles `ps` code.
pub open spec fn decodes_to(occ: u64, ps: Seq<u8>, r: Position) -> bool {
    &&& forall|k: int|
        0 <= k < coded_count(occ) ==> r.pieces@[squares(occ)[k] as int] == nibble_piece(
            nibble(ps, k),
            squares(occ)[k] as int,
        )
    &&& forall|s: int|
        0 <= s < 64 && !(exists|k: int| 0 <= k < coded_count(occ) && squares(occ)[k] == s)
            ==> r.pieces@[s].id == 12
    &&& r.stm == (if black_upto(ps, coded_count(occ)) {
        Color::Black
    } else {
        Color::White
    })
    &&& r.castling_rights.bits == rights_upto(squares(occ), ps, coded_count(occ))
    &&& r.enpassant.idx == ep_upto(squares(occ), ps, coded_count(occ))
}

impl CompressedPosition {
    /// The position the record stands for; move counters are left at their defaults.
    pub fn decompress(&self) -> (r: Position)
        ensures
            r.wf(),
            decodes_to(self.occupied.data, self.packed_state@, r),
            r.halfm == 0,
            r.fullm == 1,
    {
        let ghost occ = self.occupied.data;
        let ghost ps = self.packed_state@;
        let sqs = self.occupied.to_squares();
        proof {
            crate::bits::lemma_squares_members(occ, 0);
        }
        let n: usize = if sqs.len() < 32 {
            sqs.len()
        } else {
            32
        };
        let mut pos = Position::new();
        let mut k: usize = 0;
        while k < n
            invariant
                n == coded_count(occ),
                n <= sqs@.len(),
                sqs@.len() == squares(occ).len(),
                forall|j: int| 0 <= j < sqs@.len() ==> sqs@[j].idx == squares(occ)[j],
                forall|j: int| 0 <= j < squares(occ).len() ==> squares(occ)[j] < 64,
                forall|a: int, b: int| 0 <= a < b < squares(occ).len() ==> squares(occ)[a] < squares(occ)[b],
                ps == self.packed_state@,
                k <= n,
                pos.wf(),
                pos.halfm == 0,
                pos.fullm == 1,
                forall|j: int|
                    0 <= j < k ==> pos.pieces@[squares(occ)[j] as int] == nibble_piece(
                        nibble(ps, j),
                        squares(occ)[j] as int,
                    ),
                forall|s: int|
                    0 <= s < 64 && !(exists|j: int| 0 <= j < k && squares(occ)[j] == s)
                        ==> pos.pieces@[s].id == 12,
                pos.stm == (if black_upto(ps, k as int) {
                    Color::Black
                } else {
                    Color::White
                }),
                pos.castling_rights.bits == rights_upto(squares(occ), ps, k as int),
                pos.castling_rights.valid(),
                pos.enpassant.idx == ep_upto(squares(occ), ps, k as int),
            decreases n - k,
        {
            let sq = sqs[k];
            let byte = self.packed_state[k / 2];
            let nib = if k % 2 == 0 {
                byte % 16
            } else {
                byte / 16
            };
            let ghost before = pos;
            let ghost mut pos_board = pos;
            proof {
                assert(sqs@[k as int].idx == squares(occ)[k as int]);
            }
            if nib < 12 {
                pos.place(Piece::from_id(nib as i32), sq);
                proof { pos_board = pos; }
            } else if nib == 12 {
                if sq.idx / 8 == 3 {
                    pos.place(Piece::from_id(0), sq);
                proof { pos_board = pos; }
                    pos.enpassant = Square::new(sq.idx - 8);
                } else {
                    pos.place(Piece::from_id(1), sq);
                proof { pos_board = pos; }
                    if sq.idx + 8 < 64 {
                        pos.enpassant = Square::new(sq.idx + 8);
                    } else {
                        pos.enpassant = Square::none();
                    }
                }
            } else if nib == 13 {
                pos.place(Piece::from_id(6), sq);
                proof { pos_board = pos; }
                if sq.idx == 0 {
                    pos.castling_rights.add(WHITE_QUEEN_SIDE);
                } else {
                    pos.castling_rights.add(WHITE_KING_SIDE);
                }
            } else if nib == 14 {
                pos.place(Piece::from_id(7), sq);
                proof { pos_board = pos; }
                if sq.idx == 56 {
                    pos.castling_rights.add(BLACK_QUEEN_SIDE);
                } else {
                    pos.castling_rights.add(BLACK_KING_SIDE);
                }
            } else {
                pos.place(Piece::from_id(11), sq);
                proof { pos_board = pos; }
                pos.stm = Color::Black;
            }
            proof {
                crate::position::lemma_same_board_wf(pos_board, pos);
                let kk = k as int;
                assert(nib == nibble(ps, kk));
                let b = nibble_right(nib, sq.idx as int);
                assert(rights_upto(squares(occ), ps, kk + 1) == rights_upto(squares(occ), ps, kk) | b);
                let c0 = rights_upto(squares(occ), ps, kk);
                assert(c0 | 0u8 == c0) by (bit_vector);
                assert forall|j: int| 0 <= j < kk implies squares(occ)[j] != squares(occ)[kk] by {}
                assert forall|s: int|
                    0 <= s < 64 && !(exists|j: int| 0 <= j < kk + 1 && squares(occ)[j] == s)
                        implies pos.pieces@[s].id == 12 by {
                    assert(s != squares(occ)[kk]);
                    if exists|j: int| 0 <= j < kk && squares(occ)[j] == s {
                        let j = choose|j: int| 0 <= j < kk && squares(occ)[j] == s;
                        assert(0 <= j < kk + 1 && squares(occ)[j] == s);
                    }
                }
            }
            k = k + 1;
        }
        pos
    }
}

/// The nibble of the piece on `sq`.
fn compress_piece(pos: &Position, sq: u32) -> (r: u8)
    requires
        pos.wf(),
        sq < 64,
    ensures
        r == piece_nibble(*pos, sq as int),
        r < 16,
{
    let pc = pos.pieces[sq as usize];
    proof {
        assert(crate::position::square_agrees(*pos, sq as int));
    }
    let ep = pos.enpassant.idx;
    let cr = pos.castling_rights;
    if pc.id == 0 && ep < 64 && sq / 8 == 3 && sq >= 8 && sq - 8 == ep {
        12
    } else if pc.id == 1 && ep < 64 && sq / 8 == 4 && sq + 8 == ep {
        12
    } else if pc.id == 6 && ((sq == 0 && cr.contains(WHITE_QUEEN_SIDE)) || (sq == 7
        && cr.contains(WHITE_KING_SIDE))) {
        13
    } else if pc.id == 7 && ((sq == 56 && cr.contains(BLACK_QUEEN_SIDE)) || (sq == 63
        && cr.contains(BLACK_KING_SIDE))) {
        14
    } else if pc.id == 11 && pos.stm == Color::Black {
        15
    } else {
        pc.id
    }
}

impl CompressedPosition {
    /// Packs a position: its occupied squares and one nibble for each of the first 32 of them.
    pub fn compress(pos: &Position) -> (r: CompressedPosition)
        requires
            pos.wf(),
        ensures
            r.occupied.data == pos.occ(),
            forall|k: int|
                0 <= k < coded_count(pos.occ()) ==> nibble(r.packed_state@, k) == piece_nibble(
                    *pos,
                    squares(pos.occ())[k] as int,
                ),
            forall|k: int| coded_count(pos.occ()) <= k < 32 ==> nibble(r.packed_state@, k) == 0,
    {
        let occupied = pos.occupied();
        let ghost occ = occupied.data;
        let sqs = occupied.to_squares();
        proof {
            crate::bits::lemma_squares_members(occ, 0);
        }
        let n: usize = if sqs.len() < 32 {
            sqs.len()
        } else {
            32
        };
        let mut packed = [0u8; 16];
        let mut k: usize = 0;
        while k < n
            invariant
                n == coded_count(occ),
                n <= 32,
                n <= sqs@.len(),
                sqs@.len() == squares(occ).len(),
                pos.wf(),
                occ == pos.occ(),
                forall|j: int| 0 <= j < sqs@.len() ==> sqs@[j].idx == squares(occ)[j],
                forall|j: int| 0 <= j < squares(occ).len() ==> squares(occ)[j] < 64,
                k <= n,
                forall|j: int|
                    0 <= j < k ==> nibble(packed@, j) == piece_nibble(*pos, squares(occ)[j] as int),
                forall|j: int| k <= j < 32 ==> nibble(packed@, j) == 0,
            decreases n - k,
        {
            proof {
                assert(sqs@[k as int].idx == squares(occ)[k as int]);
            }
            let nib = compress_piece(pos, sqs[k].idx);
            let ghost before = packed@;
            let i = k / 2;
            if k % 2 == 0 {
                packed[i] = nib;
            } else {
                proof {
                    assert(nibble(before, k as int) == 0);
                }
                packed[i] = packed[i] + nib * 16;
            }
            proof {
                assert forall|j: int| 0 <= j < 32 && j / 2 != i implies nibble(packed@, j) == nibble(
                    before,
                    j,
                ) by {}
                assert(nibble(packed@, k as int) == nib);
                if k % 2 == 0 {
                    assert(nibble(packed@, k + 1) == 0);
                } else {
                    assert(nibble(packed@, k - 1) == nibble(before, k - 1));
                }
                assert forall|j: int| 0 <= j < k + 1 implies nibble(packed@, j) == piece_nibble(
                    *pos,
                    squares(occ)[j] as int,
                ) by {
                    if j < k && j / 2 != i {
                        assert(nibble(packed@, j) == nibble(before, j));
                    }
                }
                assert forall|j: int| k + 1 <= j < 32 implies nibble(packed@, j) == 0 by {
                    if j / 2 != i {
                        assert(nibble(packed@, j) == nibble(before, j));
                    }
                }
            }
            k = k + 1;
        }
        CompressedPosition { occupied, packed_state: packed }
    }
}

/// The value of bytes read big-endian.
pub open spec fn be_u64(b: Seq<u8>) -> int
    decreases b.len(),
{
    if b.len() == 0 {
        0
    } else {
        be_u64(b.drop_last()) * 256 + b.last()
    }
}

pub open spec fn pow256(n: nat) -> int
    decreases n,
{
    if n == 0 {
        1
    } else {
        256 * pow256((n - 1) as nat)
    }
}

proof fn lemma_pow256_step(n: nat)
    ensures
        pow256(n + 1) == pow256(n) * 256,
        pow256(n) >= 1,
    decreases n,
{
    if n > 0 {
        lemma_pow256_step((n - 1) as nat);
    }
}

proof fn lemma_pow256_zero()
    ensures
        pow256(0) == 1,
{
}

proof fn lemma_pow256_bound(n: nat)
    requires
        n <= 8,
    ensures
        pow256(n) <= 0x1_0000_0000_0000_0000,
    decreases n,
{
    lemma_pow256_values();
    if n == 0 {
    } else if n == 1 {
    } else if n == 2 {
    } else if n == 3 {
    } else if n == 4 {
    } else if n == 5 {
    } else if n == 6 {
    } else if n == 7 {
    } else {
    }
}

/// Byte `k` (from the low end) of `d`.
proof fn lemma_byte_of(d: u64, k: nat)
    requires
        k < 8,
    ensures
        (d >> ((k * 8) as u64)) & 0xFF == (d as int / pow256(k)) % 256,
{
    lemma_pow256_values();
    let s = (k * 8) as u64;
    assert((d >> s) & 0xFF == (d >> s) % 256) by (bit_vector);
    assert(s < 64);
    assert(d >> 0u64 == d && d >> 8u64 == d / 0x100 && d >> 16u64 == d / 0x10000 && d >> 24u64 == d
        / 0x1000000 && d >> 32u64 == d / 0x100000000 && d >> 40u64 == d / 0x10000000000 && d
        >> 48u64 == d / 0x1000000000000 && d >> 56u64 == d / 0x100000000000000) by (bit_vector);
}

proof fn lemma_pow256_values()
    ensures
        pow256(0) == 1,
        pow256(1) == 0x100,
        pow256(2) == 0x10000,
        pow256(3) == 0x1000000,
        pow256(4) == 0x100000000,
        pow256(5) == 0x10000000000,
        pow256(6) == 0x1000000000000,
        pow256(7) == 0x100000000000000,
        pow256(8) == 0x10000000000000000,
{
    reveal_with_fuel(pow256, 9);
}

proof fn lemma_div_step(d: nat, k: nat)
    requires
        k < 8,
    ensures
        (d as int / pow256(k + 1)) * 256 + (d as int / pow256(k)) % 256 == d as int / pow256(k),
{
    lemma_pow256_step(k);
    let p = pow256(k);
    assert((d as int / (p * 256)) * 256 + (d as int / p) % 256 == d as int / p) by (nonlinear_arith)
        requires
            p >= 1,
    {
        vstd::arithmetic::div_mod::lemma_div_denominator(d as int, p, 256);
        vstd::arithmetic::div_mod::lemma_fundamental_div_mod(d as int / p, 256);
    }
}

/// A position that its 24-byte form gives back: at most 32 pieces, a black king when Black is
/// to move, a rook on the corner of every castling right held, and an en-passant square behind
/// a pawn that has just advanced two squares.
pub open spec fn compressible(p: Position) -> bool {
    let cr = p.castling_rights.bits;
    let ep = p.enpassant.idx as int;
    &&& p.wf()
    &&& popcount(p.occ()) <= 32
    &&& p.stm == Color::Black ==> exists|s: int| 0 <= s < 64 && p.pieces@[s].id == 11
    &&& cr & 1 != 0 ==> p.pieces@[7].id == 6
    &&& cr & 2 != 0 ==> p.pieces@[0].id == 6
    &&& cr & 4 != 0 ==> p.pieces@[63].id == 7
    &&& cr & 8 != 0 ==> p.pieces@[56].id == 7
    &&& ep == 64 || (ep / 8 == 2 && p.pieces@[ep + 8].id == 0) || (ep / 8 == 5 && p.pieces@[ep
        - 8].id == 1)
}

proof fn lemma_black_upto(ps: Seq<u8>, k: int)
    requires
        k >= 0,
    ensures
        black_upto(ps, k) == exists|j: int| 0 <= j < k && nibble(ps, j) == 15,
    decreases k,
{
    if k > 0 {
        lemma_black_upto(ps, k - 1);
        if black_upto(ps, k - 1) {
            let j = choose|j: int| 0 <= j < k - 1 && nibble(ps, j) == 15;
            assert(0 <= j < k && nibble(ps, j) == 15);
        }
    }
}

proof fn lemma_rights_upto(sqs: Seq<u32>, ps: Seq<u8>, k: int, f: u8)
    requires
        k >= 0,
        f == 1 || f == 2 || f == 4 || f == 8,
    ensures
        (rights_upto(sqs, ps, k) & f != 0) == exists|j: int|
            0 <= j < k && nibble_right(nibble(ps, j), sqs[j] as int) & f != 0,
        rights_upto(sqs, ps, k) < 16,
    decreases k,
{
    if k > 0 {
        lemma_rights_upto(sqs, ps, k - 1, f);
        let a = rights_upto(sqs, ps, k - 1);
        let b = nibble_right(nibble(ps, k - 1), sqs[k - 1] as int);
        assert(((a | b) & f != 0) == ((a & f != 0) || (b & f != 0))) by (bit_vector)
            requires
                f == 1 || f == 2 || f == 4 || f == 8,
        ;
        assert(b < 16);
        assert(a | b < 16) by (bit_vector)
            requires
                a < 16,
                b < 16,
        ;
        if a & f != 0 {
            let j = choose|j: int| 0 <= j < k - 1 && nibble_right(nibble(ps, j), sqs[j] as int) & f != 0;
            assert(0 <= j < k && nibble_right(nibble(ps, j), sqs[j] as int) & f != 0);
        }
    } else {
        assert(0u8 & f == 0) by (bit_vector);
    }
}

proof fn lemma_ep_upto(sqs: Seq<u32>, ps: Seq<u8>, k: int, jj: int)
    requires
        k >= 0,
        k <= sqs.len(),
        forall|j: int| 0 <= j < k && j != jj ==> nibble(ps, j) != 12,
    ensures
        !(0 <= jj < k && nibble(ps, jj) == 12) ==> ep_upto(sqs, ps, k) == 64,
        (0 <= jj < k && nibble(ps, jj) == 12) ==> ep_upto(sqs, ps, k) == (if sqs[jj] / 8 == 3 {
            sqs[jj] - 8
        } else if sqs[jj] + 8 < 64 {
            sqs[jj] + 8
        } else {
            64
        }),
    decreases k,
{
    if k > 0 {
        lemma_ep_upto(sqs, ps, k - 1, jj);
    }
}

/// Flags below 16 agree when each of the four bits does.
proof fn lemma_flags_equal(a: u8, b: u8)
    requires
        a < 16,
        b < 16,
        (a & 1 != 0) == (b & 1 != 0),
        (a & 2 != 0) == (b & 2 != 0),
        (a & 4 != 0) == (b & 4 != 0),
        (a & 8 != 0) == (b & 8 != 0),
    ensures
        a == b,
{
    assert(a == b) by (bit_vector)
        requires
            a < 16,
            b < 16,
            (a & 1 != 0) == (b & 1 != 0),
            (a & 2 != 0) == (b & 2 != 0),
            (a & 4 != 0) == (b & 4 != 0),
            (a & 8 != 0) == (b & 8 != 0),
    ;
}

proof fn lemma_flag_consts()
    ensures
        1u8 & 1u8 != 0 && 2u8 & 1u8 == 0 && 4u8 & 1u8 == 0 && 8u8 & 1u8 == 0 && 0u8 & 1u8 == 0,
        1u8 & 2u8 == 0 && 2u8 & 2u8 != 0 && 4u8 & 2u8 == 0 && 8u8 & 2u8 == 0 && 0u8 & 2u8 == 0,
        1u8 & 4u8 == 0 && 2u8 & 4u8 == 0 && 4u8 & 4u8 != 0 && 8u8 & 4u8 == 0 && 0u8 & 4u8 == 0,
        1u8 & 8u8 == 0 && 2u8 & 8u8 == 0 && 4u8 & 8u8 == 0 && 8u8 & 8u8 != 0 && 0u8 & 8u8 == 0,
{
    assert(1u8 & 1u8 != 0 && 2u8 & 1u8 == 0 && 4u8 & 1u8 == 0 && 8u8 & 1u8 == 0 && 0u8 & 1u8 == 0)
        by (bit_vector);
    assert(1u8 & 2u8 == 0 && 2u8 & 2u8 != 0 && 4u8 & 2u8 == 0 && 8u8 & 2u8 == 0 && 0u8 & 2u8 == 0)
        by (bit_vector);
    assert(1u8 & 4u8 == 0 && 2u8 & 4u8 == 0 && 4u8 & 4u8 != 0 && 8u8 & 4u8 == 0 && 0u8 & 4u8 == 0)
        by (bit_vector);
    assert(1u8 & 8u8 == 0 && 2u8 & 8u8 == 0 && 4u8 & 8u8 == 0 && 8u8 & 8u8 != 0 && 0u8 & 8u8 == 0)
        by (bit_vector);
}

proof fn lemma_castle_flag(p: Position, ps: Seq<u8>, f: u8, corner: int, code: u8)
    requires
        compressible(p),
        forall|k: int|
            0 <= k < coded_count(p.occ()) ==> nibble(ps, k) == piece_nibble(
                p,
                squares(p.occ())[k] as int,
            ),
        (f == 1 && corner == 7 && code == 13) || (f == 2 && corner == 0 && code == 13) || (f == 4
            && corner == 63 && code == 14) || (f == 8 && corner == 56 && code == 14),
    ensures
        (rights_upto(squares(p.occ()), ps, coded_count(p.occ())) & f != 0) == (
        p.castling_rights.bits & f != 0),
{
    let occ = p.occ();
    let sqs = squares(occ);
    let n = coded_count(occ);
    let cr = p.castling_rights.bits;
    crate::bits::lemma_squares_members(occ, 0);
    lemma_rights_upto(sqs, ps, n, f);
    lemma_flag_consts();
    assert((cr & 1 == 1) == (cr & 1 != 0)) by (bit_vector);
    assert((cr & 2 == 2) == (cr & 2 != 0)) by (bit_vector);
    assert((cr & 4 == 4) == (cr & 4 != 0)) by (bit_vector);
    assert((cr & 8 == 8) == (cr & 8 != 0)) by (bit_vector);
    if cr & f != 0 {
        assert(crate::position::square_agrees(p, corner));
        crate::bits::lemma_bit_or(p.bb_color@[0], p.bb_color@[1], corner as u64);
        assert(bit(occ, corner));
        assert(sqs.contains(corner as u32));
        let k = choose|k: int| 0 <= k < sqs.len() && sqs[k] == corner as u32;
        assert(nibble(ps, k) == code);
        assert(nibble_right(nibble(ps, k), sqs[k] as int) & f != 0);
    }
    if rights_upto(sqs, ps, n) & f != 0 {
        let j = choose|j: int| 0 <= j < n && nibble_right(nibble(ps, j), sqs[j] as int) & f != 0;
        let s = sqs[j] as int;
        assert(nibble(ps, j) == piece_nibble(p, s));
        assert(crate::position::square_agrees(p, s));
        let nb = piece_nibble(p, s);
        assert(nibble_right(nb, s) == f);
        assert(nb == code);
        if f == 1 {
            assert(s == 7);
        } else if f == 2 {
            assert(s == 0);
        } else if f == 4 {
            assert(s == 63);
        } else {
            assert(s == 56);
        }
    }
}

/// Decoding the 24-byte form of a position gives back its board, side to move, castling rights
/// and en-passant square.
pub proof fn lemma_position_round_trip(p: Position, ps: Seq<u8>, r: Position)
    requires
        compressible(p),
        forall|k: int|
            0 <= k < coded_count(p.occ()) ==> nibble(ps, k) == piece_nibble(
                p,
                squares(p.occ())[k] as int,
            ),
        decodes_to(p.occ(), ps, r),
    ensures
        r.pieces@ == p.pieces@,
        r.stm == p.stm,
        r.castling_rights == p.castling_rights,
        r.enpassant.idx == p.enpassant.idx,
{
    let occ = p.occ();
    let sqs = squares(occ);
    let n = coded_count(occ);
    crate::bits::lemma_squares_members(occ, 0);
    assert(n == sqs.len());
    assert forall|s: int| 0 <= s < 64 implies bit(occ, s) == (p.pieces@[s].id != 12) by {
        assert(crate::position::square_agrees(p, s));
        crate::bits::lemma_bit_or(p.bb_color@[0], p.bb_color@[1], s as u64);
    }
    // the board
    assert forall|s: int| 0 <= s < 64 implies r.pieces@[s] == p.pieces@[s] by {
        assert(crate::position::square_agrees(p, s));
        if bit(occ, s) {
            assert(sqs.contains(s as u32));
            let k = choose|k: int| 0 <= k < sqs.len() && sqs[k] == s as u32;
            assert(r.pieces@[s] == nibble_piece(nibble(ps, k), s));
        } else {
            if exists|k: int| 0 <= k < n && sqs[k] == s {
                let k = choose|k: int| 0 <= k < n && sqs[k] == s;
                assert(bit(occ, sqs[k] as int));
            }
        }
    }
    assert(r.pieces@ =~= p.pieces@);
    // the side to move
    lemma_black_upto(ps, n);
    if p.stm == Color::Black {
        let s = choose|s: int| 0 <= s < 64 && p.pieces@[s].id == 11;
        assert(bit(occ, s));
        assert(sqs.contains(s as u32));
        let k = choose|k: int| 0 <= k < sqs.len() && sqs[k] == s as u32;
        assert(nibble(ps, k) == 15);
    } else {
        if exists|j: int| 0 <= j < n && nibble(ps, j) == 15 {
            let j = choose|j: int| 0 <= j < n && nibble(ps, j) == 15;
            assert(piece_nibble(p, sqs[j] as int) == 15);
        }
    }
    // castling rights
    let cr = p.castling_rights.bits;
    let dr = rights_upto(sqs, ps, n);
    lemma_castle_flag(p, ps, 1, 7, 13);
    lemma_castle_flag(p, ps, 2, 0, 13);
    lemma_castle_flag(p, ps, 4, 63, 14);
    lemma_castle_flag(p, ps, 8, 56, 14);
    lemma_rights_upto(sqs, ps, n, 1);
    lemma_flags_equal(dr, cr);
    // the en-passant square
    let ep = p.enpassant.idx as int;
    if ep == 64 {
        assert forall|j: int| 0 <= j < n implies nibble(ps, j) != 12 by {
            assert(piece_nibble(p, sqs[j] as int) != 12);
        }
        lemma_ep_upto(sqs, ps, n, -1);
    } else {
        let s: int = if ep / 8 == 2 { ep + 8 } else { ep - 8 };
        assert(bit(occ, s));
        assert(sqs.contains(s as u32));
        let k = choose|k: int| 0 <= k < sqs.len() && sqs[k] == s as u32;
        assert(nibble(ps, k) == 12);
        assert forall|j: int| 0 <= j < n && j != k implies nibble(ps, j) != 12 by {
            assert(sqs[j] != sqs[k]) by {
                if j < k {
                } else {
                }
            }
            assert(piece_nibble(p, sqs[j] as int) != 12);
        }
        lemma_ep_upto(sqs, ps, n, k);
    }
}

} // verus!
