use vstd::prelude::*;
use std::rc::Rc;
use crate::arithmetic::{unsigned_to_signed, unzigzag, used_bits, used_bits_spec};
use crate::bitstream::vle_bits;
use crate::bitboard::count_bits;
use crate::bits::{bit, lemma_pop_lowest, popcount, squares};
use crate::bitstream::{fixed_bits, lemma_fits_used_bits, lemma_fixed_bits_injective, lemma_segment_split, pow2n, stream, BitReader};
use crate::castling::{castling_right, CastleType, BLACK_BOTH, WHITE_BOTH};
use crate::arithmetic::zigzag;
use crate::chain::{ply_bits, lemma_index_in_range, chain_move_ok, dest, dest_count, destinations, move_choices, move_index, piece_index, ply_head, promoting, wrap16, SCORE_VLE_BLOCK_SIZE};
use crate::chess_move::{Move, MoveType};
use crate::coords::{Color, Square};
use crate::entry::{playable, TrainingDataEntry};
use crate::piece::{Piece, PieceType};
use crate::position::{makes, Position};

verus! {

/// The `k`-th set bit of `x` in ascending order, if there is one.
pub fn nth_set_bit(x: u64, k: u32) -> (r: Option<u32>)
    ensures
        k < squares(x).len() ==> r == Some(squares(x)[k as int]),
        k >= squares(x).len() ==> r.is_none(),
        r.is_some() ==> r.unwrap() < 64 && bit(x, r.unwrap() as int),
{
    let mut rem = x;
    let mut i: u32 = 0;
    proof {
        crate::bits::lemma_squares_members(x, 0);
        crate::bits::lemma_squares_len(x, 0);
    }
    while rem != 0
        invariant
            i <= k,
            squares(x).len() <= 64,
            squares(x) == squares(x).subrange(0, i as int) + squares(rem),
            i + squares(rem).len() == squares(x).len(),
            forall|j: int| 0 <= j < squares(x).len() ==> squares(x)[j] < 64 && bit(x, squares(x)[j] as int),
        decreases squares(rem).len(),
    {
        proof {
            lemma_pop_lowest(rem);
        }
        let t = rem.trailing_zeros();
        if i == k {
            proof {
                assert(squares(x)[k as int] == squares(rem)[0]);
            }
            return Some(t);
        }
        let ghost before = rem;
        rem = rem & (rem - 1);
        proof {
            assert(squares(x).subrange(0, i + 1) =~= squares(x).subrange(0, i as int).push(t));
            assert(squares(x) =~= squares(x).subrange(0, i + 1) + squares(rem));
        }
        i = i + 1;
    }
    proof {
        crate::bits::lemma_squares_zero();
    }
    None
}

/// The bits of `b` from `pos` on begin with `h`.
pub open spec fn seg_at(b: Seq<u8>, pos: int, h: Seq<bool>) -> bool {
    pos + h.len() <= 8 * b.len() && stream(b, pos + h.len()).subrange(pos, pos + h.len()) == h
}

/// The second field of the ply of move `m`: its move index.
pub open spec fn field2(p: Position, m: Move) -> Seq<bool> {
    fixed_bits(move_index(p, m) as nat, used_bits_spec(move_choices(p, m.from.idx as int)))
}

/// What the first field of a ply tells: the piece index, and where the second field starts.
proof fn lemma_first_field(p: Position, m: Move, b: Seq<u8>, begin: int, r1: nat, w1: nat)
    requires
        p.wf(),
        begin >= 0,
        chain_move_ok(p, m),
        seg_at(b, begin, ply_head(p, m)),
        w1 == used_bits_spec(popcount(p.bb_color@[p.stm.spec_ordinal() as int])),
        fixed_bits(r1, w1) == stream(b, begin + w1).subrange(begin, begin + w1),
        r1 < pow2n(w1),
    ensures
        r1 == piece_index(p, m.from.idx as int),
        r1 < squares(p.bb_color@[p.stm.spec_ordinal() as int]).len(),
        squares(p.bb_color@[p.stm.spec_ordinal() as int])[r1 as int] == m.from.idx,
        seg_at(
            b,
            begin + w1,
            fixed_bits(move_index(p, m) as nat, used_bits_spec(move_choices(p, m.from.idx as int))),
        ),
{
    let ours = p.bb_color@[p.stm.spec_ordinal() as int];
    let from = m.from.idx as int;
    assert(crate::position::square_agrees(p, from));
    assert(bit(ours, from));
    crate::bits::lemma_square_at_count(ours, from as nat);
    let pid = piece_index(p, from);
    let x1 = fixed_bits(pid, w1);
    let x2 = fixed_bits(move_index(p, m) as nat, used_bits_spec(move_choices(p, from)));
    crate::bitstream::lemma_fixed_len(pid, w1);
    lemma_segment_split(b, begin, x1, x2);
    lemma_fits_used_bits(pid, popcount(ours));
    lemma_fixed_bits_injective(r1, pid, w1);
}

/// What the second field of a ply tells: the move index.
proof fn lemma_second_field(p: Position, m: Move, b: Seq<u8>, second: int, r2: nat, w2: nat)
    requires
        p.wf(),
        second >= 0,
        chain_move_ok(p, m),
        w2 == used_bits_spec(move_choices(p, m.from.idx as int)),
        seg_at(b, second, fixed_bits(move_index(p, m) as nat, w2)),
        fixed_bits(r2, w2) == stream(b, second + w2).subrange(second, second + w2),
        r2 < pow2n(w2),
        0 <= move_index(p, m) < move_choices(p, m.from.idx as int),
    ensures
        r2 == move_index(p, m),
{
    crate::bitstream::lemma_fixed_len(move_index(p, m) as nat, w2);
    lemma_fits_used_bits(move_index(p, m) as nat, move_choices(p, m.from.idx as int));
    lemma_fixed_bits_injective(r2, move_index(p, m) as nat, w2);
}

/// Reads back the plies of a chain that follows a stem.
#[derive(Debug)]
pub struct PackedMoveScoreListReader {
    pub reader: BitReader,
    /// The entry returned last.
    pub entry: TrainingDataEntry,
    pub num_plies: u16,
    pub num_read_plies: u16,
    pub last_score: i16,
}

impl PackedMoveScoreListReader {
    pub open spec fn wf(self) -> bool {
        &&& self.reader.valid()
        &&& self.entry.pos.wf()
        &&& self.num_read_plies <= self.num_plies
    }

    /// A reader of `num_plies` plies stored from byte `offset` of `movetext`, after `entry`.
    pub fn new(entry: TrainingDataEntry, movetext: Rc<Vec<u8>>, offset: usize, num_plies: u16) -> (r: PackedMoveScoreListReader)
        requires
            entry.pos.wf(),
            offset <= (*movetext)@.len(),
            (*movetext)@.len() < 0x1000_0000,
        ensures
            r.wf(),
            r.entry == entry,
            r.num_plies == num_plies,
            r.num_read_plies == 0,
            r.last_score == wrap16(-entry.score),
            r.reader.pos() == 0,
            r.reader.movetext == movetext,
            r.reader.base == offset,
    {
        let last_score = if entry.score == -0x8000 {
            entry.score
        } else {
            -entry.score
        };
        PackedMoveScoreListReader {
            reader: BitReader::new(movetext, offset),
            entry,
            num_plies,
            num_read_plies: 0,
            last_score,
        }
    }

    /// Whether plies remain.
    pub fn has_next(&self) -> (r: bool)
        ensures
            r == (self.num_read_plies < self.num_plies),
    {
        self.num_read_plies < self.num_plies
    }

    /// Bytes of the chain read so far, a partly read byte included.
    pub fn num_read_bytes(&self) -> (r: usize)
        requires
            self.reader.valid(),
        ensures
            r == (self.reader.pos() + 7) / 8,
    {
        self.reader.num_read_bytes()
    }

    /// The next entry of the chain: the position after the last entry's move, with the move
    /// and score the next ply codes. A ply that codes no move ends the chain.
    pub fn next_entry(&mut self) -> (r: TrainingDataEntry)
        requires
            old(self).wf(),
            old(self).num_read_plies < old(self).num_plies,
        ensures
            final(self).wf(),
            final(self).reader.movetext == old(self).reader.movetext,
            final(self).reader.base == old(self).reader.base,
            final(self).num_plies == old(self).num_plies,
            final(self).num_read_plies > old(self).num_read_plies,
            playable(old(self).entry.mv) ==> makes(old(self).entry.pos, old(self).entry.mv, r.pos),
            r.ply == (old(self).entry.ply + 1) % 0x10000,
            r.result == old(self).entry.result,
            final(self).entry == r,
            final(self).last_score == wrap16(-r.score),
            forall|m: Move, d: u16|
                #![trigger chain_move_ok(r.pos, m), vle_bits(d as nat, 4)]
                chain_move_ok(r.pos, m) && seg_at(
                    old(self).reader.bits(),
                    old(self).reader.pos(),
                    ply_head(r.pos, m) + vle_bits(d as nat, 4),
                ) ==> r.mv == m && r.score == wrap16(old(self).last_score + unzigzag(d as int))
                    && final(self).num_read_plies == old(self).num_read_plies + 1
                    && final(self).reader.pos() == old(self).reader.pos() + ply_head(r.pos, m).len()
                    + vle_bits(d as nat, 4).len(),
    {
        let prev = self.entry;
        let mut pos = prev.pos;
        if prev.mv.from.idx < 64 && prev.mv.to.idx < 64 && (prev.mv.move_type != MoveType::Promotion
            || prev.mv.promoted_piece.id <= 12) {
            pos = prev.pos.after_move(prev.mv);
        }
        let ply = if prev.ply == 0xFFFF {
            0
        } else {
            prev.ply + 1
        };
        let ghost begin = self.reader.pos();
        let ghost bits = self.reader.bits();
        let decoded = self.decode_move(&pos);
        let ghost second = self.reader.pos();
        let raw = self.reader.extract_vle16(SCORE_VLE_BLOCK_SIZE);
        let delta = unsigned_to_signed(raw);
        let sum = self.last_score as i32 + delta as i32;
        let score: i16 = if sum > 0x7FFF {
            (sum - 0x10000) as i16
        } else if sum < -0x8000 {
            (sum + 0x10000) as i16
        } else {
            sum as i16
        };
        self.last_score = if score == -0x8000 {
            score
        } else {
            -score
        };
        let mv = match decoded {
            Some(m) => {
                self.num_read_plies = self.num_read_plies + 1;
                m
            },
            None => {
                self.num_read_plies = self.num_plies;
                Move::null()
            },
        };
        let e = TrainingDataEntry { pos, mv, score, ply, result: prev.result };
        self.entry = e;
        proof {
            assert forall|m: Move, d: u16|
                #![trigger chain_move_ok(pos, m), vle_bits(d as nat, 4)]
                chain_move_ok(pos, m) && seg_at(bits, begin, ply_head(pos, m) + vle_bits(d as nat, 4))
                    implies mv == m && score == wrap16(old(self).last_score + unzigzag(d as int))
                && self.num_read_plies == old(self).num_read_plies + 1 && self.reader.pos() == begin
                + ply_head(pos, m).len() + vle_bits(d as nat, 4).len() by {
                let h = ply_head(pos, m);
                let v = vle_bits(d as nat, 4);
                lemma_segment_split(bits, begin, h, v);
                assert(decoded == Some(m));
                assert(second == begin + h.len());
                assert(SCORE_VLE_BLOCK_SIZE as nat == 4);
                assert(crate::bitstream::vle_at(bits, second, d as nat, 4));
                assert(raw == d);
            }
        }
        e
    }

    /// Reads the piece index and move index of a ply and turns them into a move on `pos`.
    fn decode_move(&mut self, pos: &Position) -> (r: Option<Move>)
        requires
            old(self).reader.valid(),
            pos.wf(),
        ensures
            final(self).reader.valid(),
            final(self).reader.movetext == old(self).reader.movetext,
            final(self).reader.base == old(self).reader.base,
            final(self).entry == old(self).entry,
            final(self).num_plies == old(self).num_plies,
            final(self).num_read_plies == old(self).num_read_plies,
            final(self).last_score == old(self).last_score,
            r.is_some() ==> r.unwrap().on_board() && (r.unwrap().move_type == MoveType::Promotion
                ==> r.unwrap().promoted_piece.valid()),
            forall|m: Move|
                #![trigger chain_move_ok(*pos, m)]
                chain_move_ok(*pos, m) && seg_at(old(self).reader.bits(), old(self).reader.pos(), ply_head(*pos, m))
                    ==> r == Some(m) && final(self).reader.pos() == old(self).reader.pos() + ply_head(
                    *pos,
                    m,
                ).len(),
    {
        let ghost begin = self.reader.pos();
        let ghost bits = self.reader.bits();
        let side = pos.stm;
        let c = side.ordinal() as usize;
        let ours = pos.bb_color[c];
        let num_pieces = count_bits(ours);
        proof {
            crate::bits::lemma_squares_len(ours, 0);
            crate::arithmetic::lemma_used_bits_byte(num_pieces as nat);
        }
        let w1 = used_bits(num_pieces as u64);
        let piece_id = self.reader.extract_bits_le8(w1);
        let ghost second = self.reader.pos();
        proof {
            assert forall|m: Move|
                #![trigger chain_move_ok(*pos, m)]
                chain_move_ok(*pos, m) && seg_at(bits, begin, ply_head(*pos, m)) implies second == begin + w1
                && (piece_id as nat) < squares(ours).len() && squares(ours)[piece_id as int]
                == m.from.idx && seg_at(bits, second, field2(*pos, m)) && ply_head(*pos, m).len() == w1
                + field2(*pos, m).len() by {
                crate::bitstream::lemma_fixed_len(piece_index(*pos, m.from.idx as int), w1 as nat);
                crate::bitstream::lemma_fixed_len(
                    move_index(*pos, m) as nat,
                    used_bits_spec(move_choices(*pos, m.from.idx as int)),
                );
                lemma_first_field(*pos, m, bits, begin, piece_id as nat, w1 as nat);
            }
        }
        match nth_set_bit(ours, piece_id as u32) {
            None => None,
            Some(from) => {
                proof {
                    assert(crate::position::square_agrees(*pos, from as int));
                }
                let pt = pos.pieces[from as usize].piece_type();
                let dests = destinations(pos, from);
                let count = count_bits(dests);
                proof {
                    crate::bits::lemma_squares_len(dests, 0);
                    crate::chain::lemma_dest_count(*pos, from as int, dests, 64);
                }
                let last_rank: u32 = if side == Color::White {
                    6
                } else {
                    1
                };
                if pt == PieceType::Pawn && from / 8 == last_rank {
                    self.decode_promotion(pos, from, dests, count, Ghost(bits))
                } else if pt == PieceType::King {
                    self.decode_king(pos, from, dests, count, Ghost(bits))
                } else {
                    self.decode_plain(pos, from, dests, count, Ghost(bits))
                }
            },
        }
    }

    /// The move of a pawn about to promote: destination index times four plus the piece.
    fn decode_promotion(&mut self, pos: &Position, from: u32, dests: u64, count: u32, Ghost(bits): Ghost<Seq<u8>>) -> (r: Option<Move>)
        requires
            old(self).reader.valid(),
            old(self).reader.bits() == bits,
            pos.wf(),
            from < 64,
            promoting(*pos, from as int),
            pos.pieces@[from as int].id != 12,
            pos.pieces@[from as int].spec_color() == pos.stm,
            forall|j: int| 0 <= j < 64 ==> bit(dests, j) == dest(*pos, from as int, j),
            count == dest_count(*pos, from as int, 64),
            count == squares(dests).len(),
            count <= 64,
        ensures
            final(self).reader.valid(),
            final(self).reader.bits() == bits,
            final(self).reader.movetext == old(self).reader.movetext,
            final(self).reader.base == old(self).reader.base,
            final(self).entry == old(self).entry,
            final(self).num_plies == old(self).num_plies,
            final(self).num_read_plies == old(self).num_read_plies,
            final(self).last_score == old(self).last_score,
            r.is_some() ==> r.unwrap().on_board() && r.unwrap().promoted_piece.valid(),
            forall|m: Move|
                #![trigger chain_move_ok(*pos, m)]
                chain_move_ok(*pos, m) && m.from.idx == from && seg_at(bits, old(self).reader.pos(), field2(*pos, m))
                    ==> r == Some(m) && final(self).reader.pos() == old(self).reader.pos() + field2(*pos, m).len(),
    {
        let ghost second = self.reader.pos();
        let side = pos.stm;
        proof {
            crate::arithmetic::lemma_used_bits_byte((count * 4) as nat);
        }
        let w2 = used_bits((count as u64) * 4);
        let move_id = self.reader.extract_bits_le8(w2);
        let mut result: Option<Move> = None;
        match nth_set_bit(dests, (move_id / 4) as u32) {
            Some(to) => {
                let promo = PieceType::from_ordinal(1 + move_id % 4);
                result = Some(Move::promotion(Square::new(from), Square::new(to), Piece::new(promo, side)));
            },
            None => {},
        }
        proof {
            assert forall|m: Move|
                #![trigger chain_move_ok(*pos, m)]
                chain_move_ok(*pos, m) && m.from.idx == from && seg_at(bits, second, field2(*pos, m)) implies result
                == Some(m) && self.reader.pos() == second + field2(*pos, m).len() by {
                let f = m.from.idx as int;
                let t = m.to.idx as int;
                lemma_index_in_range(*pos, m);
                crate::bitstream::lemma_fixed_len(move_index(*pos, m) as nat, w2 as nat);
                lemma_second_field(*pos, m, bits, second, move_id as nat, w2 as nat);
                assert(bit(dests, t));
                crate::bits::lemma_square_at_count(dests, t as nat);
                crate::chain::lemma_dest_count(*pos, f, dests, t);
                let cb = dest_count(*pos, f, t);
                let tt = m.promoted_piece.spec_type().spec_ordinal() as int;
                let mi = move_id as int;
                assert(mi == cb * 4 + tt - 1);
                assert(mi / 4 == cb && mi % 4 == tt - 1) by (nonlinear_arith)
                    requires
                        mi == cb * 4 + tt - 1,
                        1 <= tt <= 4,
                        cb >= 0,
                ;
                assert(squares(dests)[cb as int] == t);
            }
        }
        result
    }

    /// The move of a king: a destination, or castling past the destinations.
    fn decode_king(&mut self, pos: &Position, from: u32, dests: u64, count: u32, Ghost(bits): Ghost<Seq<u8>>) -> (r: Option<Move>)
        requires
            old(self).reader.valid(),
            old(self).reader.bits() == bits,
            pos.wf(),
            from < 64,
            pos.pieces@[from as int].spec_type() == PieceType::King,
            pos.pieces@[from as int].id != 12,
            pos.pieces@[from as int].spec_color() == pos.stm,
            forall|j: int| 0 <= j < 64 ==> bit(dests, j) == dest(*pos, from as int, j),
            count == dest_count(*pos, from as int, 64),
            count == squares(dests).len(),
            count <= 64,
        ensures
            final(self).reader.valid(),
            final(self).reader.bits() == bits,
            final(self).reader.movetext == old(self).reader.movetext,
            final(self).reader.base == old(self).reader.base,
            final(self).entry == old(self).entry,
            final(self).num_plies == old(self).num_plies,
            final(self).num_read_plies == old(self).num_read_plies,
            final(self).last_score == old(self).last_score,
            r.is_some() ==> r.unwrap().on_board() && r.unwrap().move_type != MoveType::Promotion,
            forall|m: Move|
                #![trigger chain_move_ok(*pos, m)]
                chain_move_ok(*pos, m) && m.from.idx == from && seg_at(bits, old(self).reader.pos(), field2(*pos, m))
                    ==> r == Some(m) && final(self).reader.pos() == old(self).reader.pos() + field2(*pos, m).len(),
    {
        let ghost second = self.reader.pos();
        let side = pos.stm;
        let mask = if side == Color::White {
            WHITE_BOTH
        } else {
            BLACK_BOTH
        };
        let rights = pos.castling_rights.count_in(mask);
        proof {
            crate::arithmetic::lemma_used_bits_byte((count + rights) as nat);
        }
        let w2 = used_bits((count + rights) as u64);
        let move_id = self.reader.extract_bits_le8(w2) as u32;
        let mut result: Option<Move> = None;
        if move_id >= count {
            let idx = move_id - count;
            let long = castling_right(side, CastleType::Long);
            let ct = if idx == 0 && pos.castling_rights.contains(long) {
                CastleType::Long
            } else {
                CastleType::Short
            };
            result = Some(Move::from_castle(ct, side));
        } else {
            match nth_set_bit(dests, move_id) {
                Some(to) => {
                    result = Some(Move::normal(Square::new(from), Square::new(to)));
                },
                None => {},
            }
        }
        proof {
            assert forall|m: Move|
                #![trigger chain_move_ok(*pos, m)]
                chain_move_ok(*pos, m) && m.from.idx == from && seg_at(bits, second, field2(*pos, m)) implies result
                == Some(m) && self.reader.pos() == second + field2(*pos, m).len() by {
                let f = m.from.idx as int;
                let t = m.to.idx as int;
                lemma_index_in_range(*pos, m);
                crate::bitstream::lemma_fixed_len(move_index(*pos, m) as nat, w2 as nat);
                assert(move_choices(*pos, f) == count + rights);
                lemma_second_field(*pos, m, bits, second, move_id as nat, w2 as nat);
                if m.move_type == MoveType::Castle {
                    assert(move_id >= count);
                } else {
                    assert(bit(dests, t));
                    crate::bits::lemma_square_at_count(dests, t as nat);
                    crate::chain::lemma_dest_count(*pos, f, dests, t);
                }
            }
        }
        result
    }

    /// The move of any other piece: an index among its destinations.
    fn decode_plain(&mut self, pos: &Position, from: u32, dests: u64, count: u32, Ghost(bits): Ghost<Seq<u8>>) -> (r: Option<Move>)
        requires
            old(self).reader.valid(),
            old(self).reader.bits() == bits,
            pos.wf(),
            from < 64,
            !promoting(*pos, from as int),
            pos.pieces@[from as int].spec_type() != PieceType::King,
            pos.pieces@[from as int].id != 12,
            pos.pieces@[from as int].spec_color() == pos.stm,
            forall|j: int| 0 <= j < 64 ==> bit(dests, j) == dest(*pos, from as int, j),
            count == dest_count(*pos, from as int, 64),
            count == squares(dests).len(),
            count <= 64,
        ensures
            final(self).reader.valid(),
            final(self).reader.bits() == bits,
            final(self).reader.movetext == old(self).reader.movetext,
            final(self).reader.base == old(self).reader.base,
            final(self).entry == old(self).entry,
            final(self).num_plies == old(self).num_plies,
            final(self).num_read_plies == old(self).num_read_plies,
            final(self).last_score == old(self).last_score,
            r.is_some() ==> r.unwrap().on_board() && r.unwrap().move_type != MoveType::Promotion,
            forall|m: Move|
                #![trigger chain_move_ok(*pos, m)]
                chain_move_ok(*pos, m) && m.from.idx == from && seg_at(bits, old(self).reader.pos(), field2(*pos, m))
                    ==> r == Some(m) && final(self).reader.pos() == old(self).reader.pos() + field2(*pos, m).len(),
    {
        let ghost second = self.reader.pos();
        proof {
            assert(crate::position::square_agrees(*pos, from as int));
        }
        let pt = pos.pieces[from as usize].piece_type();
        proof {
            crate::arithmetic::lemma_used_bits_byte(count as nat);
        }
        let w2 = used_bits(count as u64);
        let move_id = self.reader.extract_bits_le8(w2);
        let mut result: Option<Move> = None;
        match nth_set_bit(dests, move_id as u32) {
            Some(to) => {
                if pos.enpassant.idx == to && pt == PieceType::Pawn {
                    result = Some(Move::en_passant(Square::new(from), Square::new(to)));
                } else {
                    result = Some(Move::normal(Square::new(from), Square::new(to)));
                }
            },
            None => {},
        }
        proof {
            assert forall|m: Move|
                #![trigger chain_move_ok(*pos, m)]
                chain_move_ok(*pos, m) && m.from.idx == from && seg_at(bits, second, field2(*pos, m)) implies result
                == Some(m) && self.reader.pos() == second + field2(*pos, m).len() by {
                let f = m.from.idx as int;
                let t = m.to.idx as int;
                lemma_index_in_range(*pos, m);
                crate::bitstream::lemma_fixed_len(move_index(*pos, m) as nat, w2 as nat);
                lemma_second_field(*pos, m, bits, second, move_id as nat, w2 as nat);
                assert(bit(dests, t));
                crate::bits::lemma_square_at_count(dests, t as nat);
                crate::chain::lemma_dest_count(*pos, f, dests, t);
            }
        }
        result
    }
}

/// A ply the writer packed reads back: the bytes hold its move fields and score code where the
/// writer put them, and the reader's score formula gives the score back.
pub proof fn lemma_ply_round_trip(
    b: Seq<u8>,
    bits_left: int,
    prefix: Seq<bool>,
    p: Position,
    m: Move,
    score: i16,
    last: i16,
    rest: Seq<bool>,
)
    requires
        crate::bitstream::writer_ok(b, bits_left),
        crate::bitstream::written(b, bits_left) == prefix + ply_bits(p, m, score, last) + rest,
    ensures
        0 <= zigzag(wrap16(score - last)) < 0x10000,
        seg_at(
            b,
            prefix.len() as int,
            ply_head(p, m) + vle_bits(zigzag(wrap16(score - last)) as nat, 4),
        ),
        wrap16(last + unzigzag(zigzag(wrap16(score - last)))) == score,
{
    let d = wrap16(score - last);
    assert(-0x8000 <= d <= 0x7FFF);
    crate::arithmetic::lemma_zigzag_round_trip(d as i16);
    let seg = ply_head(p, m) + vle_bits(zigzag(d) as nat, 4);
    assert(ply_bits(p, m, score, last) =~= seg);
    let w = crate::bitstream::written(b, bits_left);
    assert(w.len() == prefix.len() + seg.len() + rest.len());
    assert(stream(b, (prefix.len() + seg.len()) as int).subrange(prefix.len() as int, (prefix.len() + seg.len()) as int)
        =~= seg) by {
        assert forall|i: int| 0 <= i < seg.len() implies #[trigger] seg[i] == crate::bitstream::bitat(
            b,
            prefix.len() + i,
        ) by {
            assert(w[prefix.len() + i] == (prefix + seg + rest)[prefix.len() + i]);
        }
    }
}

} // verus!
