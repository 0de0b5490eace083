use vstd::prelude::*;
use crate::arithmetic::{signed_to_unsigned, used_bits, used_bits_spec, zigzag};
use crate::attacks::{self, piece_target, pawn_target};
use crate::bitboard::{count_bits, count_bits_below};
use crate::bits::{bit, count_below, lemma_bit_and, lemma_bit_not, popcount, with_bit};
use crate::bitstream::{fixed_bits, lemma_vle_len, push_bits, push_vle, vle_bits, writer_ok, written, pow2n};
use crate::castling::{castling_right, CastleType, BLACK_BOTH, WHITE_BOTH};
use crate::chess_move::{Move, MoveType};
use crate::coords::{file_of, rank_of, Color, Square};
use crate::entry::TrainingDataEntry;
use crate::piece::PieceType;
use crate::position::Position;

verus! {

/// Block size of the variable-length score deltas.
pub const SCORE_VLE_BLOCK_SIZE: usize = 4;

/// `x` brought into the range of `i16` by wrapping.
pub open spec fn wrap16(x: int) -> int {
    if x > 0x7FFF {
        x - 0x10000
    } else if x < -0x8000 {
        x + 0x10000
    } else {
        x
    }
}

fn wrapping_sub16(a: i16, b: i16) -> (r: i16)
    ensures
        r == wrap16(a - b),
{
    let d = a as i32 - b as i32;
    if d > 0x7FFF {
        (d - 0x10000) as i16
    } else if d < -0x8000 {
        (d + 0x10000) as i16
    } else {
        d as i16
    }
}

fn wrapping_neg16(a: i16) -> (r: i16)
    ensures
        r == wrap16(-a),
{
    if a == -0x8000 {
        a
    } else {
        -a
    }
}

/// The squares the piece of the side to move on `from` may go to, as the chain code counts
/// them: for a pawn its captures (the en-passant square counting as a capture) and its pushes;
/// for other pieces their attacks on squares not held by the mover.
pub open spec fn dest(p: Position, from: int, j: int) -> bool {
    let stm = p.stm;
    let c = stm.spec_ordinal() as int;
    let ours = bit(p.bb_color@[c], j);
    let theirs = bit(p.bb_color@[1 - c], j);
    let occupied = ours || theirs;
    let pt = p.pieces@[from].spec_type();
    if pt == PieceType::Pawn {
        let fwd = if stm == Color::White { from + 8 } else { from - 8 };
        let fwd2 = if stm == Color::White { from + 16 } else { from - 16 };
        let start = if stm == Color::White { 1int } else { 6int };
        let ep = p.enpassant.idx as int;
        let fwd_free = 0 <= fwd < 64 && !bit(p.occ(), fwd);
        (pawn_target(stm, from, j) && (theirs || (ep < 64 && j == ep))) || (fwd_free && j == fwd)
            || (fwd_free && rank_of(from) == start && 0 <= fwd2 < 64 && !bit(p.occ(), fwd2) && j
            == fwd2)
    } else {
        piece_target(pt, from, p.occ(), j) && !ours
    }
}

/// Number of squares below `n` that satisfy `dest`.
pub open spec fn dest_count(p: Position, from: int, n: int) -> nat
    decreases n,
{
    if n <= 0 {
        0
    } else {
        dest_count(p, from, n - 1) + (if dest(p, from, n - 1) { 1nat } else { 0nat })
    }
}

/// Whether the move starts from the rank before promotion.
pub open spec fn promoting(p: Position, from: int) -> bool {
    p.pieces@[from].spec_type() == PieceType::Pawn && rank_of(from) == (if p.stm == Color::White {
        6int
    } else {
        1int
    })
}

/// Number of castling rights the side to move holds.
pub open spec fn own_rights(p: Position) -> nat {
    let m = p.castling_rights.bits & (if p.stm == Color::White { WHITE_BOTH } else { BLACK_BOTH });
    (if m & 1 != 0 { 1nat } else { 0 }) + (if m & 2 != 0 { 1nat } else { 0 }) + (if m & 4 != 0 {
        1nat
    } else {
        0
    }) + (if m & 8 != 0 { 1nat } else { 0 })
}

/// How many moves the piece on `from` is chosen among.
pub open spec fn move_choices(p: Position, from: int) -> nat {
    let pt = p.pieces@[from].spec_type();
    if pt == PieceType::King {
        dest_count(p, from, 64) + own_rights(p)
    } else if promoting(p, from) {
        dest_count(p, from, 64) * 4
    } else {
        dest_count(p, from, 64)
    }
}

/// The index of move `m` among the choices of its piece.
pub open spec fn move_index(p: Position, m: Move) -> int {
    let from = m.from.idx as int;
    let to = m.to.idx as int;
    let pt = p.pieces@[from].spec_type();
    if pt == PieceType::King && m.move_type == MoveType::Castle {
        let long_held = p.castling_rights.has(castling_right_spec(p.stm, CastleType::Long));
        let short = file_of(to) == 7;
        let raw = dest_count(p, from, 64) + (if long_held { 1int } else { 0 }) + (if short {
            1int
        } else {
            0
        }) - 1;
        if raw < 0 {
            0
        } else {
            raw
        }
    } else if pt == PieceType::King {
        dest_count(p, from, to) as int
    } else if promoting(p, from) {
        dest_count(p, from, to) * 4 + m.promoted_piece.spec_type().spec_ordinal() - 1
    } else {
        dest_count(p, from, to) as int
    }
}

pub open spec fn castling_right_spec(c: Color, ct: CastleType) -> u8 {
    crate::castling::right_flag(c, ct)
}

/// Index of the moving piece among the pieces of the side to move, by ascending square.
pub open spec fn piece_index(p: Position, from: int) -> nat {
    count_below(p.bb_color@[p.stm.spec_ordinal() as int], from as nat)
}

/// The bits of one ply: piece index, move index, then the score delta.
pub open spec fn ply_bits(p: Position, m: Move, score: i16, last_score: i16) -> Seq<bool> {
    let ours = p.bb_color@[p.stm.spec_ordinal() as int];
    fixed_bits(piece_index(p, m.from.idx as int), used_bits_spec(popcount(ours))) + fixed_bits(
        move_index(p, m) as nat,
        used_bits_spec(move_choices(p, m.from.idx as int)),
    ) + vle_bits(zigzag(wrap16(score - last_score)) as nat, 4)
}

/// The piece and move fields of the ply of move `m`.
pub open spec fn ply_head(p: Position, m: Move) -> Seq<bool> {
    let ours = p.bb_color@[p.stm.spec_ordinal() as int];
    fixed_bits(piece_index(p, m.from.idx as int), used_bits_spec(popcount(ours))) + fixed_bits(
        move_index(p, m) as nat,
        used_bits_spec(move_choices(p, m.from.idx as int)),
    )
}

/// A move that the ply code carries exactly: a castling move from the king's home square to the
/// corner of a right held, or a move to a destination of its piece, typed as the reader types
/// it (promotion from the rank before the last, en passant onto the en-passant square).
pub open spec fn chain_move_ok(p: Position, m: Move) -> bool {
    let from = m.from.idx as int;
    let to = m.to.idx as int;
    let pc = p.pieces@[from];
    let pt = pc.spec_type();
    let c = p.stm;
    let white = c == Color::White;
    let home: int = if white { 4 } else { 60 };
    let base: int = if white { 0 } else { 56 };
    let ks: u8 = if white { 1 } else { 4 };
    let qs: u8 = if white { 2 } else { 8 };
    &&& m.on_board()
    &&& pc.id != 12
    &&& pc.spec_color() == c
    &&& if pt == PieceType::King && m.move_type == MoveType::Castle {
        from == home && m.promoted_piece.id == 12 && ((to == base + 7 && p.castling_rights.has(ks))
            || (to == base && p.castling_rights.has(qs)))
    } else if promoting(p, from) {
        dest(p, from, to) && m.move_type == MoveType::Promotion && 1 <= m.promoted_piece.id / 2 <= 4
            && m.promoted_piece.id % 2 == c.spec_ordinal()
    } else if pt == PieceType::Pawn {
        dest(p, from, to) && m.promoted_piece.id == 12 && m.move_type == (if to
            == p.enpassant.idx {
            MoveType::EnPassant
        } else {
            MoveType::Normal
        })
    } else {
        dest(p, from, to) && m.promoted_piece.id == 12 && m.move_type == MoveType::Normal
    }
}

/// A move whose ply the chain can code: a piece of the side to move leaves `from`.
pub open spec fn codable(p: Position, m: Move) -> bool {
    &&& m.on_board()
    &&& p.pieces@[m.from.idx as int].id != 12
    &&& p.pieces@[m.from.idx as int].spec_color() == p.stm
    &&& m.promoted_piece.valid()
    &&& m.promoted_piece.id >= 2
}

/// The plies of a chain, bit-packed, with the score the next delta is taken against.
#[derive(Debug)]
pub struct PackedMoveScoreList {
    pub num_plies: u16,
    pub movetext: Vec<u8>,
    pub bits_left: usize,
    pub last_score: i16,
}

impl PackedMoveScoreList {
    pub open spec fn wf(self) -> bool {
        writer_ok(self.movetext@, self.bits_left as int)
    }

    /// The bits of the plies so far.
    pub open spec fn bits(self) -> Seq<bool> {
        written(self.movetext@, self.bits_left as int)
    }

    pub fn new() -> (r: PackedMoveScoreList)
        ensures
            r.wf(),
            r.num_plies == 0,
            r.bits().len() == 0,
            r.movetext@.len() == 0,
            r.last_score == 0,
    {
        PackedMoveScoreList { num_plies: 0, movetext: Vec::new(), bits_left: 0, last_score: 0 }
    }

    /// Starts a new chain after the stem entry `e`.
    pub fn clear(&mut self, e: &TrainingDataEntry)
        ensures
            final(self).wf(),
            final(self).num_plies == 0,
            final(self).movetext@.len() == 0,
            final(self).bits().len() == 0,
            final(self).last_score == wrap16(-e.score),
    {
        self.num_plies = 0;
        self.movetext = Vec::new();
        self.bits_left = 0;
        self.last_score = wrapping_neg16(e.score);
    }

    /// The packed plies.
    pub fn movetext(&self) -> (r: &Vec<u8>)
        ensures
            r@ == self.movetext@,
    {
        &self.movetext
    }

    /// Appends the ply of move `mv` on `pos` with score `score`.
    pub fn add_move_score(&mut self, pos: &Position, mv: Move, score: i16)
        requires
            old(self).wf(),
            pos.wf(),
            codable(*pos, mv),
            old(self).num_plies < 0xFFFF,
            old(self).movetext@.len() < 0x0100_0000,
        ensures
            final(self).wf(),
            final(self).bits() == old(self).bits() + ply_bits(*pos, mv, score, old(self).last_score),
            final(self).num_plies == old(self).num_plies + 1,
            final(self).last_score == wrap16(-score),
            final(self).movetext@.len() <= old(self).movetext@.len() + 160,
    {
        let (piece_id, w1, move_id, w2) = ply_ids(pos, mv);
        push_bits(&mut self.movetext, &mut self.bits_left, piece_id, w1);
        push_bits(&mut self.movetext, &mut self.bits_left, move_id, w2);
        let delta = signed_to_unsigned(wrapping_sub16(score, self.last_score));
        proof {
            assert(pow2n(16) == 0x10000) by {
                reveal_with_fuel(pow2n, 17);
            }
            lemma_vle_len(delta as nat, 4, 16);
            assert((4nat + 1) * (16nat + 1) == 85) by (nonlinear_arith);
            assert(SCORE_VLE_BLOCK_SIZE as nat == 4nat);
            assert(vle_bits(delta as nat, SCORE_VLE_BLOCK_SIZE as nat).len() <= 85);
            assert(self.movetext@.len() <= old(self).movetext@.len() + 64);
        }
        push_vle(&mut self.movetext, &mut self.bits_left, delta, SCORE_VLE_BLOCK_SIZE);
        self.last_score = wrapping_neg16(score);
        self.num_plies = self.num_plies + 1;
        proof {
            assert(self.bits() =~= old(self).bits() + ply_bits(*pos, mv, score, old(self).last_score));
        }
    }
}

/// The piece index and move index of a ply, with their widths in bits.
fn ply_ids(pos: &Position, mv: Move) -> (r: (u32, usize, u32, usize))
    requires
        pos.wf(),
        codable(*pos, mv),
    ensures
        r.0 == piece_index(*pos, mv.from.idx as int),
        r.1 == used_bits_spec(popcount(pos.bb_color@[pos.stm.spec_ordinal() as int])),
        r.2 == move_index(*pos, mv),
        r.3 == used_bits_spec(move_choices(*pos, mv.from.idx as int)),
        r.1 <= 32,
        r.3 <= 32,
{
    let side = pos.stm;
    let from = mv.from.idx;
    let to = mv.to.idx;
    let c = side.ordinal() as usize;
    let ours = pos.bb_color[c];
    let piece_id = count_bits_below(ours, from);
    proof {
        assert(crate::position::square_agrees(*pos, from as int));
    }
    let pt = pos.pieces[from as usize].piece_type();
    let dests = destinations(pos, from);
    let mut num_moves: u32 = count_bits(dests);
    let move_id: u32;
    proof {
        lemma_dest_count(*pos, from as int, dests, 64);
    }
    if pt == PieceType::King {
        let mask = if side == Color::White {
            WHITE_BOTH
        } else {
            BLACK_BOTH
        };
        let rights = pos.castling_rights.count_in(mask);
        let asz = num_moves;
        num_moves = num_moves + rights;
        if mv.move_type == MoveType::Castle {
            let long = castling_right(side, CastleType::Long);
            let mut raw = asz;
            if pos.castling_rights.contains(long) {
                raw = raw + 1;
            }
            if to % 8 == 7 {
                raw = raw + 1;
            }
            move_id = if raw >= 1 {
                raw - 1
            } else {
                0
            };
        } else {
            move_id = count_bits_below(dests, to);
            proof {
                lemma_dest_count(*pos, from as int, dests, to as int);
            }
        }
    } else {
        let base = count_bits_below(dests, to);
        proof {
            lemma_dest_count(*pos, from as int, dests, to as int);
            crate::bits::lemma_count_below_le(dests, to as nat);
        }
        let last_rank: u32 = if side == Color::White {
            6
        } else {
            1
        };
        if pt == PieceType::Pawn && from / 8 == last_rank {
            let promo = mv.promoted_piece.id / 2;
            move_id = base * 4 + promo as u32 - 1;
            num_moves = num_moves * 4;
        } else {
            move_id = base;
        }
    }
    let num_pieces = count_bits(ours);
    let w1 = used_bits(num_pieces as u64);
    let w2 = used_bits(num_moves as u64);
    proof {
        crate::arithmetic::lemma_used_bits_small(num_pieces as nat);
        crate::arithmetic::lemma_used_bits_small(num_moves as nat);
    }
    (piece_id, w1, move_id, w2)
}

/// The destination squares of the piece on `from`, as [`dest`] counts them.
pub(crate) fn destinations(pos: &Position, from: u32) -> (r: u64)
    requires
        pos.wf(),
        from < 64,
        pos.pieces@[from as int].id != 12,
        pos.pieces@[from as int].spec_color() == pos.stm,
    ensures
        forall|j: int| 0 <= j < 64 ==> bit(r, j) == dest(*pos, from as int, j),
{
    let side = pos.stm;
    let c = side.ordinal() as usize;
    let ours = pos.bb_color[c];
    let theirs = pos.bb_color[1 - c];
    let occupied = pos.occupied();
    proof {
        assert(crate::position::square_agrees(*pos, from as int));
    }
    let pt = pos.pieces[from as usize].piece_type();
    let sq = Square::new(from);
    if pt == PieceType::Pawn {
        let ep = pos.enpassant;
        let mut targets = theirs;
        if ep.idx < 64 {
            targets = with_bit(targets, ep.idx, true);
        }
        let att = attacks::pawn(side, sq);
        let mut d = att.data & targets;
        proof {
            assert forall|j: int| 0 <= j < 64 implies bit(d, j) == (pawn_target(side, from as int, j) && (bit(theirs, j) || (ep.idx < 64 && j == ep.idx))) by {
                lemma_bit_and(att.data, targets, j as u64);
                assert(att.has(j) == pawn_target(side, from as int, j));
            }
        }
        let white = side == Color::White;
        let fwd_ok = if white {
            from + 8 < 64
        } else {
            from >= 8
        };
        if fwd_ok {
            let fwd = if white {
                from + 8
            } else {
                from - 8
            };
            if !occupied.is_set(fwd) {
                let d0 = d;
                d = with_bit(d, fwd, true);
                let start: u32 = if white {
                    1
                } else {
                    6
                };
                let fwd2_ok = if white {
                    from + 16 < 64
                } else {
                    from >= 16
                };
                if from / 8 == start && fwd2_ok {
                    let fwd2 = if white {
                        from + 16
                    } else {
                        from - 16
                    };
                    if !occupied.is_set(fwd2) {
                        d = with_bit(d, fwd2, true);
                    }
                }
            }
        }
        d
    } else {
        let att = attacks::piece_attacks(pt, sq, occupied);
        let d = att.data & !ours;
        proof {
            assert forall|j: int| 0 <= j < 64 implies bit(d, j) == dest(*pos, from as int, j) by {
                lemma_bit_and(att.data, !ours, j as u64);
                lemma_bit_not(ours, j as u64);
                assert(att.has(j) == piece_target(pt, from as int, pos.occ(), j));
            }
        }
        d
    }
}

/// Counting the set bits of a destination set counts the destinations.
pub proof fn lemma_dest_count(p: Position, from: int, d: u64, n: int)
    requires
        0 <= n <= 64,
        forall|j: int| 0 <= j < 64 ==> bit(d, j) == dest(p, from, j),
    ensures
        count_below(d, n as nat) == dest_count(p, from, n),
        n == 64 ==> popcount(d) == dest_count(p, from, 64),
    decreases n,
{
    if n > 0 {
        lemma_dest_count(p, from, d, n - 1);
    }
    if n == 64 {
        crate::bitboard::lemma_popcount_is_count_below(d);
    }
}

proof fn lemma_dest_count_strict(p: Position, from: int, to: int, n: int)
    requires
        0 <= to < n <= 64,
        dest(p, from, to),
    ensures
        dest_count(p, from, to) < dest_count(p, from, n),
    decreases n,
{
    if n > to + 1 {
        lemma_dest_count_strict(p, from, to, n - 1);
    }
}

/// The move index of a move the chain carries lies below the number of choices.
pub proof fn lemma_index_in_range(p: Position, m: Move)
    requires
        p.wf(),
        chain_move_ok(p, m),
    ensures
        0 <= move_index(p, m) < move_choices(p, m.from.idx as int),
{
    let from = m.from.idx as int;
    let to = m.to.idx as int;
    let pt = p.pieces@[from].spec_type();
    let cr = p.castling_rights.bits;
    if pt == PieceType::King && m.move_type == MoveType::Castle {
        let mask: u8 = if p.stm == Color::White { 3 } else { 12 };
        let mm = cr & mask;
        if p.stm == Color::White {
            assert((cr & 1 == 1) ==> (cr & 3) & 1 != 0) by (bit_vector);
            assert((cr & 2 == 2) ==> (cr & 3) & 2 != 0) by (bit_vector);
            assert((cr & 3) & 4 == 0 && (cr & 3) & 8 == 0) by (bit_vector);
        } else {
            assert((cr & 4 == 4) ==> (cr & 12) & 4 != 0) by (bit_vector);
            assert((cr & 8 == 8) ==> (cr & 12) & 8 != 0) by (bit_vector);
            assert((cr & 12) & 1 == 0 && (cr & 12) & 2 == 0) by (bit_vector);
        }
    } else {
        lemma_dest_count_strict(p, from, to, 64);
        if promoting(p, from) {
            let t = m.promoted_piece.spec_type().spec_ordinal();
            assert(1 <= t <= 4);
            let cb = dest_count(p, from, to);
            let cnt = dest_count(p, from, 64);
            assert(cb * 4 + t - 1 < cnt * 4) by (nonlinear_arith)
                requires
                    cb < cnt,
                    1 <= t <= 4,
            ;
        }
    }
}

} // verus!
