use vstd::prelude::*;
use crate::attacks::{self, bishop_target, king_target, knight_target, pawn_target, rook_target};
use crate::bitboard::Bitboard;
use crate::bits::{bit, lemma_bit_and, lemma_bit_or, lemma_pop_lowest, lemma_zero_iff_no_bits, with_bit};
use crate::castling::{CastlingRights, BLACK_BOTH, BLACK_KING_SIDE, BLACK_QUEEN_SIDE, WHITE_BOTH, WHITE_KING_SIDE, WHITE_QUEEN_SIDE};
use crate::chess_move::{Move, MoveType};
use crate::coords::{file_of, Color, Square};
use crate::piece::{piece_id, Piece, PieceType};

verus! {

/// A chess position: the board, with one bitboard per piece type and per colour kept in step
/// with the square-by-square piece array, and the game state.
#[derive(Debug, Clone, Copy, PartialEq, Eq)]
pub struct Position {
    /// Bitboards of each piece type (PNBRQK).
    pub bb: [u64; 6],
    /// Bitboards of each colour (White, Black).
    pub bb_color: [u64; 2],
    /// The piece on each square.
    pub pieces: [Piece; 64],
    pub stm: Color,
    pub castling_rights: CastlingRights,
    /// Halfmove clock of the fifty-move rule.
    pub halfm: u8,
    /// Fullmove number.
    pub fullm: u16,
    /// En-passant target square, or none.
    pub enpassant: Square,
}

/// Square `s` agrees between the piece array and the bitboards.
pub open spec fn square_agrees(p: Position, s: int) -> bool {
    let id = p.pieces@[s].id;
    &&& id <= 12
    &&& bit(p.bb@[0], s) == (id / 2 == 0)
    &&& bit(p.bb@[1], s) == (id / 2 == 1)
    &&& bit(p.bb@[2], s) == (id / 2 == 2)
    &&& bit(p.bb@[3], s) == (id / 2 == 3)
    &&& bit(p.bb@[4], s) == (id / 2 == 4)
    &&& bit(p.bb@[5], s) == (id / 2 == 5)
    &&& bit(p.bb_color@[0], s) == (id < 12 && id % 2 == 0)
    &&& bit(p.bb_color@[1], s) == (id < 12 && id % 2 == 1)
}

/// Whether a piece of type `pt` and colour `c` stands on `s`.
pub open spec fn holds(p: Position, s: int, pt: PieceType, c: Color) -> bool {
    p.pieces@[s].id == piece_id(pt, c)
}

/// Piece `t` of colour `c` attacks square `sq`, seen from `sq` as in the attack tables.
pub open spec fn attacker(p: Position, sq: int, c: Color, t: int) -> bool {
    let occ = p.occ();
    (pawn_target(c.spec_flip(), sq, t) && holds(p, t, PieceType::Pawn, c)) || (knight_target(sq, t)
        && holds(p, t, PieceType::Knight, c)) || (king_target(sq, t) && holds(
        p,
        t,
        PieceType::King,
        c,
    )) || (bishop_target(sq, occ, t) && (holds(p, t, PieceType::Bishop, c) || holds(
        p,
        t,
        PieceType::Queen,
        c,
    ))) || (rook_target(sq, occ, t) && (holds(p, t, PieceType::Rook, c) || holds(
        p,
        t,
        PieceType::Queen,
        c,
    )))
}

/// Square `sq` is attacked by side `c`.
pub open spec fn attacked(p: Position, sq: int, c: Color) -> bool {
    exists|t: int| 0 <= t < 64 && #[trigger] attacker(p, sq, c, t)
}

/// The castling flags lost when a move starts or ends on `s`.
pub open spec fn rights_lost(s: int) -> u8 {
    if s == 4 {
        WHITE_BOTH
    } else if s == 60 {
        BLACK_BOTH
    } else if s == 0 {
        WHITE_QUEEN_SIDE
    } else if s == 7 {
        WHITE_KING_SIDE
    } else if s == 56 {
        BLACK_QUEEN_SIDE
    } else if s == 63 {
        BLACK_KING_SIDE
    } else {
        0
    }
}

/// Where king and rook land when side `c` castles with the rook on `rook_sq`.
pub open spec fn castle_landing(c: Color, rook_sq: int) -> (int, int) {
    let short = file_of(rook_sq) == 7;
    if c == Color::White {
        if short {
            (6, 5)
        } else {
            (2, 3)
        }
    } else {
        if short {
            (62, 61)
        } else {
            (58, 59)
        }
    }
}

pub open spec fn none_piece() -> Piece {
    Piece { id: 12 }
}

/// The board after move `m`.
pub open spec fn board_after(p: Position, m: Move) -> Seq<Piece> {
    let b = p.pieces@;
    let from = m.from.idx as int;
    let to = m.to.idx as int;
    let pc = b[from];
    match m.move_type {
        MoveType::Castle => {
            let (kto, rto) = castle_landing(p.stm, to);
            let b1 = b.update(from, none_piece());
            b1.update(to, none_piece()).update(rto, b1[to]).update(kto, pc)
        },
        MoveType::Promotion => b.update(from, none_piece()).update(to, m.promoted_piece),
        MoveType::EnPassant => b.update(from, none_piece()).update(ep_victim(to), none_piece()).update(
            to,
            pc,
        ),
        MoveType::Normal => b.update(from, none_piece()).update(to, pc),
    }
}

/// The square of the pawn taken en passant on `to`: the one behind it, `to ^ 8`.
pub open spec fn ep_victim(to: int) -> int {
    if to % 16 >= 8 {
        to - 8
    } else {
        to + 8
    }
}

/// Whether move `m` captures an enemy piece on its destination.
pub open spec fn genuine_capture(p: Position, m: Move) -> bool {
    p.pieces@[m.to.idx as int].id != 12 && m.move_type != MoveType::Castle
}

/// A pawn's two-square advance.
pub open spec fn double_push(p: Position, m: Move) -> bool {
    p.pieces@[m.from.idx as int].id / 2 == 0 && (m.to.idx - m.from.idx == 16 || m.from.idx
        - m.to.idx == 16)
}

/// `q` is the position after move `m` on `p`: board, side to move, counters, castling rights
/// and en-passant square.
pub open spec fn makes(p: Position, m: Move, q: Position) -> bool {
    &&& q.pieces@ == board_after(p, m)
    &&& q.stm == p.stm.spec_flip()
    &&& q.halfm == (if genuine_capture(p, m) || p.pieces@[m.from.idx as int].id / 2 == 0 {
        0
    } else if p.halfm < 255 {
        p.halfm + 1
    } else {
        255int
    })
    &&& q.fullm == (if p.stm == Color::Black && p.fullm < 0xFFFF {
        p.fullm + 1
    } else {
        p.fullm as int
    })
    &&& q.castling_rights.bits == p.castling_rights.bits & !rights_lost(m.from.idx as int)
        & !rights_lost(m.to.idx as int)
    &&& q.enpassant.idx == ep_after(p, m, q.pieces@)
}

/// Side `c` has a king, and its lowest king is attacked.
pub open spec fn in_check(p: Position, c: Color) -> bool {
    exists|k: int|
        0 <= k < 64 && holds(p, k, PieceType::King, c) && (forall|j: int|
            0 <= j < k ==> !holds(p, j, PieceType::King, c)) && attacked(p, k, c.spec_flip())
}

/// On the board `board`, side `c` is not in check.
pub open spec fn safe_on(board: Seq<Piece>, c: Color) -> bool {
    exists|p: Position| p.wf() && p.pieces@ == board && !in_check(p, c)
}

/// The board after an en-passant capture onto `victim` by the pawn on `e`, taking the pawn on `to`.
pub open spec fn ep_capture_board(board: Seq<Piece>, e: int, victim: int, to: int, capturer: Color) -> Seq<Piece> {
    board.update(e, none_piece()).update(victim, Piece { id: piece_id(PieceType::Pawn, capturer) }).update(
        to,
        none_piece(),
    )
}

/// The en-passant square a double push leaves: behind the pawn when an enemy pawn can take it
/// without leaving its own king attacked, else none.
pub open spec fn ep_after(p: Position, m: Move, board: Seq<Piece>) -> int {
    let victim = ep_victim(m.to.idx as int);
    let enemy = p.stm.spec_flip();
    if double_push(p, m) && exists|e: int|
        0 <= e < 64 && pawn_target(p.stm, victim, e) && board[e].id == piece_id(PieceType::Pawn, enemy)
            && safe_on(ep_capture_board(board, e, victim, m.to.idx as int, enemy), enemy) {
        victim
    } else {
        64
    }
}

proof fn lemma_slides_same_bits(s: int, a: u64, b: u64, df: int, dr: int, t: int)
    requires
        forall|j: int| 0 <= j < 64 ==> bit(a, j) == bit(b, j),
        0 <= s < 64,
    ensures
        attacks::slides_to(s, a, df, dr, t) == attacks::slides_to(s, b, df, dr, t),
{
    if attacks::slides_to(s, a, df, dr, t) {
        let k = choose|k: int|
            1 <= k < 8 && attacks::on_ray(s, df, dr, k) && attacks::ray_sq(s, df, dr, k) == t && (forall|m: int|
                1 <= m < k ==> !bit(a, attacks::ray_sq(s, df, dr, m)));
        assert forall|m: int| 1 <= m < k implies !bit(b, attacks::ray_sq(s, df, dr, m)) by {
            assert(attacks::on_ray(s, df, dr, m) || true);
            lemma_ray_in_board(s, df, dr, k, m);
        }
    }
    if attacks::slides_to(s, b, df, dr, t) {
        let k = choose|k: int|
            1 <= k < 8 && attacks::on_ray(s, df, dr, k) && attacks::ray_sq(s, df, dr, k) == t && (forall|m: int|
                1 <= m < k ==> !bit(b, attacks::ray_sq(s, df, dr, m)));
        assert forall|m: int| 1 <= m < k implies !bit(a, attacks::ray_sq(s, df, dr, m)) by {
            lemma_ray_in_board(s, df, dr, k, m);
        }
    }
}

/// Squares before an on-board ray square are on the board.
proof fn lemma_ray_in_board(s: int, df: int, dr: int, k: int, m: int)
    requires
        0 <= s < 64,
        1 <= m < k,
        attacks::on_ray(s, df, dr, k),
    ensures
        0 <= attacks::ray_sq(s, df, dr, m) < 64,
{
}

/// Whether a square is attacked depends on the board alone.
proof fn lemma_attacked_board_only(p: Position, q: Position, sq: int, c: Color)
    requires
        p.wf(),
        q.wf(),
        p.pieces@ == q.pieces@,
        0 <= sq < 64,
    ensures
        attacked(p, sq, c) == attacked(q, sq, c),
{
    assert forall|j: int| 0 <= j < 64 implies bit(p.occ(), j) == bit(q.occ(), j) by {
        assert(square_agrees(p, j));
        assert(square_agrees(q, j));
        lemma_bit_or(p.bb_color@[0], p.bb_color@[1], j as u64);
        lemma_bit_or(q.bb_color@[0], q.bb_color@[1], j as u64);
    }
    assert forall|t: int| 0 <= t < 64 implies attacker(p, sq, c, t) == attacker(q, sq, c, t) by {
        lemma_slides_same_bits(sq, p.occ(), q.occ(), 0, 1, t);
        lemma_slides_same_bits(sq, p.occ(), q.occ(), 0, -1, t);
        lemma_slides_same_bits(sq, p.occ(), q.occ(), 1, 0, t);
        lemma_slides_same_bits(sq, p.occ(), q.occ(), -1, 0, t);
        lemma_slides_same_bits(sq, p.occ(), q.occ(), 1, 1, t);
        lemma_slides_same_bits(sq, p.occ(), q.occ(), 1, -1, t);
        lemma_slides_same_bits(sq, p.occ(), q.occ(), -1, 1, t);
        lemma_slides_same_bits(sq, p.occ(), q.occ(), -1, -1, t);
    }
    if attacked(p, sq, c) {
        let t = choose|t: int| 0 <= t < 64 && #[trigger] attacker(p, sq, c, t);
        assert(attacker(q, sq, c, t));
    }
    if attacked(q, sq, c) {
        let t = choose|t: int| 0 <= t < 64 && #[trigger] attacker(q, sq, c, t);
        assert(attacker(p, sq, c, t));
    }
}

/// Whether a side is in check depends on the board alone.
pub proof fn lemma_in_check_board_only(p: Position, q: Position, c: Color)
    requires
        p.wf(),
        q.wf(),
        p.pieces@ == q.pieces@,
    ensures
        in_check(p, c) == in_check(q, c),
{
    if in_check(p, c) {
        let k = choose|k: int|
            0 <= k < 64 && holds(p, k, PieceType::King, c) && (forall|j: int|
                0 <= j < k ==> !holds(p, j, PieceType::King, c)) && attacked(p, k, c.spec_flip());
        lemma_attacked_board_only(p, q, k, c.spec_flip());
        assert forall|j: int| 0 <= j < k implies !holds(q, j, PieceType::King, c) by {
            assert(p.pieces@[j] == q.pieces@[j]);
            assert(!holds(p, j, PieceType::King, c));
        }
        assert(0 <= k < 64 && holds(q, k, PieceType::King, c) && (forall|j: int|
            0 <= j < k ==> !holds(q, j, PieceType::King, c)) && attacked(q, k, c.spec_flip()));
    }
    if in_check(q, c) {
        let k = choose|k: int|
            0 <= k < 64 && holds(q, k, PieceType::King, c) && (forall|j: int|
                0 <= j < k ==> !holds(q, j, PieceType::King, c)) && attacked(q, k, c.spec_flip());
        lemma_attacked_board_only(p, q, k, c.spec_flip());
        assert forall|j: int| 0 <= j < k implies !holds(p, j, PieceType::King, c) by {
            assert(p.pieces@[j] == q.pieces@[j]);
            assert(!holds(q, j, PieceType::King, c));
        }
        assert(0 <= k < 64 && holds(p, k, PieceType::King, c) && (forall|j: int|
            0 <= j < k ==> !holds(p, j, PieceType::King, c)) && attacked(p, k, c.spec_flip()));
    }
}

impl Position {
    pub open spec fn wf(self) -> bool {
        &&& forall|s: int| 0 <= s < 64 ==> #[trigger] square_agrees(self, s)
        &&& self.castling_rights.valid()
        &&& self.enpassant.valid()
    }

    /// Occupied squares.
    pub open spec fn occ(self) -> u64 {
        self.bb_color@[0] | self.bb_color@[1]
    }

    /// The empty board, White to move, move one.
    pub fn new() -> (r: Position)
        ensures
            r.wf(),
            forall|s: int| 0 <= s < 64 ==> r.pieces@[s].id == 12,
            r.stm == Color::White,
            r.castling_rights.bits == 0,
            r.halfm == 0,
            r.fullm == 1,
            r.enpassant.idx == 64,
    {
        let r = Position {
            bb: [0u64; 6],
            bb_color: [0u64; 2],
            pieces: [Piece::none();64],
            stm: Color::White,
            castling_rights: CastlingRights::none(),
            halfm: 0,
            fullm: 1,
            enpassant: Square::none(),
        };
        proof {
            assert forall|s: int| 0 <= s < 64 implies #[trigger] square_agrees(r, s) by {
                crate::bits::lemma_bit_zero(s as u64);
            }
        }
        r
    }

    pub fn side_to_move(&self) -> (r: Color)
        ensures
            r == self.stm,
    {
        self.stm
    }

    /// All occupied squares.
    pub fn occupied(&self) -> (r: Bitboard)
        requires
            self.wf(),
        ensures
            r.data == self.occ(),
            forall|j: int| 0 <= j < 64 ==> r.has(j) == (self.pieces@[j].id != 12),
    {
        let r = Bitboard::new(self.bb_color[0] | self.bb_color[1]);
        proof {
            assert forall|j: int| 0 <= j < 64 implies r.has(j) == (self.pieces@[j].id != 12) by {
                assert(square_agrees(*self, j));
                lemma_bit_or(self.bb_color@[0], self.bb_color@[1], j as u64);
            }
        }
        r
    }

    /// The squares of the pieces of colour `color`.
    pub fn pieces_bb(&self, color: Color) -> (r: Bitboard)
        requires
            self.wf(),
        ensures
            forall|j: int|
                0 <= j < 64 ==> r.has(j) == (self.pieces@[j].id != 12 && self.pieces@[j].spec_color()
                    == color),
    {
        let r = Bitboard::new(self.bb_color[color.ordinal() as usize]);
        proof {
            assert forall|j: int| 0 <= j < 64 implies r.has(j) == (self.pieces@[j].id != 12
                && self.pieces@[j].spec_color() == color) by {
                assert(square_agrees(*self, j));
            }
        }
        r
    }

    /// The squares of the pieces of type `pt`.
    pub fn pieces_bb_type(&self, pt: PieceType) -> (r: Bitboard)
        requires
            self.wf(),
            pt != PieceType::Empty,
        ensures
            forall|j: int| 0 <= j < 64 ==> r.has(j) == (self.pieces@[j].spec_type() == pt),
    {
        let r = Bitboard::new(self.bb[pt.ordinal() as usize]);
        proof {
            assert forall|j: int| 0 <= j < 64 implies r.has(j) == (self.pieces@[j].spec_type()
                == pt) by {
                assert(square_agrees(*self, j));
            }
        }
        r
    }

    /// The squares of the pieces of colour `color` and type `pt`.
    pub fn pieces_bb_color(&self, color: Color, pt: PieceType) -> (r: Bitboard)
        requires
            self.wf(),
            pt != PieceType::Empty,
        ensures
            forall|j: int| 0 <= j < 64 ==> r.has(j) == holds(*self, j, pt, color),
    {
        let r = Bitboard::new(self.bb_color[color.ordinal() as usize] & self.bb[pt.ordinal() as usize]);
        proof {
            assert forall|j: int| 0 <= j < 64 implies r.has(j) == holds(*self, j, pt, color) by {
                assert(square_agrees(*self, j));
                lemma_bit_and(
                    self.bb_color@[color.spec_ordinal() as int],
                    self.bb@[pt.spec_ordinal() as int],
                    j as u64,
                );
            }
        }
        r
    }

    /// The piece on `square`.
    pub fn piece_at(&self, square: Square) -> (r: Piece)
        requires
            square.on_board(),
        ensures
            r == self.pieces@[square.idx as int],
    {
        self.pieces[square.idx as usize]
    }

    pub fn castling_rights(&self) -> (r: CastlingRights)
        ensures
            r == self.castling_rights,
    {
        self.castling_rights
    }

    pub fn ep_square(&self) -> (r: Square)
        ensures
            r == self.enpassant,
    {
        self.enpassant
    }

    pub fn set_castling_rights(&mut self, rights: CastlingRights)
        ensures
            *final(self) == (Position { castling_rights: rights, ..*old(self) }),
    {
        self.castling_rights = rights;
    }

    /// Sets the en-passant square with no check of it.
    pub fn set_ep_square_unchecked(&mut self, sq: Square)
        ensures
            *final(self) == (Position { enpassant: sq, ..*old(self) }),
    {
        self.enpassant = sq;
    }

    pub fn add_castling_rights(&mut self, rights: CastlingRights)
        requires
            old(self).castling_rights.valid(),
            rights.valid(),
        ensures
            *final(self) == (Position {
                castling_rights: CastlingRights { bits: old(self).castling_rights.bits | rights.bits },
                ..*old(self)
            }),
            final(self).castling_rights.valid(),
    {
        self.castling_rights.add(rights.bits);
    }

    pub fn set_side_to_move(&mut self, side: Color)
        ensures
            *final(self) == (Position { stm: side, ..*old(self) }),
    {
        self.stm = side;
    }

    /// Sets the fullmove number from a ply count.
    pub fn set_ply(&mut self, ply: u16)
        ensures
            *final(self) == (Position { fullm: (ply / 2 + 1) as u16, ..*old(self) }),
    {
        self.fullm = ply / 2 + 1;
    }

    /// Plies played: two per full move, one more when Black is to move.
    pub fn ply(&self) -> (r: u16)
        requires
            1 <= self.fullm <= 32768,
        ensures
            r == (self.fullm - 1) * 2 + self.stm.spec_ordinal(),
    {
        (self.fullm - 1) * 2 + (self.stm.ordinal() as u16)
    }

    /// Sets the fifty-move counter; it keeps the low byte of `counter`.
    pub fn set_rule50_counter(&mut self, counter: u16)
        ensures
            *final(self) == (Position { halfm: (counter % 256) as u8, ..*old(self) }),
    {
        self.halfm = (counter % 256) as u8;
    }

    pub fn rule50_counter(&self) -> (r: u16)
        ensures
            r == self.halfm,
    {
        self.halfm as u16
    }

    /// Puts `pc` (possibly none) on `sq`, replacing what stood there.
    fn set_square(&mut self, sq: u32, pc: Piece)
        requires
            old(self).wf(),
            sq < 64,
            pc.valid(),
        ensures
            final(self).wf(),
            final(self).pieces@ == old(self).pieces@.update(sq as int, pc),
            final(self).stm == old(self).stm,
            final(self).castling_rights == old(self).castling_rights,
            final(self).halfm == old(self).halfm,
            final(self).fullm == old(self).fullm,
            final(self).enpassant == old(self).enpassant,
    {
        let t = pc.id / 2;
        let white = pc.id < 12 && pc.id % 2 == 0;
        let black = pc.id < 12 && pc.id % 2 == 1;
        self.bb[0] = with_bit(self.bb[0], sq, t == 0);
        self.bb[1] = with_bit(self.bb[1], sq, t == 1);
        self.bb[2] = with_bit(self.bb[2], sq, t == 2);
        self.bb[3] = with_bit(self.bb[3], sq, t == 3);
        self.bb[4] = with_bit(self.bb[4], sq, t == 4);
        self.bb[5] = with_bit(self.bb[5], sq, t == 5);
        self.bb_color[0] = with_bit(self.bb_color[0], sq, white);
        self.bb_color[1] = with_bit(self.bb_color[1], sq, black);
        self.pieces[sq as usize] = pc;
        proof {
            assert forall|s: int| 0 <= s < 64 implies #[trigger] square_agrees(*self, s) by {
                assert(square_agrees(*old(self), s));
            }
        }
    }

    /// Places `pc` on `sq`, replacing what stood there.
    pub fn place(&mut self, pc: Piece, sq: Square)
        requires
            old(self).wf(),
            sq.on_board(),
            pc.valid(),
        ensures
            final(self).wf(),
            *final(self) == (Position { bb: final(self).bb, bb_color: final(self).bb_color, pieces: final(self).pieces, ..*old(self) }),
            final(self).pieces@ == old(self).pieces@.update(sq.idx as int, pc),
    {
        self.set_square(sq.idx, pc);
    }

    /// Whether side `c` attacks square `sq`.
    pub fn is_attacked(&self, sq: Square, c: Color) -> (r: bool)
        requires
            self.wf(),
            sq.on_board(),
        ensures
            r == attacked(*self, sq.idx as int, c),
    {
        let occupied = self.occupied();
        let pawns = self.pieces_bb_color(c, PieceType::Pawn);
        let knights = self.pieces_bb_color(c, PieceType::Knight);
        let kings = self.pieces_bb_color(c, PieceType::King);
        let bishops = self.pieces_bb_color(c, PieceType::Bishop);
        let rooks = self.pieces_bb_color(c, PieceType::Rook);
        let queens = self.pieces_bb_color(c, PieceType::Queen);
        let pa = attacks::pawn(c.flip(), sq);
        let na = attacks::knight(sq);
        let ka = attacks::king(sq);
        let ba = attacks::bishop(sq, occupied);
        let ra = attacks::rook(sq, occupied);
        let x1 = pa.data & pawns.data;
        let x2 = na.data & knights.data;
        let x3 = ka.data & kings.data;
        let x4 = ba.data & (bishops.data | queens.data);
        let x5 = ra.data & (rooks.data | queens.data);
        let x = x1 | x2 | x3 | x4 | x5;
        proof {
            assert forall|t: int| 0 <= t < 64 implies bit(x, t) == attacker(
                *self,
                sq.idx as int,
                c,
                t,
            ) by {
                let tt = t as u64;
                assert(pa.has(t) == pawn_target(c.spec_flip(), sq.idx as int, t));
                assert(na.has(t) == knight_target(sq.idx as int, t));
                assert(ka.has(t) == king_target(sq.idx as int, t));
                assert(ba.has(t) == bishop_target(sq.idx as int, self.occ(), t));
                assert(ra.has(t) == rook_target(sq.idx as int, self.occ(), t));
                assert(pawns.has(t) == holds(*self, t, PieceType::Pawn, c));
                assert(knights.has(t) == holds(*self, t, PieceType::Knight, c));
                assert(kings.has(t) == holds(*self, t, PieceType::King, c));
                assert(bishops.has(t) == holds(*self, t, PieceType::Bishop, c));
                assert(rooks.has(t) == holds(*self, t, PieceType::Rook, c));
                assert(queens.has(t) == holds(*self, t, PieceType::Queen, c));
                lemma_bit_and(pa.data, pawns.data, tt);
                lemma_bit_and(na.data, knights.data, tt);
                lemma_bit_and(ka.data, kings.data, tt);
                lemma_bit_or(bishops.data, queens.data, tt);
                lemma_bit_or(rooks.data, queens.data, tt);
                lemma_bit_and(ba.data, bishops.data | queens.data, tt);
                lemma_bit_and(ra.data, rooks.data | queens.data, tt);
                lemma_bit_or(x1, x2, tt);
                lemma_bit_or(x1 | x2, x3, tt);
                lemma_bit_or(x1 | x2 | x3, x4, tt);
                lemma_bit_or(x1 | x2 | x3 | x4, x5, tt);
            }
            lemma_zero_iff_no_bits(x);
            if x != 0 {
                let t = choose|t: int| 0 <= t < 64 && bit(x, t);
                assert(attacker(*self, sq.idx as int, c, t));
            } else {
                assert forall|t: int| 0 <= t < 64 implies !#[trigger] attacker(
                    *self,
                    sq.idx as int,
                    c,
                    t,
                ) by {
                    assert(!bit(x, t));
                }
            }
        }
        x != 0
    }

    /// The lowest square holding a king of colour `c`, or none.
    pub fn king_sq(&self, c: Color) -> (r: Square)
        requires
            self.wf(),
        ensures
            r.valid(),
            r.idx < 64 ==> holds(*self, r.idx as int, PieceType::King, c),
            r.idx < 64 ==> forall|j: int| 0 <= j < r.idx ==> !holds(*self, j, PieceType::King, c),
            r.idx == 64 ==> forall|j: int| 0 <= j < 64 ==> !holds(*self, j, PieceType::King, c),
    {
        let k = self.pieces_bb_color(c, PieceType::King);
        proof {
            lemma_zero_iff_no_bits(k.data);
            if k.data != 0 {
                lemma_pop_lowest(k.data);
                let tz = k.data.trailing_zeros() as int;
                assert(k.has(tz));
                assert forall|j: int| 0 <= j < tz implies !holds(*self, j, PieceType::King, c) by {
                    assert(!k.has(j));
                }
            } else {
                assert forall|j: int| 0 <= j < 64 implies !holds(*self, j, PieceType::King, c) by {
                    assert(!k.has(j));
                }
            }
        }
        if k.data == 0 {
            Square::none()
        } else {
            Square::new(k.data.trailing_zeros())
        }
    }

    /// Whether side `c` has a king and it is attacked.
    pub fn is_checked(&self, c: Color) -> (r: bool)
        requires
            self.wf(),
        ensures
            r == in_check(*self, c),
    {
        let k = self.king_sq(c);
        if k.idx == 64 {
            false
        } else {
            let r = self.is_attacked(k, c.flip());
            proof {
                if !r {
                    assert forall|kk: int|
                        0 <= kk < 64 && holds(*self, kk, PieceType::King, c) && (forall|j: int|
                            0 <= j < kk ==> !holds(*self, j, PieceType::King, c)) implies !attacked(
                        *self,
                        kk,
                        c.spec_flip(),
                    ) by {
                        assert(kk == k.idx);
                    }
                }
            }
            r
        }
    }

    /// A copy of the position with move `mv` made.
    pub fn after_move(&self, mv: Move) -> (r: Position)
        requires
            self.wf(),
            mv.on_board(),
            mv.move_type == MoveType::Promotion ==> mv.promoted_piece.valid(),
        ensures
            r.wf(),
            makes(*self, mv, r),
    {
        let mut pos = *self;
        pos.do_move(mv);
        pos
    }
}

impl Position {
    /// Makes move `mv` in place. The en-passant square is kept only when an enemy pawn could take
    /// there without leaving its own king attacked.
    pub fn do_move(&mut self, mv: Move)
        requires
            old(self).wf(),
            mv.on_board(),
            mv.move_type == MoveType::Promotion ==> mv.promoted_piece.valid(),
        ensures
            final(self).wf(),
            makes(*old(self), mv, *final(self)),
    {
        let ghost old_pos = *self;
        let from = mv.from.idx;
        let to = mv.to.idx;
        let piece = self.pieces[from as usize];
        let captured = self.pieces[to as usize];
        proof {
            assert(square_agrees(old_pos, from as int));
        }
        let genuine = captured.id != 12 && mv.move_type != MoveType::Castle;
        let stm = self.stm;
        let victim = to ^ 8;
        assert(victim == ep_victim(to as int) && victim < 64) by (bit_vector)
            requires
                to < 64,
                victim == to ^ 8,
        ;
        self.set_square(from, Piece::none());
        if genuine {
            self.set_square(to, Piece::none());
        }
        match mv.move_type {
            MoveType::Promotion => {
                self.set_square(to, mv.promoted_piece);
            },
            MoveType::EnPassant => {
                self.set_square(victim, Piece::none());
                self.set_square(to, piece);
            },
            MoveType::Normal => {
                self.set_square(to, piece);
            },
            MoveType::Castle => {
                let short = to % 8 == 7;
                let (kto, rto): (u32, u32) = match stm {
                    Color::White => if short {
                        (6, 5)
                    } else {
                        (2, 3)
                    },
                    Color::Black => if short {
                        (62, 61)
                    } else {
                        (58, 59)
                    },
                };
                let rook = self.pieces[to as usize];
                proof {
                    assert(square_agrees(*self, to as int));
                }
                self.set_square(to, Piece::none());
                self.set_square(rto, rook);
                self.set_square(kto, piece);
            },
        }
        proof {
            assert(self.pieces@ =~= board_after(old_pos, mv));
        }
        let mut new_ep = Square::none();
        if piece.id / 2 == 0 && (to == from + 16 || from == to + 16) {
            let ep = Square::new(victim);
            let ep_mask = attacks::pawn(stm, ep);
            let enemy = self.pieces_bb_color(stm.flip(), PieceType::Pawn);
            let ghost orig = ep_mask.data & enemy.data;
            let ghost enemy_c = stm.spec_flip();
            let ghost vi = victim as int;
            let mut cand = ep_mask.data & enemy.data;
            let mut found = false;
            proof {
                assert forall|j: int| 0 <= j < 64 implies bit(orig, j) == (pawn_target(
                    stm,
                    victim as int,
                    j,
                ) && holds(*self, j, PieceType::Pawn, stm.spec_flip())) by {
                    lemma_bit_and(ep_mask.data, enemy.data, j as u64);
                    assert(ep_mask.has(j) == pawn_target(stm, victim as int, j));
                    assert(enemy.has(j) == holds(*self, j, PieceType::Pawn, stm.spec_flip()));
                }
            }
            while cand != 0 && !found
                invariant
                    self.wf(),
                    forall|j: int| 0 <= j < 64 && bit(cand, j) ==> bit(orig, j),
                    forall|j: int|
                        0 <= j < 64 ==> bit(orig, j) == (pawn_target(stm, victim as int, j)
                            && holds(*self, j, PieceType::Pawn, stm.spec_flip())),
                    victim < 64,
                    to < 64,
                    enemy_c == stm.spec_flip(),
                    vi == victim,
                    found ==> exists|e: int|
                        0 <= e < 64 && bit(orig, e) && safe_on(
                            ep_capture_board(self.pieces@, e, vi, to as int, enemy_c),
                            enemy_c,
                        ),
                    !found ==> forall|e: int|
                        0 <= e < 64 && bit(orig, e) && !bit(cand, e) ==> !safe_on(
                            ep_capture_board(self.pieces@, e, vi, to as int, enemy_c),
                            enemy_c,
                        ),
                decreases crate::bits::squares(cand).len(),
            {
                proof {
                    lemma_pop_lowest(cand);
                }
                let e = cand.trailing_zeros();
                let ghost cand_before = cand;
                cand = cand & (cand - 1);
                let mut sim = *self;
                sim.set_square(e, Piece::none());
                sim.set_square(victim, Piece::new(PieceType::Pawn, stm.flip()));
                sim.set_square(to, Piece::none());
                let checked = sim.is_checked(stm.flip());
                proof {
                    let bd = ep_capture_board(self.pieces@, e as int, vi, to as int, enemy_c);
                    assert(sim.pieces@ =~= bd);
                    if !checked {
                        assert(sim.wf() && sim.pieces@ == bd && !in_check(sim, enemy_c));
                        assert(safe_on(bd, enemy_c));
                    } else {
                        assert forall|q: Position| q.wf() && q.pieces@ == bd implies in_check(q, enemy_c) by {
                            lemma_in_check_board_only(sim, q, enemy_c);
                        }
                        assert(!safe_on(bd, enemy_c));
                    }
                    assert(bit(orig, e as int));
                    assert forall|j: int| 0 <= j < 64 && bit(orig, j) && !bit(cand, j) && j != e implies !bit(cand_before, j) by {}
                }
                if !checked {
                    found = true;
                }
            }
            proof {
                if !found {
                    crate::bits::lemma_zero_iff_no_bits(cand);
                }
            }
            if found {
                new_ep = ep;
            }
            proof {
                let board = self.pieces@;
                if found {
                    let e = choose|e: int|
                        0 <= e < 64 && bit(orig, e) && safe_on(
                            ep_capture_board(self.pieces@, e, vi, to as int, enemy_c),
                            enemy_c,
                        );
                    assert(pawn_target(stm, vi, e) && board[e].id == piece_id(PieceType::Pawn, enemy_c));
                } else {
                    assert forall|e: int|
                        0 <= e < 64 && pawn_target(stm, vi, e) && board[e].id == piece_id(PieceType::Pawn, enemy_c) implies !safe_on(
                        ep_capture_board(board, e, vi, to as int, enemy_c),
                        enemy_c,
                    ) by {
                        assert(bit(orig, e));
                        assert(!bit(cand, e));
                    }
                }
            }
        }
        let ghost board_pos = *self;
        if genuine || piece.id / 2 == 0 {
            self.halfm = 0;
        } else if self.halfm < 255 {
            self.halfm = self.halfm + 1;
        }
        if stm == Color::Black && self.fullm < 0xFFFF {
            self.fullm = self.fullm + 1;
        }
        self.castling_rights.remove(rights_mask(from));
        self.castling_rights.remove(rights_mask(to));
        self.enpassant = new_ep;
        self.stm = stm.flip();
        proof {
            lemma_same_board_wf(board_pos, *self);
        }
    }
}

/// Changing the game state alone keeps a position well formed.
pub proof fn lemma_same_board_wf(p: Position, q: Position)
    requires
        p.wf(),
        p.bb == q.bb,
        p.bb_color == q.bb_color,
        p.pieces == q.pieces,
        q.castling_rights.valid(),
        q.enpassant.valid(),
    ensures
        q.wf(),
{
    assert forall|s: int| 0 <= s < 64 implies #[trigger] square_agrees(q, s) by {
        assert(square_agrees(p, s));
    }
}

/// The castling flags lost when a move starts or ends on `sq`.
pub fn rights_mask(sq: u32) -> (r: u8)
    ensures
        r == rights_lost(sq as int),
{
    if sq == 4 {
        WHITE_BOTH
    } else if sq == 60 {
        BLACK_BOTH
    } else if sq == 0 {
        WHITE_QUEEN_SIDE
    } else if sq == 7 {
        WHITE_KING_SIDE
    } else if sq == 56 {
        BLACK_QUEEN_SIDE
    } else if sq == 63 {
        BLACK_KING_SIDE
    } else {
        0
    }
}

impl Position {
    /// Whether the piece array, the bitboards, the castling rights and the en-passant square
    /// agree with one another.
    pub fn is_well_formed(&self) -> (r: bool)
        ensures
            r == self.wf(),
    {
        if !(self.castling_rights.bits < 16 && self.enpassant.idx <= 64) {
            return false;
        }
        let mut sq: u32 = 0;
        while sq < 64
            invariant
                sq <= 64,
                forall|j: int| 0 <= j < sq ==> #[trigger] square_agrees(*self, j),
            decreases 64 - sq,
        {
            let id = self.pieces[sq as usize].id;
            let s = sq as u64;
            let ok = id <= 12 && ((self.bb[0] >> s) & 1 == 1) == (id / 2 == 0) && ((self.bb[1] >> s)
                & 1 == 1) == (id / 2 == 1) && ((self.bb[2] >> s) & 1 == 1) == (id / 2 == 2) && ((
            self.bb[3] >> s) & 1 == 1) == (id / 2 == 3) && ((self.bb[4] >> s) & 1 == 1) == (id / 2
                == 4) && ((self.bb[5] >> s) & 1 == 1) == (id / 2 == 5) && ((self.bb_color[0] >> s) & 1
                == 1) == (id < 12 && id % 2 == 0) && ((self.bb_color[1] >> s) & 1 == 1) == (id < 12
                && id % 2 == 1);
            proof {
                assert(ok == square_agrees(*self, sq as int));
            }
            if !ok {
                return false;
            }
            sq = sq + 1;
        }
        true
    }
}

} // verus!
