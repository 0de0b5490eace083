use vstd::prelude::*;
use crate::castling::CastleType;
use crate::coords::{file_of, rank_of, square_name, Color, Square};
use crate::piece::{Piece, PieceType};
use crate::text::push_char;

verus! {

/// What a move does besides moving a piece.
#[derive(Debug, Clone, Copy, PartialEq, Eq, Structural)]
pub enum MoveType {
    Normal,
    Promotion,
    Castle,
    EnPassant,
}

impl MoveType {
    pub open spec fn spec_ordinal(self) -> u8 {
        match self {
            MoveType::Normal => 0,
            MoveType::Promotion => 1,
            MoveType::Castle => 2,
            MoveType::EnPassant => 3,
        }
    }

    pub open spec fn spec_from_ordinal(v: u8) -> MoveType {
        if v == 0 {
            MoveType::Normal
        } else if v == 1 {
            MoveType::Promotion
        } else if v == 2 {
            MoveType::Castle
        } else {
            MoveType::EnPassant
        }
    }

    /// The move type of ordinal `ordinal`, which must lie in 0..4.
    pub fn from_ordinal(ordinal: u8) -> (r: MoveType)
        requires
            ordinal < 4,
        ensures
            r == Self::spec_from_ordinal(ordinal),
            r.spec_ordinal() == ordinal,
    {
        match ordinal {
            0 => MoveType::Normal,
            1 => MoveType::Promotion,
            2 => MoveType::Castle,
            _ => MoveType::EnPassant,
        }
    }

    pub fn ordinal(&self) -> (r: u8)
        ensures
            r == self.spec_ordinal(),
            r < 4,
    {
        match self {
            MoveType::Normal => 0,
            MoveType::Promotion => 1,
            MoveType::Castle => 2,
            MoveType::EnPassant => 3,
        }
    }
}

/// A move. A castling move goes from the king's square to its own rook's square.
#[derive(Debug, Clone, Copy, PartialEq, Eq, Structural)]
pub struct Move {
    pub from: Square,
    pub to: Square,
    pub move_type: MoveType,
    pub promoted_piece: Piece,
}

/// The letter UCI gives a promotion piece type.
pub open spec fn promo_char(pt: PieceType) -> char {
    match pt {
        PieceType::Queen => 'q',
        PieceType::Rook => 'r',
        PieceType::Bishop => 'b',
        _ => 'n',
    }
}

/// A piece type a pawn may promote to.
pub open spec fn is_promo_type(pt: PieceType) -> bool {
    pt == PieceType::Knight || pt == PieceType::Bishop || pt == PieceType::Rook || pt
        == PieceType::Queen
}

/// The UCI text of a move: both squares, then the promotion letter if any.
pub open spec fn uci_text(m: Move) -> Seq<char> {
    let base = square_name(m.from.idx as int) + square_name(m.to.idx as int);
    if m.move_type == MoveType::Promotion {
        base.push(promo_char(m.promoted_piece.spec_type()))
    } else {
        base
    }
}

impl Move {
    pub open spec fn on_board(self) -> bool {
        self.from.on_board() && self.to.on_board()
    }

    pub fn new(from: Square, to: Square, move_type: MoveType, promoted_piece: Piece) -> (r: Move)
        ensures
            r == (Move { from, to, move_type, promoted_piece }),
    {
        Move { from, to, move_type, promoted_piece }
    }

    /// The null move, with no squares.
    pub fn null() -> (r: Move)
        ensures
            r.from.idx == 64,
            r.to.idx == 64,
            r.move_type == MoveType::Normal,
            r.promoted_piece.id == 12,
    {
        Move {
            from: Square::none(),
            to: Square::none(),
            move_type: MoveType::Normal,
            promoted_piece: Piece::none(),
        }
    }

    pub fn mtype(&self) -> (r: MoveType)
        ensures
            r == self.move_type,
    {
        self.move_type
    }

    pub fn promoted_piece(&self) -> (r: Piece)
        ensures
            r == self.promoted_piece,
    {
        self.promoted_piece
    }

    pub fn from(&self) -> (r: Square)
        ensures
            r == self.from,
    {
        self.from
    }

    pub fn to(&self) -> (r: Square)
        ensures
            r == self.to,
    {
        self.to
    }

    pub fn normal(from: Square, to: Square) -> (r: Move)
        ensures
            r == (Move { from, to, move_type: MoveType::Normal, promoted_piece: Piece { id: 12 } }),
    {
        Move { from, to, move_type: MoveType::Normal, promoted_piece: Piece::none() }
    }

    pub fn en_passant(from: Square, to: Square) -> (r: Move)
        ensures
            r == (Move {
                from,
                to,
                move_type: MoveType::EnPassant,
                promoted_piece: Piece { id: 12 },
            }),
    {
        Move { from, to, move_type: MoveType::EnPassant, promoted_piece: Piece::none() }
    }

    pub fn promotion(from: Square, to: Square, piece: Piece) -> (r: Move)
        ensures
            r == (Move { from, to, move_type: MoveType::Promotion, promoted_piece: piece }),
    {
        Move { from, to, move_type: MoveType::Promotion, promoted_piece: piece }
    }

    pub fn castle(from: Square, to: Square) -> (r: Move)
        ensures
            r == (Move { from, to, move_type: MoveType::Castle, promoted_piece: Piece { id: 12 } }),
    {
        Move { from, to, move_type: MoveType::Castle, promoted_piece: Piece::none() }
    }

    /// The castling move of side `stm` in direction `ct`, king to rook.
    pub fn from_castle(ct: CastleType, stm: Color) -> (r: Move)
        ensures
            r.move_type == MoveType::Castle,
            r.promoted_piece.id == 12,
            r.from.idx == (if stm == Color::White { 4u32 } else { 60u32 }),
            r.to.idx == (match (ct, stm) {
                (CastleType::Short, Color::White) => 7u32,
                (CastleType::Long, Color::White) => 0u32,
                (CastleType::Short, Color::Black) => 63u32,
                (CastleType::Long, Color::Black) => 56u32,
            }),
    {
        match ct {
            CastleType::Short => {
                if stm == Color::White {
                    Self::castle(Square::new(4), Square::new(7))
                } else {
                    Self::castle(Square::new(60), Square::new(63))
                }
            },
            CastleType::Long => {
                if stm == Color::White {
                    Self::castle(Square::new(4), Square::new(0))
                } else {
                    Self::castle(Square::new(60), Square::new(56))
                }
            },
        }
    }

    /// Short when the rook stands on the h-file, else long.
    pub fn castle_type(&self) -> (r: CastleType)
        requires
            self.to.on_board(),
        ensures
            r == (if file_of(self.to.idx as int) == 7 {
                CastleType::Short
            } else {
                CastleType::Long
            }),
    {
        if self.to.file().v == 7 {
            CastleType::Short
        } else {
            CastleType::Long
        }
    }

    /// The move in UCI notation; a castling move reads king square then rook square.
    pub fn as_uci(&self) -> (r: String)
        requires
            self.on_board(),
            self.move_type == MoveType::Promotion ==> self.promoted_piece.valid() && is_promo_type(
                self.promoted_piece.spec_type(),
            ),
        ensures
            r@ == uci_text(*self),
    {
        let mut s = String::new();
        push_square(&mut s, self.from);
        push_square(&mut s, self.to);
        if self.move_type == MoveType::Promotion {
            let c = match self.promoted_piece.piece_type() {
                PieceType::Queen => 'q',
                PieceType::Rook => 'r',
                PieceType::Bishop => 'b',
                _ => 'n',
            };
            push_char(&mut s, c);
        }
        proof {
            assert(s@ =~= uci_text(*self));
        }
        s
    }
}

/// Appends the name of square `sq`.
pub fn push_square(s: &mut String, sq: Square)
    requires
        sq.on_board(),
    ensures
        final(s)@ == old(s)@ + square_name(sq.idx as int),
{
    push_char(s, (('a' as u8) + ((sq.idx % 8) as u8)) as char);
    push_char(s, (('1' as u8) + ((sq.idx / 8) as u8)) as char);
    assert(s@ =~= old(s)@ + square_name(sq.idx as int));
}

/// A move packed into 16 bits: type, origin, destination, promotion piece.
#[derive(Debug, Clone, Copy, PartialEq, Eq, Structural)]
pub struct CompressedMove {
    pub packed: u16,
}

/// The 16-bit word of move `m`; 0 for a move without an origin.
pub open spec fn move_word(m: Move) -> int {
    if m.from.idx == 64 {
        0
    } else {
        m.move_type.spec_ordinal() * 0x4000 + m.from.idx * 0x100 + m.to.idx * 4 + (if m.move_type
            == MoveType::Promotion {
            m.promoted_piece.spec_type().spec_ordinal() - 1
        } else {
            0
        })
    }
}

/// A move that the 16-bit word carries without loss.
pub open spec fn packable(m: Move) -> bool {
    &&& m.from.on_board()
    &&& m.to.on_board()
    &&& !(m.move_type == MoveType::Normal && m.from.idx == 0 && m.to.idx == 0)
    &&& if m.move_type == MoveType::Promotion {
        is_promo_type(m.promoted_piece.spec_type()) && m.promoted_piece.valid()
            && m.promoted_piece.spec_color() == (if rank_of(m.to.idx as int) == 0 {
            Color::Black
        } else {
            Color::White
        })
    } else {
        m.promoted_piece.id == 12
    }
}

/// The move a 16-bit word stands for; the colour of a promotion follows its destination rank.
pub open spec fn word_move(w: u16) -> Move {
    if w == 0 {
        Move {
            from: Square { idx: 64 },
            to: Square { idx: 64 },
            move_type: MoveType::Normal,
            promoted_piece: Piece { id: 12 },
        }
    } else {
        let mt = MoveType::spec_from_ordinal((w / 0x4000) as u8);
        let to = ((w / 4) % 64) as u32;
        Move {
            from: Square { idx: ((w / 0x100) % 64) as u32 },
            to: Square { idx: to },
            move_type: mt,
            promoted_piece: if mt == MoveType::Promotion {
                Piece {
                    id: (((w % 4) + 1) * 2 + (if to / 8 == 0 { 1int } else { 0 })) as u8,
                }
            } else {
                Piece { id: 12 }
            },
        }
    }
}

impl CompressedMove {
    pub fn byte_size() -> (r: usize)
        ensures
            r == 2,
    {
        2
    }

    /// Packs move `m`.
    pub fn from_move(m: Move) -> (r: CompressedMove)
        requires
            m.from.valid(),
            m.from.on_board() ==> m.to.on_board(),
            m.from.on_board() && m.move_type == MoveType::Promotion ==> is_promo_type(
                m.promoted_piece.spec_type(),
            ) && m.promoted_piece.valid(),
        ensures
            r.packed == move_word(m),
    {
        if m.from.idx == 64 {
            return CompressedMove { packed: 0 };
        }
        let mut w: u16 = (m.move_type.ordinal() as u16) * 0x4000 + (m.from.idx as u16) * 0x100
            + (m.to.idx as u16) * 4;
        if m.move_type == MoveType::Promotion {
            w = w + (m.promoted_piece.piece_type().ordinal() as u16) - 1;
        }
        CompressedMove { packed: w }
    }

    /// Reads the big-endian word at the start of `data`.
    pub fn read_from_big_endian(data: &[u8]) -> (r: CompressedMove)
        requires
            data@.len() >= 2,
        ensures
            r.packed == data@[0] * 256 + data@[1],
    {
        CompressedMove { packed: (data[0] as u16) * 256 + (data[1] as u16) }
    }

    /// The two big-endian bytes of the word.
    pub fn to_big_endian(&self) -> (r: [u8; 2])
        ensures
            r@[0] == self.packed / 256,
            r@[1] == self.packed % 256,
    {
        [(self.packed / 256) as u8, (self.packed % 256) as u8]
    }

    /// The move the word stands for.
    pub fn decompress(&self) -> (r: Move)
        ensures
            r == word_move(self.packed),
    {
        if self.packed == 0 {
            return Move::null();
        }
        let w = self.packed;
        let mt = MoveType::from_ordinal((w / 0x4000) as u8);
        let from = Square::new(((w / 0x100) % 64) as u32);
        let to = Square::new(((w / 4) % 64) as u32);
        let promoted = if mt == MoveType::Promotion {
            let color = if to.idx / 8 == 0 {
                Color::Black
            } else {
                Color::White
            };
            Piece::new(PieceType::from_ordinal(((w % 4) + 1) as u8), color)
        } else {
            Piece::none()
        };
        Move { from, to, move_type: mt, promoted_piece: promoted }
    }
}

impl Move {
    /// The 16-bit packed form of the move.
    pub fn compress(&self) -> (r: CompressedMove)
        requires
            self.from.valid(),
            self.from.on_board() ==> self.to.on_board(),
            self.from.on_board() && self.move_type == MoveType::Promotion ==> is_promo_type(
                self.promoted_piece.spec_type(),
            ) && self.promoted_piece.valid(),
        ensures
            r.packed == move_word(*self),
    {
        CompressedMove::from_move(*self)
    }
}

/// Unpacking a packed move gives the move back.
pub proof fn lemma_move_round_trip(m: Move)
    requires
        packable(m),
    ensures
        0 < move_word(m) < 0x10000,
        word_move(move_word(m) as u16) == m,
{
    let w = move_word(m);
    let t = m.move_type.spec_ordinal() as int;
    let f = m.from.idx as int;
    let d = m.to.idx as int;
    let p = if m.move_type == MoveType::Promotion {
        m.promoted_piece.spec_type().spec_ordinal() - 1
    } else {
        0
    };
    assert(0 <= p < 4);
    assert(w == t * 0x4000 + f * 0x100 + d * 4 + p);
    assert(w / 0x4000 == t) by (nonlinear_arith)
        requires
            w == t * 0x4000 + f * 0x100 + d * 4 + p,
            0 <= t < 4,
            0 <= f < 64,
            0 <= d < 64,
            0 <= p < 4,
    ;
    assert((w / 0x100) % 64 == f) by (nonlinear_arith)
        requires
            w == t * 0x4000 + f * 0x100 + d * 4 + p,
            0 <= t < 4,
            0 <= f < 64,
            0 <= d < 64,
            0 <= p < 4,
    ;
    assert((w / 4) % 64 == d) by (nonlinear_arith)
        requires
            w == t * 0x4000 + f * 0x100 + d * 4 + p,
            0 <= t < 4,
            0 <= f < 64,
            0 <= d < 64,
            0 <= p < 4,
    ;
    assert(w % 4 == p) by (nonlinear_arith)
        requires
            w == t * 0x4000 + f * 0x100 + d * 4 + p,
            0 <= t < 4,
            0 <= f < 64,
            0 <= d < 64,
            0 <= p < 4,
    ;
    let r = word_move(w as u16);
    assert(r.from == m.from);
    assert(r.to == m.to);
    assert(r.move_type == m.move_type);
    if m.move_type == MoveType::Promotion {
        assert(r.promoted_piece.id == m.promoted_piece.id);
    }
}

} // verus!
