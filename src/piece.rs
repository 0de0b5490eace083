use vstd::prelude::*;
use crate::coords::Color;

verus! {

/// Kind of a chess piece; `Empty` stands for an empty square.
#[derive(Debug, Clone, Copy, PartialEq, Eq, Structural)]
pub enum PieceType {
    Pawn,
    Knight,
    Bishop,
    Rook,
    Queen,
    King,
    Empty,
}

impl PieceType {
    pub open spec fn spec_ordinal(self) -> u8 {
        match self {
            PieceType::Pawn => 0,
            PieceType::Knight => 1,
            PieceType::Bishop => 2,
            PieceType::Rook => 3,
            PieceType::Queen => 4,
            PieceType::King => 5,
            PieceType::Empty => 6,
        }
    }

    pub open spec fn spec_from_ordinal(v: u8) -> PieceType {
        if v == 0 {
            PieceType::Pawn
        } else if v == 1 {
            PieceType::Knight
        } else if v == 2 {
            PieceType::Bishop
        } else if v == 3 {
            PieceType::Rook
        } else if v == 4 {
            PieceType::Queen
        } else if v == 5 {
            PieceType::King
        } else {
            PieceType::Empty
        }
    }

    /// The piece type of ordinal `value`, which must lie in 0..=6.
    pub fn from_ordinal(value: u8) -> (r: PieceType)
        requires
            value < 7,
        ensures
            r == Self::spec_from_ordinal(value),
            r.spec_ordinal() == value,
    {
        match value {
            0 => PieceType::Pawn,
            1 => PieceType::Knight,
            2 => PieceType::Bishop,
            3 => PieceType::Rook,
            4 => PieceType::Queen,
            5 => PieceType::King,
            _ => PieceType::Empty,
        }
    }

    /// 0 for Pawn, 1 for Knight, 2 for Bishop, 3 for Rook, 4 for Queen, 5 for King, 6 for Empty.
    pub fn ordinal(&self) -> (r: u8)
        ensures
            r == self.spec_ordinal(),
            r < 7,
    {
        match self {
            PieceType::Pawn => 0,
            PieceType::Knight => 1,
            PieceType::Bishop => 2,
            PieceType::Rook => 3,
            PieceType::Queen => 4,
            PieceType::King => 5,
            PieceType::Empty => 6,
        }
    }
}

/// Id of the "no piece" value.
pub const PIECE_NONE_ID: u8 = 12;

/// A piece: its type in the high bits, its colour in the lowest bit.
#[derive(Debug, Clone, Copy, PartialEq, Eq, Structural)]
pub struct Piece {
    pub id: u8,
}

pub open spec fn piece_id(pt: PieceType, c: Color) -> u8 {
    (pt.spec_ordinal() * 2 + c.spec_ordinal()) as u8
}

impl Piece {
    pub open spec fn valid(self) -> bool {
        self.id <= 12
    }

    pub open spec fn is_none(self) -> bool {
        self.id == 12
    }

    pub open spec fn spec_type(self) -> PieceType {
        PieceType::spec_from_ordinal(self.id / 2)
    }

    pub open spec fn spec_color(self) -> Color {
        if self.id % 2 == 0 {
            Color::White
        } else {
            Color::Black
        }
    }

    /// The piece with id `id`, which must lie in 0..13.
    pub fn from_id(id: i32) -> (r: Piece)
        requires
            0 <= id < 13,
        ensures
            r.id == id,
    {
        Piece { id: id as u8 }
    }

    /// The "no piece" value.
    pub fn none() -> (r: Piece)
        ensures
            r.id == 12,
            r.is_none(),
    {
        Piece { id: PIECE_NONE_ID }
    }

    pub fn new(piece_type: PieceType, color: Color) -> (r: Piece)
        ensures
            r.id == piece_id(piece_type, color),
            r.spec_type() == piece_type,
            r.spec_color() == color,
    {
        Piece { id: piece_type.ordinal() * 2 + color.ordinal() }
    }

    pub fn piece_type(&self) -> (r: PieceType)
        requires
            self.id < 14,
        ensures
            r == self.spec_type(),
    {
        PieceType::from_ordinal(self.id / 2)
    }

    pub fn color(&self) -> (r: Color)
        ensures
            r == self.spec_color(),
    {
        Color::from_ordinal(self.id % 2)
    }

    pub fn parts(&self) -> (r: (PieceType, Color))
        requires
            self.id < 14,
        ensures
            r.0 == self.spec_type(),
            r.1 == self.spec_color(),
    {
        (self.piece_type(), self.color())
    }

    pub fn as_int(&self) -> (r: usize)
        ensures
            r == self.id,
    {
        self.id as usize
    }

    pub fn is_none_piece(&self) -> (r: bool)
        ensures
            r == self.is_none(),
    {
        self.id == PIECE_NONE_ID
    }
}

} // verus!
