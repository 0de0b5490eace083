use vstd::prelude::*;

verus! {

/// Side of the board: White moves first.
#[derive(Debug, Clone, Copy, PartialEq, Eq, Structural)]
pub enum Color {
    White,
    Black,
}

impl Color {
    pub open spec fn spec_ordinal(self) -> u8 {
        match self {
            Color::White => 0,
            Color::Black => 1,
        }
    }

    pub open spec fn spec_flip(self) -> Color {
        match self {
            Color::White => Color::Black,
            Color::Black => Color::White,
        }
    }

    /// 0 for White, 1 for Black.
    pub fn ordinal(&self) -> (r: u8)
        ensures
            r == self.spec_ordinal(),
    {
        match self {
            Color::White => 0,
            Color::Black => 1,
        }
    }

    /// The colour of ordinal `v`: 0 is White, anything else Black.
    pub fn from_ordinal(v: u8) -> (r: Color)
        ensures
            r == (if v == 0 { Color::White } else { Color::Black }),
    {
        if v == 0 {
            Color::White
        } else {
            Color::Black
        }
    }

    /// The other side.
    pub fn flip(&self) -> (r: Color)
        ensures
            r == self.spec_flip(),
    {
        match self {
            Color::White => Color::Black,
            Color::Black => Color::White,
        }
    }
}

/// Index of the "no square" value.
pub const SQUARE_NONE: u32 = 64;

/// A square of the board, `rank * 8 + file`, or 64 for none.
#[derive(Debug, Clone, Copy, PartialEq, Eq, Structural)]
pub struct Square {
    pub idx: u32,
}

pub open spec fn file_of(s: int) -> int {
    s % 8
}

pub open spec fn rank_of(s: int) -> int {
    s / 8
}

impl Square {
    pub open spec fn valid(self) -> bool {
        self.idx <= 64
    }

    pub open spec fn on_board(self) -> bool {
        self.idx < 64
    }

    pub fn new(idx: u32) -> (r: Square)
        requires
            idx <= 64,
        ensures
            r.idx == idx,
    {
        Square { idx }
    }

    pub fn from_u32(idx: u32) -> (r: Square)
        requires
            idx <= 64,
        ensures
            r.idx == idx,
    {
        Square { idx }
    }

    /// The "no square" value.
    pub fn none() -> (r: Square)
        ensures
            r.idx == 64,
    {
        Square { idx: SQUARE_NONE }
    }

    /// The square on file `file` and rank `rank`.
    pub fn from_file_rank(file: u32, rank: u32) -> (r: Square)
        requires
            file < 8,
            rank < 8,
        ensures
            r.idx == rank * 8 + file,
            r.on_board(),
    {
        Square { idx: rank * 8 + file }
    }

    pub fn index(&self) -> (r: u32)
        ensures
            r == self.idx,
    {
        self.idx
    }

    pub fn to_u32(&self) -> (r: u32)
        ensures
            r == self.idx,
    {
        self.idx
    }

    pub fn is_none(&self) -> (r: bool)
        ensures
            r == (self.idx == 64),
    {
        self.idx == SQUARE_NONE
    }

    /// File of the square, 0 for the a-file.
    pub fn file(&self) -> (r: File)
        requires
            self.on_board(),
        ensures
            r.v == file_of(self.idx as int),
            r.v < 8,
    {
        File { v: self.idx % 8 }
    }

    /// Rank of the square, 0 for the first rank.
    pub fn rank(&self) -> (r: Rank)
        requires
            self.on_board(),
        ensures
            r.v == rank_of(self.idx as int),
            r.v < 8,
    {
        Rank { v: self.idx / 8 }
    }
}

/// A file, 0 (a) to 7 (h).
#[derive(Debug, Clone, Copy, PartialEq, Eq, Structural)]
pub struct File {
    pub v: u32,
}

impl File {
    pub fn new(v: u32) -> (r: File)
        requires
            v < 8,
        ensures
            r.v == v,
    {
        File { v }
    }
}

/// A rank, 0 (first) to 7 (eighth).
#[derive(Debug, Clone, Copy, PartialEq, Eq, Structural)]
pub struct Rank {
    pub v: u32,
}

impl Rank {
    pub fn new(v: u32) -> (r: Rank)
        requires
            v < 8,
        ensures
            r.v == v,
    {
        Rank { v }
    }

    /// The rank from which a pawn of colour `c` promotes on its next step.
    pub fn last_pawn_rank(c: Color) -> (r: Rank)
        ensures
            r.v == (if c == Color::White { 6u32 } else { 1u32 }),
    {
        match c {
            Color::White => Rank { v: 6 },
            Color::Black => Rank { v: 1 },
        }
    }
}

/// The two characters that name square `s` (`e3`).
pub open spec fn square_name(s: int) -> Seq<char> {
    seq![(('a' as u8) + file_of(s)) as char, (('1' as u8) + rank_of(s)) as char]
}

} // verus!
