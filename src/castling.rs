use vstd::prelude::*;
use crate::coords::Color;

verus! {

pub const WHITE_KING_SIDE: u8 = 1;

pub const WHITE_QUEEN_SIDE: u8 = 2;

pub const BLACK_KING_SIDE: u8 = 4;

pub const BLACK_QUEEN_SIDE: u8 = 8;

pub const WHITE_BOTH: u8 = 3;

pub const BLACK_BOTH: u8 = 12;

/// Which way a king castles: towards the h-file or towards the a-file.
#[derive(Debug, Clone, Copy, PartialEq, Eq, Structural)]
pub enum CastleType {
    Short,
    Long,
}

/// The rights a side still has to castle, as four flags.
#[derive(Debug, Clone, Copy, PartialEq, Eq, Structural)]
pub struct CastlingRights {
    pub bits: u8,
}

/// The flag of the right of side `c` to castle in direction `ct`.
pub open spec fn right_flag(c: Color, ct: CastleType) -> u8 {
    match (c, ct) {
        (Color::White, CastleType::Short) => WHITE_KING_SIDE,
        (Color::White, CastleType::Long) => WHITE_QUEEN_SIDE,
        (Color::Black, CastleType::Short) => BLACK_KING_SIDE,
        (Color::Black, CastleType::Long) => BLACK_QUEEN_SIDE,
    }
}

impl CastlingRights {
    pub open spec fn valid(self) -> bool {
        self.bits < 16
    }

    pub open spec fn has(self, flag: u8) -> bool {
        self.bits & flag == flag
    }

    pub fn none() -> (r: CastlingRights)
        ensures
            r.bits == 0,
    {
        CastlingRights { bits: 0 }
    }

    pub fn from_bits(bits: u8) -> (r: CastlingRights)
        requires
            bits < 16,
        ensures
            r.bits == bits,
    {
        CastlingRights { bits }
    }

    /// Whether every flag of `flags` is held.
    pub fn contains(&self, flags: u8) -> (r: bool)
        ensures
            r == self.has(flags),
    {
        self.bits & flags == flags
    }

    /// Adds the flags `flags`.
    pub fn add(&mut self, flags: u8)
        requires
            flags < 16,
            old(self).valid(),
        ensures
            final(self).bits == old(self).bits | flags,
            final(self).valid(),
    {
        let b = self.bits;
        assert(b | flags < 16) by (bit_vector)
            requires
                b < 16,
                flags < 16,
        ;
        self.bits = self.bits | flags;
    }

    /// Drops the flags `flags`.
    pub fn remove(&mut self, flags: u8)
        requires
            old(self).valid(),
        ensures
            final(self).bits == old(self).bits & !flags,
            final(self).valid(),
    {
        let b = self.bits;
        assert(b & !flags < 16) by (bit_vector)
            requires
                b < 16,
        ;
        self.bits = self.bits & !flags;
    }

    /// Number of the flags of `mask` that are held.
    pub fn count_in(&self, mask: u8) -> (r: u32)
        ensures
            r == (if self.bits & mask & 1 != 0 { 1int } else { 0 }) + (if self.bits & mask & 2
                != 0 { 1int } else { 0 }) + (if self.bits & mask & 4 != 0 { 1int } else { 0 }) + (
            if self.bits & mask & 8 != 0 { 1int } else { 0 }),
    {
        let m = self.bits & mask;
        let mut n: u32 = 0;
        if m & 1 != 0 {
            n = n + 1;
        }
        if m & 2 != 0 {
            n = n + 1;
        }
        if m & 4 != 0 {
            n = n + 1;
        }
        if m & 8 != 0 {
            n = n + 1;
        }
        n
    }
}

/// The flag of the right of side `c` to castle in direction `ct`.
pub fn castling_right(c: Color, ct: CastleType) -> (r: u8)
    ensures
        r == right_flag(c, ct),
{
    match (c, ct) {
        (Color::White, CastleType::Short) => WHITE_KING_SIDE,
        (Color::White, CastleType::Long) => WHITE_QUEEN_SIDE,
        (Color::Black, CastleType::Short) => BLACK_KING_SIDE,
        (Color::Black, CastleType::Long) => BLACK_QUEEN_SIDE,
    }
}

} // verus!
